//! The byte layout of a collection database, as mathematics.
//!
//! Every executable reader and writer in this crate is specified against the
//! functions of this module: the `*_bytes` functions say which bytes a value is
//! written as, the `parse_*` functions say what is read from a buffer at a
//! position.
//!
//! ```text
//! version:      int32
//! entryCount:   int32
//! entries[entryCount]:
//!   name:         string
//!   mapCount:     int32
//!   hashes[mapCount]: string
//! ```
//!
//! Integers are little-endian.  A string is one presence byte, `0x00` for the
//! empty string; after any other presence byte follow the length as an unsigned
//! LEB128 number and then one byte per character.

use crate::error::DecodeError;
use vstd::prelude::*;

verus! {

/// The outcome of reading one field: the value and the position just past it,
/// or the reason why nothing could be read.
pub type Parsed<T> = Result<(T, int), DecodeError>;

/// The presence byte the writer puts in front of a string that is not empty.
pub const STRING_PRESENT: u8 = 0x0b;

/// The most groups an unsigned LEB128 number may have to be read as 32 bits.
pub const ULEB128_MAX_GROUPS: u8 = 5;

/// A collection as plain mathematical data.
pub struct CollectionView {
    pub name: Seq<char>,
    pub map_count: i32,
    pub map_hashes: Seq<Seq<char>>,
}

/// A whole document as plain mathematical data.
pub struct DocumentView {
    pub version: i32,
    pub entries: Seq<CollectionView>,
}

// ---------------------------------------------------------------------------
// 32-bit integers
// ---------------------------------------------------------------------------

/// The two's-complement bit pattern of `v`, read as a number in `0 .. 2^32`.
pub open spec fn i32_pattern(v: i32) -> int {
    if v < 0 {
        v + 0x1_0000_0000
    } else {
        v as int
    }
}

/// The signed value whose two's-complement pattern is the low 32 bits of `n`.
pub open spec fn i32_of_pattern(n: int) -> i32 {
    let low = n % 0x1_0000_0000;
    if low >= 0x8000_0000 {
        (low - 0x1_0000_0000) as i32
    } else {
        low as i32
    }
}

/// The four bytes of `v`, least significant first.
pub open spec fn i32_bytes(v: i32) -> Seq<u8> {
    let n = i32_pattern(v);
    seq![
        (n % 0x100) as u8,
        (n / 0x100 % 0x100) as u8,
        (n / 0x1_0000 % 0x100) as u8,
        (n / 0x100_0000 % 0x100) as u8,
    ]
}

/// The signed value of four bytes, least significant first.
pub open spec fn i32_from_bytes(b0: u8, b1: u8, b2: u8, b3: u8) -> i32 {
    i32_of_pattern(b0 + 0x100 * b1 + 0x1_0000 * b2 + 0x100_0000 * b3)
}

// ---------------------------------------------------------------------------
// Unsigned LEB128
// ---------------------------------------------------------------------------

/// The unsigned LEB128 groups of `n`: seven bits per byte, least significant
/// group first, the high bit set on every byte but the last.
pub open spec fn uleb128_bytes(n: nat) -> Seq<u8>
    decreases n,
{
    if n < 0x80 {
        seq![n as u8]
    } else {
        seq![(n % 0x80 + 0x80) as u8] + uleb128_bytes(n / 0x80)
    }
}

/// The weight of group number `k` of an unsigned LEB128 number: `128^k`.
pub open spec fn group_weight(k: nat) -> nat
    decreases k,
{
    if k == 0 {
        1
    } else {
        0x80 * group_weight((k - 1) as nat)
    }
}

// ---------------------------------------------------------------------------
// Strings
// ---------------------------------------------------------------------------

/// The byte a character is written as: its lowest eight bits.
pub open spec fn char_byte(c: char) -> u8 {
    (c as int % 0x100) as u8
}

/// The character a byte is read as: the one with that code point.
pub open spec fn byte_char(b: u8) -> char {
    b as char
}

/// Whether every character of `s` fits in one byte, so that it is read back
/// as it was written.
pub open spec fn single_byte_text(s: Seq<char>) -> bool {
    forall|i: int| 0 <= i < s.len() ==> (#[trigger] s[i]) as int <= 0xff
}

/// The bytes of a string field: the lone byte `0x00` for the empty string,
/// else the presence byte, the length and one byte per character.
pub open spec fn string_bytes(s: Seq<char>) -> Seq<u8> {
    if s.len() == 0 {
        seq![0u8]
    } else {
        seq![STRING_PRESENT] + uleb128_bytes(s.len()) + s.map_values(|c: char| char_byte(c))
    }
}

/// The bytes of several string fields, one after the other.
pub open spec fn strings_bytes(strings: Seq<Seq<char>>) -> Seq<u8>
    decreases strings.len(),
{
    if strings.len() == 0 {
        Seq::empty()
    } else {
        string_bytes(strings[0]) + strings_bytes(strings.drop_first())
    }
}

// ---------------------------------------------------------------------------
// Collections and documents
// ---------------------------------------------------------------------------

/// The bytes of one collection: its name, its stored count, its hashes.
pub open spec fn collection_bytes(c: CollectionView) -> Seq<u8> {
    string_bytes(c.name) + i32_bytes(c.map_count) + strings_bytes(c.map_hashes)
}

/// The bytes of several collections, one after the other.
pub open spec fn collections_bytes(entries: Seq<CollectionView>) -> Seq<u8>
    decreases entries.len(),
{
    if entries.len() == 0 {
        Seq::empty()
    } else {
        collection_bytes(entries[0]) + collections_bytes(entries.drop_first())
    }
}

/// The bytes of a document: version, number of entries, the entries.
pub open spec fn document_bytes(d: DocumentView) -> Seq<u8>
    recommends
        d.entries.len() <= i32::MAX,
{
    i32_bytes(d.version) + i32_bytes(d.entries.len() as i32) + collections_bytes(d.entries)
}

// ---------------------------------------------------------------------------
// What can be written, and what is read back unchanged
// ---------------------------------------------------------------------------

/// Whether a string is short enough for its length to be written.
pub open spec fn text_fits(s: Seq<char>) -> bool {
    s.len() <= i32::MAX
}

/// Whether each of the strings is short enough for its length to be written.
pub open spec fn texts_fit(strings: Seq<Seq<char>>) -> bool {
    forall|i: int| 0 <= i < strings.len() ==> text_fits(#[trigger] strings[i])
}

/// Whether every string of the collection is short enough to be written.
pub open spec fn collection_fits(c: CollectionView) -> bool {
    text_fits(c.name) && texts_fit(c.map_hashes)
}

/// Whether the document can be written: the number of entries fits the
/// 32-bit count field, and so does the length of every string.
pub open spec fn document_fits(d: DocumentView) -> bool {
    &&& d.entries.len() <= i32::MAX
    &&& forall|i: int| 0 <= i < d.entries.len() ==> collection_fits(#[trigger] d.entries[i])
}

/// Whether a string is read back as it was written: it can be written, and
/// each of its characters is written as a byte that stands for it alone.
pub open spec fn lossless_text(s: Seq<char>) -> bool {
    text_fits(s) && single_byte_text(s)
}

/// Whether each of the strings is read back as it was written.
pub open spec fn lossless_texts(strings: Seq<Seq<char>>) -> bool {
    forall|i: int| 0 <= i < strings.len() ==> lossless_text(#[trigger] strings[i])
}

/// Whether a collection is read back as it was written: its strings are, and
/// its stored count announces exactly its hashes.
pub open spec fn lossless_collection(c: CollectionView) -> bool {
    &&& lossless_text(c.name)
    &&& lossless_texts(c.map_hashes)
    &&& announced(c.map_count) == c.map_hashes.len()
}

/// Whether each of the collections is read back as it was written.
pub open spec fn lossless_collections(entries: Seq<CollectionView>) -> bool {
    forall|i: int| 0 <= i < entries.len() ==> lossless_collection(#[trigger] entries[i])
}

/// Whether a document is read back as it was written.
pub open spec fn lossless_document(d: DocumentView) -> bool {
    d.entries.len() <= i32::MAX && lossless_collections(d.entries)
}

/// Whether the bytes `piece` stand in `s` from position `pos` on.
pub open spec fn holds_at(s: Seq<u8>, pos: int, piece: Seq<u8>) -> bool {
    &&& 0 <= pos
    &&& pos + piece.len() <= s.len()
    &&& forall|i: int| 0 <= i < piece.len() ==> s[pos + i] == #[trigger] piece[i]
}

// ---------------------------------------------------------------------------
// Reading
// ---------------------------------------------------------------------------

/// One byte at `pos`.
pub open spec fn parse_u8(s: Seq<u8>, pos: int) -> Parsed<u8> {
    if 0 <= pos < s.len() {
        Ok((s[pos], pos + 1))
    } else {
        Err(DecodeError::OutOfBounds)
    }
}

/// Four bytes at `pos`, as a little-endian signed integer.
pub open spec fn parse_i32(s: Seq<u8>, pos: int) -> Parsed<i32> {
    if 0 <= pos && pos + 4 <= s.len() {
        Ok((i32_from_bytes(s[pos], s[pos + 1], s[pos + 2], s[pos + 3]), pos + 4))
    } else {
        Err(DecodeError::OutOfBounds)
    }
}

/// The number made of the LEB128 groups that start at `pos`, of which there
/// may be `limit` at most.  A buffer that ends before the last group is out of
/// bounds; a group beyond the limit is a format error.
pub open spec fn parse_uleb128_groups(s: Seq<u8>, pos: int, limit: nat) -> Parsed<nat>
    decreases limit,
{
    if !(0 <= pos < s.len()) {
        Err(DecodeError::OutOfBounds)
    } else if limit == 0 {
        Err(DecodeError::FormatError)
    } else if s[pos] < 0x80 {
        Ok((s[pos] as nat, pos + 1))
    } else {
        match parse_uleb128_groups(s, pos + 1, (limit - 1) as nat) {
            Ok((high, end)) => Ok(((s[pos] - 0x80 + 0x80 * high) as nat, end)),
            Err(e) => Err(e),
        }
    }
}

/// An unsigned LEB128 number at `pos`, of five groups at most, kept as the
/// low 32 bits of its value.
pub open spec fn parse_uleb128(s: Seq<u8>, pos: int) -> Parsed<i32> {
    match parse_uleb128_groups(s, pos, ULEB128_MAX_GROUPS as nat) {
        Ok((n, end)) => Ok((i32_of_pattern(n as int), end)),
        Err(e) => Err(e),
    }
}

/// The `len` bytes from `pos` on, each as one character.
pub open spec fn text_at(s: Seq<u8>, pos: int, len: nat) -> Seq<char> {
    Seq::new(len, |i: int| byte_char(s[pos + i]))
}

/// A string field at `pos`.  A zero presence byte is the empty string and
/// ends the field; after any other presence byte the length is read, and a
/// length that is negative or runs past the buffer is out of bounds.
pub open spec fn parse_string(s: Seq<u8>, pos: int) -> Parsed<Seq<char>> {
    match parse_u8(s, pos) {
        Err(e) => Err(e),
        Ok((presence, after_presence)) => if presence == 0 {
            Ok((Seq::empty(), after_presence))
        } else {
            match parse_uleb128(s, after_presence) {
                Err(e) => Err(e),
                Ok((len, start)) => if 0 <= len && start + len <= s.len() {
                    Ok((text_at(s, start, len as nat), start + len))
                } else {
                    Err(DecodeError::OutOfBounds)
                },
            }
        },
    }
}

/// `count` string fields in a row, from `pos` on.
pub open spec fn parse_strings(s: Seq<u8>, pos: int, count: nat) -> Parsed<Seq<Seq<char>>>
    decreases count,
{
    if count == 0 {
        Ok((Seq::empty(), pos))
    } else {
        match parse_string(s, pos) {
            Err(e) => Err(e),
            Ok((first, next)) => match parse_strings(s, next, (count - 1) as nat) {
                Err(e) => Err(e),
                Ok((rest, end)) => Ok((seq![first] + rest, end)),
            },
        }
    }
}

/// How many items a stored count announces: none when it is negative.
pub open spec fn announced(count: i32) -> nat {
    if count < 0 {
        0
    } else {
        count as nat
    }
}

/// One collection at `pos`: name, stored count, and as many hashes as the
/// count announces.
pub open spec fn parse_collection(s: Seq<u8>, pos: int) -> Parsed<CollectionView> {
    match parse_string(s, pos) {
        Err(e) => Err(e),
        Ok((name, after_name)) => match parse_i32(s, after_name) {
            Err(e) => Err(e),
            Ok((map_count, after_count)) => match parse_strings(
                s,
                after_count,
                announced(map_count),
            ) {
                Err(e) => Err(e),
                Ok((map_hashes, end)) => Ok((CollectionView { name, map_count, map_hashes }, end)),
            },
        },
    }
}

/// `count` collections in a row, from `pos` on.
pub open spec fn parse_collections(s: Seq<u8>, pos: int, count: nat) -> Parsed<
    Seq<CollectionView>,
>
    decreases count,
{
    if count == 0 {
        Ok((Seq::empty(), pos))
    } else {
        match parse_collection(s, pos) {
            Err(e) => Err(e),
            Ok((first, next)) => match parse_collections(s, next, (count - 1) as nat) {
                Err(e) => Err(e),
                Ok((rest, end)) => Ok((seq![first] + rest, end)),
            },
        }
    }
}

/// A document at the start of `s`: version, entry count, and as many
/// collections as the count announces.  Bytes after the last entry are not
/// looked at.
pub open spec fn parse_document(s: Seq<u8>) -> Parsed<DocumentView> {
    match parse_i32(s, 0) {
        Err(e) => Err(e),
        Ok((version, after_version)) => match parse_i32(s, after_version) {
            Err(e) => Err(e),
            Ok((count, after_count)) => match parse_collections(
                s,
                after_count,
                announced(count),
            ) {
                Err(e) => Err(e),
                Ok((entries, end)) => Ok((DocumentView { version, entries }, end)),
            },
        },
    }
}

} // verus!
