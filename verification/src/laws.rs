//! What holds of the format as a whole: whatever is written is read back,
//! whatever was read can be written again, and a cut-off buffer is refused.

use crate::error::DecodeError;
use crate::wire::{
    announced, byte_char, char_byte, collection_bytes, collection_fits, collections_bytes,
    document_bytes, document_fits, text_fits,
    group_weight, holds_at, i32_bytes, i32_pattern, lossless_collection, lossless_collections,
    lossless_document, lossless_text, lossless_texts, parse_collection, parse_collections,
    parse_document, parse_i32, parse_string, parse_strings, parse_u8, parse_uleb128,
    parse_uleb128_groups, string_bytes, strings_bytes, text_at, uleb128_bytes, CollectionView,
    DocumentView, Parsed, STRING_PRESENT, ULEB128_MAX_GROUPS,
};
use vstd::prelude::*;

verus! {

// ---------------------------------------------------------------------------
// Pieces of a buffer
// ---------------------------------------------------------------------------

/// Where two pieces stand one after the other, each of them stands.
pub proof fn lemma_holds_at_split(s: Seq<u8>, pos: int, first: Seq<u8>, second: Seq<u8>)
    requires
        holds_at(s, pos, first + second),
    ensures
        holds_at(s, pos, first),
        holds_at(s, pos + first.len(), second),
{
    let whole = first + second;
    assert forall|i: int| 0 <= i < first.len() implies s[pos + i] == #[trigger] first[i] by {
        assert(whole[i] == first[i]);
    }
    assert forall|i: int| 0 <= i < second.len() implies s[pos + first.len() + i]
        == #[trigger] second[i] by {
        assert(whole[first.len() + i] == second[i]);
    }
}

/// A buffer holds itself at its start.
pub proof fn lemma_holds_at_start(s: Seq<u8>)
    ensures
        holds_at(s, 0, s),
{
}

// ---------------------------------------------------------------------------
// Lists are written item by item
// ---------------------------------------------------------------------------

/// The bytes of a list of strings with one more at the end are the bytes of
/// the list followed by the bytes of that string.
pub proof fn lemma_strings_bytes_push(strings: Seq<Seq<char>>, last: Seq<char>)
    ensures
        strings_bytes(strings.push(last)) == strings_bytes(strings) + string_bytes(last),
    decreases strings.len(),
{
    if strings.len() == 0 {
        reveal_with_fuel(strings_bytes, 2);
        assert(strings.push(last).drop_first() =~= Seq::<Seq<char>>::empty());
        assert(strings_bytes(strings.push(last)) =~= string_bytes(last));
    } else {
        assert(strings.push(last).drop_first() =~= strings.drop_first().push(last));
        lemma_strings_bytes_push(strings.drop_first(), last);
        assert(strings_bytes(strings.push(last)) =~= strings_bytes(strings) + string_bytes(last));
    }
}

/// The bytes of a list of collections with one more at the end are the bytes
/// of the list followed by the bytes of that collection.
pub proof fn lemma_collections_bytes_push(entries: Seq<CollectionView>, last: CollectionView)
    ensures
        collections_bytes(entries.push(last)) == collections_bytes(entries) + collection_bytes(
            last,
        ),
    decreases entries.len(),
{
    if entries.len() == 0 {
        reveal_with_fuel(collections_bytes, 2);
        assert(entries.push(last).drop_first() =~= Seq::<CollectionView>::empty());
        assert(collections_bytes(entries.push(last)) =~= collection_bytes(last));
    } else {
        assert(entries.push(last).drop_first() =~= entries.drop_first().push(last));
        lemma_collections_bytes_push(entries.drop_first(), last);
        assert(collections_bytes(entries.push(last)) =~= collections_bytes(entries)
            + collection_bytes(last));
    }
}

// ---------------------------------------------------------------------------
// Whatever is written is read back
// ---------------------------------------------------------------------------

/// Wherever the four bytes of `v` stand in a buffer, reading a 32-bit integer
/// there gives `v` and ends just past them.
pub proof fn lemma_i32_read_back(s: Seq<u8>, pos: int, v: i32)
    requires
        holds_at(s, pos, i32_bytes(v)),
    ensures
        parse_i32(s, pos) == Ok::<(i32, int), DecodeError>((v, pos + 4)),
{
    let bytes = i32_bytes(v);
    let n = i32_pattern(v);
    assert(s[pos + 0] == bytes[0]);
    assert(s[pos + 1] == bytes[1]);
    assert(s[pos + 2] == bytes[2]);
    assert(s[pos + 3] == bytes[3]);
    assert(n % 0x100 + 0x100 * (n / 0x100 % 0x100) + 0x1_0000 * (n / 0x1_0000 % 0x100)
        + 0x100_0000 * (n / 0x100_0000 % 0x100) == n);
}

/// Reading the bytes of any 32-bit integer gives that integer back.
pub proof fn lemma_i32_round_trip(v: i32)
    ensures
        parse_i32(i32_bytes(v), 0) == Ok::<(i32, int), DecodeError>((v, 4)),
{
    lemma_holds_at_start(i32_bytes(v));
    lemma_i32_read_back(i32_bytes(v), 0, v);
}

/// The number of LEB128 groups of `n` is at least one, and at most `limit`
/// when `n` is below `128^limit`.
pub proof fn lemma_uleb128_length(n: nat, limit: nat)
    requires
        limit >= 1,
        n < group_weight(limit),
    ensures
        1 <= uleb128_bytes(n).len() <= limit,
    decreases n,
{
    if n >= 0x80 {
        assert(limit >= 2) by {
            reveal_with_fuel(group_weight, 2);
        }
        lemma_uleb128_length(n / 0x80, (limit - 1) as nat);
    }
}

/// Wherever the LEB128 groups of `n` stand in a buffer, reading groups there
/// gives `n` and ends just past them, if the limit allows as many groups.
pub proof fn lemma_uleb128_groups_read_back(s: Seq<u8>, pos: int, n: nat, limit: nat)
    requires
        limit >= 1,
        n < group_weight(limit),
        holds_at(s, pos, uleb128_bytes(n)),
    ensures
        parse_uleb128_groups(s, pos, limit) == Ok::<(nat, int), DecodeError>(
            (n, pos + uleb128_bytes(n).len()),
        ),
    decreases n,
{
    let bytes = uleb128_bytes(n);
    assert(s[pos + 0] == bytes[0]);
    if n >= 0x80 {
        assert(limit >= 2) by {
            reveal_with_fuel(group_weight, 2);
        }
        lemma_holds_at_split(s, pos, seq![(n % 0x80 + 0x80) as u8], uleb128_bytes(n / 0x80));
        lemma_uleb128_groups_read_back(s, pos + 1, n / 0x80, (limit - 1) as nat);
    }
}

/// Wherever the LEB128 groups of a number that fits 31 bits stand in a
/// buffer, reading a LEB128 number there gives it and ends just past them.
pub proof fn lemma_uleb128_read_back(s: Seq<u8>, pos: int, n: nat)
    requires
        n <= i32::MAX,
        holds_at(s, pos, uleb128_bytes(n)),
    ensures
        parse_uleb128(s, pos) == Ok::<(i32, int), DecodeError>(
            (n as i32, pos + uleb128_bytes(n).len()),
        ),
{
    assert(group_weight(ULEB128_MAX_GROUPS as nat) == 0x8_0000_0000) by {
        reveal_with_fuel(group_weight, 6);
    }
    lemma_uleb128_groups_read_back(s, pos, n, ULEB128_MAX_GROUPS as nat);
}

/// A number that fits 31 bits is written as five LEB128 groups at most.
pub proof fn lemma_uleb128_five_groups(n: nat)
    requires
        n <= i32::MAX,
    ensures
        1 <= uleb128_bytes(n).len() <= ULEB128_MAX_GROUPS,
{
    assert(group_weight(ULEB128_MAX_GROUPS as nat) == 0x8_0000_0000) by {
        reveal_with_fuel(group_weight, 6);
    }
    lemma_uleb128_length(n, ULEB128_MAX_GROUPS as nat);
}

/// Reading the LEB128 groups of any number that fits 31 bits gives that number
/// back.
pub proof fn lemma_uleb128_round_trip(n: nat)
    requires
        n <= i32::MAX,
    ensures
        parse_uleb128(uleb128_bytes(n), 0) == Ok::<(i32, int), DecodeError>(
            (n as i32, uleb128_bytes(n).len() as int),
        ),
{
    lemma_holds_at_start(uleb128_bytes(n));
    lemma_uleb128_read_back(uleb128_bytes(n), 0, n);
}

/// A character that fits one byte is read back from the byte it is written as.
pub proof fn lemma_char_round_trip(c: char)
    requires
        c as int <= 0xff,
    ensures
        byte_char(char_byte(c)) == c,
{
}

/// Wherever the bytes of a string stand in a buffer, reading a string there
/// gives that string and ends just past them, provided the string is one
/// that is read back as written.
pub proof fn lemma_string_read_back(s: Seq<u8>, pos: int, text: Seq<char>)
    requires
        lossless_text(text),
        holds_at(s, pos, string_bytes(text)),
    ensures
        parse_string(s, pos) == Ok::<(Seq<char>, int), DecodeError>(
            (text, pos + string_bytes(text).len()),
        ),
{
    let bytes = string_bytes(text);
    assert(s[pos + 0] == bytes[0]);
    if text.len() == 0 {
        assert(text =~= Seq::<char>::empty());
    } else {
        let length = uleb128_bytes(text.len());
        let body = text.map_values(|c: char| char_byte(c));
        assert(bytes == (seq![STRING_PRESENT] + length) + body);
        lemma_holds_at_split(s, pos, seq![STRING_PRESENT] + length, body);
        lemma_holds_at_split(s, pos, seq![STRING_PRESENT], length);
        lemma_uleb128_read_back(s, pos + 1, text.len());
        let start = pos + 1 + length.len();
        assert forall|i: int| 0 <= i < text.len() implies byte_char(s[start + i]) == text[i] by {
            assert(s[start + i] == body[i]);
            lemma_char_round_trip(text[i]);
        }
        assert(text_at(s, start, text.len()) =~= text);
    }
}

/// Reading the bytes of a string gives that string back: the empty string,
/// and every string of at most `i32::MAX` characters that fit one byte each.
pub proof fn lemma_string_round_trip(text: Seq<char>)
    requires
        lossless_text(text),
    ensures
        parse_string(string_bytes(text), 0) == Ok::<(Seq<char>, int), DecodeError>(
            (text, string_bytes(text).len() as int),
        ),
{
    lemma_holds_at_start(string_bytes(text));
    lemma_string_read_back(string_bytes(text), 0, text);
}

/// Wherever the bytes of a list of strings stand in a buffer, reading as
/// many strings there gives that list and ends just past them.
pub proof fn lemma_strings_read_back(s: Seq<u8>, pos: int, strings: Seq<Seq<char>>)
    requires
        lossless_texts(strings),
        holds_at(s, pos, strings_bytes(strings)),
    ensures
        parse_strings(s, pos, strings.len()) == Ok::<(Seq<Seq<char>>, int), DecodeError>(
            (strings, pos + strings_bytes(strings).len()),
        ),
    decreases strings.len(),
{
    if strings.len() == 0 {
        assert(strings =~= Seq::<Seq<char>>::empty());
    } else {
        let first = strings[0];
        let rest = strings.drop_first();
        lemma_holds_at_split(s, pos, string_bytes(first), strings_bytes(rest));
        lemma_string_read_back(s, pos, first);
        assert forall|i: int| 0 <= i < rest.len() implies lossless_text(#[trigger] rest[i]) by {
            assert(rest[i] == strings[i + 1]);
        }
        lemma_strings_read_back(s, pos + string_bytes(first).len(), rest);
        assert(seq![first] + rest =~= strings);
    }
}

/// Wherever the bytes of a collection stand in a buffer, reading a
/// collection there gives it and ends just past them.
pub proof fn lemma_collection_read_back(s: Seq<u8>, pos: int, c: CollectionView)
    requires
        lossless_collection(c),
        holds_at(s, pos, collection_bytes(c)),
    ensures
        parse_collection(s, pos) == Ok::<(CollectionView, int), DecodeError>(
            (c, pos + collection_bytes(c).len()),
        ),
{
    let name = string_bytes(c.name);
    let count = i32_bytes(c.map_count);
    lemma_holds_at_split(s, pos, name + count, strings_bytes(c.map_hashes));
    lemma_holds_at_split(s, pos, name, count);
    lemma_string_read_back(s, pos, c.name);
    lemma_i32_read_back(s, pos + name.len(), c.map_count);
    lemma_strings_read_back(s, pos + name.len() + 4, c.map_hashes);
}

/// Wherever the bytes of a list of collections stand in a buffer, reading as
/// many collections there gives that list and ends just past them.
pub proof fn lemma_collections_read_back(s: Seq<u8>, pos: int, entries: Seq<CollectionView>)
    requires
        lossless_collections(entries),
        holds_at(s, pos, collections_bytes(entries)),
    ensures
        parse_collections(s, pos, entries.len()) == Ok::<(Seq<CollectionView>, int), DecodeError>(
            (entries, pos + collections_bytes(entries).len()),
        ),
    decreases entries.len(),
{
    if entries.len() == 0 {
        assert(entries =~= Seq::<CollectionView>::empty());
    } else {
        let first = entries[0];
        let rest = entries.drop_first();
        lemma_holds_at_split(s, pos, collection_bytes(first), collections_bytes(rest));
        lemma_collection_read_back(s, pos, first);
        assert forall|i: int| 0 <= i < rest.len() implies lossless_collection(
            #[trigger] rest[i],
        ) by {
            assert(rest[i] == entries[i + 1]);
        }
        lemma_collections_read_back(s, pos + collection_bytes(first).len(), rest);
        assert(seq![first] + rest =~= entries);
    }
}

/// Reading the bytes of a document gives that document back, whatever
/// follows them in the buffer: same version, same entries in the same order.
pub proof fn lemma_document_read_back(s: Seq<u8>, d: DocumentView)
    requires
        lossless_document(d),
        holds_at(s, 0, document_bytes(d)),
    ensures
        parse_document(s) == Ok::<(DocumentView, int), DecodeError>(
            (d, document_bytes(d).len() as int),
        ),
{
    let version = i32_bytes(d.version);
    let count = i32_bytes(d.entries.len() as i32);
    lemma_holds_at_split(s, 0, version + count, collections_bytes(d.entries));
    lemma_holds_at_split(s, 0, version, count);
    lemma_i32_read_back(s, 0, d.version);
    lemma_i32_read_back(s, 4, d.entries.len() as i32);
    lemma_collections_read_back(s, 8, d.entries);
}

/// Reading the bytes of a document gives that document back.
pub proof fn lemma_document_round_trip(d: DocumentView)
    requires
        lossless_document(d),
    ensures
        parse_document(document_bytes(d)) == Ok::<(DocumentView, int), DecodeError>(
            (d, document_bytes(d).len() as int),
        ),
{
    lemma_holds_at_start(document_bytes(d));
    lemma_document_read_back(document_bytes(d), d);
}

// ---------------------------------------------------------------------------
// Whatever was read can be written again
// ---------------------------------------------------------------------------

/// A string that was read is one that is read back as written.
pub proof fn lemma_parsed_string_lossless(s: Seq<u8>, pos: int)
    requires
        parse_string(s, pos) is Ok,
    ensures
        lossless_text(parse_string(s, pos).unwrap().0),
{
}

/// Strings that were read are as many as were asked for, and each is read
/// back as written.
pub proof fn lemma_parsed_strings_lossless(s: Seq<u8>, pos: int, count: nat)
    requires
        parse_strings(s, pos, count) is Ok,
    ensures
        parse_strings(s, pos, count).unwrap().0.len() == count,
        lossless_texts(parse_strings(s, pos, count).unwrap().0),
    decreases count,
{
    if count > 0 {
        let (first, next) = parse_string(s, pos).unwrap();
        lemma_parsed_string_lossless(s, pos);
        lemma_parsed_strings_lossless(s, next, (count - 1) as nat);
    }
}

/// A collection that was read is one that is read back as written.
pub proof fn lemma_parsed_collection_lossless(s: Seq<u8>, pos: int)
    requires
        parse_collection(s, pos) is Ok,
    ensures
        lossless_collection(parse_collection(s, pos).unwrap().0),
{
    let (name, after_name) = parse_string(s, pos).unwrap();
    let (map_count, after_count) = parse_i32(s, after_name).unwrap();
    lemma_parsed_string_lossless(s, pos);
    lemma_parsed_strings_lossless(s, after_count, announced(map_count));
}

/// Collections that were read are as many as were asked for, and each is
/// read back as written.
pub proof fn lemma_parsed_collections_lossless(s: Seq<u8>, pos: int, count: nat)
    requires
        parse_collections(s, pos, count) is Ok,
    ensures
        parse_collections(s, pos, count).unwrap().0.len() == count,
        lossless_collections(parse_collections(s, pos, count).unwrap().0),
    decreases count,
{
    if count > 0 {
        let (first, next) = parse_collection(s, pos).unwrap();
        lemma_parsed_collection_lossless(s, pos);
        lemma_parsed_collections_lossless(s, next, (count - 1) as nat);
    }
}

/// A document that was read is one that is read back as written.
pub proof fn lemma_parsed_document_lossless(s: Seq<u8>)
    requires
        parse_document(s) is Ok,
    ensures
        lossless_document(parse_document(s).unwrap().0),
{
    let (version, after_version) = parse_i32(s, 0).unwrap();
    let (count, after_count) = parse_i32(s, after_version).unwrap();
    lemma_parsed_collections_lossless(s, after_count, announced(count));
}

/// A document that is read back as written is one that can be written.
pub proof fn lemma_lossless_document_fits(d: DocumentView)
    requires
        lossless_document(d),
    ensures
        document_fits(d),
{
    assert forall|i: int| 0 <= i < d.entries.len() implies collection_fits(
        #[trigger] d.entries[i],
    ) by {
        let c = d.entries[i];
        assert(lossless_collection(c));
        assert forall|k: int| 0 <= k < c.map_hashes.len() implies text_fits(
            #[trigger] c.map_hashes[k],
        ) by {
            assert(lossless_text(c.map_hashes[k]));
        }
    }
}

/// A document that was read can be written, and reading what is written
/// then gives the same document again.
pub proof fn lemma_reread(s: Seq<u8>)
    requires
        parse_document(s) is Ok,
    ensures
        ({
            let d = parse_document(s).unwrap().0;
            &&& document_fits(d)
            &&& parse_document(document_bytes(d)) == Ok::<(DocumentView, int), DecodeError>(
                (d, document_bytes(d).len() as int),
            )
        }),
{
    lemma_parsed_document_lossless(s);
    lemma_lossless_document_fits(parse_document(s).unwrap().0);
    lemma_document_round_trip(parse_document(s).unwrap().0);
}

// ---------------------------------------------------------------------------
// A cut-off buffer
// ---------------------------------------------------------------------------

/// How reading from the first `n` bytes of a buffer relates to reading from
/// all of it.  What was read in full before the cut is read the same; what
/// reached past the cut is out of bounds; what failed still fails.
pub open spec fn cut_outcome<T>(whole: Parsed<T>, cut: Parsed<T>, n: int) -> bool {
    match whole {
        Ok((value, end)) => cut == if end <= n {
            whole
        } else {
            Err(DecodeError::OutOfBounds)
        },
        Err(_) => cut is Err,
    }
}

/// Cutting the buffer, and reading a byte.
pub proof fn lemma_u8_cut(s: Seq<u8>, pos: int, n: int)
    requires
        0 <= n <= s.len(),
    ensures
        cut_outcome(parse_u8(s, pos), parse_u8(s.take(n), pos), n),
{
}

/// Cutting the buffer, and reading a 32-bit integer.
pub proof fn lemma_i32_cut(s: Seq<u8>, pos: int, n: int)
    requires
        0 <= n <= s.len(),
    ensures
        cut_outcome(parse_i32(s, pos), parse_i32(s.take(n), pos), n),
{
}

/// Cutting the buffer, and reading LEB128 groups.
pub proof fn lemma_uleb128_groups_cut(s: Seq<u8>, pos: int, limit: nat, n: int)
    requires
        0 <= n <= s.len(),
    ensures
        cut_outcome(
            parse_uleb128_groups(s, pos, limit),
            parse_uleb128_groups(s.take(n), pos, limit),
            n,
        ),
    decreases limit,
{
    if parse_uleb128_groups(s, pos, limit) is Ok {
        lemma_uleb128_groups_end(s, pos, limit);
    }
    if 0 <= pos < n && limit > 0 && s[pos] >= 0x80 {
        lemma_uleb128_groups_cut(s, pos + 1, (limit - 1) as nat, n);
    }
}

/// Cutting the buffer, and reading a LEB128 number.
pub proof fn lemma_uleb128_cut(s: Seq<u8>, pos: int, n: int)
    requires
        0 <= n <= s.len(),
    ensures
        cut_outcome(parse_uleb128(s, pos), parse_uleb128(s.take(n), pos), n),
{
    lemma_uleb128_groups_cut(s, pos, ULEB128_MAX_GROUPS as nat, n);
}

/// Cutting the buffer, and reading a string.
pub proof fn lemma_string_cut(s: Seq<u8>, pos: int, n: int)
    requires
        0 <= n <= s.len(),
    ensures
        cut_outcome(parse_string(s, pos), parse_string(s.take(n), pos), n),
{
    if parse_string(s, pos) is Ok {
        lemma_string_end(s, pos);
    }
    if let Ok((presence, after_presence)) = parse_u8(s, pos) {
        if presence != 0 && after_presence <= n {
            lemma_uleb128_cut(s, after_presence, n);
            if let Ok((len, start)) = parse_uleb128(s, after_presence) {
                lemma_uleb128_groups_end(s, after_presence, ULEB128_MAX_GROUPS as nat);
                if 0 <= len && start + len <= n {
                    assert(text_at(s.take(n), start, len as nat) =~= text_at(s, start, len as nat));
                }
            }
        }
    }
}

/// Cutting the buffer, and reading several strings from a position before the
/// cut.
pub proof fn lemma_strings_cut(s: Seq<u8>, pos: int, count: nat, n: int)
    requires
        0 <= n <= s.len(),
        pos <= n,
    ensures
        cut_outcome(parse_strings(s, pos, count), parse_strings(s.take(n), pos, count), n),
    decreases count,
{
    if parse_strings(s, pos, count) is Ok {
        lemma_strings_end(s, pos, count);
    }
    if count > 0 {
        lemma_string_cut(s, pos, n);
        if let Ok((first, next)) = parse_string(s, pos) {
            if next <= n {
                lemma_strings_cut(s, next, (count - 1) as nat, n);
            } else if parse_strings(s, next, (count - 1) as nat) is Ok {
                lemma_strings_end(s, next, (count - 1) as nat);
            }
        }
    }
}

/// Reading strings never ends before the position where it began.
pub proof fn lemma_strings_end(s: Seq<u8>, pos: int, count: nat)
    requires
        parse_strings(s, pos, count) is Ok,
    ensures
        parse_strings(s, pos, count).unwrap().1 >= pos,
    decreases count,
{
    if count > 0 {
        let (first, next) = parse_string(s, pos).unwrap();
        lemma_string_end(s, pos);
        lemma_strings_end(s, next, (count - 1) as nat);
    }
}

/// Reading LEB128 groups ends past the position where it began.
pub proof fn lemma_uleb128_groups_end(s: Seq<u8>, pos: int, limit: nat)
    requires
        parse_uleb128_groups(s, pos, limit) is Ok,
    ensures
        parse_uleb128_groups(s, pos, limit).unwrap().1 > pos,
    decreases limit,
{
    if s[pos] >= 0x80 {
        lemma_uleb128_groups_end(s, pos + 1, (limit - 1) as nat);
    }
}

/// Reading a string ends past the position where it began.
pub proof fn lemma_string_end(s: Seq<u8>, pos: int)
    requires
        parse_string(s, pos) is Ok,
    ensures
        parse_string(s, pos).unwrap().1 > pos,
{
    let (presence, after_presence) = parse_u8(s, pos).unwrap();
    if presence != 0 {
        lemma_uleb128_groups_end(s, after_presence, ULEB128_MAX_GROUPS as nat);
    }
}

/// Reading a collection ends past the position where it began.
pub proof fn lemma_collection_end(s: Seq<u8>, pos: int)
    requires
        parse_collection(s, pos) is Ok,
    ensures
        parse_collection(s, pos).unwrap().1 > pos,
{
    let (name, after_name) = parse_string(s, pos).unwrap();
    let (map_count, after_count) = parse_i32(s, after_name).unwrap();
    lemma_string_end(s, pos);
    lemma_strings_end(s, after_count, announced(map_count));
}

/// Reading collections never ends before the position where it began.
pub proof fn lemma_collections_end(s: Seq<u8>, pos: int, count: nat)
    requires
        parse_collections(s, pos, count) is Ok,
    ensures
        parse_collections(s, pos, count).unwrap().1 >= pos,
    decreases count,
{
    if count > 0 {
        let (first, next) = parse_collection(s, pos).unwrap();
        lemma_collection_end(s, pos);
        lemma_collections_end(s, next, (count - 1) as nat);
    }
}

/// Cutting the buffer, and reading a collection.
pub proof fn lemma_collection_cut(s: Seq<u8>, pos: int, n: int)
    requires
        0 <= n <= s.len(),
    ensures
        cut_outcome(parse_collection(s, pos), parse_collection(s.take(n), pos), n),
{
    lemma_string_cut(s, pos, n);
    if let Ok((name, after_name)) = parse_string(s, pos) {
        lemma_string_end(s, pos);
        lemma_i32_cut(s, after_name, n);
        if let Ok((map_count, after_count)) = parse_i32(s, after_name) {
            if after_count <= n {
                lemma_strings_cut(s, after_count, announced(map_count), n);
            } else if parse_strings(s, after_count, announced(map_count)) is Ok {
                lemma_strings_end(s, after_count, announced(map_count));
            }
        }
    }
}

/// Cutting the buffer, and reading several collections from a position before
/// the cut.
pub proof fn lemma_collections_cut(s: Seq<u8>, pos: int, count: nat, n: int)
    requires
        0 <= n <= s.len(),
        pos <= n,
    ensures
        cut_outcome(
            parse_collections(s, pos, count),
            parse_collections(s.take(n), pos, count),
            n,
        ),
    decreases count,
{
    if parse_collections(s, pos, count) is Ok {
        lemma_collections_end(s, pos, count);
    }
    if count > 0 {
        lemma_collection_cut(s, pos, n);
        if let Ok((first, next)) = parse_collection(s, pos) {
            lemma_collection_end(s, pos);
            if next <= n {
                lemma_collections_cut(s, next, (count - 1) as nat, n);
            } else if parse_collections(s, next, (count - 1) as nat) is Ok {
                lemma_collections_end(s, next, (count - 1) as nat);
            }
        }
    }
}

/// A document is never read from a buffer that ends before the document
/// does.  With only the first `n` bytes of a buffer, a document that ended
/// within them is read as before; one that reached past them is out of
/// bounds, with no part of it returned; and a buffer that was refused is
/// refused still.
pub proof fn lemma_document_cut(s: Seq<u8>, n: int)
    requires
        0 <= n <= s.len(),
    ensures
        cut_outcome(parse_document(s), parse_document(s.take(n)), n),
{
    lemma_i32_cut(s, 0, n);
    if let Ok((version, after_version)) = parse_i32(s, 0) {
        lemma_i32_cut(s, after_version, n);
        if let Ok((count, after_count)) = parse_i32(s, after_version) {
            if after_count <= n {
                lemma_collections_cut(s, after_count, announced(count), n);
            } else if parse_collections(s, after_count, announced(count)) is Ok {
                lemma_collections_end(s, after_count, announced(count));
            }
        }
    }
}

} // verus!
