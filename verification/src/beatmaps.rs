//! Which files of a beatmap archive are beatmaps, and the hash a beatmap is
//! listed under in a collection.

use crate::trusted::{ends_with, has_suffix, md5, md5_digest};
use vstd::prelude::*;
use vstd::string::StringSliceAdditionalSpecFns;

verus! {

/// The ending of a beatmap's file name: `.osu`.
pub open spec fn beatmap_suffix() -> Seq<char> {
    seq!['.', 'o', 's', 'u']
}

/// The lower-case hexadecimal digit for `n`, which is below 16.
pub open spec fn hex_digit(n: int) -> char {
    if n < 10 {
        ('0' as int + n) as char
    } else {
        ('a' as int + n - 10) as char
    }
}

/// `bytes` in lower-case hexadecimal, two digits per byte, the high one
/// first.
pub open spec fn hex_text(bytes: Seq<u8>) -> Seq<char> {
    Seq::new(
        2 * bytes.len(),
        |i: int|
            if i % 2 == 0 {
                hex_digit(bytes[i / 2] as int / 16)
            } else {
                hex_digit(bytes[i / 2] as int % 16)
            },
    )
}

/// Whether a file of this name inside a beatmap archive is a beatmap: its
/// name ends with `.osu`.
pub fn is_beatmap_file(name: &str) -> (yes: bool)
    ensures
        yes == has_suffix(name@, beatmap_suffix()),
{
    proof {
        reveal_strlit(".osu");
        assert(".osu"@ =~= beatmap_suffix());
    }
    ends_with(name, ".osu")
}

/// Writes `bytes` in lower-case hexadecimal.
pub fn lower_hex(bytes: &[u8]) -> (text: String)
    ensures
        text@ == hex_text(bytes@),
{
    let mut text = String::new();
    let mut i: usize = 0;
    while i < bytes.len()
        invariant
            i <= bytes.len(),
            text@ == hex_text(bytes@.take(i as int)),
        decreases bytes.len() - i,
    {
        let byte = bytes[i];
        text.push(digit(byte / 16));
        text.push(digit(byte % 16));
        i += 1;
        assert(text@ =~= hex_text(bytes@.take(i as int)));
    }
    assert(bytes@.take(i as int) =~= bytes@);
    text
}

/// The hash a beatmap is listed under: the MD5 digest of the beatmap file's
/// text, in lower-case hexadecimal.
pub fn beatmap_hash(contents: &str) -> (hash: String)
    ensures
        hash@ == hex_text(md5_digest(contents.spec_bytes())),
        hash@.len() == 32,
{
    let digest = md5(contents.as_bytes());
    lower_hex(digest.as_slice())
}

/// The lower-case hexadecimal digit for `n`.
fn digit(n: u8) -> (c: char)
    requires
        n < 16,
    ensures
        c == hex_digit(n as int),
{
    if n < 10 {
        (0x30 + n) as char
    } else {
        (0x61 + (n - 10)) as char
    }
}

} // verus!
