//! What this crate takes on trust from code it does not verify.
//!
//! Each item below gives a contract to a function of `std` or of the `md-5`
//! crate.  Verus believes these contracts; everything else in the crate is
//! proved from them.

use md5::{Digest, Md5};
use vstd::prelude::*;

verus! {

/// `String::push`: puts one character at the end of the string and leaves the
/// characters before it as they were.
pub assume_specification[ String::push ](s: &mut String, c: char)
    ensures
        final(s)@ == old(s)@.push(c),
;

/// Whether `text` ends with the characters of `suffix`.
pub open spec fn has_suffix(text: Seq<char>, suffix: Seq<char>) -> bool {
    suffix.len() <= text.len() && text.subrange(text.len() - suffix.len(), text.len() as int)
        == suffix
}

/// `str::ends_with` with a string as the pattern: whether the pattern matches
/// a suffix of the string, which for a string pattern means that the string
/// ends with the pattern's characters.
#[verifier::external_body]
pub(crate) fn ends_with(text: &str, suffix: &str) -> (found: bool)
    ensures
        found == has_suffix(text@, suffix@),
{
    text.ends_with(suffix)
}

/// The MD5 digest of `data`, as `md5::Md5` computes it.
pub uninterp spec fn md5_digest(data: Seq<u8>) -> Seq<u8>;

/// `<md5::Md5 as md5::Digest>::digest`: hashes all of `data` in one go and
/// hands back the digest, which for MD5 has 16 bytes.  The digest depends on
/// the bytes of `data` alone.
#[verifier::external_body]
pub(crate) fn md5(data: &[u8]) -> (digest: Vec<u8>)
    ensures
        digest@ == md5_digest(data@),
        digest@.len() == 16,
{
    Md5::digest(data).to_vec()
}

} // verus!
