//! The few places where this crate leans on outside code: a random index
//! from `rand`, a content digest from `sha2`, and two std character/string
//! operations that vstd gives no specification for. Each is a single
//! trusted wrapper; everything built on top of them is verified.

use vstd::prelude::*;
use rand::Rng;
use sha2::Digest;

verus! {

/// What `char::is_alphanumeric` returns for a character. It covers the
/// Unicode `Alphabetic` and `Number` classes, which no short formula
/// states, but it depends on the character alone.
pub uninterp spec fn spec_alphanumeric(c: char) -> bool;

/// The SHA-256 digest of a byte string, rendered as lower-case
/// hexadecimal. The digest itself takes pages to state, but it depends
/// on the bytes alone.
pub uninterp spec fn sha256_hex_of(bytes: Seq<u8>) -> Seq<char>;

/// Relies on `char::is_alphanumeric` (std): the result depends on the
/// character alone.
#[verifier::external_body]
pub(crate) fn is_alphanumeric_char(c: char) -> (r: bool)
    ensures
        r == spec_alphanumeric(c),
{
    c.is_alphanumeric()
}

/// Relies on `String::push` (std): it appends exactly the one character.
#[verifier::external_body]
pub(crate) fn push_char(s: &mut String, c: char)
    ensures
        final(s)@ == old(s)@.push(c),
{
    s.push(c)
}

/// Relies on `rand::Rng::gen_range` over `0..n`, on `rand::thread_rng()`:
/// it returns an index drawn uniformly from the non-empty range, and
/// panics on an empty one. Nothing more can be promised of a random draw.
#[verifier::external_body]
pub(crate) fn random_index_below(n: usize) -> (r: usize)
    requires
        1 <= n,
    ensures
        r < n,
{
    rand::thread_rng().gen_range(0..n)
}

/// Relies on `sha2::Sha256` (through the `Digest` trait) and on the
/// lower-hex rendering of its 32-byte output, two digits per byte: the
/// result depends on the input bytes alone.
#[verifier::external_body]
pub(crate) fn sha256_hex(data: &Vec<u8>) -> (r: String)
    ensures
        r@ == sha256_hex_of(data@),
{
    let mut hasher = sha2::Sha256::new();
    hasher.update(data.as_slice());
    format!("{:x}", hasher.finalize())
}

} // verus!
