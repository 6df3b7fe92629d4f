//! Content digesting and byte-to-text conversions that lean on outside code.
use vstd::prelude::*;

use sha1::{Digest, Sha1};

verus! {

/// The SHA-1 digest of a byte sequence: 20 bytes, a function of the input
/// alone.
pub uninterp spec fn sha1_of(s: Seq<u8>) -> Seq<u8>;

/// Relies on sha1::Sha1 (update, then finalize): the 20-byte digest depends
/// on the input bytes alone.
#[verifier::external_body]
pub fn hash_sha1(input: &[u8]) -> (r: [u8; 20])
    ensures
        r@ == sha1_of(input@),
{
    let mut hasher = Sha1::new();
    hasher.update(input);
    hasher.finalize().into()
}

/// What `String::from_utf8_lossy` makes of a byte sequence: a function of the
/// bytes alone.
pub uninterp spec fn lossy_chars(s: Seq<u8>) -> Seq<char>;

/// Relies on String::from_utf8_lossy: the result depends on the bytes alone,
/// and bytes of a valid UTF-8 input - so in particular ASCII bytes - come
/// through unchanged, one character per byte.
#[verifier::external_body]
pub fn bytes_to_string_lossy(b: &[u8]) -> (r: String)
    ensures
        r@ == lossy_chars(b@),
        (forall|i: int| 0 <= i < b@.len() ==> b@[i] < 128) ==> (r@.len() == b@.len() && (forall|
            i: int,
        |
            0 <= i < b@.len() ==> r@[i] == b@[i] as char)),
{
    String::from_utf8_lossy(b).into_owned()
}

} // verus!
