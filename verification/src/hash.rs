//! Content hashing for the dictionary cache: BLAKE3 digests rendered as
//! lowercase hexadecimal.
use vstd::prelude::*;

use crate::text::{bytes_to_hex, hex_of, string_from_chars};

verus! {

pub uninterp spec fn blake3_of(data: Seq<u8>) -> Seq<u8>;

/// Relies on blake3::hash: the digest depends on the input bytes alone and
/// is 32 bytes long.
#[verifier::external_body]
fn blake3_digest(data: &[u8]) -> (r: Vec<u8>)
    ensures
        r@ == blake3_of(data@),
        r@.len() == 32,
{
    blake3::hash(data).as_bytes().to_vec()
}

/// The digest of a byte string, in lowercase hexadecimal.
pub fn content_hash_hex(data: &[u8]) -> (r: String)
    ensures
        r@ == hex_of(blake3_of(data@)),
{
    let digest = blake3_digest(data);
    let hx = bytes_to_hex(&digest);
    string_from_chars(&hx)
}

/// The digest of a path string (its UTF-8 bytes), in lowercase hexadecimal.
pub fn path_hash_hex(path: &str) -> (r: String)
    ensures
        r@ == hex_of(blake3_of(vstd::utf8::encode_utf8(path@))),
{
    content_hash_hex(path.as_bytes())
}

/// The concatenation of the digests of each file, in order.
pub open spec fn digests_concat(files: Seq<Seq<u8>>) -> Seq<u8>
    decreases files.len(),
{
    if files.len() == 0 {
        Seq::empty()
    } else {
        digests_concat(files.drop_last()) + blake3_of(files.last())
    }
}

/// The rolling digest of a directory: the digest of the per-file digests,
/// over the file contents in the given order.
pub fn dir_hash_hex(files: &Vec<Vec<u8>>) -> (r: String)
    ensures
        r@ == hex_of(blake3_of(digests_concat(files@.map_values(|f: Vec<u8>| f@)))),
{
    let mut acc: Vec<u8> = Vec::new();
    let mut i: usize = 0;
    while i < files.len()
        invariant
            i <= files@.len(),
            acc@ == digests_concat(files@.map_values(|f: Vec<u8>| f@).take(i as int)),
        decreases files.len() - i,
    {
        let mut d = blake3_digest(files[i].as_slice());
        acc.append(&mut d);
        i = i + 1;
        proof {
            let fv = files@.map_values(|f: Vec<u8>| f@);
            assert(fv.take(i as int).drop_last() =~= fv.take(i - 1));
            assert(fv.take(i as int).last() == fv[i - 1]);
        }
    }
    proof {
        let fv = files@.map_values(|f: Vec<u8>| f@);
        assert(fv.take(fv.len() as int) =~= fv);
    }
    content_hash_hex(acc.as_slice())
}

} // verus!
