//! The two digests the engine uses: a strong content digest that names patch
//! records, and a fast digest that fingerprints unmodified files.

use vstd::prelude::*;
use vstd::string::*;
use vstd::utf8::encode_utf8;

use crate::text::{lower_hex_of, to_lower_hex, to_upper_hex, upper_hex_of};

verus! {

/// What the SHA-256 digest of a byte string is.
pub uninterp spec fn sha256_of(data: Seq<u8>) -> Seq<u8>;

/// Relies on `sha2::Sha256`: the digest is a function of the input bytes
/// alone and is exactly 32 bytes long.
#[verifier::external_body]
pub fn sha256_bytes(data: &[u8]) -> (r: Vec<u8>)
    ensures
        r@ == sha256_of(data@),
        r@.len() == 32,
{
    <sha2::Sha256 as sha2::Digest>::digest(data).to_vec()
}

/// What the 64-bit xxh3 digest of a byte string is.
pub uninterp spec fn xxh3_of(data: Seq<u8>) -> u64;

/// Relies on `xxhash_rust::xxh3::xxh3_64`: the digest is a function of the
/// input bytes alone and is stable across runs.
#[verifier::external_body]
pub fn xxh3_64_bytes(data: &Vec<u8>) -> (r: u64)
    ensures
        r == xxh3_of(data@),
{
    xxhash_rust::xxh3::xxh3_64(data)
}

/// The strong content digest of a byte string, rendered in lower-case
/// hexadecimal: the form stored in the metadata index.
pub open spec fn strong_hash_of(data: Seq<u8>) -> Seq<char> {
    lower_hex_of(sha256_of(data))
}

/// Computes the strong content digest of a buffer in its stored form.
pub fn strong_hash(data: &Vec<u8>) -> (r: String)
    ensures
        r@ == strong_hash_of(data@),
        r@.len() == 64,
{
    let digest = sha256_bytes(data.as_slice());
    to_lower_hex(&digest)
}

/// The identifier of a patch record: the strong digest of the record's
/// creation timestamp concatenated with its target path, in upper-case
/// hexadecimal.
pub open spec fn patch_id_of(created_at: Seq<char>, target_path: Seq<char>) -> Seq<char> {
    upper_hex_of(sha256_of(encode_utf8(created_at + target_path)))
}

/// Derives the patch identifier from a record's timestamp and target path.
pub fn derive_patch_id(created_at: &String, target_path: &String) -> (r: String)
    ensures
        r@ == patch_id_of(created_at@, target_path@),
        r@.len() == 64,
{
    let mut keyed = created_at.clone();
    keyed.append(target_path.as_str());
    let digest = sha256_bytes(keyed.as_str().as_bytes());
    to_upper_hex(&digest)
}

} // verus!
