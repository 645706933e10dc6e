//! The codec facade: compression of opaque byte buffers and binary deltas.
//!
//! Both primitives are outside code.  Their behaviour is named by
//! uninterpreted spec functions and assumed only as far as the crates'
//! documentation states it: compression round-trips with decompression, and
//! a delta applied to the buffer it was computed against yields the buffer
//! it was computed towards.

use vstd::prelude::*;

use crate::EngineError;
use std::io::Read;
use std::io::Write;

verus! {

/// What brotli's compressor produces from the given bytes at the given
/// quality level.  The encoder is deterministic in both.
pub uninterp spec fn compress_of(data: Seq<u8>, level: int) -> Seq<u8>;

/// What brotli's decompressor yields on a byte string: the decoded bytes,
/// or nothing when the bytes are not a well-formed compressed stream.
pub uninterp spec fn decompress_of(data: Seq<u8>) -> Option<Seq<u8>>;

/// What bsdiff produces as the delta from `old_bytes` to `new_bytes`.
pub uninterp spec fn delta_of(old_bytes: Seq<u8>, new_bytes: Seq<u8>) -> Seq<u8>;

/// What applying a delta to a base buffer yields: the patched bytes, or
/// nothing when the delta does not fit the base.
pub uninterp spec fn patched_of(base: Seq<u8>, delta: Seq<u8>) -> Option<Seq<u8>>;

/// Relies on brotli's `CompressorWriter`: writing the input through it into a
/// vector is deterministic in the input and the quality level, and the
/// resulting stream decompresses back to the input.  The call cannot fail:
/// the encoder sanitizes its parameters (any quality is clamped into range)
/// and the only error sources are the inner writer, which is a vector and
/// never errors, and an encoder state this single-pass use never reaches.
#[verifier::external_body]
pub fn compress_data(input: Vec<u8>, compression_level: u32) -> (r: Result<
    Vec<u8>,
    EngineError,
>)
    ensures
        r is Ok,
        r matches Ok(c) ==> c@ == compress_of(input@, compression_level as int),
        r is Ok ==> decompress_of(compress_of(input@, compression_level as int)) == Some(input@),
{
    let mut compressed_data = Vec::new();
    {
        let mut compressor =
            brotli::CompressorWriter::new(&mut compressed_data, 4096, compression_level, 22);
        if compressor.write_all(&input).is_err() {
            return Err(EngineError::IoFailure);
        }
        if compressor.flush().is_err() {
            return Err(EngineError::IoFailure);
        }
    }
    Ok(compressed_data)
}

/// Relies on brotli's `Decompressor`: reading it to the end yields the decoded
/// bytes, and fails exactly on byte strings that are not a well-formed stream.
#[verifier::external_body]
pub fn decompress_data(compressed: Vec<u8>) -> (r: Result<Vec<u8>, EngineError>)
    ensures
        r matches Ok(d) ==> decompress_of(compressed@) == Some(d@),
        r matches Err(e) ==> decompress_of(compressed@) is None
            && e == EngineError::CorruptArtifact,
{
    let mut decompressed_data = Vec::new();
    {
        let mut decompressor = brotli::Decompressor::new(&compressed[..], 4096);
        if decompressor.read_to_end(&mut decompressed_data).is_err() {
            return Err(EngineError::CorruptArtifact);
        }
    }
    Ok(decompressed_data)
}

/// Relies on `bsdiff::diff`: the delta it writes is deterministic in the two
/// buffers, and `bsdiff::patch` applied to `old_bytes` with it yields
/// `new_bytes`.  The call cannot fail: its only error source is the writer
/// it is handed, which is a vector and never errors.
#[verifier::external_body]
pub fn delta_bytes(old_bytes: &Vec<u8>, new_bytes: &Vec<u8>) -> (r: Result<Vec<u8>, EngineError>)
    ensures
        r is Ok,
        r matches Ok(d) ==> d@ == delta_of(old_bytes@, new_bytes@),
        r is Ok ==> patched_of(old_bytes@, delta_of(old_bytes@, new_bytes@)) == Some(new_bytes@),
{
    let mut delta = Vec::new();
    if bsdiff::diff(old_bytes, new_bytes, &mut delta).is_err() {
        return Err(EngineError::IoFailure);
    }
    Ok(delta)
}

/// Relies on `bsdiff::patch`: applying a delta to a base buffer is
/// deterministic in both, and fails exactly when the delta does not fit.
#[verifier::external_body]
pub fn apply_delta(base: &Vec<u8>, delta: &Vec<u8>) -> (r: Result<Vec<u8>, EngineError>)
    ensures
        r matches Ok(n) ==> patched_of(base@, delta@) == Some(n@),
        r matches Err(e) ==> patched_of(base@, delta@) is None
            && e == EngineError::CorruptArtifact,
{
    let mut patched = Vec::new();
    if bsdiff::patch(base, &mut delta.as_slice(), &mut patched).is_err() {
        return Err(EngineError::CorruptArtifact);
    }
    Ok(patched)
}

} // verus!
