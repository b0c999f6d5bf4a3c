//! The outside functions that the library relies on: the xxh3 hash and the
//! LZ4 frame encoder. What is stated here is not proved.

use std::io::Write;

use vstd::prelude::*;

verus! {

/// The 64-bit xxh3 hash of a byte string, with the default secret and seed 0.
pub uninterp spec fn xxh3_64_of(bytes: Seq<u8>) -> u64;

/// The content that an LZ4 frame decoder recovers from a byte string; `None`
/// if the bytes are not one well-formed LZ4 frame.
pub uninterp spec fn lz4_frame_content(frame: Seq<u8>) -> Option<Seq<u8>>;

/// Calls `xxhash_rust::xxh3::xxh3_64`.
///
/// Claims that the hash is determined by the bytes alone; nothing is said
/// about its value or about collisions.
#[verifier::external_body]
pub(crate) fn xxh3_64(bytes: &[u8]) -> (hash: u64)
    ensures
        hash == xxh3_64_of(bytes@),
{
    xxhash_rust::xxh3::xxh3_64(bytes)
}

/// The error of an LZ4 frame encoder that cannot finish its frame.
#[verifier::external_type_specification]
#[verifier::external_body]
pub struct ExFrameError(lz4_flex::frame::Error);

/// The error of a byte sink.
#[verifier::external_type_specification]
#[verifier::external_body]
pub struct ExIoError(std::io::Error);

/// Calls `lz4_flex::frame::FrameEncoder::new` on an empty vector, then
/// `write_all` with all of `raw`, then `finish`. The outer error is that of
/// `write_all`, the inner one that of `finish`.
///
/// Claims that both calls succeed: with the default settings the encoder sizes
/// its own buffers, checks no content length, and hands every byte to the
/// vector, which takes any number of them. Claims further that the bytes are
/// one LZ4 frame whose content is `raw`. Which of the many frames with that
/// content they are is left unsaid: it depends on the pointer width and the
/// byte order of the machine.
#[verifier::external_body]
pub(crate) fn lz4_frame_compress(raw: &[u8]) -> (outcome: Result<Result<Vec<u8>, lz4_flex::frame::Error>, std::io::Error>)
    ensures
        outcome is Ok,
        outcome->Ok_0 is Ok,
        lz4_frame_content(outcome->Ok_0->Ok_0@) == Some(raw@),
{
    let mut encoder = lz4_flex::frame::FrameEncoder::new(Vec::new());
    match encoder.write_all(raw) {
        Ok(()) => Ok(encoder.finish()),
        Err(error) => Err(error),
    }
}

} // verus!
