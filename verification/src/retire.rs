//! The retire transform: what happens to a file's bytes as the file leaves
//! the live slot.
//!
//! Retiring either keeps the bytes as they are, or compresses them into a
//! single zstd frame. The codec itself is the zstd crate's; this module pins
//! down that the transform is lossless: restoring retired bytes gives back
//! exactly what was retired.

use vstd::prelude::*;

use crate::Compression;

verus! {

/// Declares std::io::Error, the error type of the zstd codec calls, so that
/// it can be carried through result types; the library never looks inside
/// it.
#[verifier::external_type_specification]
#[verifier::external_body]
pub struct ExIoError(std::io::Error);

/// The zstd frame that compressing `data` at `level` produces: a function of
/// the input bytes and the level alone.
pub uninterp spec fn zstd_frame(data: Seq<u8>, level: int) -> Seq<u8>;

/// Relies on zstd::stream::encode_all: compresses the whole buffer into one
/// zstd frame, written into memory. The call succeeds on every input — an
/// out-of-range level is clamped into range, never rejected — and for a
/// fixed level the output depends on the input bytes alone.
#[verifier::external_body]
fn zstd_encode(data: &[u8], level: i32) -> (r: Result<Vec<u8>, std::io::Error>)
    ensures
        r is Ok,
        r matches Ok(v) ==> v@ == zstd_frame(data@, level as int),
{
    zstd::stream::encode_all(data, level)
}

/// Relies on zstd::stream::decode_all: decoding succeeds on every frame that
/// zstd::stream::encode_all produced and yields the bytes that were encoded.
#[verifier::external_body]
fn zstd_decode(data: &[u8]) -> (r: Result<Vec<u8>, std::io::Error>)
    ensures
        r matches Ok(v) ==> (forall|d: Seq<u8>, l: int|
            data@ == #[trigger] zstd_frame(d, l) ==> v@ == d),
        r is Err ==> (forall|d: Seq<u8>, l: int| data@ != #[trigger] zstd_frame(d, l)),
{
    zstd::stream::decode_all(data)
}

/// The bytes a retired file holds on disk, given the bytes the live file
/// held.
pub open spec fn spec_retired(c: Compression, data: Seq<u8>) -> Seq<u8> {
    match c {
        Compression::Uncompressed => data,
        Compression::Zstd { level } => zstd_frame(data, level as int),
    }
}

/// Apply the retire transform to the bytes of a file leaving the live slot:
/// the identity without compression, one zstd frame with it.
///
/// The transform is total — it succeeds on every input and every level.
pub fn retire_bytes(c: Compression, data: &[u8]) -> (r: Result<Vec<u8>, std::io::Error>)
    ensures
        r matches Ok(v) && v@ == spec_retired(c, data@),
{
    match c {
        Compression::Uncompressed => Ok(vstd::slice::slice_to_vec(data)),
        Compression::Zstd { level } => zstd_encode(data, level),
    }
}

/// Recover the original bytes of a retired file.
///
/// For every `orig` that `data` is the retired form of, the call succeeds
/// and returns exactly `orig`: together with `retire_bytes` this is the
/// round trip that makes a retired file byte-for-byte recoverable.
pub fn restore_retired(c: Compression, data: &[u8]) -> (r: Result<Vec<u8>, std::io::Error>)
    ensures
        forall|orig: Seq<u8>|
            data@ == #[trigger] spec_retired(c, orig) ==> (r matches Ok(v) && v@ == orig),
{
    match c {
        Compression::Uncompressed => Ok(vstd::slice::slice_to_vec(data)),
        Compression::Zstd { level } => {
            let r = zstd_decode(data);
            proof {
                assert forall|orig: Seq<u8>| data@ == #[trigger] spec_retired(c, orig) implies (
                r matches Ok(v) && v@ == orig) by {
                    assert(data@ == zstd_frame(orig, level as int));
                }
            }
            r
        }
    }
}

} // verus!
