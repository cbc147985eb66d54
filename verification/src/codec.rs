//! The compressed partition's codecs: its SHA-1 digest and its xz compression.

use sha1::{Digest, Sha1};
use std::io::{ErrorKind, Write};
use vstd::prelude::*;
use xz2::read::XzDecoder;
use xz2::write::XzEncoder;

use crate::records::append;

verus! {

/// Bytes in a SHA-1 digest.
pub const SHA_DIGEST_LENGTH: usize = 20;

/// The level at which a partition is compressed.
pub const XZ_LEVEL: u32 = 6;

/// Why a partition could not be compressed or decompressed, in the codec's own words.
#[derive(Debug)]
pub enum XzError {
    /// The bytes are not one complete xz stream that the decoder knows how to read.
    Rejected(String),
    /// The codec could not do its work, whatever the bytes are: it found no memory.
    Unavailable(String),
}

/// The SHA-1 digest of `data`.
pub uninterp spec fn sha1_digest(data: Seq<u8>) -> Seq<u8>;

/// The xz stream that the encoder makes of `data` at level `level`.
pub uninterp spec fn xz_encoded(data: Seq<u8>, level: u32) -> Seq<u8>;

/// What `stream` decompresses to, where it is one complete xz stream and nothing else.
pub uninterp spec fn xz_decoded(stream: Seq<u8>) -> Option<Seq<u8>>;

/// Calls `Sha1::digest` of sha1: the digest is a function of the data, and 20 bytes long.
#[verifier::external_body]
fn sha1_of(data: &[u8]) -> (hash: [u8; SHA_DIGEST_LENGTH])
    ensures
        hash@ == sha1_digest(data@),
{
    let result = Sha1::digest(data);
    let mut hash = [0u8; SHA_DIGEST_LENGTH];
    hash.copy_from_slice(&result);
    hash
}

/// Writes all of the data to `xz2::write::XzEncoder` and finishes it: the stream that comes out
/// is a function of the data and the level, since the encoder is compiled in (feature `static` of
/// xz2), and decompresses to the data. An encoder that fails does so for want of memory; when that
/// happens is left unsaid. Levels above 9 make `XzEncoder::new` panic.
#[verifier::external_body]
fn xz_encode(data: &[u8], level: u32) -> (stream: Result<Vec<u8>, XzError>)
    requires
        level <= 9,
    ensures
        match stream {
            Ok(s) => s@ == xz_encoded(data@, level) && xz_decoded(s@) == Some(data@),
            Err(e) => e is Unavailable,
        },
{
    let mut encoder = XzEncoder::new(Vec::new(), level);
    match encoder.write_all(data) {
        Ok(()) => encoder.finish().map_err(|e| XzError::Unavailable(e.to_string())),
        Err(e) => Err(XzError::Unavailable(e.to_string())),
    }
}

/// Copies what `xz2::read::XzDecoder` reads from the stream to the end of `out`, which keeps what
/// it had: what is read is a function of the stream. The decoder calls invalid, incomplete or of an
/// unknown kind only what is not one complete stream, or has something behind it. Its other
/// failures are for want of memory; when they happen is left unsaid, and so is how much had been
/// read before a failure.
#[verifier::external_body]
fn xz_decode(stream: &[u8], out: &mut Vec<u8>) -> (done: Result<(), XzError>)
    ensures
        old(out)@.is_prefix_of(final(out)@),
        match done {
            Ok(()) => {
                &&& xz_decoded(stream@) is Some
                &&& final(out)@ == old(out)@ + xz_decoded(stream@)->Some_0
            },
            Err(e) => e is Rejected ==> xz_decoded(stream@) is None,
        },
{
    match std::io::copy(&mut XzDecoder::new(stream), out) {
        Ok(_) => Ok(()),
        Err(e) => match e.kind() {
            ErrorKind::InvalidData | ErrorKind::UnexpectedEof | ErrorKind::InvalidInput => Err(
                XzError::Rejected(e.to_string()),
            ),
            _ => Err(XzError::Unavailable(e.to_string())),
        },
    }
}

/// `result` is what a call of the encoder on `data` at level `level` came to. Whether one fails for
/// want of memory is the machine's matter, so there may be more than one such result.
pub closed spec fn encoder_gave(
    data: Seq<u8>,
    level: u32,
    result: Result<Vec<u8>, XzError>,
) -> bool {
    exists|d: &[u8]| d@ == data && #[trigger] call_ensures(xz_encode, (d, level), result)
}

/// Calls the decoder on a stream: what it wrote, and what it came to.
fn decode(stream: &[u8]) -> (decoded: (Vec<u8>, Result<(), XzError>))
    ensures
        exists|out: &mut Vec<u8>|
            (*out)@.len() == 0 && final(out)@ == decoded.0@ && #[trigger] call_ensures(
                xz_decode,
                (stream, out),
                decoded.1,
            ),
        match decoded.1 {
            Ok(()) => xz_decoded(stream@) == Some(decoded.0@),
            Err(e) => e is Rejected ==> xz_decoded(stream@) is None,
        },
{
    let mut out: Vec<u8> = Vec::new();
    let done = xz_decode(stream, &mut out);
    assert(done is Ok ==> out@ =~= xz_decoded(stream@)->Some_0);
    (out, done)
}

/// `result` is what a call of the decoder on `stream` came to, once it had written `written`.
pub closed spec fn decoder_gave(
    stream: Seq<u8>,
    written: Seq<u8>,
    result: Result<(), XzError>,
) -> bool {
    exists|s: &[u8], v: Vec<u8>|
        s@ == stream && v@ == written && #[trigger] call_ensures(decode, (s,), (v, result))
}

/// Only a call of the encoder on the data gives what the encoder gave, be it a stream or a failure:
/// a stream decompresses to the data, and a failure is for want of memory.
proof fn law_encoder_was_called(data: Seq<u8>, level: u32, result: Result<Vec<u8>, XzError>)
    requires
        encoder_gave(data, level, result),
    ensures
        exists|d: &[u8]| d@ == data && #[trigger] call_ensures(xz_encode, (d, level), result),
        match result {
            Ok(s) => s@ == xz_encoded(data, level) && xz_decoded(s@) == Some(data),
            Err(e) => e is Unavailable,
        },
{
}

/// Only a call of the decoder on the stream gives what the decoder gave, be it success or a failure,
/// and writes what it wrote.
proof fn law_decoder_was_called(stream: Seq<u8>, written: Seq<u8>, result: Result<(), XzError>)
    requires
        decoder_gave(stream, written, result),
    ensures
        exists|s: &[u8], out: &mut Vec<u8>|
            s@ == stream && (*out)@.len() == 0 && final(out)@ == written && #[trigger] call_ensures(
                xz_decode,
                (s, out),
                result,
            ),
        match result {
            Ok(()) => xz_decoded(stream) == Some(written),
            Err(e) => e is Rejected ==> xz_decoded(stream) is None,
        },
{
}

/// The SHA-1 digest of the data.
pub fn compute_sha1(data: &[u8]) -> (hash: [u8; SHA_DIGEST_LENGTH])
    ensures
        hash@ == sha1_digest(data@),
{
    sha1_of(data)
}

/// Compresses a partition into one complete xz stream.
pub fn compress_xz(data: &[u8]) -> (stream: Result<Vec<u8>, XzError>)
    ensures
        match stream {
            Ok(s) => s@ == xz_encoded(data@, XZ_LEVEL) && xz_decoded(s@) == Some(data@),
            Err(e) => e is Unavailable,
        },
        encoder_gave(data@, 6, stream),
{
    xz_encode(data, XZ_LEVEL)
}

/// Decompresses one complete xz stream to the end of `out`. Of a stream that cannot be
/// decompressed, `out` gets what could be by the time that this was found.
pub fn decompress_xz(stream: &[u8], out: &mut Vec<u8>) -> (done: Result<(), XzError>)
    ensures
        old(out)@.is_prefix_of(final(out)@),
        match done {
            Ok(()) => {
                &&& xz_decoded(stream@) is Some
                &&& final(out)@ == old(out)@ + xz_decoded(stream@)->Some_0
            },
            Err(e) => e is Rejected ==> xz_decoded(stream@) is None,
        },
        exists|written: Seq<u8>|
            final(out)@ == old(out)@ + written && #[trigger] decoder_gave(stream@, written, done),
{
    let (written, done) = decode(stream);
    assert(decoder_gave(stream@, written@, done));
    append(out, written.as_slice());
    done
}

} // verus!
