//! Taking the root file system out of an image, and making an image with another one.

use vstd::prelude::*;
use vstd::slice::slice_subrange;

use crate::codec::{
    compress_xz, compute_sha1, decoder_gave, decompress_xz, encoder_gave, sha1_digest, xz_decoded,
    xz_encoded, XzError, SHA_DIGEST_LENGTH, XZ_LEVEL,
};
use crate::error::{Failure, ImageError};
use crate::image::{display_akai_image_info, starts_with, AkaiImage, Inspection};
use crate::laws::{
    law_rebuilt_front_is_kept, law_rebuilt_gives_stream_back, law_rebuilt_is_read,
    lemma_rebuilt_len,
};
use crate::layout::{
    copied, displayable, image_fields, outcome, padding, part_record, partl_at,
    recorded_hash, report, ImageFields,
};
use crate::records::{append, PartFields, PartInfo};

verus! {

/// Bytes of the last section that a rebuilt image takes over.
pub const EOF_SECTION: usize = 16;

/// Why a copied partition does not give a root file system.
#[derive(Debug)]
pub enum ExtractError {
    /// The digest of the compressed partition is not the recorded one.
    HashMismatch,
    /// The partition cannot be decompressed.
    Xz(XzError),
}

/// What a copied partition comes to.
#[derive(Debug)]
pub struct Unpacked {
    /// The digest of the compressed partition.
    pub hash: [u8; SHA_DIGEST_LENGTH],
    /// The partition, or as much of it as could be decompressed; nothing if its digest is wrong.
    pub rootfs: Vec<u8>,
    /// Whether its digest is right and all of it could be decompressed, and if not, why.
    pub done: Result<(), ExtractError>,
}

/// What came of taking the root file system out of an image.
#[derive(Debug)]
pub struct Extraction {
    pub inspection: Inspection,
    /// What the copied partition comes to, for an image that can be read.
    pub unpacked: Option<Unpacked>,
}

/// An image made with another root file system.
#[derive(Debug)]
pub struct Rebuilt {
    /// The compressed partition.
    pub stream: Vec<u8>,
    /// Its digest.
    pub hash: [u8; SHA_DIGEST_LENGTH],
    /// The image.
    pub image: Vec<u8>,
}

/// Why an image cannot be made.
#[derive(Debug)]
pub enum MakeError {
    /// The image to start from cannot be read.
    Image(ImageError),
    /// The partition cannot be compressed.
    Xz(XzError),
}

/// The partition record of an image whose compressed partition becomes `stream`, of digest `hash`.
pub open spec fn new_record(b: Seq<u8>, stream: Seq<u8>, hash: Seq<u8>) -> PartFields {
    PartFields { size: stream.len() as u64, hash_code: hash, ..part_record(b) }
}

/// The image up to the end of its compressed partition, once that is `stream`.
pub open spec fn new_body(b: Seq<u8>, stream: Seq<u8>, hash: Seq<u8>) -> Seq<u8> {
    b.take(partl_at(b)) + new_record(b, stream, hash).bytes() + stream
}

/// `n` zero bytes.
pub open spec fn zeros(n: int) -> Seq<u8> {
    Seq::new(n as nat, |i: int| 0u8)
}

/// The image `b` with the compressed partition `stream` of digest `hash`: what stood in front of
/// the partition record, the record with the new size and digest, the stream, zeros up to a
/// multiple of eight and the last section.
pub open spec fn rebuilt(b: Seq<u8>, stream: Seq<u8>, hash: Seq<u8>) -> Seq<u8> {
    let body = new_body(b, stream, hash);
    body + zeros(padding(body.len() as int)) + b.skip(b.len() - EOF_SECTION)
}

/// The digest `hash` bears out a recorded one: it starts with it. A recorded one of full length
/// has to be equal to it.
pub open spec fn hash_holds(recorded: Seq<u8>, hash: Seq<u8>) -> bool {
    recorded.is_prefix_of(hash)
}

/// Compares a computed digest with a recorded one, which may be cut short.
pub fn verify_hash(recorded: &[u8], hash: &[u8; SHA_DIGEST_LENGTH]) -> (holds: bool)
    ensures
        holds == hash_holds(recorded@, hash@),
        recorded@.len() == SHA_DIGEST_LENGTH ==> holds == (recorded@ == hash@),
{
    let holds = recorded.len() <= SHA_DIGEST_LENGTH && starts_with(hash.as_slice(), recorded);
    assert(hash@.take(SHA_DIGEST_LENGTH as int) =~= hash@);
    holds
}

/// Hashes a copied partition, compares the digest with the recorded one and, if that holds,
/// decompresses the partition.
pub fn unpack(stream: &[u8], recorded: &[u8]) -> (unpacked: Unpacked)
    ensures
        unpacked.hash@ == sha1_digest(stream@),
        match unpacked.done {
            Ok(()) => {
                &&& hash_holds(recorded@, sha1_digest(stream@))
                &&& xz_decoded(stream@) == Some(unpacked.rootfs@)
            },
            Err(ExtractError::HashMismatch) => {
                &&& !hash_holds(recorded@, sha1_digest(stream@))
                &&& unpacked.rootfs@ == Seq::<u8>::empty()
            },
            Err(ExtractError::Xz(e)) => {
                &&& hash_holds(recorded@, sha1_digest(stream@))
                &&& e is Rejected ==> xz_decoded(stream@) is None
                &&& decoder_gave(stream@, unpacked.rootfs@, Err(e))
            },
        },
        recorded@.len() == SHA_DIGEST_LENGTH ==> ((unpacked.done matches Err(
            ExtractError::HashMismatch,
        )) <==> recorded@ != sha1_digest(stream@)),
{
    let hash = compute_sha1(stream);
    let mut rootfs: Vec<u8> = Vec::new();
    if !verify_hash(recorded, &hash) {
        return Unpacked { hash, rootfs, done: Err(ExtractError::HashMismatch) };
    }
    let done = match decompress_xz(stream, &mut rootfs) {
        Ok(()) => {
            assert(rootfs@ =~= xz_decoded(stream@)->Some_0);
            Ok(())
        },
        Err(e) => {
            assert forall|written: Seq<u8>| #[trigger]
                decoder_gave(stream@, written, Err(e)) && rootfs@ == Seq::<u8>::empty()
                    + written implies decoder_gave(stream@, rootfs@, Err(e)) by {
                assert(Seq::<u8>::empty() + written =~= written);
            }
            Err(ExtractError::Xz(e))
        },
    };
    Unpacked { hash, rootfs, done }
}

/// Takes the root file system out of an image. The digest of the compressed partition has to be
/// the one that the image records.
pub fn extract_rootfs_partition(image: &[u8]) -> (extraction: Extraction)
    requires
        displayable(image@),
    ensures
        extraction.inspection.report@ == report(image@, true),
        match extraction.inspection.copied {
            Some(bytes) => copied(image@, true) == Some(bytes@),
            None => copied(image@, true) is None,
        },
        match extraction.inspection.outcome {
            Ok(fields) => outcome(image@, true) == Ok::<ImageFields, Failure>(fields@),
            Err(e) => outcome(image@, true) == Err::<ImageFields, Failure>(e@),
        },
        match extraction.unpacked {
            Some(unpacked) => {
                let stream = copied(image@, true)->Some_0;
                let p = part_record(image@);
                &&& outcome(image@, true) is Ok
                &&& copied(image@, true) is Some
                &&& unpacked.hash@ == sha1_digest(stream)
                &&& match unpacked.done {
                    Ok(()) => {
                        &&& hash_holds(recorded_hash(p), sha1_digest(stream))
                        &&& xz_decoded(stream) == Some(unpacked.rootfs@)
                    },
                    Err(ExtractError::HashMismatch) => {
                        &&& !hash_holds(recorded_hash(p), sha1_digest(stream))
                        &&& unpacked.rootfs@ == Seq::<u8>::empty()
                    },
                    Err(ExtractError::Xz(e)) => {
                        &&& hash_holds(recorded_hash(p), sha1_digest(stream))
                        &&& e is Rejected ==> xz_decoded(stream) is None
                        &&& decoder_gave(stream, unpacked.rootfs@, Err(e))
                    },
                }
                &&& p.hash_len == SHA_DIGEST_LENGTH ==> ((unpacked.done matches Err(
                    ExtractError::HashMismatch,
                )) <==> sha1_digest(stream) != p.hash_code)
            },
            None => outcome(image@, true) is Err,
        },
{
    let inspection = display_akai_image_info(image, true);
    let unpacked = match (&inspection.outcome, &inspection.copied) {
        (Ok(fields), Some(stream)) => {
            let recorded = slice_subrange(
                fields.p.hash_code.as_slice(),
                0,
                fields.p.hash_len as usize,
            );
            assert(fields@.p == part_record(image@));
            assert(recorded@ =~= recorded_hash(part_record(image@)));
            assert(fields.p.hash_code@.take(SHA_DIGEST_LENGTH as int) =~= fields.p.hash_code@);
            Some(unpack(stream.as_slice(), recorded))
        },
        _ => None,
    };
    Extraction { inspection, unpacked }
}

/// Puts a compressed partition and its digest into an image that has been read.
pub fn rebuild_image(
    image: &[u8],
    fields: &AkaiImage,
    stream: &[u8],
    hash: [u8; SHA_DIGEST_LENGTH],
) -> (made: Vec<u8>)
    requires
        outcome(image@, false) == Ok::<ImageFields, Failure>(fields@),
    ensures
        made@ == rebuilt(image@, stream@, hash@),
{
    let ghost b = image@;
    let len: usize = image.len();
    assert(fields@.partl_offset == partl_at(b));
    assert(fields.partl_offset < len);
    let mut out: Vec<u8> = Vec::new();
    append(&mut out, slice_subrange(image, 0, fields.partl_offset as usize));
    assert(out@ =~= b.take(partl_at(b)));
    let p = PartInfo { size: stream.len() as u64, hash_code: hash, ..fields.p };
    assert(p@ =~= new_record(b, stream@, hash@));
    p.write_to(&mut out);
    append(&mut out, stream);
    assert(out@ =~= new_body(b, stream@, hash@));
    let padding_needed: usize = (8 - out.len() % 8) % 8;
    let zero_pad: Vec<u8> = vec![0u8; padding_needed];
    assert(zero_pad@ =~= zeros(padding_needed as int));
    append(&mut out, zero_pad.as_slice());
    append(&mut out, slice_subrange(image, len - EOF_SECTION, len));
    assert(out@ =~= rebuilt(b, stream@, hash@));
    out
}

/// What is read of, and copied out of, an image that was made.
proof fn lemma_made(b: Seq<u8>, stream: Seq<u8>, hash: Seq<u8>)
    requires
        displayable(b),
        outcome(b, false) is Ok,
        hash == sha1_digest(stream),
        hash.len() == SHA_DIGEST_LENGTH,
        stream.len() <= u64::MAX,
    ensures
        ({
            let m = rebuilt(b, stream, hash);
            let fields = ImageFields {
                p: new_record(b, stream, hash),
                ..outcome(b, false)->Ok_0
            };
            &&& displayable(m)
            &&& copied(m, true) == Some(stream)
            &&& part_record(m).hash_code == hash
            &&& hash_holds(recorded_hash(part_record(m)), hash)
            &&& m.len() <= i64::MAX ==> outcome(m, false) == Ok::<ImageFields, Failure>(fields)
            &&& m.len() <= i64::MAX ==> outcome(m, true) == Ok::<ImageFields, Failure>(fields)
        }),
{
    let m = rebuilt(b, stream, hash);
    law_rebuilt_front_is_kept(b, stream, hash);
    law_rebuilt_gives_stream_back(b, stream, hash);
    assert(part_record(m) == image_fields(m).p);
    if m.len() <= i64::MAX {
        lemma_rebuilt_len(b, stream, hash);
        law_rebuilt_is_read(b, stream, hash, false);
        law_rebuilt_is_read(b, stream, hash, true);
    }
}

/// Makes an image like `image` with the root file system `part`. What is copied out of the image
/// that is made is the compressed partition, its digest is the one recorded there, and it
/// decompresses to `part`.
pub fn make_akai_image(image: &[u8], part: &[u8]) -> (made: Result<Rebuilt, MakeError>)
    requires
        displayable(image@),
    ensures
        match made {
            Ok(m) => {
                &&& outcome(image@, false) is Ok
                &&& m.stream@ == xz_encoded(part@, XZ_LEVEL)
                &&& xz_decoded(m.stream@) == Some(part@)
                &&& m.hash@ == sha1_digest(m.stream@)
                &&& m.image@ == rebuilt(image@, m.stream@, m.hash@)
                &&& displayable(m.image@)
                &&& copied(m.image@, true) == Some(m.stream@)
                &&& part_record(m.image@).hash_code == m.hash@
                &&& hash_holds(recorded_hash(part_record(m.image@)), m.hash@)
                &&& m.image@.len() <= i64::MAX ==> {
                    let fields = ImageFields {
                        p: new_record(image@, m.stream@, m.hash@),
                        ..outcome(image@, false)->Ok_0
                    };
                    &&& outcome(m.image@, false) == Ok::<ImageFields, Failure>(fields)
                    &&& outcome(m.image@, true) == Ok::<ImageFields, Failure>(fields)
                }
            },
            Err(MakeError::Image(e)) => outcome(image@, false) == Err::<ImageFields, Failure>(e@),
            Err(MakeError::Xz(e)) => {
                &&& outcome(image@, false) is Ok
                &&& e is Unavailable
                &&& encoder_gave(part@, 6, Err(e))
            },
        },
{
    let fields = match display_akai_image_info(image, false).outcome {
        Ok(fields) => fields,
        Err(e) => return Err(MakeError::Image(e)),
    };
    let stream = match compress_xz(part) {
        Ok(stream) => stream,
        Err(e) => return Err(MakeError::Xz(e)),
    };
    let hash = compute_sha1(stream.as_slice());
    let made = rebuild_image(image, &fields, stream.as_slice(), hash);
    proof {
        assert(stream.len() <= u64::MAX);
        lemma_made(image@, stream@, hash@);
    }
    Ok(Rebuilt { stream, hash, image: made })
}

} // verus!
