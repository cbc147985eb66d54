//! What holds of making an image and of taking its root file system out, said of images that were
//! put together from their pieces.

use vstd::prelude::*;

use crate::assembly::{
    aligned, eight_bytes, end_of, fields_of, four_bytes, is_record, law_assembled_is_read,
    law_complete_image_is_read, lemma_aligned, lemma_eight, lemma_four, lemma_peel,
    lemma_peel_number, lemma_put_together, lemma_regroup, put_together, record_bytes, Front,
};
use crate::bytes::lemma_le_bytes_round_trip;
use crate::codec::{decoder_gave, encoder_gave, sha1_digest, xz_decoded, XzError};
use crate::error::Failure;
use crate::image::{display_akai_image_info, Inspection};
use crate::layout::{
    copied, displayable, outcome, padding, part_record, partl_at, recorded_hash, ImageFields,
};
use crate::rebuild::{
    extract_rootfs_partition, hash_holds, make_akai_image, new_body, new_record, rebuilt, unpack,
    zeros, ExtractError, Extraction, MakeError, Rebuilt, Unpacked,
};
use crate::records::{device_at, DeviceFields, HeaderFields, PartFields, DEVICE_LEN};

verus! {

/// A header is written byte for byte in the order of its fields, numbers with the least significant
/// byte first.
pub proof fn law_header_bytes(h: HeaderFields)
    ensures
        h.bytes() == h.header + four_bytes(h.value1) + four_bytes(h.value2) + four_bytes(
            h.img_name_len,
        ) + h.img_name,
{
    lemma_four(h.value1);
    lemma_four(h.value2);
    lemma_four(h.img_name_len);
}

/// A partition record is written byte for byte in the order of its fields, numbers with the least
/// significant byte first.
pub proof fn law_record_bytes(p: PartFields)
    ensures
        p.bytes() == record_bytes(p),
{
    lemma_eight(p.size);
    lemma_le_bytes_round_trip(eight_bytes(p.size));
    lemma_four(p.part_type);
    lemma_four(p.format);
    lemma_four(p.info1);
    lemma_four(p.info2);
    lemma_four(p.hash_len);
}

/// A device record is read field by field: the length of the name, its sixteen bytes, the USB id. It
/// has no more bytes than these.
pub proof fn law_device_is_read(pre: Seq<u8>, d: DeviceFields, post: Seq<u8>)
    requires
        d.device_name.len() == 16,
    ensures
        device_at(
            pre + four_bytes(d.device_name_len) + d.device_name + four_bytes(d.usb_id) + post,
            pre.len() as int,
        ) == d,
        four_bytes(d.device_name_len).len() + d.device_name.len() + four_bytes(d.usb_id).len()
            == DEVICE_LEN,
{
    let s0 = pre + four_bytes(d.device_name_len);
    let s1 = s0 + d.device_name;
    let s2 = s1 + four_bytes(d.usb_id);
    let b = s2 + post;
    assert(b.subrange(0, s2.len() as int) =~= s2);
    lemma_four(d.device_name_len);
    lemma_peel_number(b, s1, d.usb_id);
    lemma_peel(b, s0, d.device_name);
    lemma_peel_number(b, pre, d.device_name_len);
}

/// Zero bytes up to the next multiple of eight from `at` on.
pub open spec fn zeros_behind(at: int) -> Seq<u8> {
    Seq::new((aligned(at) - at) as nat, |i: int| 0u8)
}

/// The image that is made of one with the front `f`, the record `p` and `tail` behind it: the same
/// front, the record with the size and the digest of `stream`, the stream, zeros up to a multiple
/// of eight, and the last sixteen bytes of the first image.
pub open spec fn made_of(
    f: Front,
    p: PartFields,
    tail: Seq<u8>,
    stream: Seq<u8>,
    hash: Seq<u8>,
) -> Seq<u8> {
    let q = PartFields { size: stream.len() as u64, hash_code: hash, ..p };
    let b = put_together(f, p, tail);
    f.bytes() + record_bytes(q) + stream + zeros_behind(
        f.bytes().len() as int + 76 + stream.len(),
    ) + b.skip(b.len() - 16)
}

/// What is made of an image that was put together is put together from the same pieces, with the
/// new partition, its size and its digest in place of the old ones.
pub proof fn law_made_of_pieces(
    f: Front,
    p: PartFields,
    tail: Seq<u8>,
    stream: Seq<u8>,
    hash: Seq<u8>,
)
    requires
        f.wf(),
        is_record(p),
        hash.len() == 20,
    ensures
        rebuilt(put_together(f, p, tail), stream, hash) == made_of(f, p, tail, stream, hash),
{
    let b = put_together(f, p, tail);
    let q = PartFields { size: stream.len() as u64, hash_code: hash, ..p };
    lemma_put_together(f, p, tail);
    lemma_put_together(f, q, tail);
    law_record_bytes(q);
    assert(b.take(partl_at(b)) =~= f.bytes());
    assert(new_record(b, stream, hash) =~= q);
    let body = f.bytes() + record_bytes(q) + stream;
    assert(new_body(b, stream, hash) == body);
    lemma_aligned(body.len() as int);
    assert(zeros(padding(body.len() as int)) =~= zeros_behind(body.len() as int));
}

/// The image that is put together can be read with its partition skipped, and its lengths fit.
pub open spec fn is_readable(f: Front, p: PartFields, tail: Seq<u8>) -> bool {
    &&& f.wf()
    &&& f.names_fit()
    &&& is_record(p)
    &&& p.hash_len <= 20
    &&& p.size < 0x8000_0000_0000_0000
    &&& aligned(f.bytes().len() as int + 76 + p.size) <= i64::MAX
    &&& aligned(f.bytes().len() as int + 76 + p.size) + 3 <= put_together(f, p, tail).len()
}

/// A readable image is read, and displayed.
proof fn lemma_readable(f: Front, p: PartFields, tail: Seq<u8>)
    requires
        is_readable(f, p, tail),
    ensures
        outcome(put_together(f, p, tail), false) == Ok::<ImageFields, Failure>(fields_of(f, p)),
        displayable(put_together(f, p, tail)),
{
    law_assembled_is_read(f, p, tail, false);
    lemma_aligned(end_of(f, p, false));
}

/// Making an image succeeds on every image that can be read and every root file system on which the
/// encoder does not fail, whatever their sizes are. What is made is put together from the pieces of
/// the image and a stream that decompresses to the root file system, with the stream's length and
/// digest in its record.
pub proof fn law_making_succeeds(
    image: &[u8],
    part: &[u8],
    made: Result<Rebuilt, MakeError>,
    f: Front,
    p: PartFields,
    tail: Seq<u8>,
)
    requires
        call_ensures(make_akai_image, (image, part), made),
        is_readable(f, p, tail),
        image@ == put_together(f, p, tail),
        forall|e: XzError| !encoder_gave(part@, 6, Err::<Vec<u8>, XzError>(e)),
    ensures
        made matches Ok(m) && {
            &&& m.image@ == made_of(f, p, tail, m.stream@, sha1_digest(m.stream@))
            &&& m.hash@ == sha1_digest(m.stream@)
            &&& xz_decoded(m.stream@) == Some(part@)
        },
{
    lemma_readable(f, p, tail);
    if let Ok(m) = made {
        assert(m.hash@.len() == 20);
        law_made_of_pieces(f, p, tail, m.stream@, m.hash@);
    }
}

/// Making an image fails only as the image cannot be read, or as the encoder failed on the root file
/// system.
pub proof fn law_making_fails_for_a_reason(
    image: &[u8],
    part: &[u8],
    made: Result<Rebuilt, MakeError>,
)
    requires
        call_ensures(make_akai_image, (image, part), made),
        made is Err,
    ensures
        outcome(image@, false) is Err || exists|e: XzError|
            #[trigger] encoder_gave(part@, 6, Err::<Vec<u8>, XzError>(e)),
{
}

/// A stream of the recorded digest that decompresses to `data`, and on which the decoder does not
/// fail, is unpacked to `data`, whatever its size is.
pub proof fn law_unpacking_succeeds(
    stream: &[u8],
    recorded: &[u8],
    unpacked: Unpacked,
    data: Seq<u8>,
)
    requires
        call_ensures(unpack, (stream, recorded), unpacked),
        recorded@.len() <= 20,
        forall|i: int| 0 <= i < recorded@.len() ==> recorded@[i] == sha1_digest(stream@)[i],
        xz_decoded(stream@) == Some(data),
        forall|w: Seq<u8>, e: XzError| !decoder_gave(stream@, w, Err::<(), XzError>(e)),
    ensures
        unpacked.done is Ok,
        unpacked.rootfs@ == data,
        unpacked.hash@ == sha1_digest(stream@),
{
    assert(unpacked.hash@.len() == 20);
    assert(recorded@ =~= sha1_digest(stream@).subrange(0, recorded@.len() as int));
}

/// A stream is not unpacked where some recorded byte differs from that of the digest, and nothing is
/// written then.
pub proof fn law_wrong_digest_is_told(stream: &[u8], recorded: &[u8], unpacked: Unpacked, i: int)
    requires
        call_ensures(unpack, (stream, recorded), unpacked),
        0 <= i < recorded@.len(),
        i >= 20 || recorded@[i] != sha1_digest(stream@)[i],
    ensures
        unpacked.done == Err::<(), ExtractError>(ExtractError::HashMismatch),
        unpacked.rootfs@.len() == 0,
{
    assert(unpacked.hash@.len() == 20);
    if hash_holds(recorded@, sha1_digest(stream@)) {
        assert(recorded@[i] == sha1_digest(stream@).subrange(0, recorded@.len() as int)[i]);
    }
}

/// Unpacking fails only for a digest that is not the recorded one, or as the decoder failed on the
/// stream; what that had written by then is kept.
pub proof fn law_unpacking_fails_for_a_reason(
    stream: &[u8],
    recorded: &[u8],
    unpacked: Unpacked,
)
    requires
        call_ensures(unpack, (stream, recorded), unpacked),
        unpacked.done is Err,
    ensures
        ({
            ||| exists|i: int|
                0 <= i < recorded@.len() && (i >= 20 || #[trigger] recorded@[i] != sha1_digest(
                    stream@,
                )[i])
            ||| exists|e: XzError| #[trigger]
                decoder_gave(stream@, unpacked.rootfs@, Err::<(), XzError>(e))
        }),
{
    assert(unpacked.hash@.len() == 20);
    let digest = sha1_digest(stream@);
    match unpacked.done {
        Err(ExtractError::Xz(e)) => {
            assert(decoder_gave(stream@, unpacked.rootfs@, Err::<(), XzError>(e)));
        },
        _ => {
            if recorded@.len() > 20 {
                let other = recorded@[20];
            } else if !(exists|i: int|
                0 <= i < recorded@.len() && #[trigger] recorded@[i] != digest[i]) {
                assert(recorded@ =~= digest.subrange(0, recorded@.len() as int));
            }
        },
    }
}

/// What is taken out of an image that can be read.
proof fn lemma_taken_out(
    image: &[u8],
    taken: Extraction,
    p: PartFields,
    stream: Seq<u8>,
    data: Seq<u8>,
)
    requires
        call_ensures(extract_rootfs_partition, (image,), taken),
        outcome(image@, true) is Ok,
        copied(image@, true) == Some(stream),
        part_record(image@) == p,
        p.hash_code.len() == 20,
        p.hash_len <= 20,
        forall|i: int| 0 <= i < p.hash_len ==> p.hash_code[i] == sha1_digest(stream)[i],
        xz_decoded(stream) == Some(data),
        forall|w: Seq<u8>, e: XzError| !decoder_gave(stream, w, Err::<(), XzError>(e)),
    ensures
        taken.unpacked matches Some(u) && u.done is Ok && u.rootfs@ == data && u.hash@
            == sha1_digest(stream),
{
    if let Some(u) = taken.unpacked {
        assert(u.hash@.len() == 20);
        assert(recorded_hash(p) =~= sha1_digest(stream).subrange(0, p.hash_len as int));
    }
}

/// The root file system is taken out of every complete image whose partition has the recorded
/// digest and decompresses, unless the decoder fails on it.
pub proof fn law_extracting_succeeds(
    image: &[u8],
    taken: Extraction,
    f: Front,
    p: PartFields,
    stream: Seq<u8>,
    pad: Seq<u8>,
    last: Seq<u8>,
    data: Seq<u8>,
)
    requires
        call_ensures(extract_rootfs_partition, (image,), taken),
        f.wf(),
        is_record(p),
        p.size == stream.len(),
        pad.len() < 8,
        (f.bytes().len() + 76 + stream.len() + pad.len()) % 8 == 0,
        f.bytes().len() + 76 + stream.len() + pad.len() <= i64::MAX,
        last.len() >= 3,
        image@ == f.bytes() + record_bytes(p) + stream + pad + last,
        p.hash_len <= 20,
        forall|i: int| 0 <= i < p.hash_len ==> p.hash_code[i] == sha1_digest(stream)[i],
        xz_decoded(stream) == Some(data),
        forall|w: Seq<u8>, e: XzError| !decoder_gave(stream, w, Err::<(), XzError>(e)),
    ensures
        taken.unpacked matches Some(u) && u.done is Ok && u.rootfs@ == data && u.hash@
            == sha1_digest(stream),
{
    let tail = stream + pad + last;
    law_complete_image_is_read(f, p, stream, pad, last);
    lemma_regroup(f.bytes() + record_bytes(p), stream, pad, last);
    assert(part_record(image@) == p) by {
        lemma_put_together(f, p, tail);
    }
    lemma_taken_out(image, taken, p, stream, data);
}

/// Taking the root file system out of an image that was made gives what it was made with, unless
/// the decoder fails on it.
pub proof fn law_extracting_undoes_making(
    image: &[u8],
    part: &[u8],
    m: Rebuilt,
    again: &[u8],
    taken: Extraction,
)
    requires
        call_ensures(make_akai_image, (image, part), Ok::<Rebuilt, MakeError>(m)),
        again@ == m.image@,
        call_ensures(extract_rootfs_partition, (again,), taken),
        m.image@.len() <= i64::MAX,
        forall|w: Seq<u8>, e: XzError| !decoder_gave(m.stream@, w, Err::<(), XzError>(e)),
    ensures
        taken.unpacked matches Some(u) && u.done is Ok && u.rootfs@ == part@,
{
}

/// The root file system is not taken out of an image whose partition has another digest than the
/// recorded one.
pub proof fn law_extracting_tells_wrong_digest(
    image: &[u8],
    taken: Extraction,
    f: Front,
    p: PartFields,
    stream: Seq<u8>,
    pad: Seq<u8>,
    last: Seq<u8>,
    i: int,
)
    requires
        call_ensures(extract_rootfs_partition, (image,), taken),
        f.wf(),
        is_record(p),
        p.size == stream.len(),
        pad.len() < 8,
        (f.bytes().len() + 76 + stream.len() + pad.len()) % 8 == 0,
        f.bytes().len() + 76 + stream.len() + pad.len() <= i64::MAX,
        last.len() >= 3,
        image@ == f.bytes() + record_bytes(p) + stream + pad + last,
        0 <= i < p.hash_len <= 20,
        p.hash_code[i] != sha1_digest(stream)[i],
    ensures
        taken.unpacked matches Some(u) && u.rootfs@.len() == 0 && u.done == Err::<
            (),
            ExtractError,
        >(ExtractError::HashMismatch),
{
    let tail = stream + pad + last;
    law_complete_image_is_read(f, p, stream, pad, last);
    lemma_regroup(f.bytes() + record_bytes(p), stream, pad, last);
    assert(part_record(image@) == p) by {
        lemma_put_together(f, p, tail);
    }
    lemma_kept_back(image, taken, p, stream, i);
}

/// What is not taken out of an image that can be read.
proof fn lemma_kept_back(
    image: &[u8],
    taken: Extraction,
    p: PartFields,
    stream: Seq<u8>,
    i: int,
)
    requires
        call_ensures(extract_rootfs_partition, (image,), taken),
        outcome(image@, true) is Ok,
        copied(image@, true) == Some(stream),
        part_record(image@) == p,
        p.hash_code.len() == 20,
        0 <= i < p.hash_len <= 20,
        p.hash_code[i] != sha1_digest(stream)[i],
    ensures
        taken.unpacked matches Some(u) && u.rootfs@.len() == 0 && u.done == Err::<
            (),
            ExtractError,
        >(ExtractError::HashMismatch),
{
    if hash_holds(recorded_hash(p), sha1_digest(stream)) {
        assert(recorded_hash(p)[i] == sha1_digest(stream).subrange(0, p.hash_len as int)[i]);
    }
}

/// Every complete image is displayed: its fields are those of its pieces, and the copy is its
/// partition.
pub proof fn law_displaying_succeeds(
    image: &[u8],
    extract: bool,
    seen: Inspection,
    f: Front,
    p: PartFields,
    stream: Seq<u8>,
    pad: Seq<u8>,
    last: Seq<u8>,
)
    requires
        call_ensures(display_akai_image_info, (image, extract), seen),
        f.wf(),
        is_record(p),
        p.size == stream.len(),
        pad.len() < 8,
        (f.bytes().len() + 76 + stream.len() + pad.len()) % 8 == 0,
        f.bytes().len() + 76 + stream.len() + pad.len() <= i64::MAX,
        last.len() >= 3,
        image@ == f.bytes() + record_bytes(p) + stream + pad + last,
    ensures
        seen.outcome matches Ok(fields) && fields@ == fields_of(f, p),
        extract ==> (seen.copied matches Some(bytes) && bytes@ == stream),
        !extract ==> seen.copied is None,
{
    law_complete_image_is_read(f, p, stream, pad, last);
}

} // verus!
