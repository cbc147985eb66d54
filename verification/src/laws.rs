//! What holds of images as wholes: of reading them, and of reading one that was made.

use vstd::prelude::*;

use crate::codec::{sha1_digest, xz_decoded, SHA_DIGEST_LENGTH};
use crate::error::Failure;
use crate::layout::{
    copied, desc_end, desc_len, desc_len_at, device, device_count, device_names, device_text,
    devices_read, displayable, ending_text, find, front_failure, front_text, has_header,
    image_fields, marker_at, marker_text, name_at, name_bytes, name_len, name_line, outcome,
    padding, part_lines, part_record, part_text, partition_end, partl_at, reaches_partition,
    recorded_hash, report, usb_at, usb_count, usb_count_at, usb_id, usb_ids, usb_ids_read, usb_text, xz_at,
    ImageFields,
};
use crate::rebuild::{hash_holds, new_body, new_record, rebuilt, zeros, EOF_SECTION};
use crate::records::{
    header_at, law_part_read_is_written, law_part_written_is_read, part_at, PART_LEN,
};
use crate::text::number;

verus! {

/// Sequences that agree on their first `n` elements agree on every range of these.
pub(crate) proof fn lemma_same_range(b: Seq<u8>, c: Seq<u8>, n: int, lo: int, hi: int)
    requires
        0 <= lo <= hi <= n,
        n <= b.len(),
        n <= c.len(),
        b.take(n) == c.take(n),
    ensures
        b.subrange(lo, hi) == c.subrange(lo, hi),
{
    assert(b.subrange(lo, hi) =~= b.take(n).subrange(lo, hi));
    assert(c.subrange(lo, hi) =~= c.take(n).subrange(lo, hi));
}

/// A search ends at the first byte that is looked for, or at the end.
pub(crate) proof fn lemma_find(b: Seq<u8>, x: u8, from: int)
    requires
        0 <= from <= b.len(),
    ensures
        from <= find(b, x, from) <= b.len(),
        find(b, x, from) < b.len() ==> b[find(b, x, from)] == x,
        forall|i: int| from <= i < find(b, x, from) ==> b[i] != x,
    decreases b.len() - from,
{
    if from < b.len() && b[from] != x {
        lemma_find(b, x, from + 1);
    }
}

/// Only the bytes up to where it ends matter to a search.
proof fn lemma_find_same(b: Seq<u8>, c: Seq<u8>, x: u8, from: int)
    requires
        0 <= from <= b.len(),
        find(b, x, from) < b.len(),
        find(b, x, from) < c.len(),
        b.take(find(b, x, from) + 1) == c.take(find(b, x, from) + 1),
    ensures
        find(c, x, from) == find(b, x, from),
    decreases b.len() - from,
{
    let at = find(b, x, from);
    lemma_find(b, x, from);
    assert(b.take(at + 1)[from] == c.take(at + 1)[from]);
    if b[from] != x {
        lemma_find_same(b, c, x, from + 1);
    }
}

/// The parts in front of the partition record lie behind each other.
pub(crate) proof fn lemma_offsets(b: Seq<u8>)
    requires
        reaches_partition(b),
    ensures
        44 <= usb_count_at(b),
        usb_count_at(b) + 4 <= desc_len_at(b),
        desc_len_at(b) + 4 <= desc_end(b) <= partl_at(b) < b.len(),
{
    lemma_find(b, 0x50, desc_end(b));
}

/// What two images agree on, if they agree up to the first byte of the partition record.
pub(crate) proof fn lemma_same_front(b: Seq<u8>, c: Seq<u8>)
    requires
        reaches_partition(b),
        c.len() > partl_at(b),
        b.take(partl_at(b) + 1) == c.take(partl_at(b) + 1),
    ensures
        reaches_partition(c),
        partl_at(c) == partl_at(b),
        device_count(c) == device_count(b),
        usb_count_at(c) == usb_count_at(b),
        usb_count(c) == usb_count(b),
        desc_len_at(c) == desc_len_at(b),
        desc_len(c) == desc_len(b),
        desc_end(c) == desc_end(b),
        has_header(c) == has_header(b),
        header_at(c, 0) == header_at(b, 0),
        c.subrange(desc_len_at(c) + 4, desc_end(c)) == b.subrange(desc_len_at(b) + 4, desc_end(b)),
        forall|i: int|
            0 <= i < device_count(b) ==> #[trigger] name_len(c, i) == name_len(b, i),
        forall|i: int|
            0 <= i < device_count(b) ==> #[trigger] name_bytes(c, i) == name_bytes(b, i),
        forall|i: int| 0 <= i < usb_count(b) ==> #[trigger] usb_id(c, i) == usb_id(b, i),
{
    let n = partl_at(b) + 1;
    lemma_offsets(b);
    lemma_same_range(b, c, n, 0, 4);
    assert(b.take(4) =~= b.subrange(0, 4));
    assert(c.take(4) =~= c.subrange(0, 4));
    lemma_same_range(b, c, n, 4, 8);
    lemma_same_range(b, c, n, 8, 12);
    lemma_same_range(b, c, n, 12, 16);
    lemma_same_range(b, c, n, 16, 40);
    lemma_same_range(b, c, n, 40, 44);
    lemma_same_range(b, c, n, usb_count_at(b), usb_count_at(b) + 4);
    lemma_same_range(b, c, n, desc_len_at(b), desc_len_at(b) + 4);
    lemma_same_range(b, c, n, desc_len_at(b) + 4, desc_end(b));
    lemma_find_same(b, c, 0x50, desc_end(b));
    assert forall|i: int| 0 <= i < device_count(b) implies #[trigger] name_len(c, i) == name_len(
        b,
        i,
    ) by {
        lemma_same_range(b, c, n, name_at(i), name_at(i) + 4);
    }
    assert forall|i: int|
        0 <= i < device_count(b) implies #[trigger] name_bytes(c, i) == name_bytes(b, i) by {
        lemma_same_range(b, c, n, name_at(i) + 4, name_at(i) + 20);
    }
    assert forall|i: int| 0 <= i < usb_count(b) implies #[trigger] usb_id(c, i) == usb_id(b, i) by {
        lemma_same_range(b, c, n, usb_at(b, i), usb_at(b, i) + 4);
    }
}

/// Names that agree are reported alike.
proof fn lemma_same_names(b: Seq<u8>, c: Seq<u8>, n: int)
    requires
        forall|i: int| 0 <= i < n ==> #[trigger] name_len(c, i) == name_len(b, i),
        forall|i: int| 0 <= i < n ==> #[trigger] name_bytes(c, i) == name_bytes(b, i),
    ensures
        device_names(c, n) == device_names(b, n),
    decreases n,
{
    if n > 0 {
        lemma_same_names(b, c, n - 1);
        assert(name_len(c, n - 1) == name_len(b, n - 1));
        assert(name_bytes(c, n - 1) == name_bytes(b, n - 1));
    }
}

/// USB ids that agree are reported alike.
proof fn lemma_same_ids(b: Seq<u8>, c: Seq<u8>, n: int)
    requires
        forall|i: int| 0 <= i < n ==> #[trigger] usb_id(c, i) == usb_id(b, i),
    ensures
        usb_ids(c, n) == usb_ids(b, n),
    decreases n,
{
    if n > 0 {
        lemma_same_ids(b, c, n - 1);
        assert(usb_id(c, n - 1) == usb_id(b, n - 1));
    }
}

/// What stands in front of the compressed partition is read, and reported, from the bytes there
/// alone: it is the same in every image that starts with them.
pub proof fn law_front_is_local(b: Seq<u8>, c: Seq<u8>)
    requires
        front_failure(b) is None,
        c.len() >= xz_at(b),
        b.take(xz_at(b)) == c.take(xz_at(b)),
    ensures
        front_failure(c) is None,
        image_fields(c) == image_fields(b),
        front_text(c) == front_text(b),
        displayable(c) == displayable(b),
{
    lemma_offsets(b);
    assert(b.take(partl_at(b) + 1) =~= b.take(xz_at(b)).take(partl_at(b) + 1));
    assert(c.take(partl_at(b) + 1) =~= c.take(xz_at(b)).take(partl_at(b) + 1));
    lemma_same_front(b, c);
    lemma_same_part(b, c, partl_at(b));
    lemma_same_names(b, c, device_count(b) as int);
    lemma_same_ids(b, c, usb_count(b) as int);
    assert forall|i: int| 0 <= i < device_count(b) implies device(c, i) == device(b, i) by {
        assert(name_len(c, i) == name_len(b, i));
        assert(name_bytes(c, i) == name_bytes(b, i));
        if i < usb_count(b) {
            assert(usb_id(c, i) == usb_id(b, i));
        }
    }
    assert(image_fields(c).dev =~= image_fields(b).dev);
    assert(has_header(b));
    if displayable(b) {
        assert forall|i: int| 0 <= i < devices_read(c) implies #[trigger] name_len(c, i) <= 16 by {
            assert(name_len(c, i) == name_len(b, i));
        }
    }
    if displayable(c) {
        assert forall|i: int| 0 <= i < devices_read(b) implies #[trigger] name_len(b, i) <= 16 by {
            assert(name_len(c, i) == name_len(b, i));
        }
    }
}

/// Partition records in equal bytes are equal.
proof fn lemma_same_part(b: Seq<u8>, c: Seq<u8>, at: int)
    requires
        0 <= at,
        at + PART_LEN <= b.len(),
        at + PART_LEN <= c.len(),
        b.take(at + PART_LEN) == c.take(at + PART_LEN),
    ensures
        part_at(b, at) == part_at(c, at),
{
    let n = at + PART_LEN;
    lemma_same_range(b, c, n, at, at + 8);
    lemma_same_range(b, c, n, at + 8, at + 16);
    lemma_same_range(b, c, n, at + 16, at + 20);
    lemma_same_range(b, c, n, at + 20, at + 28);
    lemma_same_range(b, c, n, at + 28, at + 32);
    lemma_same_range(b, c, n, at + 32, at + 36);
    lemma_same_range(b, c, n, at + 36, at + 40);
    lemma_same_range(b, c, n, at + 40, at + 44);
    lemma_same_range(b, c, n, at + 44, at + 52);
    lemma_same_range(b, c, n, at + 52, at + 56);
    lemma_same_range(b, c, n, at + 56, at + 76);
}

/// Where the pieces of a sequence are that was put together from them.
proof fn lemma_pieces(
    front: Seq<u8>,
    record: Seq<u8>,
    stream: Seq<u8>,
    pad: Seq<u8>,
    last: Seq<u8>,
)
    ensures
        ({
            let m = front + record + stream + pad + last;
            let at = (front.len() + record.len()) as int;
            let end = at + stream.len();
            &&& m == front + record + (stream + pad + last)
            &&& m.len() == end + pad.len() + last.len()
            &&& m.take(front.len() as int) == front
            &&& m.subrange(at, end) == stream
            &&& m.subrange(end, end + pad.len()) == pad
            &&& m.skip(end + pad.len()) == last
        }),
{
    let m = front + record + stream + pad + last;
    let at = (front.len() + record.len()) as int;
    let end = at + stream.len();
    assert(m =~= front + record + (stream + pad + last));
    assert(m.take(front.len() as int) =~= front);
    assert(m.subrange(at, end) =~= stream);
    assert(m.subrange(end, end + pad.len()) =~= pad);
    assert(m.skip(end + pad.len()) =~= last);
}

/// The parts of a rebuilt image.
proof fn lemma_rebuilt_parts(b: Seq<u8>, stream: Seq<u8>, hash: Seq<u8>)
    requires
        front_failure(b) is None,
        hash.len() == SHA_DIGEST_LENGTH,
    ensures
        ({
            let m = rebuilt(b, stream, hash);
            let at = partl_at(b);
            let end = xz_at(b) + stream.len();
            &&& b.len() >= EOF_SECTION
            &&& new_record(b, stream, hash).wf()
            &&& m.len() == marker_at(end) + EOF_SECTION
            &&& m.take(at + 1) == b.take(at + 1)
            &&& part_at(m, at) == new_record(b, stream, hash)
            &&& m.subrange(xz_at(b), end) == stream
            &&& m.subrange(end, marker_at(end)) == zeros(padding(end))
            &&& m.skip(marker_at(end)) == b.skip(b.len() - EOF_SECTION)
        }),
{
    lemma_offsets(b);
    let m = rebuilt(b, stream, hash);
    let at = partl_at(b);
    let end = xz_at(b) + stream.len();
    let p = new_record(b, stream, hash);
    let pad = zeros(padding(end));
    let last = b.skip(b.len() - EOF_SECTION);
    law_part_read_is_written(b, at);
    law_part_written_is_read(b.take(at), p, stream + pad + last);
    lemma_pieces(b.take(at), p.bytes(), stream, pad, last);
    assert(p.tag[0] == b[at]);
    assert(part_at(m, at).tag[0] == m[at]);
    assert(m.take(at + 1) =~= b.take(at + 1)) by {
        assert(m.take(at) == b.take(at));
        assert(m.take(at + 1) =~= m.take(at).push(m[at]));
        assert(b.take(at + 1) =~= b.take(at).push(b[at]));
    }
}

/// The length of an image that was made.
pub(crate) proof fn lemma_rebuilt_len(b: Seq<u8>, stream: Seq<u8>, hash: Seq<u8>)
    requires
        front_failure(b) is None,
        hash.len() == SHA_DIGEST_LENGTH,
    ensures
        rebuilt(b, stream, hash).len() == marker_at(xz_at(b) + stream.len()) + EOF_SECTION,
{
    lemma_rebuilt_parts(b, stream, hash);
}

/// What stands in front of the compressed partition of an image that was made can be read, and is
/// what the image it was made from holds, but for the size and the digest of the partition: these
/// are the new ones.
pub proof fn law_rebuilt_front_is_kept(b: Seq<u8>, stream: Seq<u8>, hash: Seq<u8>)
    requires
        front_failure(b) is None,
        hash.len() == SHA_DIGEST_LENGTH,
    ensures
        front_failure(rebuilt(b, stream, hash)) is None,
        displayable(b) ==> displayable(rebuilt(b, stream, hash)),
        image_fields(rebuilt(b, stream, hash)) == (ImageFields {
            p: new_record(b, stream, hash),
            ..image_fields(b)
        }),
{
    let m = rebuilt(b, stream, hash);
    lemma_offsets(b);
    lemma_rebuilt_parts(b, stream, hash);
    lemma_same_front(b, m);
    assert forall|i: int| 0 <= i < device_count(b) implies device(m, i) == device(b, i) by {
        assert(name_len(m, i) == name_len(b, i));
        assert(name_bytes(m, i) == name_bytes(b, i));
        if i < usb_count(b) {
            assert(usb_id(m, i) == usb_id(b, i));
        }
    }
    assert(image_fields(m).dev =~= image_fields(b).dev);
    if displayable(b) {
        assert forall|i: int| 0 <= i < devices_read(m) implies #[trigger] name_len(m, i) <= 16 by {
            assert(name_len(m, i) == name_len(b, i));
        }
    }
    assert(image_fields(m) =~= (ImageFields {
        p: new_record(b, stream, hash),
        ..image_fields(b)
    }));
}

/// An image that was made can be read again, and holds what the image it was made from holds, but
/// for the size and the digest of the partition: these are the new ones. Its last section has to
/// start at a position that can be moved to.
pub proof fn law_rebuilt_is_read(b: Seq<u8>, stream: Seq<u8>, hash: Seq<u8>, extract: bool)
    requires
        front_failure(b) is None,
        hash.len() == SHA_DIGEST_LENGTH,
        marker_at(xz_at(b) + stream.len()) <= i64::MAX,
    ensures
        outcome(rebuilt(b, stream, hash), extract) == Ok::<ImageFields, Failure>(
            ImageFields { p: new_record(b, stream, hash), ..image_fields(b) },
        ),
{
    lemma_rebuilt_len(b, stream, hash);
    lemma_rebuilt_end(b, stream, hash, extract);
    law_rebuilt_front_is_kept(b, stream, hash);
}

/// The fields of an image that can be read are well-formed, and its partition record lies where
/// they say.
pub proof fn law_read_image_is_well_formed(b: Seq<u8>, extract: bool)
    requires
        outcome(b, extract) is Ok,
    ensures
        (outcome(b, extract)->Ok_0).wf(),
        (outcome(b, extract)->Ok_0).xz_part_offset <= b.len(),
        (outcome(b, extract)->Ok_0).p.bytes() == b.subrange(
            (outcome(b, extract)->Ok_0).partl_offset,
            (outcome(b, extract)->Ok_0).xz_part_offset,
        ),
{
    lemma_offsets(b);
    law_part_read_is_written(b, partl_at(b));
    assert(b.take(4) =~= b.subrange(0, 4));
}

/// What is copied out of an image that was made is the compressed partition that was put in.
pub proof fn law_rebuilt_gives_stream_back(b: Seq<u8>, stream: Seq<u8>, hash: Seq<u8>)
    requires
        front_failure(b) is None,
        hash.len() == SHA_DIGEST_LENGTH,
        stream.len() <= u64::MAX,
    ensures
        copied(rebuilt(b, stream, hash), true) == Some(stream),
{
    lemma_offsets(b);
    lemma_rebuilt_parts(b, stream, hash);
    lemma_same_front(b, rebuilt(b, stream, hash));
}

/// The root file system that an image is made with is the one that is taken out of it, and the
/// digest that is recorded with it is found to hold.
pub proof fn law_rootfs_round_trip(b: Seq<u8>, part: Seq<u8>, stream: Seq<u8>, hash: Seq<u8>)
    requires
        displayable(b),
        front_failure(b) is None,
        xz_decoded(stream) == Some(part),
        hash == sha1_digest(stream),
        hash.len() == SHA_DIGEST_LENGTH,
        marker_at(xz_at(b) + stream.len()) <= i64::MAX,
    ensures
        ({
            let m = rebuilt(b, stream, hash);
            &&& displayable(m)
            &&& outcome(m, true) is Ok
            &&& copied(m, true) matches Some(c) && {
                &&& hash_holds(recorded_hash(part_record(m)), sha1_digest(c))
                &&& xz_decoded(c) == Some(part)
            }
        }),
{
    lemma_offsets(b);
    law_rebuilt_front_is_kept(b, stream, hash);
    law_rebuilt_is_read(b, stream, hash, true);
    law_rebuilt_gives_stream_back(b, stream, hash);
    assert(part_record(rebuilt(b, stream, hash)) == image_fields(rebuilt(b, stream, hash)).p);
}

/// The digest in the partition record of an image that was made is that of the compressed
/// partition in it.
pub proof fn law_rebuilt_digest_holds(b: Seq<u8>, stream: Seq<u8>, hash: Seq<u8>)
    requires
        front_failure(b) is None,
        hash == sha1_digest(stream),
        hash.len() == SHA_DIGEST_LENGTH,
        stream.len() <= u64::MAX,
    ensures
        copied(rebuilt(b, stream, hash), true) is Some,
        part_record(rebuilt(b, stream, hash)).hash_code == sha1_digest(
            copied(rebuilt(b, stream, hash), true)->Some_0,
        ),
{
    law_rebuilt_front_is_kept(b, stream, hash);
    law_rebuilt_gives_stream_back(b, stream, hash);
    assert(part_record(rebuilt(b, stream, hash)) == image_fields(rebuilt(b, stream, hash)).p);
}

/// Where the compressed partition of a rebuilt image ends.
proof fn lemma_rebuilt_end(b: Seq<u8>, stream: Seq<u8>, hash: Seq<u8>, extract: bool)
    requires
        front_failure(b) is None,
        hash.len() == SHA_DIGEST_LENGTH,
        marker_at(xz_at(b) + stream.len()) <= i64::MAX,
    ensures
        partition_end(rebuilt(b, stream, hash), extract) == Ok::<int, Failure>(
            xz_at(b) + stream.len(),
        ),
{
    lemma_offsets(b);
    lemma_rebuilt_parts(b, stream, hash);
    lemma_same_front(b, rebuilt(b, stream, hash));
}

/// What is reported of the last section of an image `m` whose partition ends at `end`.
proof fn lemma_ending_text(m: Seq<u8>, extract: bool, end: int)
    requires
        outcome(m, extract) is Ok,
        partition_end(m, extract) == Ok::<int, Failure>(end),
        0 <= end,
    ensures
        ending_text(m, extract) == marker_text(m.skip(marker_at(end)).take(3)),
{
    let at = marker_at(end);
    assert(m.subrange(at, at + 3) =~= m.skip(at).take(3));
}

/// Padding leads to a multiple of eight.
proof fn lemma_marker_aligned(at: int)
    requires
        at >= 0,
    ensures
        marker_at(at) % 8 == 0,
        at <= marker_at(at) < at + 8,
{
}

/// The last section of an image that was made starts at a multiple of eight, is that of the image
/// it was made from, and reading finds `EOF` at its start just if it starts with that.
pub proof fn law_rebuilt_ending(b: Seq<u8>, stream: Seq<u8>, hash: Seq<u8>, extract: bool)
    requires
        front_failure(b) is None,
        hash.len() == SHA_DIGEST_LENGTH,
        marker_at(xz_at(b) + stream.len()) <= i64::MAX,
    ensures
        ({
            let m = rebuilt(b, stream, hash);
            &&& m.len() % 8 == 0
            &&& m.skip(m.len() - EOF_SECTION) == b.skip(b.len() - EOF_SECTION)
            &&& ending_text(m, extract) == marker_text(b.skip(b.len() - EOF_SECTION).take(3))
        }),
{
    let m = rebuilt(b, stream, hash);
    let end = xz_at(b) + stream.len();
    let at = marker_at(end);
    let section = b.skip(b.len() - EOF_SECTION);
    assert(end >= 0) by {
        lemma_offsets(b);
    }
    assert(m.len() == at + EOF_SECTION && m.skip(at) == section) by {
        lemma_rebuilt_parts(b, stream, hash);
    }
    assert(m.len() % 8 == 0) by {
        lemma_marker_aligned(end);
    }
    assert(ending_text(m, extract) == marker_text(m.skip(at).take(3))) by {
        lemma_rebuilt_end(b, stream, hash, extract);
        law_rebuilt_is_read(b, stream, hash, extract);
        lemma_ending_text(m, extract, end);
    }
}

/// Making an image from one that was made is making it from the first: nothing stays of the
/// partition in between.
pub proof fn law_last_rebuild_stays(
    b: Seq<u8>,
    stream1: Seq<u8>,
    hash1: Seq<u8>,
    stream2: Seq<u8>,
    hash2: Seq<u8>,
)
    requires
        front_failure(b) is None,
        hash1.len() == SHA_DIGEST_LENGTH,
        hash2.len() == SHA_DIGEST_LENGTH,
    ensures
        rebuilt(rebuilt(b, stream1, hash1), stream2, hash2) == rebuilt(b, stream2, hash2),
{
    let m = rebuilt(b, stream1, hash1);
    lemma_offsets(b);
    lemma_rebuilt_parts(b, stream1, hash1);
    lemma_same_front(b, m);
    let at = partl_at(b);
    assert(m.take(at) =~= m.take(at + 1).take(at));
    assert(b.take(at) =~= b.take(at + 1).take(at));
    assert(new_record(m, stream2, hash2) =~= new_record(b, stream2, hash2));
}

/// An image made with the very partition and digest that it has is the same image, if it pads
/// with zeros and its last section has the size that is taken over.
pub proof fn law_rebuild_with_own_partition(b: Seq<u8>)
    requires
        outcome(b, true) is Ok,
        ({
            let end = xz_at(b) + part_record(b).size;
            &&& b.len() == marker_at(end) + EOF_SECTION
            &&& b.subrange(end, marker_at(end)) == zeros(padding(end))
        }),
    ensures
        copied(b, true) is Some,
        rebuilt(b, copied(b, true)->Some_0, part_record(b).hash_code) == b,
{
    lemma_offsets(b);
    let at = partl_at(b);
    let end = xz_at(b) + part_record(b).size;
    let stream = copied(b, true)->Some_0;
    let hash = part_record(b).hash_code;
    law_part_read_is_written(b, at);
    assert(new_record(b, stream, hash) =~= part_record(b));
    assert(new_body(b, stream, hash) =~= b.take(end));
    assert(b.take(end) + b.subrange(end, marker_at(end)) + b.skip(marker_at(end)) =~= b);
}

/// Reading an image comes to the same, and the same is reported, whether the partition is copied or
/// skipped, for every partition that ends, with its padding, at a position that can be moved to.
pub proof fn law_copying_and_skipping_agree(b: Seq<u8>)
    requires
        front_failure(b) is None ==> marker_at(xz_at(b) + part_record(b).size) <= i64::MAX,
    ensures
        outcome(b, true) == outcome(b, false),
        report(b, true) == report(b, false),
{
    if front_failure(b) is None {
        lemma_offsets(b);
        lemma_marker_aligned(xz_at(b) + part_record(b).size);
    }
}

/// An image can be read with the partition copied just if it can be with the partition skipped,
/// and comes to the same then, unless the partition size is one that moves backwards.
pub proof fn law_copied_just_if_skipped(b: Seq<u8>)
    requires
        b.len() <= i64::MAX,
        front_failure(b) is None ==> part_record(b).size <= i64::MAX,
    ensures
        outcome(b, true) is Ok <==> outcome(b, false) is Ok,
        outcome(b, true) is Ok ==> outcome(b, true) == outcome(b, false),
        outcome(b, true) is Ok ==> report(b, true) == report(b, false),
{
    if front_failure(b) is None {
        lemma_offsets(b);
        lemma_marker_aligned(xz_at(b) + part_record(b).size);
    }
}

/// What is copied out of an image is the start of its compressed partition: all of it just if
/// the image has all of it, and otherwise the image cannot be read.
pub proof fn law_copied_is_start_of_partition(b: Seq<u8>)
    requires
        front_failure(b) is None,
    ensures
        ({
            let size = part_record(b).size;
            copied(b, true) matches Some(c) && {
                &&& c.len() <= size
                &&& xz_at(b) + c.len() <= b.len()
                &&& c == b.subrange(xz_at(b), xz_at(b) + c.len())
                &&& c.len() == size <==> xz_at(b) + size <= b.len()
                &&& c.len() < size ==> outcome(b, true) == Err::<ImageFields, Failure>(
                    Failure::UnexpectedEof,
                )
            }
        }),
{
    lemma_offsets(b);
}

/// Bytes behind the end of an image that can be read do not matter.
pub proof fn law_trailing_bytes_do_not_matter(b: Seq<u8>, more: Seq<u8>, extract: bool)
    requires
        outcome(b, extract) is Ok,
    ensures
        outcome(b + more, extract) == outcome(b, extract),
        report(b + more, extract) == report(b, extract),
        copied(b + more, extract) == copied(b, extract),
        displayable(b + more) == displayable(b),
{
    let c = b + more;
    lemma_offsets(b);
    assert(b.take(xz_at(b)) =~= c.take(xz_at(b)));
    law_front_is_local(b, c);
    assert(part_record(c) == image_fields(c).p);
    assert(part_record(b) == image_fields(b).p);
    assert(xz_at(c) == image_fields(c).xz_part_offset);
    assert(xz_at(b) == image_fields(b).xz_part_offset);
    let end = partition_end(b, extract)->Ok_0;
    assert(partition_end(c, extract) == partition_end(b, extract));
    let at = marker_at(end);
    assert(0 <= end);
    assert(c.subrange(at, at + 3) =~= b.subrange(at, at + 3));
    if extract {
        assert(c.subrange(xz_at(b), end) =~= b.subrange(xz_at(b), end));
    }
}

/// An image from which an end was cut that is needed to read it is found to be incomplete.
pub proof fn law_truncated_image_fails(b: Seq<u8>, n: int, extract: bool)
    requires
        outcome(b, extract) is Ok,
        0 <= n < marker_at(partition_end(b, extract)->Ok_0) + 3,
    ensures
        outcome(b.take(n), extract) == Err::<ImageFields, Failure>(Failure::UnexpectedEof),
{
    let c = b.take(n);
    lemma_offsets(b);
    if n >= 40 {
        assert(c.take(4) =~= b.take(4));
        if reaches_partition(c) {
            lemma_offsets(c);
            let at = partl_at(c);
            assert(c.take(at + 1) =~= b.take(at + 1));
            lemma_same_front(c, b);
            if n >= xz_at(b) {
                assert(c.take(xz_at(b)) =~= b.take(xz_at(b)));
                law_front_is_local(b, c);
                assert(part_record(c) == image_fields(c).p);
                assert(part_record(b) == image_fields(b).p);
            }
        }
    }
}

/// The names of the first devices start the names of more of them.
proof fn lemma_names_prefix(b: Seq<u8>, i: int, j: int)
    requires
        i <= j,
    ensures
        device_names(b, i).is_prefix_of(device_names(b, j)),
    decreases j - i,
{
    if i < j {
        lemma_names_prefix(b, i, j - 1);
    }
}

/// The first USB ids start more of them.
proof fn lemma_ids_prefix(b: Seq<u8>, i: int, j: int)
    requires
        i <= j,
    ensures
        usb_ids(b, i).is_prefix_of(usb_ids(b, j)),
    decreases j - i,
{
    if i < j {
        lemma_ids_prefix(b, i, j - 1);
    }
}

/// What starts a text still does with the same text in front of both.
proof fn lemma_prefix_behind(a: Seq<char>, x: Seq<char>, y: Seq<char>)
    requires
        x.is_prefix_of(y),
    ensures
        (a + x).is_prefix_of(a + y),
{
    assert((a + y).subrange(0, (a + x).len() as int) =~= a + x) by {
        assert(y.subrange(0, x.len() as int) == x);
        assert(a + y =~= a + (y.subrange(0, x.len() as int) + y.skip(x.len() as int)));
    }
}

/// What starts a text still does with more behind the text.
proof fn lemma_prefix_before(x: Seq<char>, y: Seq<char>, z: Seq<char>)
    requires
        x.is_prefix_of(y),
    ensures
        x.is_prefix_of(y + z),
{
    assert((y + z).subrange(0, x.len() as int) =~= y.subrange(0, x.len() as int));
}

/// What is reported of the partition record of a truncated image starts what is reported of the
/// image's.
proof fn lemma_part_text_prefix(b: Seq<u8>, n: int)
    requires
        0 <= n <= b.len(),
        has_header(b.take(n)),
    ensures
        part_text(b.take(n)).is_prefix_of(part_text(b)),
{
    let c = b.take(n);
    let empty = Seq::<char>::empty();
    assert(empty.is_prefix_of(part_text(b)));
    if reaches_partition(c) {
        lemma_offsets(c);
        let at = partl_at(c);
        assert(c.take(at + 1) =~= b.take(at + 1));
        lemma_same_front(c, b);
        let heading = "Partition Information:\n"@;
        if front_failure(c) is None {
            assert(c.take(xz_at(c)) =~= b.take(xz_at(c)));
            law_front_is_local(c, b);
            assert(part_record(c) == image_fields(c).p);
            assert(part_record(b) == image_fields(b).p);
            assert(part_text(c) == part_text(b));
            assert(part_text(b).is_prefix_of(part_text(b)));
        } else {
            assert(part_text(c) =~= heading);
            assert(heading.is_prefix_of(heading));
            if front_failure(b) is None {
                lemma_prefix_before(heading, heading, part_lines(part_record(b), xz_at(b)));
            } else {
                lemma_prefix_before(heading, heading, empty);
            }
        }
    }
}

/// What is reported from the USB ids on of a truncated image starts what is reported of the image.
proof fn lemma_usb_text_prefix(b: Seq<u8>, n: int)
    requires
        0 <= n <= b.len(),
        has_header(b.take(n)),
        n >= 44,
        n >= usb_count_at(b),
        device_count(b.take(n)) == device_count(b),
    ensures
        usb_text(b.take(n)).is_prefix_of(usb_text(b)),
{
    let c = b.take(n);
    let empty = Seq::<char>::empty();
    assert(empty.is_prefix_of(usb_text(b)));
    if n >= usb_at(b, 0) {
        assert(b.take(n) == c.take(n)) by {
            assert(c.take(n) =~= c);
        }
        lemma_same_range(b, c, n, usb_count_at(b), usb_count_at(b) + 4);
        let k = usb_ids_read(c);
        assert(k <= usb_ids_read(b));
        assert forall|i: int| 0 <= i < k implies #[trigger] usb_id(c, i) == usb_id(b, i) by {
            lemma_same_range(b, c, n, usb_at(b, i), usb_at(b, i) + 4);
        }
        lemma_same_ids(b, c, k);
        lemma_ids_prefix(b, k, usb_ids_read(b));
        let rest_c = if n < desc_len_at(b) {
            empty
        } else {
            "\n"@ + part_text(c)
        };
        let rest_b = if b.len() < desc_len_at(b) {
            empty
        } else {
            "\n"@ + part_text(b)
        };
        if n < desc_len_at(b) {
            assert(usb_text(c) =~= usb_ids(b, k));
            lemma_prefix_before(usb_ids(b, k), usb_ids(b, usb_ids_read(b)), rest_b);
        } else {
            lemma_part_text_prefix(b, n);
            lemma_prefix_behind("\n"@, part_text(c), part_text(b));
            lemma_prefix_behind(usb_ids(b, k), rest_c, rest_b);
        }
    }
}

/// What is reported from the devices on of a truncated image starts what is reported of the image.
proof fn lemma_device_text_prefix(b: Seq<u8>, n: int)
    requires
        0 <= n <= b.len(),
        has_header(b.take(n)),
    ensures
        device_text(b.take(n)).is_prefix_of(device_text(b)),
{
    let c = b.take(n);
    let empty = Seq::<char>::empty();
    assert(empty.is_prefix_of(device_text(b)));
    if n >= 44 {
        assert(c.take(n) =~= c);
        lemma_same_range(b, c, n, 40, 44);
        let k = devices_read(c);
        assert(k <= devices_read(b));
        assert forall|i: int| 0 <= i < k implies #[trigger] name_len(c, i) == name_len(b, i) by {
            lemma_same_range(b, c, n, name_at(i), name_at(i) + 4);
        }
        assert forall|i: int|
            0 <= i < k implies #[trigger] name_bytes(c, i) == name_bytes(b, i) by {
            lemma_same_range(b, c, n, name_at(i) + 4, name_at(i) + 20);
        }
        lemma_same_names(b, c, k);
        lemma_names_prefix(b, k, devices_read(b));
        let count = number(device_count(b) as nat, 10) + " compatible devices  : "@;
        let indent = "\n                      : "@;
        lemma_prefix_behind(count, device_names(b, k), device_names(b, devices_read(b)));
        if n < usb_count_at(b) {
            assert(device_text(c) =~= count + device_names(b, k));
            let rest_b = if b.len() < usb_count_at(b) {
                empty
            } else {
                indent + usb_text(b)
            };
            lemma_prefix_before(
                count + device_names(b, k),
                count + device_names(b, devices_read(b)),
                rest_b,
            );
        } else {
            lemma_usb_text_prefix(b, n);
            lemma_prefix_behind(indent, usb_text(c), usb_text(b));
            lemma_prefix_behind(
                count + device_names(b, k),
                indent + usb_text(c),
                indent + usb_text(b),
            );
        }
    }
}

/// The report on the part of a truncated image in front of the compressed partition starts that
/// on the image: the report goes as far as there is something to read, and says the same.
pub proof fn law_truncated_report_is_prefix(b: Seq<u8>, n: int)
    requires
        0 <= n <= b.len(),
    ensures
        front_text(b.take(n)).is_prefix_of(front_text(b)),
{
    let c = b.take(n);
    assert(Seq::<char>::empty().is_prefix_of(front_text(b)));
    if has_header(c) {
        assert(c.take(4) =~= b.take(4));
        assert(c.take(n) =~= c);
        lemma_same_range(b, c, n, 16, 40);
        lemma_device_text_prefix(b, n);
        lemma_prefix_behind(name_line(b), device_text(c), device_text(b));
    }
}

} // verus!
