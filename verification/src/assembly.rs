//! How an image is put together from its pieces, and that reading takes it apart again.
//!
//! Nothing here says where to look for something in an image: an image is written down front to
//! back, and every number byte for byte.

use vstd::prelude::*;

use crate::bytes::{le_bytes, le_nat, lemma_le_bytes_round_trip, lemma_le_limits};
use crate::error::Failure;
use crate::laws::{lemma_find, lemma_offsets};
use crate::layout::{
    copied, desc_end, desc_len, desc_len_at, device, device_count, displayable, front_failure,
    has_header, image_fields, magic, marker_at, name_at, name_bytes, name_len, outcome, padding,
    part_record, part_tag, partl_at,
    reaches_partition, usb_at, usb_count, usb_count_at, usb_id, xz_at, ImageFields,
};
use crate::records::{header_at, part_at, u32_at, DeviceFields, HeaderFields, PartFields};

verus! {

/// A number in four bytes, least significant first.
pub open spec fn four_bytes(n: u32) -> Seq<u8> {
    seq![
        (n % 256) as u8,
        (n / 256 % 256) as u8,
        (n / 65536 % 256) as u8,
        (n / 16777216) as u8,
    ]
}

/// A number in eight bytes, least significant first.
pub open spec fn eight_bytes(n: u64) -> Seq<u8> {
    four_bytes((n % 4294967296) as u32) + four_bytes((n / 4294967296) as u32)
}

/// A compatible device: the length of its name, and the sixteen bytes that the name is in.
pub struct NamedDevice {
    pub len: u32,
    pub name: Seq<u8>,
}

/// The devices, one behind the other.
pub open spec fn device_bytes(devices: Seq<NamedDevice>) -> Seq<u8>
    decreases devices.len(),
{
    if devices.len() == 0 {
        Seq::empty()
    } else {
        device_bytes(devices.drop_last()) + four_bytes(devices.last().len) + devices.last().name
    }
}

/// The USB ids, one behind the other.
pub open spec fn id_bytes(ids: Seq<u32>) -> Seq<u8>
    decreases ids.len(),
{
    if ids.len() == 0 {
        Seq::empty()
    } else {
        id_bytes(ids.drop_last()) + four_bytes(ids.last())
    }
}

/// What stands in front of the partition record.
pub struct Front {
    pub value1: u32,
    pub value2: u32,
    pub img_name_len: u32,
    pub img_name: Seq<u8>,
    pub devices: Seq<NamedDevice>,
    pub usb_ids: Seq<u32>,
    pub desc: Seq<u8>,
    /// The bytes between the description and the partition record.
    pub gap: Seq<u8>,
}

impl Front {
    /// The fixed fields have their sizes, the counts fit their fields, and no `P` stands between
    /// the description and the partition record.
    pub open spec fn wf(self) -> bool {
        &&& self.img_name.len() == 24
        &&& self.devices.len() <= u32::MAX
        &&& forall|i: int|
            0 <= i < self.devices.len() ==> (#[trigger] self.devices[i]).name.len() == 16
        &&& self.usb_ids.len() <= u32::MAX
        &&& self.desc.len() <= u32::MAX
        &&& forall|i: int| 0 <= i < self.gap.len() ==> self.gap[i] != 0x50
    }

    /// The header.
    pub open spec fn head(self) -> Seq<u8> {
        seq![0x41u8, 0x5a, 0x30, 0x31] + four_bytes(self.value1) + four_bytes(self.value2)
            + four_bytes(self.img_name_len) + self.img_name
    }

    /// The bytes in front of the partition record.
    pub open spec fn bytes(self) -> Seq<u8> {
        self.head() + four_bytes(self.devices.len() as u32) + device_bytes(self.devices)
            + four_bytes(self.usb_ids.len() as u32) + id_bytes(self.usb_ids) + four_bytes(
            self.desc.len() as u32,
        ) + self.desc + self.gap
    }

    /// The lengths that device names are cut to fit the names' bytes.
    pub open spec fn names_fit(self) -> bool {
        forall|i: int| 0 <= i < self.devices.len() ==> (#[trigger] self.devices[i]).len <= 16
    }
}

/// A partition record.
pub open spec fn record_bytes(p: PartFields) -> Seq<u8> {
    p.tag + eight_bytes(p.size) + four_bytes(p.part_type) + p.name + four_bytes(p.format)
        + p.comp_type + four_bytes(p.info1) + four_bytes(p.info2) + p.hash_algo + four_bytes(
        p.hash_len,
    ) + p.hash_code
}

/// The byte fields of the record have their sizes, and it starts with `PARTL`.
pub open spec fn is_record(p: PartFields) -> bool {
    &&& p.tag.len() == 8
    &&& p.name.len() == 8
    &&& p.comp_type.len() == 4
    &&& p.hash_algo.len() == 8
    &&& p.hash_code.len() == 20
    &&& p.tag.take(5) == seq![0x50u8, 0x41, 0x52, 0x54, 0x4c]
}

/// What is known of an image with this front and this partition record.
pub open spec fn fields_of(f: Front, p: PartFields) -> ImageFields {
    ImageFields {
        h: HeaderFields {
            header: seq![0x41u8, 0x5a, 0x30, 0x31],
            value1: f.value1,
            value2: f.value2,
            img_name_len: f.img_name_len,
            img_name: f.img_name,
        },
        device_count: f.devices.len() as u32,
        dev: Seq::new(
            f.devices.len(),
            |i: int|
                DeviceFields {
                    device_name_len: f.devices[i].len,
                    device_name: f.devices[i].name,
                    usb_id: if i < f.usb_ids.len() {
                        f.usb_ids[i]
                    } else {
                        0
                    },
                },
        ),
        img_desc_len: f.desc.len() as u32,
        img_desc: f.desc,
        p,
        partl_offset: f.bytes().len() as int,
        xz_part_offset: f.bytes().len() as int + 76,
    }
}

/// The next multiple of eight from `at` on.
pub open spec fn aligned(at: int) -> int {
    (at + 7) / 8 * 8
}

/// Four bytes written down one by one are those of the number, and no other number has them.
pub(crate) proof fn lemma_four(n: u32)
    ensures
        four_bytes(n).len() == 4,
        le_nat(four_bytes(n)) == n,
        le_bytes(n as nat, 4) == four_bytes(n),
{
    let s = four_bytes(n);
    reveal_with_fuel(le_nat, 5);
    reveal_with_fuel(le_bytes, 5);
    assert(s.drop_first()[0] == s[1]);
    assert(s.drop_first().drop_first()[0] == s[2]);
    assert(s.drop_first().drop_first().drop_first()[0] == s[3]);
    assert(s.drop_first().drop_first().drop_first().drop_first().len() == 0);
    assert(n / 256 / 256 == n / 65536);
    assert(n / 65536 / 256 == n / 16777216);
    assert(le_bytes(n as nat, 4) =~= s);
}

/// Four bytes are those of the number that they are read as.
pub(crate) proof fn lemma_four_back(s: Seq<u8>)
    requires
        s.len() == 4,
    ensures
        le_nat(s) <= u32::MAX,
        four_bytes(le_nat(s) as u32) == s,
{
    lemma_le_limits();
    lemma_le_bytes_round_trip(s);
    lemma_four(le_nat(s) as u32);
}

/// The value of two runs of four bytes.
proof fn lemma_le_nat_halves(x: Seq<u8>, y: Seq<u8>)
    requires
        x.len() == 4,
        y.len() == 4,
    ensures
        le_nat(x + y) == le_nat(x) + 4294967296 * le_nat(y),
{
    reveal_with_fuel(le_nat, 5);
    let s = x + y;
    assert(s.drop_first().drop_first().drop_first().drop_first() =~= y);
    assert(s.drop_first()[0] == x[1]);
    assert(s.drop_first().drop_first()[0] == x[2]);
    assert(s.drop_first().drop_first().drop_first()[0] == x[3]);
    assert(x.drop_first()[0] == x[1]);
    assert(x.drop_first().drop_first()[0] == x[2]);
    assert(x.drop_first().drop_first().drop_first()[0] == x[3]);
    assert(x.drop_first().drop_first().drop_first().drop_first().len() == 0);
}

/// The halves of a number of 64 bits.
proof fn lemma_halves(lo: int, hi: int)
    requires
        0 <= lo <= u32::MAX,
        0 <= hi <= u32::MAX,
    ensures
        0 <= lo + 4294967296 * hi <= u64::MAX,
        (lo + 4294967296 * hi) % 4294967296 == lo,
        (lo + 4294967296 * hi) / 4294967296 == hi,
{
}

/// Eight bytes written down one by one are those of the number.
pub(crate) proof fn lemma_eight(n: u64)
    ensures
        eight_bytes(n).len() == 8,
        le_nat(eight_bytes(n)) == n,
{
    let lo = (n % 4294967296) as u32;
    let hi = (n / 4294967296) as u32;
    lemma_four(lo);
    lemma_four(hi);
    lemma_le_nat_halves(four_bytes(lo), four_bytes(hi));
}

/// Eight bytes are those of the number that they are read as.
pub(crate) proof fn lemma_eight_back(s: Seq<u8>)
    requires
        s.len() == 8,
    ensures
        le_nat(s) <= u64::MAX,
        eight_bytes(le_nat(s) as u64) == s,
{
    let x = s.take(4);
    let y = s.skip(4);
    assert(x + y =~= s);
    lemma_four_back(x);
    lemma_four_back(y);
    lemma_le_nat_halves(x, y);
    lemma_halves(le_nat(x) as int, le_nat(y) as int);
}

/// What follows the start of a sequence is a part of the sequence.
pub(crate) proof fn lemma_peel(b: Seq<u8>, pre: Seq<u8>, x: Seq<u8>)
    requires
        (pre + x).is_prefix_of(b),
    ensures
        pre.is_prefix_of(b),
        pre.len() + x.len() <= b.len(),
        b.subrange(pre.len() as int, (pre.len() + x.len()) as int) == x,
{
    let s = pre + x;
    assert(b.subrange(0, s.len() as int) == s);
    assert(b.subrange(0, pre.len() as int) =~= s.take(pre.len() as int));
    assert(s.take(pre.len() as int) =~= pre);
    assert(b.subrange(pre.len() as int, s.len() as int) =~= s.skip(pre.len() as int));
    assert(s.skip(pre.len() as int) =~= x);
}

/// A number is read from its four bytes.
pub(crate) proof fn lemma_peel_number(b: Seq<u8>, pre: Seq<u8>, n: u32)
    requires
        (pre + four_bytes(n)).is_prefix_of(b),
    ensures
        pre.is_prefix_of(b),
        pre.len() + 4 <= b.len(),
        u32_at(b, pre.len() as int) == n,
{
    lemma_four(n);
    lemma_peel(b, pre, four_bytes(n));
}

/// What is read of a header.
pub(crate) proof fn lemma_head(b: Seq<u8>, f: Front)
    requires
        f.wf(),
        f.head().is_prefix_of(b),
    ensures
        f.head().len() == 40,
        b.len() >= 40,
        has_header(b),
        header_at(b, 0) == (HeaderFields {
            header: seq![0x41u8, 0x5a, 0x30, 0x31],
            value1: f.value1,
            value2: f.value2,
            img_name_len: f.img_name_len,
            img_name: f.img_name,
        }),
{
    let s0 = seq![0x41u8, 0x5a, 0x30, 0x31];
    let s1 = s0 + four_bytes(f.value1);
    let s2 = s1 + four_bytes(f.value2);
    let s3 = s2 + four_bytes(f.img_name_len);
    lemma_peel(b, s3, f.img_name);
    lemma_peel_number(b, s2, f.img_name_len);
    lemma_peel_number(b, s1, f.value2);
    lemma_peel_number(b, s0, f.value1);
    assert(b.take(4) =~= s0);
    assert(b.subrange(0, 4) =~= s0);
}

/// The devices' bytes are twenty for each.
pub(crate) proof fn lemma_device_bytes_len(devices: Seq<NamedDevice>)
    requires
        forall|i: int| 0 <= i < devices.len() ==> (#[trigger] devices[i]).name.len() == 16,
    ensures
        device_bytes(devices).len() == 20 * devices.len(),
    decreases devices.len(),
{
    if devices.len() > 0 {
        lemma_device_bytes_len(devices.drop_last());
        assert(devices.last() == devices[devices.len() - 1]);
        lemma_four(devices.last().len);
    }
}

/// What is read of device `i`, where the devices follow `pre`.
pub(crate) proof fn lemma_device(b: Seq<u8>, pre: Seq<u8>, devices: Seq<NamedDevice>, i: int)
    requires
        forall|j: int| 0 <= j < devices.len() ==> (#[trigger] devices[j]).name.len() == 16,
        (pre + device_bytes(devices)).is_prefix_of(b),
        pre.len() == 44,
        0 <= i < devices.len(),
    ensures
        name_len(b, i) == devices[i].len,
        name_bytes(b, i) == devices[i].name,
    decreases devices.len(),
{
    let less = devices.drop_last();
    let last = devices.last();
    assert(last == devices[devices.len() - 1]);
    lemma_device_bytes_len(less);
    lemma_four(last.len);
    let s0 = pre + device_bytes(less);
    let s1 = s0 + four_bytes(last.len);
    assert(pre + device_bytes(devices) =~= s1 + last.name);
    lemma_peel(b, s1, last.name);
    lemma_peel_number(b, s0, last.len);
    if i < less.len() {
        lemma_device(b, pre, less, i);
        assert(less[i] == devices[i]);
    }
}

/// The USB ids' bytes are four for each.
pub(crate) proof fn lemma_id_bytes_len(ids: Seq<u32>)
    ensures
        id_bytes(ids).len() == 4 * ids.len(),
    decreases ids.len(),
{
    if ids.len() > 0 {
        lemma_id_bytes_len(ids.drop_last());
        lemma_four(ids.last());
    }
}

/// USB id `i` is read, where the ids follow `pre`.
pub(crate) proof fn lemma_id(b: Seq<u8>, pre: Seq<u8>, ids: Seq<u32>, i: int)
    requires
        (pre + id_bytes(ids)).is_prefix_of(b),
        0 <= i < ids.len(),
    ensures
        u32_at(b, pre.len() + 4 * i) == ids[i],
    decreases ids.len(),
{
    let less = ids.drop_last();
    lemma_id_bytes_len(less);
    let s0 = pre + id_bytes(less);
    assert(pre + id_bytes(ids) =~= s0 + four_bytes(ids.last()));
    lemma_peel_number(b, s0, ids.last());
    if i < less.len() {
        lemma_id(b, pre, less, i);
    }
}

impl Front {
    /// The bytes up to the number of devices.
    pub(crate) open spec fn counted(self) -> Seq<u8> {
        self.head() + four_bytes(self.devices.len() as u32)
    }

    /// The bytes up to the last device.
    pub(crate) open spec fn named(self) -> Seq<u8> {
        self.counted() + device_bytes(self.devices)
    }

    /// The bytes up to the number of USB ids.
    pub(crate) open spec fn id_counted(self) -> Seq<u8> {
        self.named() + four_bytes(self.usb_ids.len() as u32)
    }

    /// The bytes up to the last USB id.
    pub(crate) open spec fn identified(self) -> Seq<u8> {
        self.id_counted() + id_bytes(self.usb_ids)
    }
}

/// What is read of the devices.
pub(crate) proof fn lemma_named(b: Seq<u8>, f: Front)
    requires
        f.wf(),
        f.named().is_prefix_of(b),
    ensures
        f.head().is_prefix_of(b),
        f.counted().len() == 44,
        b.len() >= 44,
        f.named().len() == 44 + 20 * f.devices.len(),
        device_count(b) == f.devices.len(),
        usb_count_at(b) == f.named().len(),
        forall|i: int| 0 <= i < f.devices.len() ==> #[trigger] name_len(b, i) == f.devices[i].len,
        forall|i: int|
            0 <= i < f.devices.len() ==> #[trigger] name_bytes(b, i) == f.devices[i].name,
{
    lemma_device_bytes_len(f.devices);
    lemma_peel(b, f.counted(), device_bytes(f.devices));
    lemma_peel_number(b, f.head(), f.devices.len() as u32);
    lemma_head(b, f);
    lemma_four(f.devices.len() as u32);
    assert forall|i: int| 0 <= i < f.devices.len() implies #[trigger] name_len(b, i)
        == f.devices[i].len by {
        lemma_device(b, f.counted(), f.devices, i);
    }
    assert forall|i: int| 0 <= i < f.devices.len() implies #[trigger] name_bytes(b, i)
        == f.devices[i].name by {
        lemma_device(b, f.counted(), f.devices, i);
    }
}

/// What is read of the USB ids.
pub(crate) proof fn lemma_identified(b: Seq<u8>, f: Front)
    requires
        f.wf(),
        f.identified().is_prefix_of(b),
    ensures
        f.named().is_prefix_of(b),
        b.len() >= f.named().len() + 4,
        usb_count(b) == f.usb_ids.len(),
        f.identified().len() == f.named().len() + 4 + 4 * f.usb_ids.len(),
        desc_len_at(b) == f.identified().len(),
        forall|i: int| 0 <= i < f.usb_ids.len() ==> #[trigger] usb_id(b, i) == f.usb_ids[i],
{
    lemma_id_bytes_len(f.usb_ids);
    lemma_four(f.usb_ids.len() as u32);
    lemma_peel(b, f.id_counted(), id_bytes(f.usb_ids));
    lemma_peel_number(b, f.named(), f.usb_ids.len() as u32);
    lemma_named(b, f);
    assert forall|i: int| 0 <= i < f.usb_ids.len() implies #[trigger] usb_id(b, i)
        == f.usb_ids[i] by {
        lemma_id(b, f.id_counted(), f.usb_ids, i);
    }
}

/// What is read in front of the partition record, where that follows.
pub(crate) proof fn lemma_front(b: Seq<u8>, f: Front)
    requires
        f.wf(),
        f.bytes().is_prefix_of(b),
    ensures
        f.identified().is_prefix_of(b),
        desc_len(b) == f.desc.len(),
        f.bytes().len() == f.identified().len() + 4 + f.desc.len() + f.gap.len(),
        desc_end(b) == f.identified().len() + 4 + f.desc.len(),
        b.subrange(desc_len_at(b) + 4, desc_end(b)) == f.desc,
        b.len() > f.bytes().len() && b[f.bytes().len() as int] == 0x50 ==> {
            &&& reaches_partition(b)
            &&& partl_at(b) == f.bytes().len()
        },
{
    let s0 = f.identified() + four_bytes(f.desc.len() as u32);
    let s1 = s0 + f.desc;
    assert(f.bytes() == s1 + f.gap);
    lemma_four(f.desc.len() as u32);
    lemma_peel(b, s1, f.gap);
    lemma_peel(b, s0, f.desc);
    lemma_peel_number(b, f.identified(), f.desc.len() as u32);
    lemma_identified(b, f);
    lemma_named(b, f);
    let at = f.bytes().len() as int;
    if b.len() > at && b[at] == 0x50 {
        let from = desc_end(b);
        lemma_find(b, 0x50, from);
        let found = partl_at(b);
        if found < at {
            assert(b[found] == b.subrange(from, at)[found - from]);
            assert(f.gap[found - from] == 0x50);
        }
    }
}

/// What is read of a partition record.
pub(crate) proof fn lemma_record(b: Seq<u8>, pre: Seq<u8>, p: PartFields)
    requires
        is_record(p),
        (pre + record_bytes(p)).is_prefix_of(b),
    ensures
        record_bytes(p).len() == 76,
        pre.is_prefix_of(b),
        pre.len() + 76 <= b.len(),
        b[pre.len() as int] == 0x50,
        part_at(b, pre.len() as int) == p,
{
    lemma_eight(p.size);
    lemma_four(p.part_type);
    lemma_four(p.format);
    lemma_four(p.info1);
    lemma_four(p.info2);
    lemma_four(p.hash_len);
    let s0 = pre + p.tag;
    let s1 = s0 + eight_bytes(p.size);
    let s2 = s1 + four_bytes(p.part_type);
    let s3 = s2 + p.name;
    let s4 = s3 + four_bytes(p.format);
    let s5 = s4 + p.comp_type;
    let s6 = s5 + four_bytes(p.info1);
    let s7 = s6 + four_bytes(p.info2);
    let s8 = s7 + p.hash_algo;
    let s9 = s8 + four_bytes(p.hash_len);
    assert(pre + record_bytes(p) =~= s9 + p.hash_code);
    lemma_peel(b, s9, p.hash_code);
    lemma_peel_number(b, s8, p.hash_len);
    lemma_peel(b, s7, p.hash_algo);
    lemma_peel_number(b, s6, p.info2);
    lemma_peel_number(b, s5, p.info1);
    lemma_peel(b, s4, p.comp_type);
    lemma_peel_number(b, s3, p.format);
    lemma_peel(b, s2, p.name);
    lemma_peel_number(b, s1, p.part_type);
    lemma_peel(b, s0, eight_bytes(p.size));
    lemma_peel(b, pre, p.tag);
    assert(p.tag.take(5)[0] == p.tag[0]);
    assert(b.subrange(pre.len() as int, (pre.len() + 8) as int)[0] == p.tag[0]);
}

/// An image with this front, this partition record and `tail` behind it.
pub open spec fn put_together(f: Front, p: PartFields, tail: Seq<u8>) -> Seq<u8> {
    f.bytes() + record_bytes(p) + tail
}

/// Where the compressed partition of an image ends. When the partition is skipped, a size of more
/// than 63 bits leads back.
pub open spec fn end_of(f: Front, p: PartFields, extract: bool) -> int {
    let at = f.bytes().len() as int + 76;
    if extract || p.size < 0x8000_0000_0000_0000 {
        at + p.size
    } else {
        at + p.size - 0x1_0000_0000_0000_0000
    }
}

/// What is read in front of the compressed partition of an image.
pub(crate) proof fn lemma_put_together(f: Front, p: PartFields, tail: Seq<u8>)
    requires
        f.wf(),
        is_record(p),
    ensures
        ({
            let b = put_together(f, p, tail);
            &&& record_bytes(p).len() == 76
            &&& f.bytes().is_prefix_of(b)
            &&& reaches_partition(b)
            &&& partl_at(b) == f.bytes().len()
            &&& part_record(b) == p
            &&& front_failure(b) is None
            &&& image_fields(b) == fields_of(f, p)
            &&& displayable(b) == (f.names_fit() && p.hash_len <= 20)
        }),
{
    let b = put_together(f, p, tail);
    let s = f.bytes() + record_bytes(p);
    assert(b.subrange(0, s.len() as int) =~= s);
    lemma_record(b, f.bytes(), p);
    lemma_front(b, f);
    assert(has_header(b)) by {
        lemma_identified(b, f);
        lemma_named(b, f);
        lemma_head(b, f);
    }
    assert(p.tag.take(5) =~= part_tag());
    assert(front_failure(b) is None);
    lemma_fields(b, f, p);
    lemma_lengths(b, f);
}

/// The fields that are read of a front and a record.
proof fn lemma_fields(b: Seq<u8>, f: Front, p: PartFields)
    requires
        f.wf(),
        f.bytes().is_prefix_of(b),
        partl_at(b) == f.bytes().len(),
        part_record(b) == p,
    ensures
        image_fields(b) == fields_of(f, p),
{
    lemma_front(b, f);
    lemma_identified(b, f);
    lemma_named(b, f);
    lemma_head(b, f);
    assert forall|i: int| 0 <= i < f.devices.len() implies #[trigger] image_fields(b).dev[i]
        == fields_of(f, p).dev[i] by {
        assert(name_len(b, i) == f.devices[i].len);
        assert(name_bytes(b, i) == f.devices[i].name);
        if i < f.usb_ids.len() {
            assert(usb_id(b, i) == f.usb_ids[i]);
        }
    }
    assert(image_fields(b).dev =~= fields_of(f, p).dev);
    assert(image_fields(b) =~= fields_of(f, p));
}

/// The lengths in a front and a record fit just if those of the names and that of the digest do.
proof fn lemma_lengths(b: Seq<u8>, f: Front)
    requires
        f.wf(),
        f.bytes().is_prefix_of(b),
        front_failure(b) is None,
    ensures
        displayable(b) == (f.names_fit() && part_record(b).hash_len <= 20),
{
    lemma_front(b, f);
    lemma_identified(b, f);
    lemma_named(b, f);
    lemma_head(b, f);
    if displayable(b) {
        assert forall|i: int| 0 <= i < f.devices.len() implies (#[trigger] f.devices[i]).len
            <= 16 by {
            assert(name_len(b, i) <= 16);
        }
    }
}

/// The next multiple of eight is where padding leads.
pub(crate) proof fn lemma_aligned(at: int)
    ensures
        marker_at(at) == aligned(at),
        padding(at) > 0 <==> at % 8 != 0,
        at <= aligned(at) < at + 8,
        aligned(at) % 8 == 0,
{
}

/// Padding of less than eight bytes that leads to a multiple of eight leads to the next one.
proof fn lemma_padded(at: int, pad: int)
    requires
        0 <= pad < 8,
        (at + pad) % 8 == 0,
    ensures
        aligned(at) == at + pad,
{
}

/// What reading comes to behind the partition record.
proof fn lemma_behind_record(b: Seq<u8>, extract: bool, end: int)
    requires
        front_failure(b) is None,
        end == xz_at(b) + part_record(b).size - (if extract || part_record(b).size
            < 0x8000_0000_0000_0000 {
            0int
        } else {
            0x1_0000_0000_0000_0000int
        }),
        xz_at(b) >= 0,
    ensures
        extract && end > b.len() ==> outcome(b, extract) == Err::<ImageFields, Failure>(
            Failure::UnexpectedEof,
        ),
        (!extract || end <= b.len()) ==> {
            let far = end > i64::MAX && !extract || end % 8 != 0 && aligned(end) > i64::MAX;
            &&& end < 0 || far ==> outcome(b, extract) == Err::<ImageFields, Failure>(
                Failure::InvalidSeek,
            )
            &&& end >= 0 && !far && aligned(end) + 3 > b.len() ==> outcome(b, extract) == Err::<
                ImageFields,
                Failure,
            >(Failure::UnexpectedEof)
            &&& end >= 0 && !far && aligned(end) + 3 <= b.len() ==> outcome(b, extract) == Ok::<
                ImageFields,
                Failure,
            >(image_fields(b))
        },
{
    lemma_aligned(end);
}

/// What is copied from behind the partition record.
proof fn lemma_copied_behind_record(b: Seq<u8>, front: Seq<u8>, tail: Seq<u8>)
    requires
        front_failure(b) is None,
        b == front + tail,
        xz_at(b) == front.len(),
    ensures
        copied(b, false) is None,
        copied(b, true) == Some(
            if part_record(b).size <= tail.len() {
                tail.take(part_record(b).size as int)
            } else {
                tail.take(tail.len() - tail.len() % 4096)
            },
        ),
{
    let at = front.len() as int;
    let size = part_record(b).size as int;
    if size <= tail.len() {
        assert(b.subrange(at, at + size) =~= tail.take(size));
    } else {
        let n = tail.len() - tail.len() % 4096;
        assert(n == tail.len() as int / 4096 * 4096);
        assert(b.subrange(at, at + n) =~= tail.take(n));
    }
}

/// An image that is put together is read as what it was put together from: the fields are those of
/// its pieces, whatever these are, and the copy is the partition. Reading fails only where the
/// image ends before the partition or the last section does, or where a position cannot be moved
/// to. Of a partition that is cut short, the blocks of 4096 bytes are copied that are there in full.
pub proof fn law_assembled_is_read(f: Front, p: PartFields, tail: Seq<u8>, extract: bool)
    requires
        f.wf(),
        is_record(p),
    ensures
        ({
            let b = put_together(f, p, tail);
            let end = end_of(f, p, extract);
            let outcome = outcome(b, extract);
            &&& extract && p.size > tail.len() ==> outcome == Err::<ImageFields, Failure>(
                Failure::UnexpectedEof,
            )
            &&& (!extract || p.size <= tail.len()) ==> {
                let far = end > i64::MAX && !extract || end % 8 != 0 && aligned(end) > i64::MAX;
                &&& end < 0 || far ==> outcome == Err::<ImageFields, Failure>(Failure::InvalidSeek)
                &&& end >= 0 && !far && aligned(end) + 3 > b.len() ==> outcome == Err::<
                    ImageFields,
                    Failure,
                >(Failure::UnexpectedEof)
                &&& end >= 0 && !far && aligned(end) + 3 <= b.len() ==> outcome == Ok::<
                    ImageFields,
                    Failure,
                >(fields_of(f, p))
            }
        }),
        copied(put_together(f, p, tail), false) is None,
        copied(put_together(f, p, tail), true) == Some(
            if p.size <= tail.len() {
                tail.take(p.size as int)
            } else {
                tail.take(tail.len() - tail.len() % 4096)
            },
        ),
        displayable(put_together(f, p, tail)) <==> f.names_fit() && p.hash_len <= 20,
{
    let b = put_together(f, p, tail);
    lemma_put_together(f, p, tail);
    let front = f.bytes() + record_bytes(p);
    assert(xz_at(b) == front.len());
    lemma_behind_record(b, extract, end_of(f, p, extract));
    lemma_copied_behind_record(b, front, tail);
}

/// Pieces behind each other, grouped anew.
pub(crate) proof fn lemma_regroup(front: Seq<u8>, stream: Seq<u8>, pad: Seq<u8>, last: Seq<u8>)
    ensures
        front + stream + pad + last == front + (stream + pad + last),
        (stream + pad + last).len() == stream.len() + pad.len() + last.len(),
        (stream + pad + last).take(stream.len() as int) == stream,
{
    assert(front + stream + pad + last =~= front + (stream + pad + last));
    assert((stream + pad + last).take(stream.len() as int) =~= stream);
}

/// Reading comes to an end behind a partition that is there in full, with its padding and three
/// bytes more.
proof fn lemma_complete(
    b: Seq<u8>,
    front: Seq<u8>,
    stream: Seq<u8>,
    pad: Seq<u8>,
    last: Seq<u8>,
)
    requires
        front_failure(b) is None,
        b == front + (stream + pad + last),
        xz_at(b) == front.len(),
        part_record(b).size == stream.len(),
        pad.len() < 8,
        (front.len() + stream.len() + pad.len()) % 8 == 0,
        front.len() + stream.len() + pad.len() <= i64::MAX,
        last.len() >= 3,
    ensures
        outcome(b, true) == Ok::<ImageFields, Failure>(image_fields(b)),
        outcome(b, false) == Ok::<ImageFields, Failure>(image_fields(b)),
        copied(b, true) == Some(stream),
{
    let end = (front.len() + stream.len()) as int;
    let tail = stream + pad + last;
    assert(tail.len() == stream.len() + pad.len() + last.len() && tail.take(stream.len() as int)
        == stream) by {
        lemma_regroup(front, stream, pad, last);
    }
    lemma_padded(end, pad.len() as int);
    assert(outcome(b, true) == Ok::<ImageFields, Failure>(image_fields(b))) by {
        lemma_behind_record(b, true, end);
    }
    assert(outcome(b, false) == Ok::<ImageFields, Failure>(image_fields(b))) by {
        lemma_behind_record(b, false, end);
    }
    assert(copied(b, true) == Some(stream)) by {
        lemma_copied_behind_record(b, front, tail);
    }
}

/// An image, put together with its partition, the padding and its last section behind it, can be
/// read, and gives its fields and the partition, whether the partition is copied or skipped.
pub proof fn law_complete_image_is_read(
    f: Front,
    p: PartFields,
    stream: Seq<u8>,
    pad: Seq<u8>,
    last: Seq<u8>,
)
    requires
        f.wf(),
        is_record(p),
        p.size == stream.len(),
        pad.len() < 8,
        (f.bytes().len() + 76 + stream.len() + pad.len()) % 8 == 0,
        f.bytes().len() + 76 + stream.len() + pad.len() <= i64::MAX,
        last.len() >= 3,
    ensures
        ({
            let b = f.bytes() + record_bytes(p) + stream + pad + last;
            &&& outcome(b, true) == Ok::<ImageFields, Failure>(fields_of(f, p))
            &&& outcome(b, false) == Ok::<ImageFields, Failure>(fields_of(f, p))
            &&& copied(b, true) == Some(stream)
            &&& displayable(b) <==> f.names_fit() && p.hash_len <= 20
        }),
{
    let tail = stream + pad + last;
    let b = f.bytes() + record_bytes(p) + stream + pad + last;
    let front = f.bytes() + record_bytes(p);
    lemma_regroup(front, stream, pad, last);
    lemma_put_together(f, p, tail);
    assert(b == put_together(f, p, tail));
    lemma_complete(b, front, stream, pad, last);
}

/// Ranges that follow each other make up the range of both.
proof fn lemma_join(b: Seq<u8>, x: int, y: int)
    requires
        0 <= x <= y <= b.len(),
    ensures
        b.subrange(0, x) + b.subrange(x, y) == b.subrange(0, y),
{
    assert(b.subrange(0, x) + b.subrange(x, y) =~= b.subrange(0, y));
}

/// The first `n` devices, as they are read, were written as the bytes that they are read from.
proof fn lemma_devices_apart(b: Seq<u8>, n: int)
    requires
        0 <= n,
        44 + 20 * n <= b.len(),
    ensures
        device_bytes(
            Seq::new(
                n as nat,
                |i: int| NamedDevice { len: name_len(b, i), name: name_bytes(b, i) },
            ),
        ) == b.subrange(44, 44 + 20 * n),
    decreases n,
{
    let d = |i: int| NamedDevice { len: name_len(b, i), name: name_bytes(b, i) };
    let devices = Seq::new(n as nat, d);
    if n == 0 {
        assert(b.subrange(44, 44) =~= Seq::empty());
    } else {
        let less = Seq::new((n - 1) as nat, d);
        lemma_devices_apart(b, n - 1);
        assert(devices.drop_last() =~= less);
        let at = name_at(n - 1);
        lemma_four_back(b.subrange(at, at + 4));
        assert(b.subrange(44, 44 + 20 * n) =~= b.subrange(44, at) + b.subrange(at, at + 4)
            + b.subrange(at + 4, at + 20));
    }
}

/// The first `n` USB ids, as they are read, were written as the bytes that they are read from.
proof fn lemma_ids_apart(b: Seq<u8>, n: int)
    requires
        0 <= n,
        0 <= usb_at(b, 0),
        usb_at(b, 0) + 4 * n <= b.len(),
    ensures
        id_bytes(Seq::new(n as nat, |i: int| usb_id(b, i))) == b.subrange(
            usb_at(b, 0),
            usb_at(b, 0) + 4 * n,
        ),
    decreases n,
{
    let d = |i: int| usb_id(b, i);
    let ids = Seq::new(n as nat, d);
    let from = usb_at(b, 0);
    if n == 0 {
        assert(b.subrange(from, from) =~= Seq::empty());
    } else {
        let less = Seq::new((n - 1) as nat, d);
        lemma_ids_apart(b, n - 1);
        assert(ids.drop_last() =~= less);
        let at = usb_at(b, n - 1);
        lemma_four_back(b.subrange(at, at + 4));
        assert(b.subrange(from, from + 4 * n) =~= b.subrange(from, at) + b.subrange(at, at + 4));
    }
}

/// A header was written as the bytes that it is read from.
proof fn lemma_head_apart(b: Seq<u8>, f: Front)
    requires
        has_header(b),
        f.value1 == u32_at(b, 4),
        f.value2 == u32_at(b, 8),
        f.img_name_len == u32_at(b, 12),
        f.img_name == b.subrange(16, 40),
    ensures
        f.head() == b.subrange(0, 40),
{
    lemma_four_back(b.subrange(4, 8));
    lemma_four_back(b.subrange(8, 12));
    lemma_four_back(b.subrange(12, 16));
    assert(b.take(4) =~= b.subrange(0, 4));
    lemma_join(b, 4, 8);
    lemma_join(b, 8, 12);
    lemma_join(b, 12, 16);
    lemma_join(b, 16, 40);
}

/// What stands in front of the partition record was written as the bytes that it is read from.
pub(crate) proof fn lemma_front_apart(b: Seq<u8>) -> (f: Front)
    requires
        has_header(b),
        reaches_partition(b),
    ensures
        f.wf(),
        f.bytes() == b.take(partl_at(b)),
{
    lemma_offsets(b);
    let f = Front {
        value1: u32_at(b, 4),
        value2: u32_at(b, 8),
        img_name_len: u32_at(b, 12),
        img_name: b.subrange(16, 40),
        devices: Seq::new(
            device_count(b) as nat,
            |i: int| NamedDevice { len: name_len(b, i), name: name_bytes(b, i) },
        ),
        usb_ids: Seq::new(usb_count(b) as nat, |i: int| usb_id(b, i)),
        desc: b.subrange(desc_len_at(b) + 4, desc_end(b)),
        gap: b.subrange(desc_end(b), partl_at(b)),
    };
    lemma_head_apart(b, f);
    lemma_four_back(b.subrange(40, 44));
    lemma_devices_apart(b, device_count(b) as int);
    let named = usb_count_at(b);
    lemma_four_back(b.subrange(named, named + 4));
    lemma_ids_apart(b, usb_count(b) as int);
    let identified = desc_len_at(b);
    lemma_four_back(b.subrange(identified, identified + 4));
    lemma_join(b, 40, 44);
    lemma_join(b, 44, named);
    lemma_join(b, named, named + 4);
    lemma_join(b, named + 4, identified);
    lemma_join(b, identified, identified + 4);
    lemma_join(b, identified + 4, desc_end(b));
    lemma_join(b, desc_end(b), partl_at(b));
    lemma_find(b, 0x50, desc_end(b));
    assert forall|i: int| 0 <= i < f.gap.len() implies f.gap[i] != 0x50 by {
        assert(f.gap[i] == b[desc_end(b) + i]);
    }
    f
}

/// Any 76 bytes that start with `PARTL` are a partition record.
pub proof fn law_record_taken_apart(r: Seq<u8>) -> (p: PartFields)
    requires
        r.len() == 76,
        r.take(5) == seq![0x50u8, 0x41, 0x52, 0x54, 0x4c],
    ensures
        is_record(p),
        record_bytes(p) == r,
{
    let p = part_at(r, 0);
    lemma_eight_back(r.subrange(8, 16));
    lemma_four_back(r.subrange(16, 20));
    lemma_four_back(r.subrange(28, 32));
    lemma_four_back(r.subrange(36, 40));
    lemma_four_back(r.subrange(40, 44));
    lemma_four_back(r.subrange(52, 56));
    lemma_join(r, 8, 16);
    lemma_join(r, 16, 20);
    lemma_join(r, 20, 28);
    lemma_join(r, 28, 32);
    lemma_join(r, 32, 36);
    lemma_join(r, 36, 40);
    lemma_join(r, 40, 44);
    lemma_join(r, 44, 52);
    lemma_join(r, 52, 56);
    lemma_join(r, 56, 76);
    assert(r.subrange(0, 76) =~= r);
    assert(p.tag.take(5) =~= r.take(5));
    p
}

/// An image that can be read is one that was put together: nothing else is accepted, and what is
/// read is what it was put together from.
pub proof fn law_read_image_is_assembled(b: Seq<u8>, extract: bool) -> (pieces: (
    Front,
    PartFields,
    Seq<u8>,
))
    requires
        outcome(b, extract) is Ok,
    ensures
        pieces.0.wf(),
        is_record(pieces.1),
        b == put_together(pieces.0, pieces.1, pieces.2),
        outcome(b, extract) == Ok::<ImageFields, Failure>(fields_of(pieces.0, pieces.1)),
{
    lemma_offsets(b);
    let at = partl_at(b);
    let f = lemma_front_apart(b);
    let r = b.subrange(at, at + 76);
    assert(r.take(5) =~= part_record(b).tag.take(5));
    let p = law_record_taken_apart(r);
    let tail = b.skip(at + 76);
    assert(b =~= b.take(at) + r + tail);
    lemma_put_together(f, p, tail);
    (f, p, tail)
}

/// The header is found wrong just if there are 40 bytes and they do not start with `AZ01`, and the
/// four bytes that are there instead are told. Nothing is copied then.
pub proof fn law_header_is_told(b: Seq<u8>, extract: bool)
    ensures
        b.len() >= 40 && b.take(4) != seq![0x41u8, 0x5a, 0x30, 0x31] ==> {
            &&& outcome(b, extract) == Err::<ImageFields, Failure>(
                Failure::InvalidHeader(b.take(4)),
            )
            &&& copied(b, extract) is None
        },
        (outcome(b, extract) matches Err(e) && e is InvalidHeader) ==> b.len() >= 40 && b.take(4)
            != seq![0x41u8, 0x5a, 0x30, 0x31],
{
    assert(seq![0x41u8, 0x5a, 0x30, 0x31] =~= magic());
}

/// The partition record's tag is found wrong where the 76 bytes at the first `P` behind the
/// description do not start with `PARTL`. Nothing is copied then.
pub proof fn law_wrong_tag_is_told(f: Front, tail: Seq<u8>, extract: bool)
    requires
        f.wf(),
        tail.len() >= 76,
        tail[0] == 0x50,
        tail.take(5) != seq![0x50u8, 0x41, 0x52, 0x54, 0x4c],
    ensures
        outcome(f.bytes() + tail, extract) == Err::<ImageFields, Failure>(
            Failure::PartitionTagNotFound,
        ),
        copied(f.bytes() + tail, extract) is None,
{
    let b = f.bytes() + tail;
    let at = f.bytes().len() as int;
    assert(b.subrange(0, at) =~= f.bytes());
    lemma_front(b, f);
    lemma_identified(b, f);
    lemma_named(b, f);
    lemma_head(b, f);
    assert(b[at] == tail[0]);
    assert(part_record(b).tag.take(5) =~= tail.take(5));
}

/// The partition record's tag is found wrong nowhere else.
pub proof fn law_told_tag_is_wrong(b: Seq<u8>, extract: bool) -> (pieces: (Front, Seq<u8>))
    requires
        outcome(b, extract) == Err::<ImageFields, Failure>(Failure::PartitionTagNotFound),
    ensures
        pieces.0.wf(),
        b == pieces.0.bytes() + pieces.1,
        pieces.1.len() >= 76,
        pieces.1[0] == 0x50,
        pieces.1.take(5) != seq![0x50u8, 0x41, 0x52, 0x54, 0x4c],
{
    lemma_offsets(b);
    let at = partl_at(b);
    let f = lemma_front_apart(b);
    let tail = b.skip(at);
    lemma_find(b, 0x50, desc_end(b));
    assert(b =~= b.take(at) + tail);
    assert(tail.take(5) =~= part_record(b).tag.take(5));
    (f, tail)
}

/// An image that is neither too short for its front and its partition record nor wrong in its first
/// bytes has both; every other one that starts as an image is found to be incomplete, and nothing
/// is copied.
pub proof fn law_otherwise_incomplete(b: Seq<u8>, extract: bool)
    requires
        b.len() < 40 || b.take(4) == seq![0x41u8, 0x5a, 0x30, 0x31],
        forall|f: Front, tail: Seq<u8>|
            f.wf() && b == #[trigger] (f.bytes() + tail) && tail.len() >= 76 ==> tail[0] != 0x50,
    ensures
        outcome(b, extract) == Err::<ImageFields, Failure>(Failure::UnexpectedEof),
        copied(b, extract) is None,
{
    if b.len() >= 40 {
        assert(b.take(4) =~= magic());
        if reaches_partition(b) && b.len() >= partl_at(b) + 76 {
            lemma_offsets(b);
            let at = partl_at(b);
            let f = lemma_front_apart(b);
            let tail = b.skip(at);
            lemma_find(b, 0x50, desc_end(b));
            assert(b =~= f.bytes() + tail);
            assert(tail[0] == 0x50);
        }
    }
}

} // verus!
