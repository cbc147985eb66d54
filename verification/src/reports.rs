//! The report on an image that was put together from its pieces, part by part.

use vstd::prelude::*;

use crate::assembly::{
    aligned, eight_bytes, end_of, is_record, law_wrong_tag_is_told, lemma_aligned,
    lemma_eight_back, lemma_front, lemma_head, lemma_identified, lemma_named, lemma_put_together,
    put_together, Front,
};
use crate::error::Failure;
use crate::laws::{lemma_find, lemma_offsets, lemma_same_front, lemma_same_range};
use crate::layout::{
    copied, desc_end, device_count, device_names, device_text, devices_read, displayable,
    ending_text, eof_tag, find, front_failure,
    front_text, magic, name_at, name_bytes, name_len, name_line, outcome, part_lines, part_record,
    part_text, partition_end, partl_at, reaches_partition, recorded_hash, report, usb_at, usb_id,
    usb_ids, usb_text, xz_at, ImageFields,
};
use crate::records::PartFields;
use crate::telling::{
    all_digits, digit_value, is_fixed_hex, is_numeral, law_fixed_hex_says_it, law_hex_bytes_say_them, law_number_says_it,
    law_text_says_it, law_trim_strips, lemma_hex_widths, says, strips,
};
use crate::text::{fixed_hex, hex_bytes, number, text_of, trim_nul};

verus! {

/// The texts in a report, in the order in which they stand there.
pub struct Reported {
    pub name: Seq<char>,
    pub count: Seq<char>,
    pub devices: Seq<Seq<char>>,
    pub ids: Seq<Seq<char>>,
    pub size: Seq<char>,
    pub part_name: Seq<char>,
    pub comp_type: Seq<char>,
    pub hash_algo: Seq<char>,
    pub hash: Seq<char>,
    pub offset: Seq<char>,
    pub hex_offset: Seq<char>,
}

/// Names, a comma and a space behind each.
pub open spec fn listed(names: Seq<Seq<char>>) -> Seq<char>
    decreases names.len(),
{
    if names.len() == 0 {
        Seq::empty()
    } else {
        listed(names.drop_last()) + names.last() + ", "@
    }
}

/// Hexadecimal numbers, `0x` in front and a comma and a space behind each.
pub open spec fn listed_hex(ids: Seq<Seq<char>>) -> Seq<char>
    decreases ids.len(),
{
    if ids.len() == 0 {
        Seq::empty()
    } else {
        listed_hex(ids.drop_last()) + "0x"@ + ids.last() + ", "@
    }
}

/// `name` is what the bytes up to the first NUL say, or all of them if there is none.
pub open spec fn names(field: Seq<u8>, name: Seq<char>) -> bool {
    exists|n: int|
        0 <= n <= field.len() && (forall|i: int| 0 <= i < n ==> field[i] != 0) && (n < field.len()
            ==> field[n] == 0) && says(#[trigger] field.take(n), name)
}

/// `shown` is what the bytes say, without the NULs that end it.
pub open spec fn shows(field: Seq<u8>, shown: Seq<char>) -> bool {
    exists|full: Seq<char>| says(field, full) && #[trigger] strips(full, shown)
}

impl Reported {
    /// The first line.
    pub open spec fn name_line(self) -> Seq<char> {
        "Image Name            : "@ + self.name + "\n"@
    }

    /// The start of the second line, with the first `k` devices.
    pub open spec fn devices_told(self, k: int) -> Seq<char> {
        self.count + " compatible devices  : "@ + listed(self.devices.take(k))
    }

    /// The lines on the partition.
    pub open spec fn part_lines(self) -> Seq<char> {
        "  Compressed Size     : "@ + self.size + " bytes\n"@ + "  Partition Name      : "@
            + self.part_name + "\n"@ + "  Compression Type    : "@ + self.comp_type + "\n"@
            + "  Hash Code ("@ + self.hash_algo + ")    : "@ + self.hash + "\n"@
            + "  XZ Part. offset     : "@ + self.offset + " (0x"@ + self.hex_offset + ")\n"@
    }

    /// The report up to the end of the lines on the partition.
    pub open spec fn text(self) -> Seq<char> {
        self.name_line() + (self.devices_told(self.devices.len() as int) + (
        "\n                      : "@ + (listed_hex(self.ids) + ("\n"@ + (
        "Partition Information:\n"@ + self.part_lines())))))
    }

    /// What is told of an image of `f.bytes()` and a record that ends behind its first `n` bytes.
    pub open spec fn text_of_first(self, f: Front, n: int) -> Seq<char> {
        let devices_end = 44 + 20 * f.devices.len();
        let ids_end = devices_end + 4 + 4 * f.usb_ids.len();
        if n < 40 {
            Seq::empty()
        } else {
            self.name_line() + if n < 44 {
                Seq::empty()
            } else if n < devices_end {
                self.devices_told((n - 44) / 20) + Seq::empty()
            } else {
                self.devices_told(f.devices.len() as int) + ("\n                      : "@ + if n
                    < devices_end + 4 {
                    Seq::empty()
                } else if n < ids_end {
                    listed_hex(self.ids.take((n - devices_end - 4) / 4)) + Seq::empty()
                } else {
                    listed_hex(self.ids) + ("\n"@ + if n <= f.bytes().len() {
                        Seq::empty()
                    } else {
                        "Partition Information:\n"@ + Seq::empty()
                    })
                })
            }
        }
    }

    /// The texts say what the pieces of the image are.
    pub open spec fn tells(self, f: Front, p: PartFields) -> bool {
        let at = f.bytes().len() as int + 76;
        &&& names(f.img_name, self.name)
        &&& is_numeral(self.count, 10, f.devices.len() as int)
        &&& self.devices.len() == f.devices.len()
        &&& forall|i: int|
            0 <= i < f.devices.len() ==> says(
                (#[trigger] f.devices[i]).name.take(f.devices[i].len as int),
                self.devices[i],
            )
        &&& self.ids.len() == f.usb_ids.len()
        &&& forall|i: int|
            0 <= i < f.usb_ids.len() ==> is_fixed_hex(
                self.ids[i],
                8,
                #[trigger] f.usb_ids[i] as int,
            )
        &&& is_numeral(self.size, 10, p.size as int)
        &&& shows(p.name, self.part_name)
        &&& shows(p.comp_type, self.comp_type)
        &&& shows(p.hash_algo, self.hash_algo)
        &&& self.hash.len() == 3 * p.hash_len
        &&& forall|i: int|
            0 <= i < p.hash_len ==> {
                &&& is_fixed_hex(
                    #[trigger] self.hash.subrange(3 * i, 3 * i + 2),
                    2,
                    p.hash_code[i] as int,
                )
                &&& self.hash[3 * i + 2] == ' '
            }
        &&& is_numeral(self.offset, 10, at)
        &&& is_numeral(self.hex_offset, 16, at)
    }
}

/// The texts that are reported of an image with these pieces.
pub(crate) open spec fn reported(f: Front, p: PartFields) -> Reported {
    let at = (f.bytes().len() + 76) as nat;
    Reported {
        name: text_of(f.img_name.take(find(f.img_name, 0, 0))),
        count: number(f.devices.len(), 10),
        devices: Seq::new(
            f.devices.len(),
            |i: int| text_of(f.devices[i].name.take(f.devices[i].len as int)),
        ),
        ids: Seq::new(f.usb_ids.len(), |i: int| fixed_hex(f.usb_ids[i] as nat, 8)),
        size: number(p.size as nat, 10),
        part_name: trim_nul(text_of(p.name)),
        comp_type: trim_nul(text_of(p.comp_type)),
        hash_algo: trim_nul(text_of(p.hash_algo)),
        hash: hex_bytes(recorded_hash(p)),
        offset: number(at, 10),
        hex_offset: number(at, 16),
    }
}

proof fn lemma_shows(field: Seq<u8>)
    ensures
        shows(field, trim_nul(text_of(field))),
{
    law_text_says_it(field);
    law_trim_strips(text_of(field));
}

proof fn lemma_names(field: Seq<u8>)
    ensures
        names(field, text_of(field.take(find(field, 0, 0)))),
{
    let n = find(field, 0, 0);
    lemma_find(field, 0, 0);
    law_text_says_it(field.take(n));
}

/// The texts say what they are meant to.
proof fn lemma_reported_tells(f: Front, p: PartFields)
    requires
        f.wf(),
        is_record(p),
        p.hash_len <= 20,
    ensures
        reported(f, p).tells(f, p),
{
    let r = reported(f, p);
    let at = (f.bytes().len() + 76) as nat;
    lemma_names(f.img_name);
    law_number_says_it(f.devices.len(), 10);
    law_number_says_it(p.size as nat, 10);
    law_number_says_it(at, 10);
    law_number_says_it(at, 16);
    lemma_shows(p.name);
    lemma_shows(p.comp_type);
    lemma_shows(p.hash_algo);
    lemma_hex_widths();
    assert forall|i: int| 0 <= i < f.devices.len() implies says(
        (#[trigger] f.devices[i]).name.take(f.devices[i].len as int),
        r.devices[i],
    ) by {
        law_text_says_it(f.devices[i].name.take(f.devices[i].len as int));
    }
    assert forall|i: int| 0 <= i < f.usb_ids.len() implies is_fixed_hex(
        r.ids[i],
        8,
        #[trigger] f.usb_ids[i] as int,
    ) by {
        law_fixed_hex_says_it(f.usb_ids[i] as nat, 8);
    }
    let h = recorded_hash(p);
    law_hex_bytes_say_them(h);
    assert forall|i: int| 0 <= i < p.hash_len implies {
        &&& is_fixed_hex(#[trigger] r.hash.subrange(3 * i, 3 * i + 2), 2, p.hash_code[i] as int)
        &&& r.hash[3 * i + 2] == ' '
    } by {
        assert(h[i] == p.hash_code[i]);
    }
}

/// The first `k` device names are listed as they are reported.
proof fn lemma_listed(c: Seq<u8>, f: Front, p: PartFields, k: int)
    requires
        0 <= k <= f.devices.len(),
        forall|i: int| 0 <= i < k ==> #[trigger] name_len(c, i) == f.devices[i].len,
        forall|i: int| 0 <= i < k ==> #[trigger] name_bytes(c, i) == f.devices[i].name,
    ensures
        device_names(c, k) == listed(reported(f, p).devices.take(k)),
    decreases k,
{
    let all = reported(f, p).devices;
    if k > 0 {
        lemma_listed(c, f, p, k - 1);
        assert(all.take(k).drop_last() =~= all.take(k - 1));
        assert(name_len(c, k - 1) == f.devices[k - 1].len);
        assert(name_bytes(c, k - 1) == f.devices[k - 1].name);
        assert(all.take(k).last() == all[k - 1]);
    }
}

/// The first `k` USB ids are listed as they are reported.
proof fn lemma_listed_hex(c: Seq<u8>, f: Front, p: PartFields, k: int)
    requires
        0 <= k <= f.usb_ids.len(),
        forall|i: int| 0 <= i < k ==> #[trigger] usb_id(c, i) == f.usb_ids[i],
    ensures
        usb_ids(c, k) == listed_hex(reported(f, p).ids.take(k)),
    decreases k,
{
    let all = reported(f, p).ids;
    if k > 0 {
        lemma_listed_hex(c, f, p, k - 1);
        assert(all.take(k).drop_last() =~= all.take(k - 1));
        assert(usb_id(c, k - 1) == f.usb_ids[k - 1]);
        assert(all.take(k).last() == all[k - 1]);
    }
}

/// The report up to the lines on the partition.
proof fn lemma_front_text(f: Front, p: PartFields, tail: Seq<u8>)
    requires
        f.wf(),
        is_record(p),
    ensures
        front_text(put_together(f, p, tail)) == reported(f, p).text(),
{
    let b = put_together(f, p, tail);
    let r = reported(f, p);
    lemma_put_together(f, p, tail);
    lemma_front(b, f);
    lemma_identified(b, f);
    lemma_named(b, f);
    lemma_head(b, f);
    lemma_listed(b, f, p, f.devices.len() as int);
    lemma_listed_hex(b, f, p, f.usb_ids.len() as int);
    assert(r.ids.take(f.usb_ids.len() as int) =~= r.ids);
    assert(name_line(b) == r.name_line());
    assert(part_lines(p, xz_at(b)) == r.part_lines());
    assert(part_text(b) == "Partition Information:\n"@ + r.part_lines());
    assert(usb_text(b) == listed_hex(r.ids) + ("\n"@ + part_text(b)));
    assert(device_text(b) == r.devices_told(f.devices.len() as int) + (
    "\n                      : "@ + usb_text(b)));
}

/// The remark on the last section, behind a partition that ends at `end`.
proof fn lemma_ending(b: Seq<u8>, extract: bool, end: int)
    requires
        end == xz_at(b) + part_record(b).size - (if extract || part_record(b).size
            < 0x8000_0000_0000_0000 {
            0int
        } else {
            0x1_0000_0000_0000_0000int
        }),
    ensures
        ({
            let at = aligned(end);
            ending_text(b, extract) == match outcome(b, extract) {
                Err(_) => Seq::<char>::empty(),
                Ok(_) => if b.subrange(at, at + 3) == seq![0x45u8, 0x4f, 0x46] {
                    "\n"@
                } else {
                    "'EOF' tag not found. Image file is probably corrupted.\n\n"@
                },
            }
        }),
{
    lemma_aligned(end);
    assert(seq![0x45u8, 0x4f, 0x46] =~= eof_tag());
    if outcome(b, extract) is Ok {
        assert(partition_end(b, extract) == Ok::<int, Failure>(end));
    }
}

/// The report on an image that was put together is made of texts that say what its pieces are: the
/// image's name, the number, the names and the USB ids of the devices, and of the partition its
/// size, name, compression, digest and place. Where the image can be read, the report ends with the
/// remark on the last section, if that does not start with `EOF`, and an empty line.
pub proof fn law_report_tells_the_pieces(
    f: Front,
    p: PartFields,
    tail: Seq<u8>,
    extract: bool,
) -> (r: Reported)
    requires
        f.wf(),
        is_record(p),
        p.hash_len <= 20,
    ensures
        r.tells(f, p),
        ({
            let b = put_together(f, p, tail);
            let at = aligned(end_of(f, p, extract));
            report(b, extract) == r.text() + match outcome(b, extract) {
                Err(_) => Seq::<char>::empty(),
                Ok(_) => if b.subrange(at, at + 3) == seq![0x45u8, 0x4f, 0x46] {
                    "\n"@
                } else {
                    "'EOF' tag not found. Image file is probably corrupted.\n\n"@
                },
            }
        }),
{
    let b = put_together(f, p, tail);
    lemma_reported_tells(f, p);
    lemma_front_text(f, p, tail);
    assert(part_record(b).size == p.size && xz_at(b) == f.bytes().len() as int + 76) by {
        lemma_put_together(f, p, tail);
    }
    lemma_ending(b, extract, end_of(f, p, extract));
    reported(f, p)
}

/// What starts an image starts its first bytes, as far as these go.
proof fn lemma_start_of_first(b: Seq<u8>, start: Seq<u8>, n: int)
    requires
        start.is_prefix_of(b),
        start.len() <= n <= b.len(),
    ensures
        start.is_prefix_of(b.take(n)),
{
    assert(b.take(n).subrange(0, start.len() as int) =~= b.subrange(0, start.len() as int));
}

/// How much of the report the first bytes up to somewhere in the devices give.
proof fn lemma_first_devices(f: Front, p: PartFields, b: Seq<u8>, n: int)
    requires
        f.wf(),
        f.bytes().is_prefix_of(b),
        44 <= n < 44 + 20 * f.devices.len(),
        n <= b.len(),
    ensures
        device_text(b.take(n)) == reported(f, p).devices_told((n - 44) / 20) + Seq::empty(),
{
    let c = b.take(n);
    let k = (n - 44) / 20;
    lemma_front(b, f);
    lemma_identified(b, f);
    lemma_named(b, f);
    assert(c.take(n) =~= c);
    lemma_same_range(b, c, n, 40, 44);
    assert forall|i: int| 0 <= i < k implies #[trigger] name_len(c, i) == f.devices[i].len by {
        assert(name_len(b, i) == f.devices[i].len);
        lemma_same_range(b, c, n, name_at(i), name_at(i) + 4);
    }
    assert forall|i: int| 0 <= i < k implies #[trigger] name_bytes(c, i) == f.devices[i].name by {
        assert(name_bytes(b, i) == f.devices[i].name);
        lemma_same_range(b, c, n, name_at(i) + 4, name_at(i) + 20);
    }
    lemma_listed(c, f, p, k);
}

/// How much of the report the first bytes up to somewhere in the USB ids give.
proof fn lemma_first_ids(f: Front, p: PartFields, b: Seq<u8>, n: int)
    requires
        f.wf(),
        f.bytes().is_prefix_of(b),
        f.named().len() + 4 <= n < f.identified().len(),
        n <= b.len(),
    ensures
        usb_text(b.take(n)) == listed_hex(
            reported(f, p).ids.take((n - f.named().len() - 4) / 4),
        ) + Seq::empty(),
{
    let c = b.take(n);
    lemma_front(b, f);
    lemma_identified(b, f);
    lemma_named(b, f);
    let k = (n - f.named().len() - 4) / 4;
    let at = f.named().len() as int;
    assert(c.take(n) =~= c);
    lemma_same_range(b, c, n, 40, 44);
    lemma_same_range(b, c, n, at, at + 4);
    assert forall|i: int| 0 <= i < k implies #[trigger] usb_id(c, i) == f.usb_ids[i] by {
        assert(usb_id(b, i) == f.usb_ids[i]);
        lemma_same_range(b, c, n, usb_at(b, i), usb_at(b, i) + 4);
    }
    lemma_listed_hex(c, f, p, k);
}

/// How much of the report the first bytes give that hold all USB ids.
proof fn lemma_all_ids(f: Front, p: PartFields, b: Seq<u8>, n: int)
    requires
        f.wf(),
        f.bytes().is_prefix_of(b),
        b.len() > f.bytes().len(),
        b[f.bytes().len() as int] == 0x50,
        f.identified().len() <= n < f.bytes().len() + 76,
        n <= b.len(),
    ensures
        front_failure(b.take(n)) == Some(Failure::UnexpectedEof),
        usb_text(b.take(n)) == listed_hex(reported(f, p).ids) + ("\n"@ + if n <= f.bytes().len() {
            Seq::empty()
        } else {
            "Partition Information:\n"@ + Seq::empty()
        }),
{
    let c = b.take(n);
    let r = reported(f, p);
    lemma_front(b, f);
    lemma_start_of_first(b, f.identified(), n);
    lemma_identified(c, f);
    lemma_named(c, f);
    lemma_head(c, f);
    lemma_listed_hex(c, f, p, f.usb_ids.len() as int);
    assert(r.ids.take(f.usb_ids.len() as int) =~= r.ids);
    if n <= f.bytes().len() {
        if reaches_partition(c) {
            lemma_offsets(c);
            let at = partl_at(c);
            assert(c.take(at + 1) =~= b.take(at + 1));
            lemma_same_front(c, b);
        }
    } else {
        lemma_start_of_first(b, f.bytes(), n);
        assert(c[f.bytes().len() as int] == b[f.bytes().len() as int]);
        lemma_front(c, f);
    }
}

/// How much of the report the first bytes give that end in front of the compressed partition.
proof fn lemma_first_text(f: Front, p: PartFields, b: Seq<u8>, n: int)
    requires
        f.wf(),
        f.bytes().is_prefix_of(b),
        b.len() > f.bytes().len(),
        b[f.bytes().len() as int] == 0x50,
        0 <= n < f.bytes().len() + 76,
        n <= b.len(),
    ensures
        front_failure(b.take(n)) == Some(Failure::UnexpectedEof),
        front_text(b.take(n)) == reported(f, p).text_of_first(f, n),
{
    let c = b.take(n);
    let r = reported(f, p);
    lemma_front(b, f);
    lemma_identified(b, f);
    lemma_named(b, f);
    lemma_head(b, f);
    let devices_end = f.named().len() as int;
    let ids_end = f.identified().len() as int;
    if n >= 40 {
        lemma_start_of_first(b, f.head(), n);
        lemma_head(c, f);
        assert(name_line(c) == r.name_line());
        if 44 <= n < devices_end {
            lemma_first_devices(f, p, b, n);
            lemma_incomplete_devices(f, b, n);
        } else if n >= devices_end {
            lemma_start_of_first(b, f.named(), n);
            lemma_named(c, f);
            lemma_listed(c, f, p, f.devices.len() as int);
            assert(device_text(c) == r.devices_told(f.devices.len() as int) + (
            "\n                      : "@ + usb_text(c)));
            if devices_end + 4 <= n < ids_end {
                lemma_first_ids(f, p, b, n);
                lemma_incomplete_ids(f, b, n);
            } else if n >= ids_end {
                lemma_all_ids(f, p, b, n);
            }
        }
    }
}

/// An image that ends in the devices does not reach its partition record.
proof fn lemma_incomplete_devices(f: Front, b: Seq<u8>, n: int)
    requires
        f.wf(),
        f.bytes().is_prefix_of(b),
        44 <= n < f.named().len(),
        n <= b.len(),
    ensures
        !reaches_partition(b.take(n)),
{
    let c = b.take(n);
    lemma_front(b, f);
    lemma_identified(b, f);
    lemma_named(b, f);
    assert(c.take(n) =~= c);
    lemma_same_range(b, c, n, 40, 44);
}

/// An image that ends in the USB ids does not reach its partition record.
proof fn lemma_incomplete_ids(f: Front, b: Seq<u8>, n: int)
    requires
        f.wf(),
        f.bytes().is_prefix_of(b),
        f.named().len() + 4 <= n < f.identified().len(),
        n <= b.len(),
    ensures
        !reaches_partition(b.take(n)),
{
    let c = b.take(n);
    lemma_front(b, f);
    lemma_identified(b, f);
    lemma_named(b, f);
    assert(c.take(n) =~= c);
    lemma_same_range(b, c, n, 40, 44);
    lemma_same_range(b, c, n, f.named().len() as int, f.named().len() as int + 4);
}

/// The first bytes of an image, up to a place in front of the compressed partition, are found to be
/// incomplete, and what is told of them is what they hold in full: line by line, device by device
/// and USB id by USB id.
pub proof fn law_first_bytes_are_told(
    f: Front,
    p: PartFields,
    tail: Seq<u8>,
    n: int,
    extract: bool,
) -> (r: Reported)
    requires
        f.wf(),
        is_record(p),
        p.hash_len <= 20,
        0 <= n < f.bytes().len() + 76,
    ensures
        r.tells(f, p),
        report(put_together(f, p, tail).take(n), extract) == r.text_of_first(f, n),
        outcome(put_together(f, p, tail).take(n), extract) == Err::<ImageFields, Failure>(
            Failure::UnexpectedEof,
        ),
        copied(put_together(f, p, tail).take(n), extract) is None,
{
    let b = put_together(f, p, tail);
    let r = reported(f, p);
    lemma_reported_tells(f, p);
    lemma_put_together(f, p, tail);
    lemma_offsets(b);
    lemma_find(b, 0x50, desc_end(b));
    lemma_first_text(f, p, b, n);
    assert(front_text(b.take(n)) + Seq::empty() =~= front_text(b.take(n)));
    r
}

/// Of an image that does not start with `AZ01` nothing is told.
pub proof fn law_nothing_is_told_without_header(b: Seq<u8>, extract: bool)
    requires
        b.len() < 40 || b.take(4) != seq![0x41u8, 0x5a, 0x30, 0x31],
    ensures
        report(b, extract) == Seq::<char>::empty(),
{
    assert(seq![0x41u8, 0x5a, 0x30, 0x31] =~= magic());
    assert(Seq::<char>::empty() + Seq::<char>::empty() =~= Seq::<char>::empty());
}

/// The report on a front, where no record follows that can be read.
proof fn lemma_front_text_alone(f: Front, p: PartFields, b: Seq<u8>)
    requires
        f.wf(),
        f.bytes().is_prefix_of(b),
        b.len() > f.bytes().len(),
        b[f.bytes().len() as int] == 0x50,
        front_failure(b) is Some,
    ensures
        front_text(b) == reported(f, p).text_of_first(f, f.bytes().len() as int + 1),
{
    let r = reported(f, p);
    lemma_front(b, f);
    lemma_identified(b, f);
    lemma_named(b, f);
    lemma_head(b, f);
    lemma_listed(b, f, p, f.devices.len() as int);
    lemma_listed_hex(b, f, p, f.usb_ids.len() as int);
    assert(r.ids.take(f.usb_ids.len() as int) =~= r.ids);
    assert(name_line(b) == r.name_line());
    assert(part_text(b) == "Partition Information:\n"@ + Seq::empty());
    assert(usb_text(b) == listed_hex(r.ids) + ("\n"@ + part_text(b)));
    assert(device_text(b) == r.devices_told(f.devices.len() as int) + (
    "\n                      : "@ + usb_text(b)));
}

/// What is told of an image in which something starts with `P` behind the front that is too short for
/// a partition record, or none, is what is told of the front.
pub proof fn law_front_is_told_without_record(
    f: Front,
    p: PartFields,
    tail: Seq<u8>,
    extract: bool,
) -> (r: Reported)
    requires
        f.wf(),
        is_record(p),
        p.hash_len <= 20,
        tail.len() > 0,
        tail[0] == 0x50,
        tail.len() < 76 || tail.take(5) != seq![0x50u8, 0x41, 0x52, 0x54, 0x4c],
    ensures
        r.tells(f, p),
        report(f.bytes() + tail, extract) == r.text_of_first(f, f.bytes().len() as int + 1),
{
    let b = f.bytes() + tail;
    let at = f.bytes().len() as int;
    assert(b.subrange(0, at) =~= f.bytes());
    assert(b[at] == tail[0]);
    assert(front_failure(b) is Some && ending_text(b, extract) == Seq::<char>::empty()) by {
        if tail.len() >= 76 {
            law_wrong_tag_is_told(f, tail, extract);
        } else {
            lemma_front(b, f);
        }
    }
    lemma_front_text_alone(f, p, b);
    assert(front_text(b) + Seq::empty() =~= front_text(b));
    lemma_reported_tells(f, p);
    reported(f, p)
}

/// Texts behind each other, grouped anew.
proof fn lemma_group(a: Seq<char>, b: Seq<char>, c: Seq<char>)
    ensures
        a + b + c == a + (b + c),
{
    assert(a + b + c =~= a + (b + c));
}

impl Reported {
    /// The report in front of the partition's size.
    pub open spec fn before_size(self) -> Seq<char> {
        self.name_line() + (self.devices_told(self.devices.len() as int) + (
        "\n                      : "@ + (listed_hex(self.ids) + ("\n"@ + (
        "Partition Information:\n"@ + "  Compressed Size     : "@)))))
    }

    /// The lines on the partition behind its size.
    pub open spec fn after_size(self) -> Seq<char> {
        "  Partition Name      : "@ + self.part_name + "\n"@ + "  Compression Type    : "@
            + self.comp_type + "\n"@ + "  Hash Code ("@ + self.hash_algo + ")    : "@ + self.hash
            + "\n"@ + "  XZ Part. offset     : "@ + self.offset + " (0x"@ + self.hex_offset
            + ")\n"@
    }
}

/// Where the size stands in a report.
proof fn lemma_size_in_text(r: Reported)
    ensures
        r.text() == r.before_size() + r.size + " bytes\n"@ + r.after_size(),
{
    let pre = "  Compressed Size     : "@ + r.size + " bytes\n"@;
    let s0 = "  Partition Name      : "@;
    let s1 = s0 + r.part_name;
    let s2 = s1 + "\n"@;
    let s3 = s2 + "  Compression Type    : "@;
    let s4 = s3 + r.comp_type;
    let s5 = s4 + "\n"@;
    let s6 = s5 + "  Hash Code ("@;
    let s7 = s6 + r.hash_algo;
    let s8 = s7 + ")    : "@;
    let s9 = s8 + r.hash;
    let s10 = s9 + "\n"@;
    let s11 = s10 + "  XZ Part. offset     : "@;
    let s12 = s11 + r.offset;
    let s13 = s12 + " (0x"@;
    let s14 = s13 + r.hex_offset;
    lemma_group(pre, s0, r.part_name);
    lemma_group(pre, s1, "\n"@);
    lemma_group(pre, s2, "  Compression Type    : "@);
    lemma_group(pre, s3, r.comp_type);
    lemma_group(pre, s4, "\n"@);
    lemma_group(pre, s5, "  Hash Code ("@);
    lemma_group(pre, s6, r.hash_algo);
    lemma_group(pre, s7, ")    : "@);
    lemma_group(pre, s8, r.hash);
    lemma_group(pre, s9, "\n"@);
    lemma_group(pre, s10, "  XZ Part. offset     : "@);
    lemma_group(pre, s11, r.offset);
    lemma_group(pre, s12, " (0x"@);
    lemma_group(pre, s13, r.hex_offset);
    lemma_group(pre, s14, ")\n"@);
    assert(r.part_lines() == pre + r.after_size());
    let x0 = "  Compressed Size     : "@;
    let rest = r.size + (" bytes\n"@ + r.after_size());
    lemma_group(x0, r.size, " bytes\n"@);
    lemma_group(x0, r.size + " bytes\n"@, r.after_size());
    lemma_group(r.size, " bytes\n"@, r.after_size());
    assert(r.part_lines() == x0 + rest);
    lemma_group("Partition Information:\n"@, x0, rest);
    let x1 = "Partition Information:\n"@ + x0;
    lemma_group("\n"@, x1, rest);
    let x2 = "\n"@ + x1;
    lemma_group(listed_hex(r.ids), x2, rest);
    let x3 = listed_hex(r.ids) + x2;
    lemma_group("\n                      : "@, x3, rest);
    let x4 = "\n                      : "@ + x3;
    lemma_group(r.devices_told(r.devices.len() as int), x4, rest);
    let x5 = r.devices_told(r.devices.len() as int) + x4;
    lemma_group(r.name_line(), x5, rest);
    assert(r.text() == r.before_size() + rest);
    lemma_group(r.before_size(), r.size, " bytes\n"@ + r.after_size());
    lemma_group(r.before_size() + r.size, " bytes\n"@, r.after_size());
}

/// The size in a report, between `Compressed Size     : ` and ` bytes`, is the number in the eight
/// bytes behind the tag of the partition record, whatever that number is.
pub proof fn law_size_is_told(
    f: Front,
    p: PartFields,
    tail: Seq<u8>,
    extract: bool,
) -> (parts: (Seq<char>, Seq<char>, Seq<char>))
    requires
        f.wf(),
        is_record(p),
        p.hash_len <= 20,
    ensures
        report(put_together(f, p, tail), extract) == parts.0 + "  Compressed Size     : "@ + parts.1
            + " bytes\n"@ + parts.2,
        is_numeral(parts.1, 10, p.size as int),
        put_together(f, p, tail).subrange(
            f.bytes().len() as int + 8,
            f.bytes().len() as int + 16,
        ) == eight_bytes(p.size),
{
    let b = put_together(f, p, tail);
    let r = law_report_tells_the_pieces(f, p, tail, extract);
    lemma_size_in_text(r);
    let ending = choose|e: Seq<char>| report(b, extract) == #[trigger] (r.text() + e);
    assert(report(b, extract) == r.text() + ending);
    let label = "  Compressed Size     : "@;
    let pre = r.name_line() + (r.devices_told(r.devices.len() as int) + (
    "\n                      : "@ + (listed_hex(r.ids) + ("\n"@ + "Partition Information:\n"@))));
    assert(r.before_size() == pre + label) by {
        let y0 = "Partition Information:\n"@;
        lemma_group("\n"@, y0, label);
        lemma_group(listed_hex(r.ids), "\n"@ + y0, label);
        lemma_group("\n                      : "@, listed_hex(r.ids) + ("\n"@ + y0), label);
        let y1 = "\n                      : "@ + (listed_hex(r.ids) + ("\n"@ + y0));
        lemma_group(r.devices_told(r.devices.len() as int), y1, label);
        lemma_group(r.name_line(), r.devices_told(r.devices.len() as int) + y1, label);
    }
    lemma_group(r.before_size() + r.size + " bytes\n"@, r.after_size(), ending);
    lemma_size_bytes(f, p, tail);
    (pre, r.size, r.after_size() + ending)
}

/// Where the size stands in an image.
proof fn lemma_size_bytes(f: Front, p: PartFields, tail: Seq<u8>)
    requires
        f.wf(),
        is_record(p),
    ensures
        put_together(f, p, tail).subrange(
            f.bytes().len() as int + 8,
            f.bytes().len() as int + 16,
        ) == eight_bytes(p.size),
{
    let b = put_together(f, p, tail);
    let at = f.bytes().len() as int;
    lemma_put_together(f, p, tail);
    lemma_eight_back(b.subrange(at + 8, at + 16));
}

/// Reports on images that differ in the partition's size differ.
pub proof fn law_sizes_are_told_apart(
    f: Front,
    p: PartFields,
    q: PartFields,
    tail: Seq<u8>,
    other: Seq<u8>,
    extract: bool,
)
    requires
        f.wf(),
        is_record(p),
        is_record(q),
        p.hash_len <= 20,
        q.hash_len <= 20,
        p.size != q.size,
    ensures
        report(put_together(f, p, tail), extract) != report(put_together(f, q, other), extract),
{
    let b = put_together(f, p, tail);
    let c = put_together(f, q, other);
    let r = reported(f, p);
    let t = reported(f, q);
    lemma_reported_tells(f, p);
    lemma_reported_tells(f, q);
    lemma_front_text(f, p, tail);
    lemma_front_text(f, q, other);
    lemma_size_in_text(r);
    lemma_size_in_text(t);
    reveal_strlit(" bytes\n");
    assert(r.before_size() == t.before_size());
    if report(b, extract) == report(c, extract) {
        let pre = r.before_size();
        let x = " bytes\n"@ + r.after_size() + ending_text(b, extract);
        let y = " bytes\n"@ + t.after_size() + ending_text(c, extract);
        lemma_group(pre + r.size, " bytes\n"@, r.after_size());
        lemma_group(pre + r.size, " bytes\n"@ + r.after_size(), ending_text(b, extract));
        lemma_group(pre + t.size, " bytes\n"@, t.after_size());
        lemma_group(pre + t.size, " bytes\n"@ + t.after_size(), ending_text(c, extract));
        assert(x[0] == ' ' && y[0] == ' ');
        lemma_numerals_end(pre, r.size, x, t.size, y);
    }
}

/// Digits in front of a space end where it stands.
proof fn lemma_numerals_end(
    pre: Seq<char>,
    s: Seq<char>,
    x: Seq<char>,
    t: Seq<char>,
    y: Seq<char>,
)
    requires
        pre + s + x == pre + t + y,
        all_digits(s, 10),
        all_digits(t, 10),
        x.len() > 0,
        y.len() > 0,
        x[0] == ' ',
        y[0] == ' ',
    ensures
        s == t,
{
    let a = pre + s + x;
    let b = pre + t + y;
    let n = pre.len() as int;
    assert(a[n + s.len()] == ' ');
    assert(b[n + t.len()] == ' ');
    if s.len() < t.len() {
        assert(b[n + s.len()] == t[s.len() as int]);
        assert(digit_value(t[s.len() as int]) >= 0);
    } else if t.len() < s.len() {
        assert(a[n + t.len()] == s[t.len() as int]);
        assert(digit_value(s[t.len() as int]) >= 0);
    }
    assert forall|i: int| 0 <= i < s.len() implies s[i] == t[i] by {
        assert(a[n + i] == s[i]);
        assert(b[n + i] == t[i]);
    }
    assert(s =~= t);
}

/// An image that ends in front of its devices, or is none, has no length that could be too large.
pub proof fn law_displayable_without_devices(b: Seq<u8>)
    requires
        b.len() < 44 || b.take(4) != seq![0x41u8, 0x5a, 0x30, 0x31],
    ensures
        displayable(b),
{
    assert(seq![0x41u8, 0x5a, 0x30, 0x31] =~= magic());
}

/// What is read of the devices in the first bytes of an image.
proof fn lemma_first_names(f: Front, b: Seq<u8>, n: int, i: int)
    requires
        f.wf(),
        f.bytes().is_prefix_of(b),
        44 <= n <= b.len(),
        0 <= i < f.devices.len(),
        name_at(i) + 20 <= n,
    ensures
        device_count(b.take(n)) == f.devices.len(),
        name_len(b.take(n), i) == f.devices[i].len,
{
    let c = b.take(n);
    lemma_front(b, f);
    lemma_identified(b, f);
    lemma_named(b, f);
    assert(c.take(n) =~= c);
    lemma_same_range(b, c, n, 40, 44);
    assert(name_len(b, i) == f.devices[i].len);
    lemma_same_range(b, c, n, name_at(i), name_at(i) + 4);
}

/// The first bytes of an image, up to a place in front of the compressed partition, can be displayed
/// just if the lengths of those names fit that are there in full.
pub proof fn law_first_bytes_displayable(f: Front, p: PartFields, tail: Seq<u8>, n: int)
    requires
        f.wf(),
        is_record(p),
        0 <= n < f.bytes().len() + 76,
    ensures
        displayable(put_together(f, p, tail).take(n)) <==> forall|i: int|
            0 <= i < f.devices.len() && 64 + 20 * i <= n ==> (#[trigger] f.devices[i]).len <= 16,
{
    let b = put_together(f, p, tail);
    let c = b.take(n);
    lemma_put_together(f, p, tail);
    lemma_offsets(b);
    lemma_find(b, 0x50, desc_end(b));
    lemma_first_text(f, p, b, n);
    if n >= 44 {
        lemma_front(b, f);
        lemma_identified(b, f);
        lemma_named(b, f);
        lemma_start_of_first(b, f.head(), n);
        lemma_head(c, f);
        assert(c.take(n) =~= c);
        lemma_same_range(b, c, n, 40, 44);
        assert forall|i: int| 0 <= i < devices_read(c) implies name_len(c, i)
            == #[trigger] f.devices[i].len by {
            lemma_first_names(f, b, n, i);
        }
        if displayable(c) {
            assert forall|i: int| 0 <= i < f.devices.len() && 64 + 20 * i <= n implies (
            #[trigger] f.devices[i]).len <= 16 by {
                assert(name_len(c, i) <= 16);
            }
        } else {
            let i = choose|i: int| 0 <= i < devices_read(c) && #[trigger] name_len(c, i) > 16;
            assert(f.devices[i].len > 16);
        }
    }
}

/// An image in which something starts with `P` behind the front that is too short for a partition
/// record, or none, can be displayed just if the lengths of its names fit.
pub proof fn law_displayable_without_record(f: Front, tail: Seq<u8>)
    requires
        f.wf(),
        tail.len() > 0,
        tail[0] == 0x50,
        tail.len() < 76 || tail.take(5) != seq![0x50u8, 0x41, 0x52, 0x54, 0x4c],
    ensures
        displayable(f.bytes() + tail) <==> f.names_fit(),
{
    let b = f.bytes() + tail;
    let at = f.bytes().len() as int;
    assert(b.subrange(0, at) =~= f.bytes());
    assert(b[at] == tail[0]);
    if tail.len() >= 76 {
        law_wrong_tag_is_told(f, tail, true);
    }
    lemma_front(b, f);
    lemma_identified(b, f);
    lemma_named(b, f);
    lemma_head(b, f);
    if displayable(b) {
        assert forall|i: int| 0 <= i < f.devices.len() implies (#[trigger] f.devices[i]).len
            <= 16 by {
            assert(name_len(b, i) <= 16);
        }
    }
}

} // verus!
