//! Where everything lies in an image, what reading it comes to and what is reported of it.
//!
//! An image is a header of 40 bytes; the number of compatible devices and, for each, the length
//! of its name and the name in 16 bytes; the number of USB ids and the ids; the length of a
//! description and the description; padding up to the first `P`, which starts the partition
//! record of 76 bytes; the compressed partition; padding up to a multiple of eight; and a section
//! that starts with `EOF`. All numbers are little-endian.

use vstd::prelude::*;

use crate::error::Failure;
use crate::records::{
    header_at, part_at, u32_at, DeviceFields, HeaderFields, PartFields, HEADER_LEN, PART_LEN,
};
use crate::text::{fixed_hex, hex_bytes, number, text_of, trim_nul};

verus! {

/// What is known of an image once it has been read.
#[verifier::ext_equal]
pub struct ImageFields {
    pub h: HeaderFields,
    pub device_count: u32,
    pub dev: Seq<DeviceFields>,
    pub img_desc_len: u32,
    pub img_desc: Seq<u8>,
    pub p: PartFields,
    pub partl_offset: int,
    pub xz_part_offset: int,
}

impl ImageFields {
    /// The counts and offsets agree with what they count and lead to, and the two tags are right.
    pub open spec fn wf(self) -> bool {
        &&& self.h.wf()
        &&& self.h.header == magic()
        &&& self.dev.len() == self.device_count
        &&& self.img_desc.len() == self.img_desc_len
        &&& self.p.wf()
        &&& self.p.tag.take(5) == part_tag()
        &&& 0 <= self.partl_offset
        &&& self.xz_part_offset == self.partl_offset + PART_LEN
    }
}

/// The bytes that an image starts with: `AZ01`.
pub open spec fn magic() -> Seq<u8> {
    seq![0x41, 0x5a, 0x30, 0x31]
}

/// The bytes that a partition record starts with: `PARTL`.
pub open spec fn part_tag() -> Seq<u8> {
    seq![0x50, 0x41, 0x52, 0x54, 0x4c]
}

/// The bytes that the last section starts with: `EOF`.
pub open spec fn eof_tag() -> Seq<u8> {
    seq![0x45, 0x4f, 0x46]
}

/// How many compatible devices the image names.
pub open spec fn device_count(b: Seq<u8>) -> u32 {
    u32_at(b, 40)
}

/// Where the record of device `i` is.
pub open spec fn name_at(i: int) -> int {
    44 + 20 * i
}

/// The length that device `i` gives for its name.
pub open spec fn name_len(b: Seq<u8>, i: int) -> u32 {
    u32_at(b, name_at(i))
}

/// The bytes that hold the name of device `i`.
pub open spec fn name_bytes(b: Seq<u8>, i: int) -> Seq<u8> {
    b.subrange(name_at(i) + 4, name_at(i) + 20)
}

/// Where the number of USB ids is: behind the last device.
pub open spec fn usb_count_at(b: Seq<u8>) -> int {
    name_at(device_count(b) as int)
}

/// How many USB ids there are.
pub open spec fn usb_count(b: Seq<u8>) -> u32 {
    u32_at(b, usb_count_at(b))
}

/// Where USB id `i` is.
pub open spec fn usb_at(b: Seq<u8>, i: int) -> int {
    usb_count_at(b) + 4 + 4 * i
}

/// USB id `i`.
pub open spec fn usb_id(b: Seq<u8>, i: int) -> u32 {
    u32_at(b, usb_at(b, i))
}

/// Where the description's length is: behind the last USB id.
pub open spec fn desc_len_at(b: Seq<u8>) -> int {
    usb_at(b, usb_count(b) as int)
}

/// The description's length.
pub open spec fn desc_len(b: Seq<u8>) -> u32 {
    u32_at(b, desc_len_at(b))
}

/// Where the description ends.
pub open spec fn desc_end(b: Seq<u8>) -> int {
    desc_len_at(b) + 4 + desc_len(b)
}

/// The first position from `from` on at which `b` holds `x`, or the end of `b` if there is none.
pub open spec fn find(b: Seq<u8>, x: u8, from: int) -> int
    decreases b.len() - from,
{
    if from < 0 || from >= b.len() {
        b.len() as int
    } else if b[from] == x {
        from
    } else {
        find(b, x, from + 1)
    }
}

/// Where the partition record is: at the first `P` behind the description.
pub open spec fn partl_at(b: Seq<u8>) -> int {
    find(b, 0x50, desc_end(b))
}

/// Where the compressed partition is: behind the partition record.
pub open spec fn xz_at(b: Seq<u8>) -> int {
    partl_at(b) + PART_LEN
}

/// The partition record.
pub open spec fn part_record(b: Seq<u8>) -> PartFields {
    part_at(b, partl_at(b))
}

/// The digest that a partition record holds: as much of its hash code as it says.
pub open spec fn recorded_hash(p: PartFields) -> Seq<u8> {
    p.hash_code.take(p.hash_len as int)
}

/// The image starts with a complete header, and that with `AZ01`.
pub open spec fn has_header(b: Seq<u8>) -> bool {
    b.len() >= HEADER_LEN && b.take(4) == magic()
}

/// The image holds everything up to the first byte of the partition record.
pub open spec fn reaches_partition(b: Seq<u8>) -> bool {
    &&& b.len() >= 44
    &&& b.len() >= usb_count_at(b) + 4
    &&& b.len() >= desc_len_at(b) + 4
    &&& b.len() >= desc_end(b)
    &&& b.len() > partl_at(b)
}

/// Why the part of the image in front of the compressed partition cannot be read, if it cannot.
pub open spec fn front_failure(b: Seq<u8>) -> Option<Failure> {
    if b.len() < HEADER_LEN {
        Some(Failure::UnexpectedEof)
    } else if b.take(4) != magic() {
        Some(Failure::InvalidHeader(b.take(4)))
    } else if !reaches_partition(b) || b.len() < xz_at(b) {
        Some(Failure::UnexpectedEof)
    } else if part_record(b).tag.take(5) != part_tag() {
        Some(Failure::PartitionTagNotFound)
    } else {
        None
    }
}

/// Device `i` as it is once the USB ids have been read: those beyond the ids have id 0.
pub open spec fn device(b: Seq<u8>, i: int) -> DeviceFields {
    DeviceFields {
        device_name_len: name_len(b, i),
        device_name: name_bytes(b, i),
        usb_id: if i < usb_count(b) {
            usb_id(b, i)
        } else {
            0
        },
    }
}

/// What is known of the image once the part in front of the compressed partition has been read.
pub open spec fn image_fields(b: Seq<u8>) -> ImageFields {
    ImageFields {
        h: header_at(b, 0),
        device_count: device_count(b),
        dev: Seq::new(device_count(b) as nat, |i: int| device(b, i)),
        img_desc_len: desc_len(b),
        img_desc: b.subrange(desc_len_at(b) + 4, desc_end(b)),
        p: part_record(b),
        partl_offset: partl_at(b),
        xz_part_offset: xz_at(b),
    }
}

/// A partition size as a signed offset of 64 bits.
pub open spec fn as_offset(size: u64) -> int {
    if size <= i64::MAX {
        size as int
    } else {
        size - 0x1_0000_0000_0000_0000
    }
}

/// Where the compressed partition ends. When it is copied out it has to be there in full; when it
/// is skipped, its size is an offset to move by.
pub open spec fn partition_end(b: Seq<u8>, extract: bool) -> Result<int, Failure> {
    let size = part_record(b).size;
    if extract {
        if xz_at(b) + size <= b.len() {
            Ok(xz_at(b) + size)
        } else {
            Err(Failure::UnexpectedEof)
        }
    } else {
        let end = xz_at(b) + as_offset(size);
        if 0 <= end <= i64::MAX {
            Ok(end)
        } else {
            Err(Failure::InvalidSeek)
        }
    }
}

/// The bytes from `at` on up to a multiple of eight.
pub open spec fn padding(at: int) -> int {
    (8 - at % 8) % 8
}

/// Where the section starts that should begin with `EOF`, behind a partition that ends at `end`.
pub open spec fn marker_at(end: int) -> int {
    end + padding(end)
}

/// What reading the image comes to, when the compressed partition is copied out or skipped.
pub open spec fn outcome(b: Seq<u8>, extract: bool) -> Result<ImageFields, Failure> {
    match front_failure(b) {
        Some(f) => Err(f),
        None => match partition_end(b, extract) {
            Err(f) => Err(f),
            Ok(end) => if padding(end) > 0 && marker_at(end) > i64::MAX {
                Err(Failure::InvalidSeek)
            } else if marker_at(end) + 3 > b.len() {
                Err(Failure::UnexpectedEof)
            } else {
                Ok(image_fields(b))
            },
        },
    }
}

/// How many bytes of the partition are copied at a time.
pub const COPY_CHUNK: usize = 4096;

/// The bytes that are copied out of the image, where it comes to that: the compressed partition,
/// or, of one that the image cuts short, the chunks that are there in full.
pub open spec fn copied(b: Seq<u8>, extract: bool) -> Option<Seq<u8>> {
    let at = xz_at(b);
    let size = part_record(b).size;
    if !extract || front_failure(b) is Some {
        None
    } else if at + size <= b.len() {
        Some(b.subrange(at, at + size))
    } else {
        Some(b.subrange(at, at + (b.len() - at) / (COPY_CHUNK as int) * COPY_CHUNK))
    }
}

/// How many devices are there in full, of those that the image should have.
pub open spec fn devices_read(b: Seq<u8>) -> int {
    if b.len() < usb_count_at(b) {
        (b.len() - 44) / 20
    } else {
        device_count(b) as int
    }
}

/// How many USB ids are there in full, of those that the image should have.
pub open spec fn usb_ids_read(b: Seq<u8>) -> int {
    if b.len() < desc_len_at(b) {
        (b.len() - usb_at(b, 0)) / 4
    } else {
        usb_count(b) as int
    }
}

/// Every length that is used to cut a field to size fits the field: those of the device names
/// that are there, and that of the digest.
pub open spec fn displayable(b: Seq<u8>) -> bool {
    &&& has_header(b) && b.len() >= 44 ==> forall|i: int|
        0 <= i < devices_read(b) ==> #[trigger] name_len(b, i) <= 16
    &&& front_failure(b) is None ==> part_record(b).hash_len <= 20
}

/// The line with the image's name, which ends at the first NUL of its field.
pub open spec fn name_line(b: Seq<u8>) -> Seq<char> {
    let n = header_at(b, 0).img_name;
    "Image Name            : "@ + text_of(n.take(find(n, 0, 0))) + "\n"@
}

/// The names of the first `n` devices, a comma behind each.
pub open spec fn device_names(b: Seq<u8>, n: int) -> Seq<char>
    decreases n,
{
    if n <= 0 {
        Seq::empty()
    } else {
        device_names(b, n - 1) + text_of(
            name_bytes(b, n - 1).take(name_len(b, n - 1) as int),
        ) + ", "@
    }
}

/// The first `n` USB ids, a comma behind each.
pub open spec fn usb_ids(b: Seq<u8>, n: int) -> Seq<char>
    decreases n,
{
    if n <= 0 {
        Seq::empty()
    } else {
        usb_ids(b, n - 1) + "0x"@ + fixed_hex(usb_id(b, n - 1) as nat, 8) + ", "@
    }
}

/// The lines on the partition, whose compressed bytes are at `at`.
pub open spec fn part_lines(p: PartFields, at: int) -> Seq<char> {
    "  Compressed Size     : "@ + number(p.size as nat, 10) + " bytes\n"@
        + "  Partition Name      : "@ + trim_nul(text_of(p.name)) + "\n"@
        + "  Compression Type    : "@ + trim_nul(text_of(p.comp_type)) + "\n"@ + "  Hash Code ("@
        + trim_nul(text_of(p.hash_algo)) + ")    : "@ + hex_bytes(recorded_hash(p)) + "\n"@ + "  XZ Part. offset     : "@ + number(at as nat, 10) + " (0x"@ + number(
        at as nat,
        16,
    ) + ")\n"@
}

/// The report from the partition record on, up to the compressed partition.
pub open spec fn part_text(b: Seq<u8>) -> Seq<char> {
    if !reaches_partition(b) {
        Seq::empty()
    } else {
        "Partition Information:\n"@ + if front_failure(b) is None {
            part_lines(part_record(b), xz_at(b))
        } else {
            Seq::empty()
        }
    }
}

/// The report from the USB ids on, up to the compressed partition.
pub open spec fn usb_text(b: Seq<u8>) -> Seq<char> {
    if b.len() < usb_at(b, 0) {
        Seq::empty()
    } else {
        usb_ids(b, usb_ids_read(b)) + if b.len() < desc_len_at(b) {
            Seq::empty()
        } else {
            "\n"@ + part_text(b)
        }
    }
}

/// The report from the devices on, up to the compressed partition.
pub open spec fn device_text(b: Seq<u8>) -> Seq<char> {
    if b.len() < 44 {
        Seq::empty()
    } else {
        number(device_count(b) as nat, 10) + " compatible devices  : "@ + device_names(
            b,
            devices_read(b),
        ) + if b.len() < usb_count_at(b) {
            Seq::empty()
        } else {
            "\n                      : "@ + usb_text(b)
        }
    }
}

/// The report on the part of the image in front of the compressed partition. It goes as far as
/// the image can be read.
pub open spec fn front_text(b: Seq<u8>) -> Seq<char> {
    if has_header(b) {
        name_line(b) + device_text(b)
    } else {
        Seq::empty()
    }
}

/// The report on the first bytes of the last section.
pub open spec fn marker_text(found: Seq<u8>) -> Seq<char> {
    if found == eof_tag() {
        "\n"@
    } else {
        "'EOF' tag not found. Image file is probably corrupted.\n\n"@
    }
}

/// The report on what lies behind the compressed partition, for an image that can be read.
pub open spec fn ending_text(b: Seq<u8>, extract: bool) -> Seq<char> {
    match outcome(b, extract) {
        Ok(_) => {
            let at = marker_at(partition_end(b, extract)->Ok_0);
            marker_text(b.subrange(at, at + 3))
        },
        Err(_) => Seq::empty(),
    }
}

/// The whole report.
pub open spec fn report(b: Seq<u8>, extract: bool) -> Seq<char> {
    front_text(b) + ending_text(b, extract)
}

} // verus!
