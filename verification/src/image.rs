//! Reading an image: its fields, a report on them and the compressed partition.

use vstd::prelude::*;
use vstd::slice::slice_subrange;
use vstd::string::StringExecFns;

use crate::error::{Failure, ImageError};
use crate::laws::law_read_image_is_well_formed;
use crate::layout::{
    copied, desc_end, desc_len, desc_len_at, device_count, device_names, devices_read,
    displayable, eof_tag, find, front_failure, front_text, has_header, image_fields, magic,
    marker_at, name_at, name_bytes, name_len, name_line, outcome, padding, part_lines,
    part_record, part_tag, part_text, partl_at, reaches_partition, report, usb_at, usb_count,
    usb_count_at, usb_id, usb_ids, usb_ids_read, usb_text, xz_at, ImageFields, COPY_CHUNK,
};
use crate::reader::ByteReader;
use crate::records::{append, header_at, AkaiImageHeader, CompatTable, DeviceFields, PartInfo};
use crate::text::{
    push_fixed_hex, push_hex_bytes, push_number, until_nul, utf8_or_remark, without_nul,
};

verus! {

/// The bytes that an image starts with: `AZ01`.
pub const MAGIC: [u8; 4] = [0x41, 0x5a, 0x30, 0x31];

/// The bytes that a partition record starts with: `PARTL`.
pub const PART_TAG: [u8; 5] = [0x50, 0x41, 0x52, 0x54, 0x4c];

/// The bytes that the last section starts with: `EOF`.
pub const EOF_TAG: [u8; 3] = [0x45, 0x4f, 0x46];

/// What is known of an image once it has been read.
#[derive(Debug)]
pub struct AkaiImage {
    pub h: AkaiImageHeader,
    pub device_count: u32,
    pub dev: Vec<CompatTable>,
    pub img_desc_len: u32,
    pub img_desc: Vec<u8>,
    pub p: PartInfo,
    /// Where the partition record is.
    pub partl_offset: u64,
    /// Where the compressed partition is.
    pub xz_part_offset: u64,
}

impl View for AkaiImage {
    type V = ImageFields;

    open spec fn view(&self) -> ImageFields {
        ImageFields {
            h: self.h@,
            device_count: self.device_count,
            dev: Seq::new(self.dev@.len(), |i: int| self.dev@[i]@),
            img_desc_len: self.img_desc_len,
            img_desc: self.img_desc@,
            p: self.p@,
            partl_offset: self.partl_offset as int,
            xz_part_offset: self.xz_part_offset as int,
        }
    }
}

/// An image's model has the image's fields.
pub proof fn law_model_has_the_fields(image: AkaiImage)
    ensures
        image@.h == image.h@ && image@.p == image.p@,
        image@.device_count == image.device_count && image@.img_desc_len == image.img_desc_len,
        image@.img_desc == image.img_desc@,
        image@.partl_offset == image.partl_offset && image@.xz_part_offset == image.xz_part_offset,
        image@.dev.len() == image.dev@.len(),
        forall|i: int| 0 <= i < image.dev@.len() ==> image@.dev[i] == (#[trigger] image.dev@[i])@,
{
}

/// What came of reading an image.
#[derive(Debug)]
pub struct Inspection {
    /// What is to be told of the image. If the image cannot be read, what could be told by then.
    pub report: String,
    /// The bytes copied out of the image, if it came to that.
    pub copied: Option<Vec<u8>>,
    /// The image's fields, or why it cannot be read.
    pub outcome: Result<AkaiImage, ImageError>,
}

/// `bytes` starts with `prefix`.
pub(crate) fn starts_with(bytes: &[u8], prefix: &[u8]) -> (yes: bool)
    requires
        prefix@.len() <= bytes@.len(),
    ensures
        yes == (bytes@.take(prefix@.len() as int) == prefix@),
{
    let n: usize = prefix.len();
    let mut i: usize = 0;
    while i < n
        invariant
            i <= n,
            n == prefix@.len(),
            n <= bytes@.len(),
            bytes@.take(i as int) == prefix@.take(i as int),
        decreases n - i,
    {
        if bytes[i] != prefix[i] {
            assert(bytes@.take(n as int)[i as int] != prefix@[i as int]);
            return false;
        }
        i += 1;
        assert(bytes@.take(i as int) =~= prefix@.take(i as int));
    }
    assert(prefix@.take(n as int) =~= prefix@);
    true
}

/// Reads the devices, without their USB ids, as far as they are there in full.
fn read_devices(reader: &mut ByteReader, count: u32) -> (devices: Vec<CompatTable>)
    requires
        old(reader).pos == 44,
        old(reader).data@.len() >= 44,
        count == device_count(old(reader).data@),
    ensures
        final(reader).data@ == old(reader).data@,
        devices@.len() == devices_read(old(reader).data@),
        devices@.len() == count ==> final(reader).pos == usb_count_at(old(reader).data@),
        forall|i: int|
            0 <= i < devices@.len() ==> (#[trigger] devices@[i])@ == (DeviceFields {
                device_name_len: name_len(old(reader).data@, i),
                device_name: name_bytes(old(reader).data@, i),
                usb_id: 0,
            }),
        devices@.len() == count <==> old(reader).data@.len() >= usb_count_at(old(reader).data@),
{
    let ghost b = reader.data@;
    let mut devices: Vec<CompatTable> = Vec::new();
    let mut i: u32 = 0;
    while i < count
        invariant
            i <= count,
            count == device_count(b),
            b == old(reader).data@,
            reader.data@ == b,
            reader.pos == name_at(i as int),
            reader.pos <= b.len(),
            devices@.len() == i,
            forall|j: int|
                0 <= j < i ==> (#[trigger] devices@[j])@ == (DeviceFields {
                    device_name_len: name_len(b, j),
                    device_name: name_bytes(b, j),
                    usb_id: 0,
                }),
        decreases count - i,
    {
        let device_name_len: u32 = match reader.read_u32() {
            Ok(n) => n,
            Err(_) => return devices,
        };
        let mut device_name = [0u8; 16];
        match reader.read_exact(&mut device_name) {
            Ok(()) => {},
            Err(_) => return devices,
        }
        devices.push(CompatTable { device_name_len, device_name, usb_id: 0 });
        i += 1;
    }
    devices
}

/// Reads the USB ids as far as they are there in full.
fn read_usb_ids(reader: &mut ByteReader, count: u32) -> (ids: Vec<u32>)
    requires
        old(reader).pos == usb_at(old(reader).data@, 0),
        old(reader).data@.len() >= usb_at(old(reader).data@, 0),
        count == usb_count(old(reader).data@),
    ensures
        final(reader).data@ == old(reader).data@,
        ids@.len() == usb_ids_read(old(reader).data@),
        ids@.len() == count ==> final(reader).pos == desc_len_at(old(reader).data@),
        forall|i: int|
            0 <= i < ids@.len() ==> #[trigger] ids@[i] == usb_id(old(reader).data@, i),
        ids@.len() == count <==> old(reader).data@.len() >= desc_len_at(old(reader).data@),
{
    let ghost b = reader.data@;
    let mut ids: Vec<u32> = Vec::new();
    let mut i: u32 = 0;
    while i < count
        invariant
            i <= count,
            count == usb_count(b),
            b == old(reader).data@,
            reader.data@ == b,
            reader.pos == usb_at(b, i as int),
            reader.pos <= b.len(),
            ids@.len() == i,
            forall|j: int| 0 <= j < i ==> #[trigger] ids@[j] == usb_id(b, j),
        decreases count - i,
    {
        match reader.read_u32() {
            Ok(id) => ids.push(id),
            Err(_) => return ids,
        }
        i += 1;
    }
    ids
}

/// Moves forward to the next byte that is `x`.
fn skip_to(reader: &mut ByteReader, x: u8) -> (found: Result<(), ImageError>)
    requires
        old(reader).pos <= old(reader).data@.len(),
    ensures
        final(reader).data@ == old(reader).data@,
        match found {
            Ok(()) => {
                &&& final(reader).pos == find(old(reader).data@, x, old(reader).pos as int)
                &&& final(reader).pos < old(reader).data@.len()
            },
            Err(e) => {
                &&& e == ImageError::UnexpectedEof
                &&& find(old(reader).data@, x, old(reader).pos as int) == old(reader).data@.len()
            },
        },
{
    let ghost b = reader.data@;
    let ghost start = reader.pos as int;
    let len: usize = reader.data.len();
    let mut i: usize = reader.pos as usize;
    while i < len
        invariant
            i <= len,
            len == b.len(),
            b == old(reader).data@,
            start == old(reader).pos,
            reader.data@ == b,
            find(b, x, start) == find(b, x, i as int),
        decreases len - i,
    {
        if reader.data[i] == x {
            reader.pos = i as u64;
            return Ok(());
        }
        i += 1;
    }
    Err(ImageError::UnexpectedEof)
}

/// Gives each device the USB id of its rank, as far as there are ids.
fn set_usb_ids(devices: &mut Vec<CompatTable>, ids: &Vec<u32>)
    ensures
        final(devices)@.len() == old(devices)@.len(),
        forall|i: int|
            0 <= i < old(devices)@.len() ==> (#[trigger] final(devices)@[i])@ == (DeviceFields {
                usb_id: if i < ids@.len() {
                    ids@[i]
                } else {
                    old(devices)@[i].usb_id
                },
                ..old(devices)@[i]@
            }),
{
    let mut i: usize = 0;
    while i < ids.len() && i < devices.len()
        invariant
            i <= ids@.len(),
            i <= devices@.len(),
            devices@.len() == old(devices)@.len(),
            forall|j: int|
                0 <= j < devices@.len() ==> (#[trigger] devices@[j])@ == (DeviceFields {
                    usb_id: if j < i {
                        ids@[j]
                    } else {
                        old(devices)@[j].usb_id
                    },
                    ..old(devices)@[j]@
                }),
        decreases ids@.len() - i,
    {
        devices[i].usb_id = ids[i];
        i += 1;
    }
}

/// Appends the devices' names, a comma behind each.
fn push_device_names(out: &mut String, devices: &Vec<CompatTable>, Ghost(b): Ghost<Seq<u8>>)
    requires
        forall|i: int|
            0 <= i < devices@.len() ==> {
                &&& (#[trigger] devices@[i]).device_name_len == name_len(b, i)
                &&& devices@[i].device_name@ == name_bytes(b, i)
                &&& devices@[i].device_name_len <= 16
            },
    ensures
        final(out)@ == old(out)@ + device_names(b, devices@.len() as int),
{
    let mut i: usize = 0;
    assert(out@ =~= old(out)@ + device_names(b, 0));
    while i < devices.len()
        invariant
            i <= devices@.len(),
            forall|i: int|
                0 <= i < devices@.len() ==> {
                    &&& (#[trigger] devices@[i]).device_name_len == name_len(b, i)
                    &&& devices@[i].device_name@ == name_bytes(b, i)
                    &&& devices@[i].device_name_len <= 16
                },
            out@ == old(out)@ + device_names(b, i as int),
        decreases devices@.len() - i,
    {
        let device: &CompatTable = &devices[i];
        let name = slice_subrange(
            device.device_name.as_slice(),
            0,
            device.device_name_len as usize,
        );
        out.append(utf8_or_remark(name));
        out.append(", ");
        i += 1;
        assert(out@ =~= old(out)@ + device_names(b, i as int));
    }
}

/// Appends the USB ids, a comma behind each.
fn push_usb_ids(out: &mut String, ids: &Vec<u32>, Ghost(b): Ghost<Seq<u8>>)
    requires
        forall|i: int| 0 <= i < ids@.len() ==> #[trigger] ids@[i] == usb_id(b, i),
    ensures
        final(out)@ == old(out)@ + usb_ids(b, ids@.len() as int),
{
    let mut i: usize = 0;
    assert(out@ =~= old(out)@ + usb_ids(b, 0));
    while i < ids.len()
        invariant
            i <= ids@.len(),
            forall|i: int| 0 <= i < ids@.len() ==> #[trigger] ids@[i] == usb_id(b, i),
            out@ == old(out)@ + usb_ids(b, i as int),
        decreases ids@.len() - i,
    {
        out.append("0x");
        push_fixed_hex(out, ids[i], 8);
        out.append(", ");
        i += 1;
        assert(out@ =~= old(out)@ + usb_ids(b, i as int));
    }
}

/// Appends the lines on a partition whose compressed bytes are at `at`.
fn push_part_lines(out: &mut String, p: &PartInfo, at: u64)
    requires
        p.hash_len <= 20,
    ensures
        final(out)@ == old(out)@ + part_lines(p@, at as int),
{
    let mut lines = String::new();
    lines.append("  Compressed Size     : ");
    assert(lines@ =~= "  Compressed Size     : "@);
    push_number(&mut lines, p.size, 10);
    lines.append(" bytes\n");
    lines.append("  Partition Name      : ");
    lines.append(without_nul(utf8_or_remark(p.name.as_slice())));
    lines.append("\n");
    lines.append("  Compression Type    : ");
    lines.append(without_nul(utf8_or_remark(p.comp_type.as_slice())));
    lines.append("\n");
    lines.append("  Hash Code (");
    lines.append(without_nul(utf8_or_remark(p.hash_algo.as_slice())));
    lines.append(")    : ");
    push_hex_bytes(&mut lines, slice_subrange(p.hash_code.as_slice(), 0, p.hash_len as usize));
    lines.append("\n");
    lines.append("  XZ Part. offset     : ");
    push_number(&mut lines, at, 10);
    lines.append(" (0x");
    push_number(&mut lines, at, 16);
    lines.append(")\n");
    out.append(lines.as_str());
}

/// Reads and reports the header and the devices, still without their USB ids.
fn read_head(reader: &mut ByteReader, out: &mut String) -> (read: Result<
    (AkaiImageHeader, Vec<CompatTable>),
    ImageError,
>)
    requires
        old(reader).pos == 0,
        old(out)@ == Seq::<char>::empty(),
        displayable(old(reader).data@),
    ensures
        final(reader).data@ == old(reader).data@,
        ({
            let b = old(reader).data@;
            match read {
                Ok((h, dev)) => {
                    &&& has_header(b)
                    &&& b.len() >= 44
                    &&& b.len() >= usb_count_at(b)
                    &&& h@ == header_at(b, 0)
                    &&& dev@.len() == device_count(b)
                    &&& forall|i: int|
                        0 <= i < dev@.len() ==> (#[trigger] dev@[i])@ == (DeviceFields {
                            device_name_len: name_len(b, i),
                            device_name: name_bytes(b, i),
                            usb_id: 0,
                        })
                    &&& final(reader).pos == usb_count_at(b)
                    &&& final(out)@ + usb_text(b) == front_text(b)
                },
                Err(e) => front_failure(b) == Some(e@) && final(out)@ == front_text(b),
            }
        }),
{
    let ghost b = reader.data@;
    let h = AkaiImageHeader::read_from(reader)?;
    assert(b.subrange(0, 4) =~= b.take(4));
    assert(h.header@.take(4) =~= h.header@);
    assert(MAGIC@ =~= magic());
    if !starts_with(h.header.as_slice(), MAGIC.as_slice()) {
        return Err(ImageError::InvalidHeader(h.header));
    }
    out.append("Image Name            : ");
    out.append(utf8_or_remark(until_nul(h.img_name.as_slice())));
    out.append("\n");
    assert(out@ =~= name_line(b));
    assert(name_line(b) + Seq::empty() =~= name_line(b));

    let count: u32 = reader.read_u32()?;
    push_number(out, count as u64, 10);
    out.append(" compatible devices  : ");
    let dev = read_devices(reader, count);
    push_device_names(out, &dev, Ghost(b));
    if dev.len() < count as usize {
        assert(out@ =~= front_text(b));
        return Err(ImageError::UnexpectedEof);
    }
    out.append("\n                      : ");
    assert(out@ + usb_text(b) =~= front_text(b));
    Ok((h, dev))
}

/// Reads and reports the USB ids, and gives them to the devices.
fn read_ids(reader: &mut ByteReader, out: &mut String, dev: &mut Vec<CompatTable>) -> (read: Result<
    (),
    ImageError,
>)
    requires
        has_header(old(reader).data@),
        old(reader).data@.len() >= 44,
        old(reader).data@.len() >= usb_count_at(old(reader).data@),
        old(reader).pos == usb_count_at(old(reader).data@),
    ensures
        final(reader).data@ == old(reader).data@,
        final(dev)@.len() == old(dev)@.len(),
        ({
            let b = old(reader).data@;
            match read {
                Ok(()) => {
                    &&& b.len() >= usb_at(b, 0)
                    &&& b.len() >= desc_len_at(b)
                    &&& forall|i: int|
                        0 <= i < old(dev)@.len() ==> (#[trigger] final(dev)@[i])@ == (DeviceFields {
                            usb_id: if i < usb_count(b) {
                                usb_id(b, i)
                            } else {
                                old(dev)@[i].usb_id
                            },
                            ..old(dev)@[i]@
                        })
                    &&& final(reader).pos == desc_len_at(b)
                    &&& final(out)@ + part_text(b) == old(out)@ + usb_text(b)
                },
                Err(e) => {
                    &&& front_failure(b) == Some(e@)
                    &&& final(out)@ == old(out)@ + usb_text(b)
                },
            }
        }),
{
    let ghost b = reader.data@;
    assert(out@ + Seq::empty() =~= out@);
    let count: u32 = reader.read_u32()?;
    let ids = read_usb_ids(reader, count);
    push_usb_ids(out, &ids, Ghost(b));
    set_usb_ids(dev, &ids);
    if ids.len() < count as usize {
        assert(out@ =~= old(out)@ + usb_text(b));
        return Err(ImageError::UnexpectedEof);
    }
    out.append("\n");
    assert(out@ + part_text(b) =~= old(out)@ + usb_text(b));
    Ok(())
}

/// Reads the description and moves behind the padding that follows it, to the partition record.
fn read_description(reader: &mut ByteReader) -> (read: Result<(u32, Vec<u8>), ImageError>)
    requires
        has_header(old(reader).data@),
        old(reader).data@.len() >= 44,
        old(reader).data@.len() >= usb_at(old(reader).data@, 0),
        old(reader).data@.len() >= desc_len_at(old(reader).data@),
        old(reader).pos == desc_len_at(old(reader).data@),
    ensures
        final(reader).data@ == old(reader).data@,
        ({
            let b = old(reader).data@;
            match read {
                Ok((len, desc)) => {
                    &&& reaches_partition(b)
                    &&& len == desc_len(b)
                    &&& desc@ == b.subrange(desc_len_at(b) + 4, desc_end(b))
                    &&& final(reader).pos == partl_at(b)
                },
                Err(e) => {
                    &&& !reaches_partition(b)
                    &&& e == ImageError::UnexpectedEof
                },
            }
        }),
{
    let ghost b = reader.data@;
    let len: u32 = reader.read_u32()?;
    let mut desc: Vec<u8> = Vec::new();
    append(&mut desc, reader.take(len as usize)?);
    assert(desc@ =~= b.subrange(desc_len_at(b) + 4, desc_end(b)));
    skip_to(reader, 0x50)?;
    Ok((len, desc))
}

/// Reads and reports the partition record.
fn read_part(reader: &mut ByteReader, out: &mut String) -> (read: Result<PartInfo, ImageError>)
    requires
        has_header(old(reader).data@),
        reaches_partition(old(reader).data@),
        old(reader).pos == partl_at(old(reader).data@),
        displayable(old(reader).data@),
    ensures
        final(reader).data@ == old(reader).data@,
        final(out)@ == old(out)@ + part_text(old(reader).data@),
        ({
            let b = old(reader).data@;
            match read {
                Ok(p) => {
                    &&& front_failure(b) is None
                    &&& p@ == part_record(b)
                    &&& final(reader).pos == xz_at(b)
                },
                Err(e) => front_failure(b) == Some(e@),
            }
        }),
{
    let ghost b = reader.data@;
    out.append("Partition Information:\n");
    assert(out@ + Seq::empty() =~= out@);
    assert(front_failure(b) is Some ==> old(out)@ + part_text(b) =~= out@);
    let p = PartInfo::read_from(reader)?;
    assert(PART_TAG@ =~= part_tag());
    if !starts_with(p.tag.as_slice(), PART_TAG.as_slice()) {
        return Err(ImageError::PartitionTagNotFound);
    }
    push_part_lines(out, &p, reader.pos);
    assert(out@ =~= old(out)@ + part_text(b));
    Ok(p)
}

/// Reads and reports the part of an image in front of the compressed partition.
fn read_front(reader: &mut ByteReader, out: &mut String) -> (read: Result<AkaiImage, ImageError>)
    requires
        old(reader).pos == 0,
        old(out)@ == Seq::<char>::empty(),
        displayable(old(reader).data@),
    ensures
        final(reader).data@ == old(reader).data@,
        final(out)@ == front_text(old(reader).data@),
        match read {
            Ok(image) => {
                &&& front_failure(old(reader).data@) is None
                &&& image@ == image_fields(old(reader).data@)
                &&& final(reader).pos == xz_at(old(reader).data@)
            },
            Err(e) => front_failure(old(reader).data@) == Some(e@),
        },
{
    let ghost b = reader.data@;
    let (h, mut dev) = read_head(reader, out)?;
    read_ids(reader, out, &mut dev)?;
    assert(out@ + Seq::empty() =~= out@);
    let (img_desc_len, img_desc) = read_description(reader)?;
    let partl_offset: u64 = reader.pos;
    let p = read_part(reader, out)?;
    let device_count: u32 = dev.len() as u32;
    let image = AkaiImage {
        h,
        device_count,
        dev,
        img_desc_len,
        img_desc,
        p,
        partl_offset,
        xz_part_offset: reader.pos,
    };
    assert(image@.dev =~= image_fields(b).dev);
    assert(image@ =~= image_fields(b));
    Ok(image)
}

/// Copies the next `size` bytes, a chunk at a time. A chunk that is not there in full is not
/// copied at all.
fn copy_partition(reader: &mut ByteReader, size: u64) -> (done: (Vec<u8>, Result<(), ImageError>))
    requires
        old(reader).pos <= old(reader).data@.len(),
    ensures
        final(reader).data@ == old(reader).data@,
        match done.1 {
            Ok(()) => {
                &&& old(reader).pos + size <= old(reader).data@.len()
                &&& final(reader).pos == old(reader).pos + size
                &&& done.0@ == old(reader).data@.subrange(
                    old(reader).pos as int,
                    old(reader).pos + size,
                )
            },
            Err(e) => {
                &&& e == ImageError::UnexpectedEof
                &&& old(reader).pos + size > old(reader).data@.len()
                &&& done.0@ == old(reader).data@.subrange(
                    old(reader).pos as int,
                    old(reader).pos + (old(reader).data@.len() - old(reader).pos) / (
                    COPY_CHUNK as int) * COPY_CHUNK,
                )
            },
        },
{
    let ghost b = reader.data@;
    let ghost start = reader.pos as int;
    let mut out: Vec<u8> = Vec::new();
    let mut remaining: u64 = size;
    assert(out@ =~= b.subrange(start, start));
    while remaining > 0
        invariant
            b == old(reader).data@,
            start == old(reader).pos,
            reader.data@ == b,
            0 <= start <= reader.pos <= b.len(),
            reader.pos + remaining == start + size,
            remaining > 0 ==> (reader.pos - start) % (COPY_CHUNK as int) == 0,
            out@ == b.subrange(start, reader.pos as int),
        decreases remaining,
    {
        let to_read: usize = if remaining < COPY_CHUNK as u64 {
            remaining as usize
        } else {
            COPY_CHUNK
        };
        match reader.take(to_read) {
            Ok(chunk) => append(&mut out, chunk),
            Err(e) => {
                assert((b.len() - start) / (COPY_CHUNK as int) * COPY_CHUNK == reader.pos - start);
                return (out, Err(e));
            },
        }
        assert(out@ =~= b.subrange(start, reader.pos as int));
        remaining -= to_read as u64;
    }
    (out, Ok(()))
}

/// Moves behind the padding that follows the partition and looks for the `EOF` there.
fn read_marker(reader: &mut ByteReader) -> (found: Result<bool, ImageError>)
    ensures
        final(reader).data@ == old(reader).data@,
        ({
            let b = old(reader).data@;
            let end = old(reader).pos as int;
            match found {
                Ok(yes) => {
                    &&& !(padding(end) > 0 && marker_at(end) > i64::MAX)
                    &&& marker_at(end) + 3 <= b.len()
                    &&& yes == (b.subrange(marker_at(end), marker_at(end) + 3) == eof_tag())
                },
                Err(ImageError::InvalidSeek) => padding(end) > 0 && marker_at(end) > i64::MAX,
                Err(e) => {
                    &&& e == ImageError::UnexpectedEof
                    &&& !(padding(end) > 0 && marker_at(end) > i64::MAX)
                    &&& marker_at(end) + 3 > b.len()
                },
            }
        }),
{
    let seek_amount: u64 = (8 - reader.pos % 8) % 8;
    if seek_amount > 0 {
        reader.seek_current(seek_amount as i64)?;
    }
    let marker = reader.take(3)?;
    assert(EOF_TAG@ =~= eof_tag());
    assert(marker@.take(3) =~= marker@);
    Ok(starts_with(marker, EOF_TAG.as_slice()))
}

/// A partition size as an offset to move by.
fn offset_of(size: u64) -> (offset: i64)
    ensures
        offset == crate::layout::as_offset(size),
{
    let offset: i64 = size as i64;
    assert(size <= 0x7fff_ffff_ffff_ffff ==> size as i64 == size) by (bit_vector);
    assert(size > 0x7fff_ffff_ffff_ffff ==> size as i64 == size - 0x1_0000_0000_0000_0000)
        by (bit_vector);
    offset
}

/// Reads an image: reports what it holds and, if `extract_temp` is set, copies the compressed
/// partition out of it. The image has to be one that [`is_displayable`] accepts.
pub fn display_akai_image_info(image: &[u8], extract_temp: bool) -> (inspection: Inspection)
    requires
        displayable(image@),
    ensures
        inspection.report@ == report(image@, extract_temp),
        match inspection.copied {
            Some(bytes) => copied(image@, extract_temp) == Some(bytes@),
            None => copied(image@, extract_temp) is None,
        },
        match inspection.outcome {
            Ok(fields) => {
                &&& outcome(image@, extract_temp) == Ok::<ImageFields, Failure>(fields@)
                &&& fields@.wf()
            },
            Err(e) => outcome(image@, extract_temp) == Err::<ImageFields, Failure>(e@),
        },
{
    let ghost b = image@;
    let mut text = String::new();
    let mut reader = ByteReader::new(image);
    let fields = match read_front(&mut reader, &mut text) {
        Ok(fields) => fields,
        Err(e) => {
            assert(report(b, extract_temp) =~= front_text(b));
            return Inspection { report: text, copied: None, outcome: Err(e) };
        },
    };
    assert(front_text(b) + Seq::empty() =~= front_text(b));
    let mut copy: Option<Vec<u8>> = None;
    let moved: Result<(), ImageError>;
    if extract_temp {
        let (bytes, done) = copy_partition(&mut reader, fields.p.size);
        copy = Some(bytes);
        moved = done;
    } else {
        moved = reader.seek_current(offset_of(fields.p.size));
    }
    if let Err(e) = moved {
        return Inspection { report: text, copied: copy, outcome: Err(e) };
    }
    match read_marker(&mut reader) {
        Ok(true) => text.append("\n"),
        Ok(false) => text.append("'EOF' tag not found. Image file is probably corrupted.\n\n"),
        Err(e) => return Inspection { report: text, copied: copy, outcome: Err(e) },
    }
    proof {
        law_read_image_is_well_formed(b, extract_temp);
    }
    Inspection { report: text, copied: copy, outcome: Ok(fields) }
}

/// Every length that [`display_akai_image_info`] cuts a field to fits the field.
pub fn is_displayable(image: &[u8]) -> (yes: bool)
    ensures
        yes == displayable(image@),
{
    let ghost b = image@;
    let mut reader = ByteReader::new(image);
    let h = match AkaiImageHeader::read_from(&mut reader) {
        Ok(h) => h,
        Err(_) => return true,
    };
    assert(b.subrange(0, 4) =~= b.take(4));
    assert(h.header@.take(4) =~= h.header@);
    assert(MAGIC@ =~= magic());
    if !starts_with(h.header.as_slice(), MAGIC.as_slice()) {
        return true;
    }
    let count: u32 = match reader.read_u32() {
        Ok(n) => n,
        Err(_) => return true,
    };
    let dev = read_devices(&mut reader, count);
    let mut i: usize = 0;
    while i < dev.len()
        invariant
            i <= dev@.len(),
            b == image@,
            dev@.len() == devices_read(b),
            has_header(b),
            b.len() >= 44,
            forall|j: int| 0 <= j < dev@.len() ==> (#[trigger] dev@[j])@.device_name_len == name_len(b, j),
            forall|j: int| 0 <= j < i ==> #[trigger] name_len(b, j) <= 16,
        decreases dev@.len() - i,
    {
        if dev[i].device_name_len > 16 {
            assert(dev@[i as int]@.device_name_len == name_len(b, i as int));
            return false;
        }
        assert(dev@[i as int]@.device_name_len == name_len(b, i as int));
        i += 1;
    }
    if dev.len() < count as usize {
        return true;
    }
    let usb_count: u32 = match reader.read_u32() {
        Ok(n) => n,
        Err(_) => return true,
    };
    let ids = read_usb_ids(&mut reader, usb_count);
    if ids.len() < usb_count as usize {
        return true;
    }
    let img_desc_len: u32 = match reader.read_u32() {
        Ok(n) => n,
        Err(_) => return true,
    };
    if reader.take(img_desc_len as usize).is_err() || skip_to(&mut reader, 0x50).is_err() {
        return true;
    }
    match PartInfo::read_from(&mut reader) {
        Ok(p) => {
            assert(PART_TAG@ =~= part_tag());
            !starts_with(p.tag.as_slice(), PART_TAG.as_slice()) || p.hash_len <= 20
        },
        Err(_) => true,
    }
}

} // verus!
