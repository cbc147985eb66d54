//! The fixed-size records of an image: its header, a compatible device and the partition record.

use vstd::prelude::*;

use crate::bytes::{
    le_bytes, le_nat, lemma_le_bytes_round_trip, lemma_le_limits, lemma_le_value_round_trip,
    write_u32, write_u64,
};
use crate::codec::SHA_DIGEST_LENGTH;
use crate::error::ImageError;
use crate::reader::ByteReader;

verus! {

/// The number in the four bytes of `b` at `at`, least significant byte first.
pub open spec fn u32_at(b: Seq<u8>, at: int) -> u32 {
    le_nat(b.subrange(at, at + 4)) as u32
}

/// The number in the eight bytes of `b` at `at`, least significant byte first.
pub open spec fn u64_at(b: Seq<u8>, at: int) -> u64 {
    le_nat(b.subrange(at, at + 8)) as u64
}

/// The header that an image starts with.
#[derive(Debug, Clone, Copy)]
pub struct AkaiImageHeader {
    /// `AZ01`.
    pub header: [u8; 4],
    /// 1 in the known images.
    pub value1: u32,
    /// 0x74 (Force) or 0x108 in the known images.
    pub value2: u32,
    /// The length of the image's name, with the NUL that ends it.
    pub img_name_len: u32,
    /// The image's name, padded with NULs.
    pub img_name: [u8; 24],
}

/// The fields of an [`AkaiImageHeader`].
#[verifier::ext_equal]
pub struct HeaderFields {
    pub header: Seq<u8>,
    pub value1: u32,
    pub value2: u32,
    pub img_name_len: u32,
    pub img_name: Seq<u8>,
}

/// A device that the image is for.
#[derive(Debug, Clone, Copy)]
pub struct CompatTable {
    /// How many bytes of `device_name` are the name.
    pub device_name_len: u32,
    pub device_name: [u8; 16],
    pub usb_id: u32,
}

/// The fields of a [`CompatTable`].
#[verifier::ext_equal]
pub struct DeviceFields {
    pub device_name_len: u32,
    pub device_name: Seq<u8>,
    pub usb_id: u32,
}

/// The record in front of the compressed partition.
#[derive(Debug, Clone, Copy)]
pub struct PartInfo {
    /// `PARTL`, padded.
    pub tag: [u8; 8],
    /// The length of the compressed partition.
    pub size: u64,
    pub part_type: u32,
    pub name: [u8; 8],
    pub format: u32,
    pub comp_type: [u8; 4],
    pub info1: u32,
    pub info2: u32,
    pub hash_algo: [u8; 8],
    /// How many bytes of `hash_code` are the digest.
    pub hash_len: u32,
    /// The digest of the compressed partition.
    pub hash_code: [u8; SHA_DIGEST_LENGTH],
}

/// The fields of a [`PartInfo`].
#[verifier::ext_equal]
pub struct PartFields {
    pub tag: Seq<u8>,
    pub size: u64,
    pub part_type: u32,
    pub name: Seq<u8>,
    pub format: u32,
    pub comp_type: Seq<u8>,
    pub info1: u32,
    pub info2: u32,
    pub hash_algo: Seq<u8>,
    pub hash_len: u32,
    pub hash_code: Seq<u8>,
}

impl View for AkaiImageHeader {
    type V = HeaderFields;

    open spec fn view(&self) -> HeaderFields {
        HeaderFields {
            header: self.header@,
            value1: self.value1,
            value2: self.value2,
            img_name_len: self.img_name_len,
            img_name: self.img_name@,
        }
    }
}

impl View for CompatTable {
    type V = DeviceFields;

    open spec fn view(&self) -> DeviceFields {
        DeviceFields {
            device_name_len: self.device_name_len,
            device_name: self.device_name@,
            usb_id: self.usb_id,
        }
    }
}

impl View for PartInfo {
    type V = PartFields;

    open spec fn view(&self) -> PartFields {
        PartFields {
            tag: self.tag@,
            size: self.size,
            part_type: self.part_type,
            name: self.name@,
            format: self.format,
            comp_type: self.comp_type@,
            info1: self.info1,
            info2: self.info2,
            hash_algo: self.hash_algo@,
            hash_len: self.hash_len,
            hash_code: self.hash_code@,
        }
    }
}

/// Bytes in a header.
pub const HEADER_LEN: usize = 40;

/// Bytes in a device record that has its USB id.
pub const DEVICE_LEN: usize = 24;

/// Bytes in a partition record.
pub const PART_LEN: usize = 76;

/// The header in the bytes of `b` at `at`.
pub open spec fn header_at(b: Seq<u8>, at: int) -> HeaderFields {
    HeaderFields {
        header: b.subrange(at, at + 4),
        value1: u32_at(b, at + 4),
        value2: u32_at(b, at + 8),
        img_name_len: u32_at(b, at + 12),
        img_name: b.subrange(at + 16, at + 40),
    }
}

/// The device record, with its USB id behind the name, in the bytes of `b` at `at`.
pub open spec fn device_at(b: Seq<u8>, at: int) -> DeviceFields {
    DeviceFields {
        device_name_len: u32_at(b, at),
        device_name: b.subrange(at + 4, at + 20),
        usb_id: u32_at(b, at + 20),
    }
}

/// The partition record in the bytes of `b` at `at`.
pub open spec fn part_at(b: Seq<u8>, at: int) -> PartFields {
    PartFields {
        tag: b.subrange(at, at + 8),
        size: u64_at(b, at + 8),
        part_type: u32_at(b, at + 16),
        name: b.subrange(at + 20, at + 28),
        format: u32_at(b, at + 28),
        comp_type: b.subrange(at + 32, at + 36),
        info1: u32_at(b, at + 36),
        info2: u32_at(b, at + 40),
        hash_algo: b.subrange(at + 44, at + 52),
        hash_len: u32_at(b, at + 52),
        hash_code: b.subrange(at + 56, at + 76),
    }
}

impl HeaderFields {
    /// The byte fields have the sizes that they have in the record.
    pub open spec fn wf(self) -> bool {
        &&& self.header.len() == 4
        &&& self.img_name.len() == 24
    }

    /// The record's bytes.
    pub open spec fn bytes(self) -> Seq<u8> {
        self.header + le_bytes(self.value1 as nat, 4) + le_bytes(self.value2 as nat, 4) + le_bytes(
            self.img_name_len as nat,
            4,
        ) + self.img_name
    }
}

impl PartFields {
    /// The byte fields have the sizes that they have in the record.
    pub open spec fn wf(self) -> bool {
        &&& self.tag.len() == 8
        &&& self.name.len() == 8
        &&& self.comp_type.len() == 4
        &&& self.hash_algo.len() == 8
        &&& self.hash_code.len() == SHA_DIGEST_LENGTH
    }

    /// The record's bytes.
    pub open spec fn bytes(self) -> Seq<u8> {
        self.tag + le_bytes(self.size as nat, 8) + le_bytes(self.part_type as nat, 4) + self.name
            + le_bytes(self.format as nat, 4) + self.comp_type + le_bytes(self.info1 as nat, 4)
            + le_bytes(self.info2 as nat, 4) + self.hash_algo + le_bytes(self.hash_len as nat, 4)
            + self.hash_code
    }
}

/// Appends `src` to `out`.
pub(crate) fn append(out: &mut Vec<u8>, src: &[u8])
    ensures
        final(out)@ == old(out)@ + src@,
{
    out.extend_from_slice(src);
    assert(out@ =~= old(out)@ + src@);
}

impl AkaiImageHeader {
    /// Reads a header.
    pub fn read_from(reader: &mut ByteReader) -> (read: Result<AkaiImageHeader, ImageError>)
        ensures
            final(reader).data@ == old(reader).data@,
            match read {
                Ok(h) => {
                    &&& old(reader).pos + HEADER_LEN <= old(reader).data@.len()
                    &&& h@ == header_at(old(reader).data@, old(reader).pos as int)
                    &&& final(reader).pos == old(reader).pos + HEADER_LEN
                },
                Err(e) => {
                    &&& e == ImageError::UnexpectedEof
                    &&& old(reader).pos + HEADER_LEN > old(reader).data@.len()
                },
            },
    {
        let mut header = [0u8; 4];
        reader.read_exact(&mut header)?;
        let value1: u32 = reader.read_u32()?;
        let value2: u32 = reader.read_u32()?;
        let img_name_len: u32 = reader.read_u32()?;
        let mut img_name = [0u8; 24];
        reader.read_exact(&mut img_name)?;
        Ok(AkaiImageHeader { header, value1, value2, img_name_len, img_name })
    }

    /// Appends the header's bytes to `writer`.
    pub fn write_to(&self, writer: &mut Vec<u8>)
        ensures
            final(writer)@ == old(writer)@ + self@.bytes(),
    {
        append(writer, &self.header);
        append(writer, &write_u32(self.value1));
        append(writer, &write_u32(self.value2));
        append(writer, &write_u32(self.img_name_len));
        append(writer, &self.img_name);
        assert(writer@ =~= old(writer)@ + self@.bytes());
    }
}

impl CompatTable {
    /// Reads a device record that has its USB id behind the name.
    pub fn read_from(reader: &mut ByteReader) -> (read: Result<CompatTable, ImageError>)
        ensures
            final(reader).data@ == old(reader).data@,
            match read {
                Ok(d) => {
                    &&& old(reader).pos + DEVICE_LEN <= old(reader).data@.len()
                    &&& d@ == device_at(old(reader).data@, old(reader).pos as int)
                    &&& final(reader).pos == old(reader).pos + DEVICE_LEN
                },
                Err(e) => {
                    &&& e == ImageError::UnexpectedEof
                    &&& old(reader).pos + DEVICE_LEN > old(reader).data@.len()
                },
            },
    {
        let device_name_len: u32 = reader.read_u32()?;
        let mut device_name = [0u8; 16];
        reader.read_exact(&mut device_name)?;
        let usb_id: u32 = reader.read_u32()?;
        Ok(CompatTable { device_name_len, device_name, usb_id })
    }
}

impl PartInfo {
    /// Reads a partition record.
    pub fn read_from(reader: &mut ByteReader) -> (read: Result<PartInfo, ImageError>)
        ensures
            final(reader).data@ == old(reader).data@,
            match read {
                Ok(p) => {
                    &&& old(reader).pos + PART_LEN <= old(reader).data@.len()
                    &&& p@ == part_at(old(reader).data@, old(reader).pos as int)
                    &&& final(reader).pos == old(reader).pos + PART_LEN
                },
                Err(e) => {
                    &&& e == ImageError::UnexpectedEof
                    &&& old(reader).pos + PART_LEN > old(reader).data@.len()
                },
            },
    {
        let mut tag = [0u8; 8];
        reader.read_exact(&mut tag)?;
        let size: u64 = reader.read_u64()?;
        let part_type: u32 = reader.read_u32()?;
        let mut name = [0u8; 8];
        reader.read_exact(&mut name)?;
        let format: u32 = reader.read_u32()?;
        let mut comp_type = [0u8; 4];
        reader.read_exact(&mut comp_type)?;
        let info1: u32 = reader.read_u32()?;
        let info2: u32 = reader.read_u32()?;
        let mut hash_algo = [0u8; 8];
        reader.read_exact(&mut hash_algo)?;
        let hash_len: u32 = reader.read_u32()?;
        let mut hash_code = [0u8; SHA_DIGEST_LENGTH];
        reader.read_exact(&mut hash_code)?;
        Ok(
            PartInfo {
                tag,
                size,
                part_type,
                name,
                format,
                comp_type,
                info1,
                info2,
                hash_algo,
                hash_len,
                hash_code,
            },
        )
    }

    /// Appends the record's bytes to `writer`.
    pub fn write_to(&self, writer: &mut Vec<u8>)
        ensures
            final(writer)@ == old(writer)@ + self@.bytes(),
    {
        append(writer, &self.tag);
        append(writer, &write_u64(self.size));
        append(writer, &write_u32(self.part_type));
        append(writer, &self.name);
        append(writer, &write_u32(self.format));
        append(writer, &self.comp_type);
        append(writer, &write_u32(self.info1));
        append(writer, &write_u32(self.info2));
        append(writer, &self.hash_algo);
        append(writer, &write_u32(self.hash_len));
        append(writer, &self.hash_code);
        assert(writer@ =~= old(writer)@ + self@.bytes());
    }
}

/// The number read from four bytes is written as these bytes.
proof fn lemma_u32_read(b: Seq<u8>, at: int)
    requires
        0 <= at <= b.len() - 4,
    ensures
        le_bytes(u32_at(b, at) as nat, 4) == b.subrange(at, at + 4),
{
    lemma_le_limits();
    lemma_le_bytes_round_trip(b.subrange(at, at + 4));
}

/// The number read from eight bytes is written as these bytes.
proof fn lemma_u64_read(b: Seq<u8>, at: int)
    requires
        0 <= at <= b.len() - 8,
    ensures
        le_bytes(u64_at(b, at) as nat, 8) == b.subrange(at, at + 8),
{
    lemma_le_limits();
    lemma_le_bytes_round_trip(b.subrange(at, at + 8));
}

/// A header that is written, with anything in front of it and behind it, is read back as it was.
pub proof fn law_header_written_is_read(pre: Seq<u8>, h: HeaderFields, post: Seq<u8>)
    requires
        h.wf(),
    ensures
        h.bytes().len() == HEADER_LEN,
        header_at(pre + h.bytes() + post, pre.len() as int) == h,
{
    let b = pre + h.bytes() + post;
    let at = pre.len() as int;
    lemma_le_limits();
    lemma_le_value_round_trip(h.value1 as nat, 4);
    lemma_le_value_round_trip(h.value2 as nat, 4);
    lemma_le_value_round_trip(h.img_name_len as nat, 4);
    assert(b.subrange(at, at + 4) =~= h.header);
    assert(b.subrange(at + 4, at + 8) =~= le_bytes(h.value1 as nat, 4));
    assert(b.subrange(at + 8, at + 12) =~= le_bytes(h.value2 as nat, 4));
    assert(b.subrange(at + 12, at + 16) =~= le_bytes(h.img_name_len as nat, 4));
    assert(b.subrange(at + 16, at + 40) =~= h.img_name);
}

/// A header that is read is written as the bytes that it was read from.
pub proof fn law_header_read_is_written(b: Seq<u8>, at: int)
    requires
        0 <= at,
        at + HEADER_LEN <= b.len(),
    ensures
        header_at(b, at).wf(),
        header_at(b, at).bytes() == b.subrange(at, at + HEADER_LEN),
{
    lemma_u32_read(b, at + 4);
    lemma_u32_read(b, at + 8);
    lemma_u32_read(b, at + 12);
    assert(header_at(b, at).bytes() =~= b.subrange(at, at + HEADER_LEN));
}

/// A partition record that is written, with anything in front of it and behind it, is read back
/// as it was.
pub proof fn law_part_written_is_read(pre: Seq<u8>, p: PartFields, post: Seq<u8>)
    requires
        p.wf(),
    ensures
        p.bytes().len() == PART_LEN,
        part_at(pre + p.bytes() + post, pre.len() as int) == p,
{
    let b = pre + p.bytes() + post;
    let at = pre.len() as int;
    lemma_le_limits();
    lemma_le_value_round_trip(p.size as nat, 8);
    lemma_le_value_round_trip(p.part_type as nat, 4);
    lemma_le_value_round_trip(p.format as nat, 4);
    lemma_le_value_round_trip(p.info1 as nat, 4);
    lemma_le_value_round_trip(p.info2 as nat, 4);
    lemma_le_value_round_trip(p.hash_len as nat, 4);
    assert(b.subrange(at, at + 8) =~= p.tag);
    assert(b.subrange(at + 8, at + 16) =~= le_bytes(p.size as nat, 8));
    assert(b.subrange(at + 16, at + 20) =~= le_bytes(p.part_type as nat, 4));
    assert(b.subrange(at + 20, at + 28) =~= p.name);
    assert(b.subrange(at + 28, at + 32) =~= le_bytes(p.format as nat, 4));
    assert(b.subrange(at + 32, at + 36) =~= p.comp_type);
    assert(b.subrange(at + 36, at + 40) =~= le_bytes(p.info1 as nat, 4));
    assert(b.subrange(at + 40, at + 44) =~= le_bytes(p.info2 as nat, 4));
    assert(b.subrange(at + 44, at + 52) =~= p.hash_algo);
    assert(b.subrange(at + 52, at + 56) =~= le_bytes(p.hash_len as nat, 4));
    assert(b.subrange(at + 56, at + 76) =~= p.hash_code);
}

/// A partition record that is read is written as the bytes that it was read from.
pub proof fn law_part_read_is_written(b: Seq<u8>, at: int)
    requires
        0 <= at,
        at + PART_LEN <= b.len(),
    ensures
        part_at(b, at).wf(),
        part_at(b, at).bytes() == b.subrange(at, at + PART_LEN),
{
    lemma_u64_read(b, at + 8);
    lemma_u32_read(b, at + 16);
    lemma_u32_read(b, at + 28);
    lemma_u32_read(b, at + 36);
    lemma_u32_read(b, at + 40);
    lemma_u32_read(b, at + 52);
    assert(part_at(b, at).bytes() =~= b.subrange(at, at + PART_LEN));
}

/// A record's model has the record's fields.
pub proof fn law_models_have_the_fields(h: AkaiImageHeader, d: CompatTable, p: PartInfo)
    ensures
        h@.header == h.header@ && h@.value1 == h.value1 && h@.value2 == h.value2,
        h@.img_name_len == h.img_name_len && h@.img_name == h.img_name@,
        d@.device_name_len == d.device_name_len && d@.device_name == d.device_name@,
        d@.usb_id == d.usb_id,
        p@.tag == p.tag@ && p@.size == p.size && p@.part_type == p.part_type,
        p@.name == p.name@ && p@.format == p.format && p@.comp_type == p.comp_type@,
        p@.info1 == p.info1 && p@.info2 == p.info2 && p@.hash_algo == p.hash_algo@,
        p@.hash_len == p.hash_len && p@.hash_code == p.hash_code@,
{
}

} // verus!
