use imgmaker::error::ImageError;
use imgmaker::reader::ByteReader;
use imgmaker::records::{AkaiImageHeader, CompatTable, PartInfo};

fn header() -> AkaiImageHeader {
    let mut img_name = [0u8; 24];
    img_name[..8].copy_from_slice(b"mpc.img\0");
    AkaiImageHeader {
        header: *b"AZ01",
        value1: 1,
        value2: 0x108,
        img_name_len: 8,
        img_name,
    }
}

fn part() -> PartInfo {
    PartInfo {
        tag: *b"PARTL\0\0\0",
        size: 0x0102030405060708,
        part_type: 2,
        name: *b"rootfs\0\0",
        format: 3,
        comp_type: *b"xz\0\0",
        info1: 4,
        info2: 0xfffffffe,
        hash_algo: *b"sha1\0\0\0\0",
        hash_len: 20,
        hash_code: [9u8; 20],
    }
}

#[test]
fn header_bytes() {
    let mut out = vec![0xaau8];
    header().write_to(&mut out);
    assert_eq!(out.len(), 41);
    assert_eq!(&out[..5], b"\xaaAZ01");
    assert_eq!(&out[5..9], &[1, 0, 0, 0]);
    assert_eq!(&out[9..13], &[8, 1, 0, 0]);
    assert_eq!(&out[13..17], &[8, 0, 0, 0]);
    assert_eq!(&out[17..25], b"mpc.img\0");
}

#[test]
fn header_round_trip() {
    let mut out = Vec::new();
    header().write_to(&mut out);
    let mut reader = ByteReader::new(&out);
    let read = AkaiImageHeader::read_from(&mut reader).unwrap();
    assert_eq!(reader.pos, 40);
    assert_eq!(read.header, header().header);
    assert_eq!(read.value1, 1);
    assert_eq!(read.value2, 0x108);
    assert_eq!(read.img_name_len, 8);
    assert_eq!(read.img_name, header().img_name);
    let mut again = Vec::new();
    read.write_to(&mut again);
    assert_eq!(again, out);
}

#[test]
fn header_cut_short() {
    let mut out = Vec::new();
    header().write_to(&mut out);
    for n in 0..40usize {
        let mut reader = ByteReader::new(&out[..n]);
        assert!(matches!(
            AkaiImageHeader::read_from(&mut reader),
            Err(ImageError::UnexpectedEof)
        ));
    }
}

#[test]
fn device_with_usb_id() {
    let mut bytes = vec![3, 0, 0, 0];
    bytes.extend_from_slice(b"MPCxxxxxxxxxxxxx");
    bytes.extend_from_slice(&[0x78, 0x56, 0x34, 0x12]);
    let mut reader = ByteReader::new(&bytes);
    let device = CompatTable::read_from(&mut reader).unwrap();
    assert_eq!(reader.pos, 24);
    assert_eq!(device.device_name_len, 3);
    assert_eq!(&device.device_name, b"MPCxxxxxxxxxxxxx");
    assert_eq!(device.usb_id, 0x12345678);
    let mut reader = ByteReader::new(&bytes[..23]);
    assert!(matches!(
        CompatTable::read_from(&mut reader),
        Err(ImageError::UnexpectedEof)
    ));
}

#[test]
fn part_round_trip() {
    let mut out = Vec::new();
    part().write_to(&mut out);
    assert_eq!(out.len(), 76);
    assert_eq!(&out[8..16], &[8, 7, 6, 5, 4, 3, 2, 1]);
    assert_eq!(&out[40..44], &[0xfe, 0xff, 0xff, 0xff]);
    let mut reader = ByteReader::new(&out);
    let read = PartInfo::read_from(&mut reader).unwrap();
    assert_eq!(reader.pos, 76);
    assert_eq!(read.tag, part().tag);
    assert_eq!(read.size, part().size);
    assert_eq!(read.part_type, 2);
    assert_eq!(read.name, part().name);
    assert_eq!(read.format, 3);
    assert_eq!(read.comp_type, part().comp_type);
    assert_eq!(read.info1, 4);
    assert_eq!(read.info2, 0xfffffffe);
    assert_eq!(read.hash_algo, part().hash_algo);
    assert_eq!(read.hash_len, 20);
    assert_eq!(read.hash_code, part().hash_code);
    let mut again = Vec::new();
    read.write_to(&mut again);
    assert_eq!(again, out);
}

#[test]
fn part_cut_short() {
    let mut out = Vec::new();
    part().write_to(&mut out);
    let mut reader = ByteReader::new(&out[..75]);
    assert!(matches!(
        PartInfo::read_from(&mut reader),
        Err(ImageError::UnexpectedEof)
    ));
}

#[test]
fn reader_seeks_beyond_the_end_but_not_before_the_start() {
    let bytes = [1u8, 2, 3];
    let mut reader = ByteReader::new(&bytes);
    assert!(reader.seek_current(10).is_ok());
    assert_eq!(reader.pos, 10);
    assert!(matches!(reader.take(1), Err(ImageError::UnexpectedEof)));
    assert!(reader.seek_current(-9).is_ok());
    assert_eq!(reader.take(2).unwrap(), &[2u8, 3]);
    assert!(matches!(reader.seek_current(-4), Err(ImageError::InvalidSeek)));
    assert!(matches!(reader.seek_current(i64::MAX), Err(ImageError::InvalidSeek)));
    assert_eq!(reader.pos, 3);
}

#[test]
fn reader_reads_numbers_and_buffers() {
    let bytes = [0x78u8, 0x56, 0x34, 0x12, 1, 2, 3, 4, 5, 6, 7, 8, 9];
    let mut reader = ByteReader::new(&bytes);
    assert_eq!(reader.read_u32().unwrap(), 0x12345678);
    assert_eq!(reader.read_u64().unwrap(), 0x0807060504030201);
    let mut buf = [0u8; 2];
    assert!(matches!(reader.read_exact(&mut buf), Err(ImageError::UnexpectedEof)));
    assert_eq!(buf, [0, 0]);
    let mut one = [0u8; 1];
    assert!(reader.read_exact(&mut one).is_ok());
    assert_eq!(one, [9]);
}
