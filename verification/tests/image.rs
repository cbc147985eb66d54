use imgmaker::error::ImageError;
use imgmaker::image::{display_akai_image_info, is_displayable};

/// The part of an image in front of its partition record: `devices` with the lengths of their
/// names, `ids` and a description.
fn front(devices: &[(u32, &[u8; 16])], ids: &[u32], desc: &[u8]) -> Vec<u8> {
    let mut b = b"AZ01".to_vec();
    b.extend_from_slice(&1u32.to_le_bytes());
    b.extend_from_slice(&0x74u32.to_le_bytes());
    b.extend_from_slice(&9u32.to_le_bytes());
    let mut name = [0u8; 24];
    name[..9].copy_from_slice(b"force.img");
    b.extend_from_slice(&name);
    b.extend_from_slice(&(devices.len() as u32).to_le_bytes());
    for (len, name) in devices {
        b.extend_from_slice(&len.to_le_bytes());
        b.extend_from_slice(&name[..]);
    }
    b.extend_from_slice(&(ids.len() as u32).to_le_bytes());
    for id in ids {
        b.extend_from_slice(&id.to_le_bytes());
    }
    b.extend_from_slice(&(desc.len() as u32).to_le_bytes());
    b.extend_from_slice(desc);
    b
}

fn part_record(tag: &[u8; 8], size: u64, hash_len: u32) -> Vec<u8> {
    let mut b = tag.to_vec();
    b.extend_from_slice(&size.to_le_bytes());
    b.extend_from_slice(&1u32.to_le_bytes());
    b.extend_from_slice(b"rootfs\0\0");
    b.extend_from_slice(&2u32.to_le_bytes());
    b.extend_from_slice(b"xz\0\0");
    b.extend_from_slice(&3u32.to_le_bytes());
    b.extend_from_slice(&4u32.to_le_bytes());
    b.extend_from_slice(b"sha1\0\0\0\0");
    b.extend_from_slice(&hash_len.to_le_bytes());
    let hash: Vec<u8> = (0u8..20).collect();
    b.extend_from_slice(&hash);
    b
}

fn two_devices() -> Vec<u8> {
    front(
        &[(3, b"MPC\0\0\0\0\0\0\0\0\0\0\0\0\0"), (5, b"Forcexxxxxxxxxxx")],
        &[0x09e80040, 0x1],
        b"A Picture of a description",
    )
}

/// An image with `stream` as its compressed partition.
fn image(stream: &[u8], last: &[u8; 16]) -> Vec<u8> {
    let mut b = two_devices();
    b.extend_from_slice(&[0, 0, 0]);
    b.extend_from_slice(&part_record(b"PARTL\0\0\0", stream.len() as u64, 20));
    b.extend_from_slice(stream);
    while b.len() % 8 != 0 {
        b.push(0);
    }
    b.extend_from_slice(last);
    b
}

const LAST: &[u8; 16] = b"EOF\0............";

const HEAD: &str = "Image Name            : force.img\n2 compatible devices  : MPC, Force, \n                      : 0x09e80040, 0x00000001, \n";

#[test]
fn fields_and_report() {
    let b = image(b"compressed", LAST);
    assert!(is_displayable(&b));
    let seen = display_akai_image_info(&b, false);
    let at = 44 + 40 + 4 + 8 + 4 + 26 + 3;
    let expected = format!(
        "{}Partition Information:\n  Compressed Size     : 10 bytes\n  Partition Name      : rootfs\n  Compression Type    : xz\n  Hash Code (sha1)    : 00 01 02 03 04 05 06 07 08 09 0a 0b 0c 0d 0e 0f 10 11 12 13 \n  XZ Part. offset     : {} (0x{:x})\n\n",
        HEAD,
        at + 76,
        at + 76
    );
    assert_eq!(seen.report, expected);
    assert!(seen.copied.is_none());
    let fields = seen.outcome.unwrap();
    assert_eq!(&fields.h.header, b"AZ01");
    assert_eq!(fields.h.value2, 0x74);
    assert_eq!(fields.device_count, 2);
    assert_eq!(fields.dev.len(), 2);
    assert_eq!(fields.dev[0].device_name_len, 3);
    assert_eq!(fields.dev[0].usb_id, 0x09e80040);
    assert_eq!(&fields.dev[1].device_name, b"Forcexxxxxxxxxxx");
    assert_eq!(fields.dev[1].usb_id, 1);
    assert_eq!(fields.img_desc_len, 26);
    assert_eq!(fields.img_desc, b"A Picture of a description");
    assert_eq!(fields.p.size, 10);
    assert_eq!(fields.partl_offset, at);
    assert_eq!(fields.xz_part_offset, at + 76);
}

#[test]
fn image_name_ends_at_its_first_nul() {
    let mut b = b"AZ01".to_vec();
    b.extend_from_slice(&[0; 12]);
    b.extend_from_slice(b"AB\0CD");
    b.extend_from_slice(&[0; 19]);
    b.extend_from_slice(&[0; 12]);
    b.extend_from_slice(b"PARTL");
    b.extend_from_slice(&[0; 71]);
    while b.len() % 8 != 0 {
        b.push(0);
    }
    b.extend_from_slice(b"EOF");
    let seen = display_akai_image_info(&b, false);
    assert!(seen.report.starts_with("Image Name            : AB\n0 compatible"));
    assert!(seen.outcome.is_ok());
    b[18..40].copy_from_slice(&[b'x'; 22]);
    let seen = display_akai_image_info(&b, false);
    assert!(seen
        .report
        .starts_with("Image Name            : ABxxxxxxxxxxxxxxxxxxxxxx\n"));
    b[18] = 0;
    b[19] = 0xff;
    let seen = display_akai_image_info(&b, false);
    assert!(seen.report.starts_with("Image Name            : AB\n"));
}

#[test]
fn copying_reads_as_skipping_does() {
    let b = image(b"compressed", LAST);
    let skipped = display_akai_image_info(&b, false);
    let copied = display_akai_image_info(&b, true);
    assert_eq!(copied.report, skipped.report);
    assert_eq!(copied.copied.unwrap(), b"compressed");
    assert!(copied.outcome.is_ok());
}

#[test]
fn missing_eof_is_reported() {
    let seen = display_akai_image_info(&image(b"compressed", b"eof............."), false);
    assert!(seen.outcome.is_ok());
    assert!(seen
        .report
        .ends_with(")\n'EOF' tag not found. Image file is probably corrupted.\n\n"));
}

#[test]
fn invalid_header() {
    let mut b = image(b"compressed", LAST);
    b[3] = b'2';
    let seen = display_akai_image_info(&b, true);
    assert!(matches!(seen.outcome, Err(ImageError::InvalidHeader(h)) if &h == b"AZ02"));
    assert_eq!(seen.report, "");
    assert!(seen.copied.is_none());
}

#[test]
fn invalid_tag() {
    let mut b = two_devices();
    b.extend_from_slice(&part_record(b"PARTK\0\0\0", 0, 20));
    b.extend_from_slice(LAST);
    let seen = display_akai_image_info(&b, true);
    assert!(matches!(seen.outcome, Err(ImageError::PartitionTagNotFound)));
    assert_eq!(seen.report, format!("{}Partition Information:\n", HEAD));
    assert!(seen.copied.is_none());
}

#[test]
fn report_goes_as_far_as_the_image() {
    let b = image(b"compressed", LAST);
    let cases: [(usize, &str); 11] = [
        (0, ""),
        (39, ""),
        (40, "Image Name            : force.img\n"),
        (43, "Image Name            : force.img\n"),
        (44, "Image Name            : force.img\n2 compatible devices  : "),
        (83, "Image Name            : force.img\n2 compatible devices  : MPC, "),
        (
            84,
            "Image Name            : force.img\n2 compatible devices  : MPC, Force, \n                      : ",
        ),
        (
            95,
            "Image Name            : force.img\n2 compatible devices  : MPC, Force, \n                      : 0x09e80040, ",
        ),
        (96, HEAD),
        (125, HEAD),
        (128, HEAD),
    ];
    for (n, text) in cases {
        assert!(is_displayable(&b[..n]));
        let seen = display_akai_image_info(&b[..n], true);
        assert!(matches!(seen.outcome, Err(ImageError::UnexpectedEof)));
        assert_eq!(seen.report, text);
        assert!(seen.copied.is_none());
    }
    let seen = display_akai_image_info(&b[..130], true);
    assert!(matches!(seen.outcome, Err(ImageError::UnexpectedEof)));
    assert_eq!(seen.report, format!("{}Partition Information:\n", HEAD));
}

#[test]
fn partition_cut_short_is_copied_in_whole_chunks() {
    let stream: Vec<u8> = (0..10_000u32).map(|i| i as u8).collect();
    let b = image(&stream, LAST);
    let at = 44 + 40 + 4 + 8 + 4 + 26 + 3 + 76;
    let seen = display_akai_image_info(&b[..at + 9000], true);
    assert!(matches!(seen.outcome, Err(ImageError::UnexpectedEof)));
    assert_eq!(seen.copied.unwrap(), &stream[..8192]);
    let seen = display_akai_image_info(&b[..at + 100], true);
    assert!(matches!(seen.outcome, Err(ImageError::UnexpectedEof)));
    assert_eq!(seen.copied.unwrap(), b"");
    let seen = display_akai_image_info(&b, true);
    assert!(seen.outcome.is_ok());
    assert_eq!(seen.copied.unwrap(), stream);
    let seen = display_akai_image_info(&b[..at + 10_000], true);
    assert!(matches!(seen.outcome, Err(ImageError::UnexpectedEof)));
    assert_eq!(seen.copied.unwrap(), stream);
}

#[test]
fn sizes_that_move_backwards() {
    let mut b = two_devices();
    let at = b.len() as u64 + 76;
    b.extend_from_slice(&part_record(b"PARTL\0\0\0", 0, 20));
    b.extend_from_slice(LAST);
    b.extend_from_slice(LAST);
    let size_at = b.len() - 32 - 68;
    b[size_at..size_at + 8].copy_from_slice(&(0u64.wrapping_sub(8)).to_le_bytes());
    assert!(display_akai_image_info(&b, false).outcome.is_ok());
    assert!(matches!(
        display_akai_image_info(&b, true).outcome,
        Err(ImageError::UnexpectedEof)
    ));
    b[size_at..size_at + 8].copy_from_slice(&(0u64.wrapping_sub(at + 1)).to_le_bytes());
    assert!(matches!(
        display_akai_image_info(&b, false).outcome,
        Err(ImageError::InvalidSeek)
    ));
    b[size_at..size_at + 8].copy_from_slice(&(i64::MAX as u64).to_le_bytes());
    assert!(matches!(
        display_akai_image_info(&b, false).outcome,
        Err(ImageError::InvalidSeek)
    ));
    b[size_at..size_at + 8].copy_from_slice(&1000u64.to_le_bytes());
    assert!(matches!(
        display_akai_image_info(&b, false).outcome,
        Err(ImageError::UnexpectedEof)
    ));
}

#[test]
fn usb_ids_and_devices_need_not_match() {
    let more = front(&[(1, b"Axxxxxxxxxxxxxxx")], &[7, 8, 9], b"");
    let fewer = front(&[(1, b"Axxxxxxxxxxxxxxx"), (0, b"Bxxxxxxxxxxxxxxx")], &[7], b"");
    let mut b = more;
    b.extend_from_slice(&part_record(b"PARTL\0\0\0", 0, 0));
    b.extend_from_slice(&[0; 32]);
    let seen = display_akai_image_info(&b, false);
    assert!(seen
        .report
        .contains("0x00000007, 0x00000008, 0x00000009, \n"));
    assert!(seen.report.contains("  Hash Code (sha1)    : \n"));
    let fields = seen.outcome.unwrap();
    assert_eq!(fields.dev.len(), 1);
    assert_eq!(fields.dev[0].usb_id, 7);
    let mut b = fewer;
    b.extend_from_slice(&part_record(b"PARTL\0\0\0", 0, 0));
    b.extend_from_slice(&[0; 32]);
    let seen = display_akai_image_info(&b, false);
    assert!(seen.report.contains("2 compatible devices  : A, , \n"));
    let fields = seen.outcome.unwrap();
    assert_eq!(fields.dev[0].usb_id, 7);
    assert_eq!(fields.dev[1].usb_id, 0);
}

#[test]
fn bytes_that_are_no_text() {
    let mut b = image(b"compressed", LAST);
    b[16] = 0xff;
    b[48] = 0xff;
    let seen = display_akai_image_info(&b, false);
    assert!(seen.report.starts_with(
        "Image Name            : invalid utf8\n2 compatible devices  : invalid utf8, Force, \n"
    ));
}

#[test]
fn lengths_that_do_not_fit() {
    let mut b = image(b"compressed", LAST);
    b[44] = 17;
    assert!(!is_displayable(&b));
    assert!(!is_displayable(&b[..64]));
    assert!(is_displayable(&b[..63]));
    b[44] = 16;
    assert!(is_displayable(&b));
    b[0] = b'B';
    b[44] = 17;
    assert!(is_displayable(&b));
    let mut b = two_devices();
    b.extend_from_slice(&part_record(b"PARTL\0\0\0", 0, 21));
    b.extend_from_slice(LAST);
    assert!(!is_displayable(&b));
    let mut b = two_devices();
    b.extend_from_slice(&part_record(b"PARTK\0\0\0", 0, 21));
    b.extend_from_slice(LAST);
    assert!(is_displayable(&b));
}

#[test]
fn front_is_read_from_its_bytes_alone() {
    let one = display_akai_image_info(&image(b"compressed", LAST), false);
    let two = display_akai_image_info(&image(b"COMPRESSED", b"EOF again......."), false);
    assert_eq!(one.report, two.report);
}

#[test]
fn trailing_bytes_do_not_matter() {
    let b = image(b"compressed", LAST);
    let mut longer = b.clone();
    longer.extend_from_slice(b"PARTL and anything else");
    for extract in [false, true] {
        let one = display_akai_image_info(&b, extract);
        let two = display_akai_image_info(&longer, extract);
        assert_eq!(one.report, two.report);
        assert_eq!(one.copied, two.copied);
        assert_eq!(
            one.outcome.unwrap().xz_part_offset,
            two.outcome.unwrap().xz_part_offset
        );
    }
}

#[test]
fn truncated_images_fail_and_report_the_same_as_far_as_they_go() {
    let b = image(b"compressed", LAST);
    let whole = display_akai_image_info(&b, true).report;
    let needed = b.len() - 16 + 3;
    for n in 0..needed {
        for extract in [false, true] {
            let seen = display_akai_image_info(&b[..n], extract);
            assert!(matches!(seen.outcome, Err(ImageError::UnexpectedEof)));
            assert!(whole.starts_with(&seen.report));
        }
    }
    assert!(display_akai_image_info(&b[..needed], true).outcome.is_ok());
}

#[test]
fn what_is_copied_starts_the_partition() {
    let stream: Vec<u8> = (0..9_000u32).map(|i| (i * 7) as u8).collect();
    let b = image(&stream, LAST);
    let at = 44 + 40 + 4 + 8 + 4 + 26 + 3 + 76;
    for n in [at, at + 4095, at + 4096, at + 8191, at + 8192, at + 8999, at + 9000] {
        let copied = display_akai_image_info(&b[..n], true).copied.unwrap();
        assert!(stream.starts_with(&copied));
        if n < at + 9000 {
            assert_eq!(copied.len(), (n - at) / 4096 * 4096);
        } else {
            assert_eq!(copied, stream);
        }
    }
}

#[test]
fn fields_are_well_formed() {
    let b = image(b"compressed", LAST);
    let fields = display_akai_image_info(&b, false).outcome.unwrap();
    assert_eq!(fields.dev.len(), fields.device_count as usize);
    assert_eq!(fields.img_desc.len(), fields.img_desc_len as usize);
    assert_eq!(fields.xz_part_offset, fields.partl_offset + 76);
    let mut record = Vec::new();
    fields.p.write_to(&mut record);
    assert_eq!(
        record,
        &b[fields.partl_offset as usize..fields.xz_part_offset as usize]
    );
}
