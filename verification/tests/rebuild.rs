use imgmaker::codec::{compress_xz, compute_sha1, XzError};
use imgmaker::error::ImageError;
use imgmaker::image::{display_akai_image_info, is_displayable};
use imgmaker::rebuild::{
    extract_rootfs_partition, make_akai_image, rebuild_image, unpack, verify_hash, ExtractError,
    MakeError,
};

/// An image without devices, whose compressed partition is `stream`.
fn image(stream: &[u8], hash: [u8; 20]) -> Vec<u8> {
    let mut b = b"AZ01".to_vec();
    b.extend_from_slice(&[0u8; 36]);
    b.extend_from_slice(&[0u8; 12]);
    b.extend_from_slice(b"\0\0\0PARTL\0\0\0");
    b.extend_from_slice(&(stream.len() as u64).to_le_bytes());
    b.extend_from_slice(&[5, 0, 0, 0]);
    b.extend_from_slice(b"rootfs\0\0");
    b.extend_from_slice(&[6, 0, 0, 0]);
    b.extend_from_slice(b"xz\0\0");
    b.extend_from_slice(&[7, 0, 0, 0, 8, 0, 0, 0]);
    b.extend_from_slice(b"sha1\0\0\0\0");
    b.extend_from_slice(&[20, 0, 0, 0]);
    b.extend_from_slice(&hash);
    b.extend_from_slice(stream);
    while b.len() % 8 != 0 {
        b.push(0);
    }
    b.extend_from_slice(b"EOF\0the last few");
    b
}

#[test]
fn root_file_system_comes_out_as_it_went_in() {
    let first = image(b"not even a stream", [1; 20]);
    let rootfs: Vec<u8> = (0..50_000u32).map(|i| (i / 3) as u8).collect();
    let made = make_akai_image(&first, &rootfs).unwrap();
    assert_eq!(made.hash, compute_sha1(&made.stream));
    assert_eq!(made.stream, compress_xz(&rootfs).unwrap());
    assert!(is_displayable(&made.image));
    let taken = extract_rootfs_partition(&made.image);
    let fields = taken.inspection.outcome.unwrap();
    assert_eq!(fields.p.size, made.stream.len() as u64);
    assert_eq!(fields.p.hash_code, made.hash);
    assert_eq!(fields.p.format, 6);
    assert_eq!(fields.partl_offset, 55);
    assert!(taken.inspection.report.ends_with(")\n\n"));
    assert_eq!(taken.inspection.copied.unwrap(), made.stream);
    let unpacked = taken.unpacked.unwrap();
    assert_eq!(unpacked.hash, made.hash);
    assert!(unpacked.done.is_ok());
    assert_eq!(unpacked.rootfs, rootfs);
}

#[test]
fn made_image_byte_for_byte() {
    let first = image(b"0123456789", [1; 20]);
    let made = make_akai_image(&first, b"rootfs").unwrap();
    assert_eq!(&made.image[..63], &first[..63]);
    assert_eq!(&made.image[63..71], &(made.stream.len() as u64).to_le_bytes());
    assert_eq!(&made.image[71..111], &first[71..111]);
    assert_eq!(&made.image[111..131], &made.hash);
    let end = 131 + made.stream.len();
    assert_eq!(&made.image[131..end], &made.stream[..]);
    let last = made.image.len() - 16;
    assert_eq!(last % 8, 0);
    assert!(last - end < 8);
    assert!(made.image[end..last].iter().all(|x| *x == 0));
    assert_eq!(&made.image[last..], b"EOF\0the last few");
    assert_eq!(made.image, image(&made.stream, made.hash));
}

#[test]
fn last_rebuild_stays() {
    let first = image(b"0123456789", [1; 20]);
    let once = make_akai_image(&first, b"one root file system").unwrap();
    let twice = make_akai_image(&once.image, b"another").unwrap();
    let direct = make_akai_image(&first, b"another").unwrap();
    assert_eq!(twice.image, direct.image);
}

#[test]
fn rebuilding_with_the_same_partition_changes_nothing() {
    let first = image(b"0123456789", [3; 20]);
    let seen = display_akai_image_info(&first, false);
    let fields = seen.outcome.unwrap();
    assert_eq!(rebuild_image(&first, &fields, b"0123456789", [3; 20]), first);
}

#[test]
fn partition_that_cannot_be_decompressed() {
    let hash = compute_sha1(b"0123456789");
    let taken = extract_rootfs_partition(&image(b"0123456789", hash));
    assert!(taken.inspection.outcome.is_ok());
    let unpacked = taken.unpacked.unwrap();
    assert_eq!(unpacked.hash, hash);
    assert!(matches!(
        unpacked.done,
        Err(ExtractError::Xz(XzError::Rejected(_)))
    ));
    assert!(unpacked.rootfs.is_empty());
}

#[test]
fn wrong_hash_code_is_found() {
    let stream = compress_xz(b"rootfs").unwrap();
    let hash = compute_sha1(&stream);
    let unpacked = extract_rootfs_partition(&image(&stream, hash)).unpacked.unwrap();
    assert!(unpacked.done.is_ok());
    assert_eq!(unpacked.rootfs, b"rootfs");
    for i in 0..20 {
        let mut wrong = hash;
        wrong[i] ^= 1;
        let taken = extract_rootfs_partition(&image(&stream, wrong));
        assert!(taken.inspection.outcome.is_ok());
        assert_eq!(taken.inspection.copied.unwrap(), stream);
        let unpacked = taken.unpacked.unwrap();
        assert_eq!(unpacked.hash, hash);
        assert!(matches!(unpacked.done, Err(ExtractError::HashMismatch)));
        assert!(unpacked.rootfs.is_empty());
    }
    let unpacked = extract_rootfs_partition(&image(b"no stream", [1; 20])).unpacked.unwrap();
    assert!(matches!(unpacked.done, Err(ExtractError::HashMismatch)));
}

#[test]
fn altered_partition_is_found() {
    let stream = compress_xz(b"rootfs").unwrap();
    let mut b = image(&stream, compute_sha1(&stream));
    b[131 + stream.len() / 2] ^= 0x10;
    let unpacked = extract_rootfs_partition(&b).unpacked.unwrap();
    assert!(matches!(unpacked.done, Err(ExtractError::HashMismatch)));
}

#[test]
fn hash_code_is_compared_as_far_as_it_is_recorded() {
    let hash = compute_sha1(b"abc");
    assert_eq!(hash[0], 0xa9);
    assert!(verify_hash(&hash, &hash));
    assert!(verify_hash(&hash[..7], &hash));
    assert!(verify_hash(&[], &hash));
    assert!(!verify_hash(&hash[1..], &hash));
    let mut longer = hash.to_vec();
    longer.push(0);
    assert!(!verify_hash(&longer, &hash));

    let stream = compress_xz(b"rootfs").unwrap();
    let mut recorded = compute_sha1(&stream);
    recorded[7] ^= 1;
    let mut b = image(&stream, recorded);
    b[107] = 8;
    let unpacked = extract_rootfs_partition(&b).unpacked.unwrap();
    assert!(matches!(unpacked.done, Err(ExtractError::HashMismatch)));
    b[107] = 7;
    let unpacked = extract_rootfs_partition(&b).unpacked.unwrap();
    assert!(unpacked.done.is_ok());
    assert_eq!(unpacked.rootfs, b"rootfs");
}

#[test]
fn what_a_cut_stream_still_gives() {
    let rootfs: Vec<u8> = (0..100_000u32).map(|i| (i % 251) as u8).collect();
    let stream = compress_xz(&rootfs).unwrap();
    let cut = &stream[..stream.len() - 12];
    let unpacked = unpack(cut, &compute_sha1(cut));
    assert!(matches!(
        unpacked.done,
        Err(ExtractError::Xz(XzError::Rejected(_)))
    ));
    assert!(rootfs.starts_with(&unpacked.rootfs));
    let unpacked = unpack(cut, &compute_sha1(&stream));
    assert!(matches!(unpacked.done, Err(ExtractError::HashMismatch)));
}

#[test]
fn unreadable_image_gives_and_makes_nothing() {
    let mut first = image(b"0123456789", [1; 20]);
    first[0] = b'B';
    let taken = extract_rootfs_partition(&first);
    assert!(matches!(
        taken.inspection.outcome,
        Err(ImageError::InvalidHeader(_))
    ));
    assert!(taken.unpacked.is_none());
    assert!(matches!(
        make_akai_image(&first, b"rootfs"),
        Err(MakeError::Image(ImageError::InvalidHeader(h))) if &h == b"BZ01"
    ));
    assert!(matches!(
        make_akai_image(&image(b"0123456789", [1; 20])[..60], b"rootfs"),
        Err(MakeError::Image(ImageError::UnexpectedEof))
    ));
}
