use imgmaker::codec::{compress_xz, compute_sha1, decompress_xz, XzError};

#[test]
fn sha1_of_abc() {
    assert_eq!(
        compute_sha1(b"abc"),
        [
            0xa9, 0x99, 0x3e, 0x36, 0x47, 0x06, 0x81, 0x6a, 0xba, 0x3e, 0x25, 0x71, 0x78, 0x50,
            0xc2, 0x6c, 0x9c, 0xd0, 0xd8, 0x9d
        ]
    );
}

#[test]
fn sha1_of_nothing() {
    assert_eq!(
        compute_sha1(b""),
        [
            0xda, 0x39, 0xa3, 0xee, 0x5e, 0x6b, 0x4b, 0x0d, 0x32, 0x55, 0xbf, 0xef, 0x95, 0x60,
            0x18, 0x90, 0xaf, 0xd8, 0x07, 0x09
        ]
    );
}

#[test]
fn compressed_stream_is_complete() {
    let data: Vec<u8> = vec![7u8; 100_000];
    let stream = compress_xz(&data).unwrap();
    assert_eq!(&stream[..6], &[0xfd, b'7', b'z', b'X', b'Z', 0x00]);
    assert_eq!(&stream[stream.len() - 2..], b"YZ");
    assert!(stream.len() < 1000);
    let mut out = vec![1u8, 2];
    assert!(decompress_xz(&stream, &mut out).is_ok());
    assert_eq!(&out[..2], &[1u8, 2]);
    assert_eq!(&out[2..], &data[..]);
}

#[test]
fn compression_repeats() {
    let data = b"the same bytes".to_vec();
    assert_eq!(compress_xz(&data).unwrap(), compress_xz(&data).unwrap());
}

#[test]
fn nothing_round_trips() {
    let stream = compress_xz(b"").unwrap();
    let mut out = Vec::new();
    assert!(decompress_xz(&stream, &mut out).is_ok());
    assert!(out.is_empty());
}

#[test]
fn foreign_bytes_are_rejected() {
    let mut out = Vec::new();
    assert!(matches!(
        decompress_xz(b"not a stream at all", &mut out),
        Err(XzError::Rejected(_))
    ));
    assert!(matches!(decompress_xz(b"", &mut out), Err(XzError::Rejected(_))));
}

#[test]
fn truncated_stream_is_rejected() {
    let stream = compress_xz(b"some data").unwrap();
    let mut out = Vec::new();
    assert!(matches!(
        decompress_xz(&stream[..stream.len() - 4], &mut out),
        Err(XzError::Rejected(_))
    ));
}

#[test]
fn stream_with_more_behind_it_is_rejected() {
    let mut stream = compress_xz(b"some data").unwrap();
    stream.extend_from_slice(b"more");
    let mut out = Vec::new();
    assert!(matches!(
        decompress_xz(&stream, &mut out),
        Err(XzError::Rejected(_))
    ));
}

#[test]
fn damaged_stream_is_rejected() {
    let mut stream = compress_xz(b"some data that is damaged below").unwrap();
    let middle = stream.len() / 2;
    stream[middle] ^= 0xff;
    let mut out = Vec::new();
    assert!(matches!(
        decompress_xz(&stream, &mut out),
        Err(XzError::Rejected(_))
    ));
}
