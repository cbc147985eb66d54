use imgmaker::text::{
    push_fixed_hex, push_hex_bytes, push_number, until_nul, utf8_or_remark, without_nul,
};

#[test]
fn numbers_in_two_bases() {
    let mut out = String::from("n=");
    push_number(&mut out, 0, 10);
    push_number(&mut out, 1234567890, 10);
    assert_eq!(out, "n=01234567890");
    for n in [0u64, 9, 10, 15, 16, 255, 256, 0xabcdef, u64::MAX] {
        let mut decimal = String::new();
        push_number(&mut decimal, n, 10);
        assert_eq!(decimal, format!("{}", n));
        let mut hex = String::new();
        push_number(&mut hex, n, 16);
        assert_eq!(hex, format!("{:x}", n));
    }
}

#[test]
fn hex_of_fixed_width() {
    for n in [0u32, 1, 0x9a, 0xdeadbeef, u32::MAX] {
        let mut out = String::new();
        push_fixed_hex(&mut out, n, 8);
        assert_eq!(out, format!("{:08x}", n));
    }
    let mut out = String::new();
    push_hex_bytes(&mut out, &[0, 0x0f, 0xa0, 0xff]);
    assert_eq!(out, "00 0f a0 ff ");
}

#[test]
fn bytes_as_text() {
    assert_eq!(utf8_or_remark(b"rootfs\0\0"), "rootfs\0\0");
    assert_eq!(utf8_or_remark("caf\u{e9}".as_bytes()), "caf\u{e9}");
    assert_eq!(utf8_or_remark(&[0x61, 0xff]), "invalid utf8");
    assert_eq!(utf8_or_remark(&[0xc0, 0x80]), "invalid utf8");
    assert_eq!(utf8_or_remark(&[0xed, 0xa0, 0x80]), "invalid utf8");
}

#[test]
fn first_nul_ends_a_name() {
    assert_eq!(until_nul(b"AB\0CD\0\0"), b"AB");
    assert_eq!(until_nul(b"AB"), b"AB");
    assert_eq!(until_nul(b"\0AB"), b"");
    assert_eq!(until_nul(b""), b"");
}

#[test]
fn trailing_nuls_go() {
    assert_eq!(without_nul("rootfs\0\0"), "rootfs");
    assert_eq!(without_nul("a\0b\0"), "a\0b");
    assert_eq!(without_nul("\0\0\0"), "");
    assert_eq!(without_nul(""), "");
    assert_eq!(without_nul("\u{e9}\0"), "\u{e9}");
}
