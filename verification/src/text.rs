//! The pieces of text that reports are made of.

use vstd::prelude::*;
use vstd::slice::slice_subrange;
use vstd::string::StrSliceExecFns;
use vstd::string::StringExecFns;
use vstd::utf8::{decode_utf8, valid_utf8};

use crate::layout::find;

verus! {

/// The digit of value `d`, below sixteen, in lower case.
pub open spec fn digit(d: nat) -> char {
    if d < 10 {
        (0x30 + d) as char
    } else {
        (0x57 + d) as char
    }
}

/// `n` written in base `base`, without leading zeros.
pub open spec fn number(n: nat, base: nat) -> Seq<char>
    decreases n,
{
    if base < 2 || n < base {
        seq![digit(n)]
    } else {
        proof {
            assert(n / base < n) by (nonlinear_arith)
                requires
                    n >= base,
                    base >= 2,
            ;
        }
        number(n / base, base).push(digit(n % base))
    }
}

/// The `width` least significant hexadecimal digits of `n`, most significant first.
pub open spec fn fixed_hex(n: nat, width: nat) -> Seq<char>
    decreases width,
{
    if width == 0 {
        Seq::empty()
    } else {
        fixed_hex(n / 16, (width - 1) as nat).push(digit(n % 16))
    }
}

/// What `b` says as UTF-8, or a remark that it is not.
pub open spec fn text_of(b: Seq<u8>) -> Seq<char> {
    if valid_utf8(b) {
        decode_utf8(b)
    } else {
        "invalid utf8"@
    }
}

/// `s` without the NUL characters at its end.
pub open spec fn trim_nul(s: Seq<char>) -> Seq<char>
    decreases s.len(),
{
    if s.len() > 0 && s.last() == '\0' {
        trim_nul(s.drop_last())
    } else {
        s
    }
}

/// Two hexadecimal digits and a space for each byte of `b`.
pub open spec fn hex_bytes(b: Seq<u8>) -> Seq<char>
    decreases b.len(),
{
    if b.len() == 0 {
        Seq::empty()
    } else {
        hex_bytes(b.drop_last()) + fixed_hex(b.last() as nat, 2) + " "@
    }
}

/// Calls `std::str::from_utf8`: the characters that the bytes encode where they are valid UTF-8,
/// and nothing where they are not.
#[verifier::external_body]
fn from_utf8(bytes: &[u8]) -> (text: Option<&str>)
    ensures
        match text {
            Some(t) => valid_utf8(bytes@) && t@ == decode_utf8(bytes@),
            None => !valid_utf8(bytes@),
        },
{
    std::str::from_utf8(bytes).ok()
}

/// The bytes as text, or the remark that they are none.
pub fn utf8_or_remark(bytes: &[u8]) -> (text: &str)
    ensures
        text@ == text_of(bytes@),
{
    match from_utf8(bytes) {
        Some(t) => t,
        None => "invalid utf8",
    }
}

/// The bytes in front of the first NUL; all of them if there is none.
pub fn until_nul(bytes: &[u8]) -> (name: &[u8])
    ensures
        name@ == bytes@.take(find(bytes@, 0, 0)),
{
    let len: usize = bytes.len();
    let mut n: usize = 0;
    while n < len && bytes[n] != 0
        invariant
            n <= len,
            len == bytes@.len(),
            find(bytes@, 0, 0) == find(bytes@, 0, n as int),
        decreases len - n,
    {
        n += 1;
    }
    slice_subrange(bytes, 0, n)
}

/// The text without the NUL characters that pad it.
pub fn without_nul(text: &str) -> (trimmed: &str)
    ensures
        trimmed@ == trim_nul(text@),
{
    let len: usize = text.unicode_len();
    let mut n: usize = len;
    assert(text@.take(n as int) =~= text@);
    while n > 0 && text.get_char(n - 1) == '\0'
        invariant
            n <= len,
            len == text@.len(),
            trim_nul(text@) == trim_nul(text@.take(n as int)),
        decreases n,
    {
        assert(text@.take(n as int).drop_last() =~= text@.take(n - 1));
        n -= 1;
    }
    text.substring_char(0, n)
}

/// Appends one digit.
fn push_digit(out: &mut String, d: usize)
    requires
        d < 16,
    ensures
        final(out)@ == old(out)@.push(digit(d as nat)),
{
    let digits = "0123456789abcdef";
    proof {
        reveal_strlit("0123456789abcdef");
    }
    out.append(digits.substring_char(d, d + 1));
    assert(digits@.subrange(d as int, d + 1) =~= seq![digit(d as nat)]);
    assert(out@ =~= old(out)@.push(digit(d as nat)));
}

/// Appends `n` written in base `base`.
pub fn push_number(out: &mut String, n: u64, base: u64)
    requires
        2 <= base <= 16,
    ensures
        final(out)@ == old(out)@ + number(n as nat, base as nat),
    decreases n,
{
    if n < base {
        push_digit(out, n as usize);
    } else {
        assert(n / base < n) by (nonlinear_arith)
            requires
                n >= base,
                base >= 2,
        ;
        push_number(out, n / base, base);
        assert(n % base < base) by (nonlinear_arith)
            requires
                base >= 2,
        ;
        push_digit(out, (n % base) as usize);
    }
    assert(out@ =~= old(out)@ + number(n as nat, base as nat));
}

/// Appends the `width` least significant hexadecimal digits of `n`.
pub fn push_fixed_hex(out: &mut String, n: u32, width: u32)
    ensures
        final(out)@ == old(out)@ + fixed_hex(n as nat, width as nat),
    decreases width,
{
    if width > 0 {
        push_fixed_hex(out, n / 16, width - 1);
        push_digit(out, (n % 16) as usize);
    }
    assert(out@ =~= old(out)@ + fixed_hex(n as nat, width as nat));
}

/// Appends two hexadecimal digits and a space for each byte.
pub fn push_hex_bytes(out: &mut String, bytes: &[u8])
    ensures
        final(out)@ == old(out)@ + hex_bytes(bytes@),
{
    let n: usize = bytes.len();
    let mut i: usize = 0;
    assert(old(out)@ + hex_bytes(bytes@.take(0)) =~= old(out)@);
    while i < n
        invariant
            i <= n,
            n == bytes@.len(),
            out@ == old(out)@ + hex_bytes(bytes@.take(i as int)),
        decreases n - i,
    {
        push_fixed_hex(out, bytes[i] as u32, 2);
        out.append(" ");
        i += 1;
        assert(bytes@.take(i as int).drop_last() =~= bytes@.take(i - 1));
        assert(out@ =~= old(out)@ + hex_bytes(bytes@.take(i as int)));
    }
    assert(bytes@.take(n as int) =~= bytes@);
}

} // verus!
