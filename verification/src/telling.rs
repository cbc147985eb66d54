//! What a report tells: read as numbers and names again, its parts have the values that the image
//! has.

use vstd::arithmetic::div_mod::{lemma_fundamental_div_mod, lemma_fundamental_div_mod_converse};
use vstd::prelude::*;
use vstd::utf8::{
    decode_utf8_encode_utf8, encode_utf8, encode_utf8_decode_utf8, encode_utf8_valid_utf8,
    valid_utf8,
};

use crate::text::{digit, fixed_hex, hex_bytes, number, text_of, trim_nul};

verus! {

/// The value of a digit, in lower case; negative for a character that is none.
pub open spec fn digit_value(c: char) -> int {
    let code = c as int;
    if 0x30 <= code <= 0x39 {
        code - 0x30
    } else if 0x61 <= code <= 0x66 {
        code - 0x57
    } else {
        -1
    }
}

/// Every character is a digit in base `base`.
pub open spec fn all_digits(s: Seq<char>, base: int) -> bool {
    forall|i: int| 0 <= i < s.len() ==> 0 <= #[trigger] digit_value(s[i]) < base
}

/// What digits in base `base` say, the most significant first.
pub open spec fn value_of(s: Seq<char>, base: int) -> int
    decreases s.len(),
{
    if s.len() == 0 {
        0
    } else {
        value_of(s.drop_last(), base) * base + digit_value(s.last())
    }
}

/// `s` says `n` in base `base`, without leading zeros.
pub open spec fn is_numeral(s: Seq<char>, base: int, n: int) -> bool {
    &&& s.len() > 0
    &&& all_digits(s, base)
    &&& s.len() > 1 ==> digit_value(s[0]) != 0
    &&& value_of(s, base) == n
}

/// `s` says `n` in `width` hexadecimal digits.
pub open spec fn is_fixed_hex(s: Seq<char>, width: int, n: int) -> bool {
    &&& s.len() == width
    &&& all_digits(s, 16)
    &&& value_of(s, 16) == n
}

proof fn lemma_digit(d: nat)
    requires
        d < 16,
    ensures
        digit_value(digit(d)) == d,
{
}

/// A number is written as the digits that say it.
pub proof fn law_number_says_it(n: nat, base: nat)
    requires
        2 <= base <= 16,
    ensures
        is_numeral(number(n, base), base as int, n as int),
        n > 0 ==> digit_value(number(n, base)[0]) != 0,
    decreases n,
{
    let s = number(n, base);
    if n < base {
        lemma_digit(n);
        assert(s.drop_last() =~= Seq::empty());
        assert(value_of(s.drop_last(), base as int) == 0);
    } else {
        assert(0 < n / base < n) by (nonlinear_arith)
            requires
                n >= base,
                base >= 2,
        ;
        assert(n % base < base) by (nonlinear_arith)
            requires
                base >= 2,
        ;
        law_number_says_it(n / base, base);
        lemma_digit(n % base);
        let t = number(n / base, base);
        assert(s.drop_last() =~= t);
        lemma_fundamental_div_mod(n as int, base as int);
        assert((n / base) * base == base * (n / base)) by (nonlinear_arith);
        assert forall|i: int| 0 <= i < s.len() implies 0 <= #[trigger] digit_value(s[i]) < base by {
            if i < t.len() {
                assert(s[i] == t[i]);
            }
        }
        assert(s[0] == t[0]);
    }
}

/// Numerals that say the same are the same.
pub proof fn law_numerals_are_unique(s: Seq<char>, t: Seq<char>, base: int, n: int)
    requires
        2 <= base <= 16,
        is_numeral(s, base, n),
        is_numeral(t, base, n),
    ensures
        s == t,
{
    lemma_value_bound(s, base);
    lemma_value_bound(t, base);
    if s.len() < t.len() {
        lemma_powers(base, s.len(), (t.len() - 1) as nat);
    } else if t.len() < s.len() {
        lemma_powers(base, t.len(), (s.len() - 1) as nat);
    }
    lemma_same_digits(s, t, base);
}

/// `base` to the power `n`.
pub open spec fn power(base: int, n: nat) -> int
    decreases n,
{
    if n == 0 {
        1
    } else {
        base * power(base, (n - 1) as nat)
    }
}

proof fn lemma_powers(base: int, m: nat, n: nat)
    requires
        2 <= base,
        m <= n,
    ensures
        1 <= power(base, m) <= power(base, n),
    decreases n,
{
    if n > 0 {
        if m < n {
            lemma_powers(base, m, (n - 1) as nat);
            let q = power(base, (n - 1) as nat);
            assert(q <= base * q) by (nonlinear_arith)
                requires
                    q >= 1,
                    base >= 2,
            ;
        } else {
            lemma_powers(base, (n - 1) as nat, (n - 1) as nat);
            let q = power(base, (n - 1) as nat);
            assert(1 <= base * q) by (nonlinear_arith)
                requires
                    q >= 1,
                    base >= 2,
            ;
        }
    }
}

/// Digits say less than the power of their count, and more than the power before it unless the
/// first one is zero.
proof fn lemma_value_bound(s: Seq<char>, base: int)
    requires
        2 <= base,
        all_digits(s, base),
    ensures
        0 <= value_of(s, base) < power(base, s.len()),
        s.len() > 0 && digit_value(s[0]) != 0 ==> power(base, (s.len() - 1) as nat) <= value_of(
            s,
            base,
        ),
    decreases s.len(),
{
    if s.len() > 0 {
        let t = s.drop_last();
        assert forall|i: int| 0 <= i < t.len() implies 0 <= #[trigger] digit_value(t[i]) < base by {
            assert(t[i] == s[i]);
        }
        lemma_value_bound(t, base);
        let v = value_of(t, base);
        let d = digit_value(s.last());
        let q = power(base, t.len());
        assert(0 <= d < base);
        assert(0 <= v * base + d < base * q) by (nonlinear_arith)
            requires
                0 <= v < q,
                0 <= d < base,
        ;
        if digit_value(s[0]) != 0 {
            if t.len() > 0 {
                assert(t[0] == s[0]);
                let r = power(base, (t.len() - 1) as nat);
                assert(base * r <= v * base + d) by (nonlinear_arith)
                    requires
                        r <= v,
                        0 <= d,
                        base >= 2,
                ;
            } else {
                assert(power(base, 0) == 1);
                assert(v == 0);
            }
        }
    }
}

/// Equally many digits that say the same are the same.
proof fn lemma_same_digits(s: Seq<char>, t: Seq<char>, base: int)
    requires
        2 <= base <= 16,
        s.len() == t.len(),
        all_digits(s, base),
        all_digits(t, base),
        value_of(s, base) == value_of(t, base),
    ensures
        s == t,
    decreases s.len(),
{
    if s.len() == 0 {
        assert(s =~= t);
    } else {
        let s1 = s.drop_last();
        let t1 = t.drop_last();
        assert forall|i: int| 0 <= i < s1.len() implies 0 <= #[trigger] digit_value(s1[i])
            < base by {
            assert(s1[i] == s[i]);
        }
        assert forall|i: int| 0 <= i < t1.len() implies 0 <= #[trigger] digit_value(t1[i])
            < base by {
            assert(t1[i] == t[i]);
        }
        let n = value_of(s, base);
        let (v, d) = (value_of(s1, base), digit_value(s.last()));
        let (w, e) = (value_of(t1, base), digit_value(t.last()));
        assert(0 <= d < base && 0 <= e < base);
        lemma_fundamental_div_mod_converse(n, base, v, d);
        lemma_fundamental_div_mod_converse(n, base, w, e);
        lemma_same_digits(s1, t1, base);
        assert(s.last() == t.last());
        assert(s =~= s1.push(s.last()));
        assert(t =~= t1.push(t.last()));
    }
}

/// The least significant hexadecimal digits of a number that needs no more say it.
pub proof fn law_fixed_hex_says_it(n: nat, width: nat)
    requires
        n < power(16, width),
    ensures
        is_fixed_hex(fixed_hex(n, width), width as int, n as int),
    decreases width,
{
    let s = fixed_hex(n, width);
    if width > 0 {
        law_fixed_hex_says_it(n / 16, (width - 1) as nat);
        let t = fixed_hex(n / 16, (width - 1) as nat);
        assert(s.drop_last() =~= t);
        lemma_digit(n % 16);
        assert forall|i: int| 0 <= i < s.len() implies 0 <= #[trigger] digit_value(s[i]) < 16 by {
            if i < t.len() {
                assert(s[i] == t[i]);
            }
        }
    }
}

/// Eight hexadecimal digits say every number of 32 bits, and two say every byte.
pub(crate) proof fn lemma_hex_widths()
    ensures
        power(16, 8) == u32::MAX + 1,
        power(16, 2) == 256,
{
    reveal_with_fuel(power, 9);
}

/// Bytes are listed one by one, each in two hexadecimal digits with a space behind.
pub proof fn law_hex_bytes_say_them(b: Seq<u8>)
    ensures
        hex_bytes(b).len() == 3 * b.len(),
        forall|i: int|
            0 <= i < b.len() ==> {
                &&& is_fixed_hex(#[trigger] hex_bytes(b).subrange(3 * i, 3 * i + 2), 2, b[i] as int)
                &&& hex_bytes(b)[3 * i + 2] == ' '
            },
    decreases b.len(),
{
    reveal_strlit(" ");
    if b.len() > 0 {
        let less = b.drop_last();
        law_hex_bytes_say_them(less);
        lemma_hex_widths();
        law_fixed_hex_says_it(b.last() as nat, 2);
        let s = hex_bytes(b);
        let t = hex_bytes(less);
        assert forall|i: int| 0 <= i < b.len() implies {
            &&& is_fixed_hex(#[trigger] s.subrange(3 * i, 3 * i + 2), 2, b[i] as int)
            &&& s[3 * i + 2] == ' '
        } by {
            if i < less.len() {
                assert(s.subrange(3 * i, 3 * i + 2) =~= t.subrange(3 * i, 3 * i + 2));
                assert(s[3 * i + 2] == t[3 * i + 2]);
            } else {
                assert(s.subrange(3 * i, 3 * i + 2) =~= fixed_hex(b.last() as nat, 2));
            }
        }
    }
}

/// `text` is what the bytes say as UTF-8, or the remark that they say nothing.
pub open spec fn says(bytes: Seq<u8>, text: Seq<char>) -> bool {
    ||| encode_utf8(text) == bytes
    ||| text == "invalid utf8"@ && forall|t: Seq<char>| #[trigger] encode_utf8(t) != bytes
}

/// Bytes that encode a text are shown as that text, and others as the remark.
pub proof fn law_text_says_it(bytes: Seq<u8>)
    ensures
        says(bytes, text_of(bytes)),
        forall|t: Seq<char>| #[trigger] encode_utf8(t) == bytes ==> text_of(bytes) == t,
{
    if valid_utf8(bytes) {
        decode_utf8_encode_utf8(bytes);
    }
    assert forall|t: Seq<char>| #[trigger] encode_utf8(t) == bytes implies text_of(bytes) == t by {
        encode_utf8_valid_utf8(t);
        encode_utf8_decode_utf8(t);
    }
    if !valid_utf8(bytes) {
        assert forall|t: Seq<char>| #[trigger] encode_utf8(t) != bytes by {
            encode_utf8_valid_utf8(t);
        }
    }
}

/// `shown` is `full` without the NULs that end it.
pub open spec fn strips(full: Seq<char>, shown: Seq<char>) -> bool {
    &&& shown.len() <= full.len()
    &&& full.take(shown.len() as int) == shown
    &&& forall|i: int| shown.len() <= i < full.len() ==> full[i] == '\0'
    &&& shown.len() > 0 ==> shown.last() != '\0'
}

/// Trimming takes away just the NULs that end a text.
pub proof fn law_trim_strips(full: Seq<char>)
    ensures
        strips(full, trim_nul(full)),
    decreases full.len(),
{
    if full.len() > 0 && full.last() == '\0' {
        let less = full.drop_last();
        law_trim_strips(less);
        let shown = trim_nul(less);
        assert(full.take(shown.len() as int) =~= less.take(shown.len() as int));
        assert forall|i: int| shown.len() <= i < full.len() implies full[i] == '\0' by {
            if i < less.len() {
                assert(less[i] == full[i]);
            }
        }
    } else {
        assert(full.take(full.len() as int) =~= full);
    }
}

} // verus!
