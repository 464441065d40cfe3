//! Writing numbers as text: decimal and lower-case hexadecimal digits.
use vstd::prelude::*;

verus! {

/// The character of digit `d` (0 to 15): `0`-`9`, then `a`-`f`.
pub open spec fn digit_char(d: int) -> char {
    if d < 10 {
        (d + 48) as char
    } else {
        (d - 10 + 97) as char
    }
}

/// The decimal digits of `n`, most significant first, without leading zeros.
pub open spec fn decimal(n: nat) -> Seq<char>
    decreases n,
{
    if n < 10 {
        seq![digit_char(n as int)]
    } else {
        decimal(n / 10).push(digit_char((n % 10) as int))
    }
}

/// The lower-case hexadecimal digits of `n`, most significant first, without
/// leading zeros.
pub open spec fn hex_lower(n: nat) -> Seq<char>
    decreases n,
{
    if n < 16 {
        seq![digit_char(n as int)]
    } else {
        hex_lower(n / 16).push(digit_char((n % 16) as int))
    }
}

/// Appends `c` to `s` (`String::push`).
#[verifier::external_body]
pub(crate) fn push_char(s: &mut String, c: char)
    ensures
        final(s)@ == old(s)@.push(c),
{
    s.push(c);
}

fn digit(d: u128) -> (c: char)
    requires
        d < 16,
    ensures
        c == digit_char(d as int),
{
    if d < 10 {
        let b: u8 = (d as u8) + 48;
        b as char
    } else {
        let b: u8 = (d as u8) - 10 + 97;
        b as char
    }
}

/// Appends the decimal digits of `n` to `s`.
pub fn push_decimal(s: &mut String, n: u128)
    ensures
        final(s)@ == old(s)@ + decimal(n as nat),
    decreases n,
{
    if n < 10 {
        push_char(s, digit(n));
    } else {
        push_decimal(s, n / 10);
        push_char(s, digit(n % 10));
    }
}

/// Appends the lower-case hexadecimal digits of `n` to `s`.
pub fn push_hex(s: &mut String, n: u64)
    ensures
        final(s)@ == old(s)@ + hex_lower(n as nat),
    decreases n,
{
    if n < 16 {
        push_char(s, digit(n as u128));
    } else {
        push_hex(s, n / 16);
        push_char(s, digit((n % 16) as u128));
    }
}

}

verus! {

/// 2^53: below it every integer is exactly an `f64`.
pub open spec fn exact_f64_limit() -> nat {
    0x20000000000000
}

/// The power of two by which `b` is shifted right until it fits 53 bits.
pub open spec fn f64_scale(b: nat) -> nat
    decreases b,
{
    if b < exact_f64_limit() {
        1
    } else {
        2 * f64_scale(b / 2)
    }
}

/// `b` shifted right until it fits 53 bits.
pub open spec fn f64_mantissa(b: nat) -> nat
    decreases b,
{
    if b < exact_f64_limit() {
        b
    } else {
        f64_mantissa(b / 2)
    }
}

/// The value of `b as f64`: `b` rounded to the nearest integer whose
/// significant bits fit 53, ties to the even one.
pub open spec fn f64_value(b: nat) -> nat {
    let p = f64_scale(b);
    let q = f64_mantissa(b);
    let r = b - q * p;
    if p == 1 {
        b
    } else if r * 2 > p || (r * 2 == p && q % 2 == 1) {
        (q + 1) * p
    } else {
        q * p
    }
}

/// `a / m` rounded to the nearest integer, ties to the even one.
pub open spec fn round_half_even(a: nat, m: nat) -> nat {
    let q = a / m;
    let r = a % m;
    if r * 2 > m || (r * 2 == m && q % 2 == 1) {
        q + 1
    } else {
        q
    }
}

/// The unit that a size of `x` bytes is shown in: 0 for B up to 5 for PB,
/// the first whose value stays below 1024 (PB in any case).
pub open spec fn unit_index(x: nat) -> nat {
    if x < 1024 {
        0
    } else if x < 1048576 {
        1
    } else if x < 1073741824 {
        2
    } else if x < 1099511627776 {
        3
    } else if x < 1125899906842624 {
        4
    } else {
        5
    }
}

/// The bytes of one unit `k`: 1024^k.
pub open spec fn unit_scale(k: nat) -> nat {
    if k == 0 {
        1
    } else if k == 1 {
        1024
    } else if k == 2 {
        1048576
    } else if k == 3 {
        1073741824
    } else if k == 4 {
        1099511627776
    } else {
        1125899906842624
    }
}

pub open spec fn unit_name(k: nat) -> Seq<char> {
    if k == 0 {
        seq!['B']
    } else if k == 1 {
        seq!['K', 'B']
    } else if k == 2 {
        seq!['M', 'B']
    } else if k == 3 {
        seq!['G', 'B']
    } else if k == 4 {
        seq!['T', 'B']
    } else {
        seq!['P', 'B']
    }
}

/// The shown size in tenths of its unit.
pub open spec fn size_tenths(bytes: nat) -> nat {
    let x = f64_value(bytes);
    round_half_even(10 * x, unit_scale(unit_index(x)))
}

/// A byte count as shown: its `f64` value in the largest unit (B, KB, MB,
/// GB, TB, PB, steps of 1024) that keeps it below 1024, with one decimal
/// (PB whatever the value), a space and the unit.
pub open spec fn size_text(bytes: nat) -> Seq<char> {
    let t = size_tenths(bytes);
    decimal(t / 10) + seq!['.', digit_char((t % 10) as int), ' '] + unit_name(
        unit_index(f64_value(bytes)),
    )
}

fn f64_value_of(bytes: u64) -> (x: u128)
    ensures
        x == f64_value(bytes as nat),
        x <= 0x2_0000_0000_0000_0000,
{
    let mut q: u64 = bytes;
    let mut p: u64 = 1;
    while q >= 0x20000000000000
        invariant
            f64_mantissa(bytes as nat) == f64_mantissa(q as nat),
            f64_scale(bytes as nat) == p * f64_scale(q as nat),
            q * p <= bytes,
            bytes < (q + 1) * p,
            1 <= p <= 0x1000,
        decreases q,
    {
        assert((q / 2) * (2 * p) <= q * p) by (nonlinear_arith)
            requires
                1 <= p,
        ;
        assert((q + 1) * p <= (q / 2 + 1) * (2 * p)) by (nonlinear_arith)
            requires
                1 <= p,
        ;
        assert(p < 0x800) by (nonlinear_arith)
            requires
                q * p <= bytes,
                q >= 0x20000000000000,
                bytes <= 0xffff_ffff_ffff_ffff,
        ;
        assert(p * (2 * f64_scale((q / 2) as nat)) == (2 * p) * f64_scale((q / 2) as nat)) by (nonlinear_arith);
        q = q / 2;
        p = p * 2;
    }
    assert(f64_scale(q as nat) == 1);
    assert(f64_mantissa(q as nat) == q);
    let r: u64 = bytes - q * p;
    assert(r < p) by (nonlinear_arith)
        requires
            r == bytes - q * p,
            bytes < (q + 1) * p,
    ;
    assert(f64_scale(bytes as nat) == p) by (nonlinear_arith)
        requires
            f64_scale(bytes as nat) == p * f64_scale(q as nat),
            f64_scale(q as nat) == 1,
    ;
    assert(f64_mantissa(bytes as nat) == q);
    if p == 1 {
        assert(q * p == q);
        bytes as u128
    } else if (r as u128) * 2 > p as u128 || ((r as u128) * 2 == p as u128 && q % 2 == 1) {
        assert(((q as u128) + 1) * (p as u128) <= 0x2_0000_0000_0000_0000) by (nonlinear_arith)
            requires
                q < 0x20000000000000,
                p <= 0x1000,
        ;
        let x = ((q as u128) + 1) * (p as u128);
        assert(x <= 0x2_0000_0000_0000_0000) by (nonlinear_arith)
            requires
                x == (q + 1) * p,
                q < 0x20000000000000,
                p <= 0x1000,
        ;
        x
    } else {
        assert((q as u128) * (p as u128) <= 0x2_0000_0000_0000_0000) by (nonlinear_arith)
            requires
                q < 0x20000000000000,
                p <= 0x1000,
        ;
        let x = (q as u128) * (p as u128);
        assert(x <= 0x2_0000_0000_0000_0000) by (nonlinear_arith)
            requires
                x == q * p,
                q < 0x20000000000000,
                p <= 0x1000,
        ;
        x
    }
}

/// `bytes` as shown to the user (see `size_text`), e.g. `1.5 KB`.
pub fn format_size(bytes: u64) -> (r: String)
    ensures
        r@ == size_text(bytes as nat),
{
    let x = f64_value_of(bytes);
    let (k, m): (u8, u128) = if x < 1024 {
        (0, 1)
    } else if x < 1048576 {
        (1, 1024)
    } else if x < 1073741824 {
        (2, 1048576)
    } else if x < 1099511627776 {
        (3, 1073741824)
    } else if x < 1125899906842624 {
        (4, 1099511627776)
    } else {
        (5, 1125899906842624)
    };
    assert(k == unit_index(x as nat) && m == unit_scale(k as nat));
    let a: u128 = 10 * x;
    let q = a / m;
    let rem = a % m;
    let t: u128 = if rem * 2 > m || (rem * 2 == m && q % 2 == 1) {
        q + 1
    } else {
        q
    };
    assert(t == size_tenths(bytes as nat));
    let mut s = String::new();
    push_decimal(&mut s, t / 10);
    push_char(&mut s, '.');
    push_char(&mut s, digit(t % 10));
    push_char(&mut s, ' ');
    match k {
        0 => {
            push_char(&mut s, 'B');
        },
        1 => {
            push_char(&mut s, 'K');
            push_char(&mut s, 'B');
        },
        2 => {
            push_char(&mut s, 'M');
            push_char(&mut s, 'B');
        },
        3 => {
            push_char(&mut s, 'G');
            push_char(&mut s, 'B');
        },
        4 => {
            push_char(&mut s, 'T');
            push_char(&mut s, 'B');
        },
        _ => {
            push_char(&mut s, 'P');
            push_char(&mut s, 'B');
        },
    }
    assert(s@ =~= size_text(bytes as nat));
    s
}

}
