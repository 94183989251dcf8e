//! Decimal rendering of counts and byte sizes.
//!
//! Counts are grouped with commas every three digits. Byte sizes are scaled
//! to the nearest unit and shown with a fixed number of decimals, rounding
//! half to even, the way fixed-precision float formatting rounds the exact
//! quotient (every divisor here is a power of two, so the quotient is exact).

use vstd::prelude::*;

use crate::textops::string_from_chars;

verus! {

/// The digit character for `d`.
pub open spec fn digit_char(d: int) -> char {
    if d == 0 {
        '0'
    } else if d == 1 {
        '1'
    } else if d == 2 {
        '2'
    } else if d == 3 {
        '3'
    } else if d == 4 {
        '4'
    } else if d == 5 {
        '5'
    } else if d == 6 {
        '6'
    } else if d == 7 {
        '7'
    } else if d == 8 {
        '8'
    } else {
        '9'
    }
}

/// The decimal digits of a nonnegative number, most significant first.
pub open spec fn spec_digits(n: int) -> Seq<char>
    recommends
        n >= 0,
    decreases n,
{
    if n < 10 {
        seq![digit_char(n)]
    } else {
        spec_digits(n / 10).push(digit_char(n % 10))
    }
}

/// Digits grouped with a comma before every group of three, from the right.
pub open spec fn spec_grouped(d: Seq<char>) -> Seq<char>
    decreases d.len(),
{
    if d.len() <= 3 {
        d
    } else {
        spec_grouped(d.take(d.len() - 3)) + seq![','] + d.skip(d.len() - 3)
    }
}

/// The quotient `num / den` rounded to the nearest integer, ties to even.
pub open spec fn round_half_even(num: int, den: int) -> int
    recommends
        den > 0,
{
    let q = num / den;
    let r = num % den;
    if 2 * r > den {
        q + 1
    } else if 2 * r == den {
        if q % 2 == 0 {
            q
        } else {
            q + 1
        }
    } else {
        q
    }
}

/// `b / unit` with one decimal place, rounded half to even.
pub open spec fn spec_one_decimal(b: int, unit: int) -> Seq<char> {
    let t = round_half_even(10 * b, unit);
    spec_digits(t / 10) + "."@ + seq![digit_char(t % 10)]
}

/// `b / unit` with two decimal places, rounded half to even.
pub open spec fn spec_two_decimals(b: int, unit: int) -> Seq<char> {
    let h = round_half_even(100 * b, unit);
    spec_digits(h / 100) + "."@ + seq![digit_char((h / 10) % 10), digit_char(h % 10)]
}

/// A byte count rendered with a unit suffix: bytes below 1 KiB, then one
/// decimal of KiB or MiB, then two decimals of GiB.
pub open spec fn spec_format_bytes(b: int) -> Seq<char> {
    if b < 1024 {
        spec_digits(b) + "B"@
    } else if b < 1024 * 1024 {
        spec_one_decimal(b, 1024) + "KB"@
    } else if b < 1024 * 1024 * 1024 {
        spec_one_decimal(b, (1024 * 1024) as int) + "MB"@
    } else {
        spec_two_decimals(b, (1024 * 1024 * 1024) as int) + "GB"@
    }
}

/// The digit character for `d`.
fn digit_of(d: u64) -> (c: char)
    requires
        d < 10,
    ensures
        c == digit_char(d as int),
{
    if d == 0 {
        '0'
    } else if d == 1 {
        '1'
    } else if d == 2 {
        '2'
    } else if d == 3 {
        '3'
    } else if d == 4 {
        '4'
    } else if d == 5 {
        '5'
    } else if d == 6 {
        '6'
    } else if d == 7 {
        '7'
    } else if d == 8 {
        '8'
    } else {
        '9'
    }
}

/// The decimal digits of `n`, most significant first.
fn u64_digits(n: u64) -> (r: Vec<char>)
    ensures
        r@ == spec_digits(n as int),
    decreases n,
{
    if n < 10 {
        let mut v: Vec<char> = Vec::new();
        v.push(digit_of(n));
        proof {
            assert(v@ =~= seq![digit_char(n as int)]);
        }
        v
    } else {
        let mut v = u64_digits(n / 10);
        v.push(digit_of(n % 10));
        v
    }
}

/// The decimal rendering of `n`.
pub fn u64_to_string(n: u64) -> (r: String)
    ensures
        r@ == spec_digits(n as int),
{
    let d = u64_digits(n);
    string_from_chars(&d)
}

/// Digits grouped with commas every three, from the right.
fn group_chars(d: Vec<char>) -> (r: Vec<char>)
    ensures
        r@ == spec_grouped(d@),
    decreases d@.len(),
{
    if d.len() <= 3 {
        return d;
    }
    let n = d.len();
    let mut head: Vec<char> = Vec::new();
    let mut i: usize = 0;
    while i < n - 3
        invariant
            3 < n <= d@.len(),
            n == d@.len(),
            0 <= i <= n - 3,
            head@ == d@.take(i as int),
        decreases n - 3 - i,
    {
        head.push(d[i]);
        proof {
            assert(d@.take(i + 1) =~= d@.take(i as int).push(d@[i as int]));
        }
        i += 1;
    }
    let mut r = group_chars(head);
    r.push(',');
    let ghost base = spec_grouped(d@.take(n - 3 as int)) + seq![','];
    proof {
        assert(r@ =~= base);
        assert(d@.subrange(n - 3 as int, n - 3 as int) =~= Seq::<char>::empty());
        assert(base + d@.subrange(n - 3 as int, n - 3 as int) =~= base);
    }
    let mut j: usize = n - 3;
    while j < n
        invariant
            3 < n,
            n == d@.len(),
            n - 3 <= j <= n,
            r@ == base + d@.subrange(n - 3 as int, j as int),
        decreases n - j,
    {
        r.push(d[j]);
        proof {
            assert(d@.subrange(n - 3 as int, j + 1) =~= d@.subrange(n - 3 as int, j as int).push(
                d@[j as int],
            ));
        }
        j += 1;
    }
    proof {
        assert(d@.subrange(n - 3 as int, n as int) =~= d@.skip(n - 3 as int));
    }
    r
}

/// A count with comma separators between groups of three digits.
pub fn format_count(n: u64) -> (r: String)
    ensures
        r@ == spec_grouped(spec_digits(n as int)),
{
    let digits = u64_digits(n);
    let grouped = group_chars(digits);
    string_from_chars(&grouped)
}

/// The quotient rounded to the nearest integer, ties to even.
fn rounded_div(num: u128, den: u128) -> (q: u128)
    requires
        2 <= den <= 0x1_0000_0000,
    ensures
        q == round_half_even(num as int, den as int),
{
    let quo = num / den;
    let rem = num % den;
    proof {
        assert((num as int) / (den as int) < num as int || num == 0) by (nonlinear_arith)
            requires
                (den as int) >= 2,
                (num as int) >= 0,
        ;
    }
    if 2 * rem > den {
        quo + 1
    } else if 2 * rem == den {
        if quo % 2 == 0 {
            quo
        } else {
            quo + 1
        }
    } else {
        quo
    }
}

/// `b / unit` with one decimal place.
fn one_decimal(b: u64, unit: u64) -> (r: String)
    requires
        1024 <= unit <= 0x4000_0000,
    ensures
        r@ == spec_one_decimal(b as int, unit as int),
{
    let t128 = rounded_div(10 * (b as u128), unit as u128);
    proof {
        assert((10 * (b as int)) / (unit as int) < 0x1000_0000_0000_0000) by (nonlinear_arith)
            requires
                (unit as int) >= 1024,
                0 <= (b as int) <= 0xFFFF_FFFF_FFFF_FFFF,
        ;
        assert(t128 < 0x1000_0000_0000_0001);
    }
    let t = t128 as u64;
    let mut r = u64_to_string(t / 10);
    r.append(".");
    let mut frac: Vec<char> = Vec::new();
    frac.push(digit_of(t % 10));
    proof {
        assert(frac@ =~= seq![digit_char((t % 10) as int)]);
    }
    r.append(string_from_chars(&frac).as_str());
    r
}

/// `b / unit` with two decimal places.
fn two_decimals(b: u64, unit: u64) -> (r: String)
    requires
        unit == 1024 * 1024 * 1024,
    ensures
        r@ == spec_two_decimals(b as int, unit as int),
{
    let h128 = rounded_div(100 * (b as u128), unit as u128);
    proof {
        assert((100 * (b as int)) / (unit as int) < 0x1000_0000_0000_0000) by (nonlinear_arith)
            requires
                (unit as int) >= 0x4000_0000,
                0 <= (b as int) <= 0xFFFF_FFFF_FFFF_FFFF,
        ;
        assert(h128 < 0x1000_0000_0000_0001);
    }
    let h = h128 as u64;
    let mut r = u64_to_string(h / 100);
    r.append(".");
    let mut frac: Vec<char> = Vec::new();
    frac.push(digit_of((h / 10) % 10));
    frac.push(digit_of(h % 10));
    proof {
        assert(frac@ =~= seq![
            digit_char(((h / 10) % 10) as int),
            digit_char((h % 10) as int),
        ]);
    }
    r.append(string_from_chars(&frac).as_str());
    r
}

/// A byte count in the short form session listings use: bytes below 1 KiB,
/// else one decimal of KiB or MiB (never GiB).
pub open spec fn spec_size_brief(b: int) -> Seq<char> {
    if b < 1024 {
        spec_digits(b) + "B"@
    } else if b < 1024 * 1024 {
        spec_one_decimal(b, 1024) + "KB"@
    } else {
        spec_one_decimal(b, (1024 * 1024) as int) + "MB"@
    }
}

/// A byte count in the short form: B, KB, or MB with one decimal.
pub fn format_size_brief(bytes: u64) -> (r: String)
    ensures
        r@ == spec_size_brief(bytes as int),
{
    if bytes < 1024 {
        let mut r = u64_to_string(bytes);
        r.append("B");
        r
    } else if bytes < 1024 * 1024 {
        let mut r = one_decimal(bytes, 1024);
        r.append("KB");
        r
    } else {
        let mut r = one_decimal(bytes, 1024 * 1024);
        r.append("MB");
        r
    }
}

/// A byte count as a human-readable size: B, KB, MB, or GB with two
/// decimals.
pub fn format_bytes(bytes: u64) -> (r: String)
    ensures
        r@ == spec_format_bytes(bytes as int),
{
    if bytes < 1024 {
        let mut r = u64_to_string(bytes);
        r.append("B");
        r
    } else if bytes < 1024 * 1024 {
        let mut r = one_decimal(bytes, 1024);
        r.append("KB");
        r
    } else if bytes < 1024 * 1024 * 1024 {
        let mut r = one_decimal(bytes, 1024 * 1024);
        r.append("MB");
        r
    } else {
        let mut r = two_decimals(bytes, 1024 * 1024 * 1024);
        r.append("GB");
        r
    }
}

} // verus!
