//! Decimal rendering of integers and the human-readable size format used
//! for cache footprints ("1.50 MB", "12 B", ...).

use vstd::prelude::*;
use crate::range::{all_digits, digit_value, digits_value, is_digit_char};

verus! {

/// The character for one decimal digit.
pub open spec fn digit_char(d: nat) -> char
    recommends
        d < 10,
{
    if d == 0 {
        '0'
    } else if d == 1 {
        '1'
    } else if d == 2 {
        '2'
    } else if d == 3 {
        '3'
    } else if d == 4 {
        '4'
    } else if d == 5 {
        '5'
    } else if d == 6 {
        '6'
    } else if d == 7 {
        '7'
    } else if d == 8 {
        '8'
    } else {
        '9'
    }
}

/// The decimal digit string of `n`, most significant digit first and
/// without leading zeros (`0` is written as one digit).
pub open spec fn dec_digits(n: nat) -> Seq<char>
    decreases n,
{
    if n < 10 {
        seq![digit_char(n)]
    } else {
        dec_digits(n / 10).push(digit_char(n % 10))
    }
}

pub proof fn lemma_digit_char_value(d: nat)
    requires
        d < 10,
    ensures
        is_digit_char(digit_char(d)),
        digit_value(digit_char(d)) == d,
{
}

/// `dec_digits` writes only digits and reads back as the number it was
/// written from.
pub proof fn lemma_dec_digits_value(n: nat)
    ensures
        dec_digits(n).len() >= 1,
        all_digits(dec_digits(n)),
        digits_value(dec_digits(n)) == n,
    decreases n,
{
    if n < 10 {
        lemma_digit_char_value(n);
        let s = dec_digits(n);
        assert(s == seq![digit_char(n)]);
        assert(s.last() == digit_char(n));
        assert(s.drop_last() =~= Seq::<char>::empty());
        assert(digits_value(Seq::<char>::empty()) == 0);
        assert(digits_value(s) == digits_value(s.drop_last()) * 10 + digit_value(s.last()));
        assert(digits_value(dec_digits(n)) == n);
    } else {
        lemma_dec_digits_value(n / 10);
        lemma_digit_char_value(n % 10);
        let s = dec_digits(n / 10);
        let w = s.push(digit_char(n % 10));
        assert(w.drop_last() =~= s);
        assert(digits_value(w) == digits_value(s) * 10 + (n % 10));
        assert(n / 10 * 10 + n % 10 == n) by (nonlinear_arith);
        assert forall|i: int| 0 <= i < w.len() implies is_digit_char(#[trigger] w[i]) by {
            if i < s.len() {
                assert(is_digit_char(s[i]));
            }
        }
    }
}

/// A one-character string for one decimal digit.
fn digit_str(d: u64) -> (r: &'static str)
    requires
        d < 10,
    ensures
        r@ == seq![digit_char(d as nat)],
{
    proof {
        reveal_strlit("0");
        reveal_strlit("1");
        reveal_strlit("2");
        reveal_strlit("3");
        reveal_strlit("4");
        reveal_strlit("5");
        reveal_strlit("6");
        reveal_strlit("7");
        reveal_strlit("8");
        reveal_strlit("9");
    }
    let r = if d == 0 {
        "0"
    } else if d == 1 {
        "1"
    } else if d == 2 {
        "2"
    } else if d == 3 {
        "3"
    } else if d == 4 {
        "4"
    } else if d == 5 {
        "5"
    } else if d == 6 {
        "6"
    } else if d == 7 {
        "7"
    } else if d == 8 {
        "8"
    } else {
        "9"
    };
    proof {
        assert(r@ =~= seq![digit_char(d as nat)]);
    }
    r
}

/// Writes `n` in decimal.
pub fn u64_to_string(n: u64) -> (r: String)
    ensures
        r@ == dec_digits(n as nat),
    decreases n,
{
    if n < 10 {
        String::from_str(digit_str(n))
    } else {
        let mut r = u64_to_string(n / 10);
        r.append(digit_str(n % 10));
        assert(r@ =~= dec_digits(n as nat));
        r
    }
}

pub const KIB: u64 = 1024;

pub const MIB: u64 = 1024 * 1024;

pub const GIB: u64 = 1024 * 1024 * 1024;

/// `bytes / unit` scaled to two decimal places, rounded half up.
pub open spec fn spec_scaled_centi(bytes: u64, unit: u64) -> nat
    recommends
        unit >= 2,
{
    ((100 * (bytes as int) + (unit as int) / 2) / (unit as int)) as nat
}

/// The quotient written with two decimal places.
pub open spec fn spec_two_decimals(bytes: u64, unit: u64) -> Seq<char>
    recommends
        unit >= 2,
{
    let scaled = spec_scaled_centi(bytes, unit);
    dec_digits(scaled / 100) + "."@ + seq![
        digit_char((scaled % 100) / 10),
        digit_char(scaled % 10),
    ]
}

/// The human-readable size: two decimals of the largest binary unit the
/// value reaches, or the exact byte count under 1 KiB.
pub open spec fn spec_format_size(bytes: u64) -> Seq<char> {
    if bytes >= GIB {
        spec_two_decimals(bytes, GIB) + " GB"@
    } else if bytes >= MIB {
        spec_two_decimals(bytes, MIB) + " MB"@
    } else if bytes >= KIB {
        spec_two_decimals(bytes, KIB) + " KB"@
    } else {
        dec_digits(bytes as nat) + " B"@
    }
}

/// Renders `bytes / unit` with two decimal places, rounded half up.
fn format_two_decimals(bytes: u64, unit: u64) -> (r: String)
    requires
        KIB <= unit <= GIB,
    ensures
        r@ == spec_two_decimals(bytes, unit),
{
    let num: u128 = 100u128 * (bytes as u128) + ((unit / 2) as u128);
    let scaled_wide: u128 = num / (unit as u128);
    proof {
        assert(num < (unit as u128) * 0x1_0000_0000_0000_0000) by (nonlinear_arith)
            requires
                num == 100 * (bytes as u128) + (unit / 2) as u128,
                bytes <= u64::MAX,
                KIB <= unit,
        ;
        assert(scaled_wide < 0x1_0000_0000_0000_0000) by (nonlinear_arith)
            requires
                scaled_wide == num / (unit as u128),
                num < (unit as u128) * 0x1_0000_0000_0000_0000,
                unit >= KIB,
        ;
        assert(scaled_wide == (100 * (bytes as int) + (unit as int) / 2) / (unit as int));
    }
    let scaled: u64 = scaled_wide as u64;
    assert(scaled == spec_scaled_centi(bytes, unit));
    let mut r = u64_to_string(scaled / 100);
    r.append(".");
    r.append(digit_str((scaled % 100) / 10));
    r.append(digit_str(scaled % 10));
    proof {
        assert(((scaled % 100) / 10) as nat == (scaled as nat % 100) / 10);
        assert((scaled % 10) as nat == (scaled as nat) % 10);
        assert(r@ =~= spec_two_decimals(bytes, unit));
    }
    r
}

/// Formats a byte count for display.
pub fn format_size(bytes: u64) -> (r: String)
    ensures
        r@ == spec_format_size(bytes),
{
    if bytes >= GIB {
        let mut r = format_two_decimals(bytes, GIB);
        r.append(" GB");
        assert(r@ =~= spec_format_size(bytes));
        r
    } else if bytes >= MIB {
        let mut r = format_two_decimals(bytes, MIB);
        r.append(" MB");
        assert(r@ =~= spec_format_size(bytes));
        r
    } else if bytes >= KIB {
        let mut r = format_two_decimals(bytes, KIB);
        r.append(" KB");
        assert(r@ =~= spec_format_size(bytes));
        r
    } else {
        let mut r = u64_to_string(bytes);
        r.append(" B");
        assert(r@ =~= spec_format_size(bytes));
        r
    }
}

} // verus!
