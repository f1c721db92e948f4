//! Decimal text rendering: plain integers, fixed-point fractions with four
//! decimal places (crop coordinates) and signed millisecond counts printed as
//! seconds with three decimal places (segment durations).

use vstd::prelude::*;
use vstd::string::StringExecFns;

verus! {

/// The single character that prints decimal digit `d`.
pub open spec fn digit_seq(d: int) -> Seq<char> {
    if d == 0 {
        "0"@
    } else if d == 1 {
        "1"@
    } else if d == 2 {
        "2"@
    } else if d == 3 {
        "3"@
    } else if d == 4 {
        "4"@
    } else if d == 5 {
        "5"@
    } else if d == 6 {
        "6"@
    } else if d == 7 {
        "7"@
    } else if d == 8 {
        "8"@
    } else {
        "9"@
    }
}

/// Decimal text of a non-negative integer, most significant digit first,
/// without leading zeros (`0` prints as "0").
pub open spec fn dec_seq(n: int) -> Seq<char>
    decreases n,
{
    if n < 10 {
        digit_seq(n)
    } else {
        dec_seq(n / 10) + digit_seq(n % 10)
    }
}

/// The last four decimal digits of `v`, zero-padded.
pub open spec fn pad4_seq(v: int) -> Seq<char> {
    digit_seq(v / 1000 % 10) + digit_seq(v / 100 % 10) + digit_seq(v / 10 % 10) + digit_seq(v % 10)
}

/// The last three decimal digits of `v`, zero-padded.
pub open spec fn pad3_seq(v: int) -> Seq<char> {
    digit_seq(v / 100 % 10) + digit_seq(v / 10 % 10) + digit_seq(v % 10)
}

/// `v` ten-thousandths printed with exactly four decimal places, e.g.
/// 10000 prints as "1.0000" and 500 as "0.0500".
pub open spec fn fixed4_seq(v: int) -> Seq<char> {
    dec_seq(v / 10000) + "."@ + pad4_seq(v % 10000)
}

/// `m` non-negative milliseconds printed as seconds with exactly three
/// decimal places, e.g. 2500 prints as "2.500".
pub open spec fn sec3_seq(m: int) -> Seq<char> {
    dec_seq(m / 1000) + "."@ + pad3_seq(m % 1000)
}

/// A possibly negative millisecond count printed as seconds with three
/// decimal places, e.g. -500 prints as "-0.500".
pub open spec fn ms3_seq(ms: int) -> Seq<char> {
    if ms < 0 {
        "-"@ + sec3_seq(-ms)
    } else {
        sec3_seq(ms)
    }
}

/// Append the digit character for `d` to `out`.
pub fn push_digit(out: &mut String, d: u64)
    requires
        d < 10,
    ensures
        final(out)@ == old(out)@ + digit_seq(d as int),
{
    if d == 0 {
        out.append("0");
    } else if d == 1 {
        out.append("1");
    } else if d == 2 {
        out.append("2");
    } else if d == 3 {
        out.append("3");
    } else if d == 4 {
        out.append("4");
    } else if d == 5 {
        out.append("5");
    } else if d == 6 {
        out.append("6");
    } else if d == 7 {
        out.append("7");
    } else if d == 8 {
        out.append("8");
    } else {
        out.append("9");
    }
}

/// Append the decimal text of `n` to `out`.
pub fn push_dec_u64(out: &mut String, n: u64)
    ensures
        final(out)@ == old(out)@ + dec_seq(n as int),
    decreases n,
{
    if n < 10 {
        push_digit(out, n);
    } else {
        push_dec_u64(out, n / 10);
        push_digit(out, n % 10);
        proof {
            assert(out@ =~= old(out)@ + dec_seq(n as int));
        }
    }
}

/// The decimal text of `n` as a fresh string.
pub fn u64_to_string(n: u64) -> (r: String)
    ensures
        r@ == dec_seq(n as int),
{
    let mut r = String::new();
    push_dec_u64(&mut r, n);
    proof {
        assert(r@ =~= dec_seq(n as int));
    }
    r
}

/// Append the last four decimal digits of `v`, zero-padded, to `out`.
pub fn push_pad4(out: &mut String, v: u64)
    ensures
        final(out)@ == old(out)@ + pad4_seq(v as int),
{
    push_digit(out, v / 1000 % 10);
    push_digit(out, v / 100 % 10);
    push_digit(out, v / 10 % 10);
    push_digit(out, v % 10);
    proof {
        assert(out@ =~= old(out)@ + pad4_seq(v as int));
    }
}

/// Append the last three decimal digits of `v`, zero-padded, to `out`.
pub fn push_pad3(out: &mut String, v: u64)
    ensures
        final(out)@ == old(out)@ + pad3_seq(v as int),
{
    push_digit(out, v / 100 % 10);
    push_digit(out, v / 10 % 10);
    push_digit(out, v % 10);
    proof {
        assert(out@ =~= old(out)@ + pad3_seq(v as int));
    }
}

/// Append `v` ten-thousandths as a fraction with four decimal places.
pub fn push_fixed4(out: &mut String, v: u64)
    ensures
        final(out)@ == old(out)@ + fixed4_seq(v as int),
{
    push_dec_u64(out, v / 10000);
    out.append(".");
    push_pad4(out, v % 10000);
    proof {
        assert(out@ =~= old(out)@ + fixed4_seq(v as int));
    }
}

/// Append `m` non-negative milliseconds as seconds with three decimal places.
pub fn push_sec3(out: &mut String, m: u64)
    ensures
        final(out)@ == old(out)@ + sec3_seq(m as int),
{
    push_dec_u64(out, m / 1000);
    out.append(".");
    push_pad3(out, m % 1000);
    proof {
        assert(out@ =~= old(out)@ + sec3_seq(m as int));
    }
}

/// Append a possibly negative millisecond count as seconds with three
/// decimal places.
pub fn push_ms3(out: &mut String, ms: i64)
    requires
        ms > i64::MIN,
    ensures
        final(out)@ == old(out)@ + ms3_seq(ms as int),
{
    if ms < 0 {
        out.append("-");
        push_sec3(out, (-ms) as u64);
        proof {
            assert(out@ =~= old(out)@ + ms3_seq(ms as int));
        }
    } else {
        push_sec3(out, ms as u64);
    }
}

} // verus!
