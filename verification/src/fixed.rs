//! Fixed-point decimal values.
//!
//! A value is a decimal with exactly one fractional digit, stored as the
//! integer ten times its magnitude. The parser is specialized to the three
//! shapes `d.d`, `dd.d` and `ddd.d`, each optionally preceded by `-`: it
//! branches on where the decimal point sits and reads the digits at fixed
//! offsets. The renderer writes a scaled integer back as its canonical
//! literal, and an average is rendered after rounding half away from zero.

use vstd::prelude::*;
use crate::agg::{VAL_MIN, VAL_MAX};

verus! {

/// ASCII decimal digit.
pub open spec fn is_digit(b: u8) -> bool {
    48 <= b <= 57
}

/// Numeric value of an ASCII digit.
pub open spec fn dv(b: u8) -> int {
    b - 48
}

/// ASCII digit of a value in `0..=9`.
pub open spec fn digit_ch(d: int) -> u8 {
    (48 + d) as u8
}

/// Parse an unsigned value at `j`, reading no byte at or past `end`:
/// the scaled integer and the index just past the last digit, or `None`
/// if the bytes do not match one of the three shapes.
pub open spec fn spec_parse_mag(s: Seq<u8>, j: int, end: int) -> Option<(int, int)> {
    if j + 1 < end && s[j + 1] == 46u8 {
        // d.d
        if j + 3 <= end && is_digit(s[j]) && is_digit(s[j + 2]) {
            Some((10 * dv(s[j]) + dv(s[j + 2]), j + 3))
        } else {
            None
        }
    } else if j + 2 < end && s[j + 2] == 46u8 {
        // dd.d
        if j + 4 <= end && is_digit(s[j]) && is_digit(s[j + 1]) && is_digit(s[j + 3]) {
            Some((100 * dv(s[j]) + 10 * dv(s[j + 1]) + dv(s[j + 3]), j + 4))
        } else {
            None
        }
    } else if j + 3 < end && s[j + 3] == 46u8 {
        // ddd.d
        if j + 5 <= end && is_digit(s[j]) && is_digit(s[j + 1]) && is_digit(s[j + 2])
            && is_digit(s[j + 4]) {
            Some((1000 * dv(s[j]) + 100 * dv(s[j + 1]) + 10 * dv(s[j + 2]) + dv(s[j + 4]), j + 5))
        } else {
            None
        }
    } else {
        None
    }
}

/// Parse a possibly signed value at `i`, reading no byte at or past `end`.
pub open spec fn spec_parse_value(s: Seq<u8>, i: int, end: int) -> Option<(int, int)> {
    if i < end && s[i] == 45u8 {
        match spec_parse_mag(s, i + 1, end) {
            Some((v, t)) => Some((-v, t)),
            None => None,
        }
    } else {
        spec_parse_mag(s, i, end)
    }
}

/// A successful parse yields a value in the supported range, consumes at
/// least three bytes, stops within bounds, and reads only bytes that are a
/// sign, a digit or the decimal point.
pub proof fn lemma_parse_value_shape(s: Seq<u8>, i: int, end: int)
    requires
        spec_parse_value(s, i, end) is Some,
    ensures
        VAL_MIN as int <= spec_parse_value(s, i, end)->Some_0.0 <= VAL_MAX as int,
        i + 3 <= spec_parse_value(s, i, end)->Some_0.1 <= end,
        forall|x: int| i <= x < spec_parse_value(s, i, end)->Some_0.1
            ==> (s[x] == 45u8 || s[x] == 46u8 || is_digit(#[trigger] s[x])),
{
}

/// A parse that stays within `end` is unchanged when the window grows:
/// it inspects no byte at or past the position it stops at.
pub proof fn lemma_parse_value_extend(s: Seq<u8>, i: int, end: int, end2: int)
    requires
        end <= end2,
        spec_parse_value(s, i, end) is Some,
    ensures
        spec_parse_value(s, i, end2) == spec_parse_value(s, i, end),
{
}

/// A parse is likewise unchanged when the window shrinks, as long as the
/// consumed bytes stay inside it.
pub proof fn lemma_parse_value_restrict(s: Seq<u8>, i: int, end: int, end2: int)
    requires
        spec_parse_value(s, i, end) is Some,
        spec_parse_value(s, i, end)->Some_0.1 <= end2 <= end,
    ensures
        spec_parse_value(s, i, end2) == spec_parse_value(s, i, end),
{
}

/// Decode a scaled value from `input[pos..end]`.
///
/// Returns the scaled integer and the index just past its last digit, or
/// `None` when the bytes do not match a supported shape.
pub fn parse_temperature(input: &[u8], pos: usize, end: usize) -> (r: Option<(i64, usize)>)
    requires
        pos <= end <= input@.len(),
    ensures
        (match r {
            Some((v, t)) => spec_parse_value(input@, pos as int, end as int)
                == Some((v as int, t as int)),
            None => spec_parse_value(input@, pos as int, end as int) is None,
        }),
{
    let mut j: usize = pos;
    let negative: bool = pos < end && input[pos] == 45u8;
    if negative {
        j = pos + 1;
    }
    let rem: usize = end - j;
    let mag: Option<(i64, usize)> = {
        if rem > 1 && input[j + 1] == 46u8 {
            if rem >= 3 && is_digit_x(input[j]) && is_digit_x(input[j + 2]) {
                let v: i64 = 10 * (input[j] - 48) as i64 + (input[j + 2] - 48) as i64;
                Some((v, j + 3))
            } else {
                None
            }
        } else if rem > 2 && input[j + 2] == 46u8 {
            if rem >= 4 && is_digit_x(input[j]) && is_digit_x(input[j + 1])
                && is_digit_x(input[j + 3]) {
                let v: i64 = 100 * (input[j] - 48) as i64 + 10 * (input[j + 1] - 48) as i64
                    + (input[j + 3] - 48) as i64;
                Some((v, j + 4))
            } else {
                None
            }
        } else if rem > 3 && input[j + 3] == 46u8 {
            if rem >= 5 && is_digit_x(input[j]) && is_digit_x(input[j + 1])
                && is_digit_x(input[j + 2]) && is_digit_x(input[j + 4]) {
                let v: i64 = 1000 * (input[j] - 48) as i64 + 100 * (input[j + 1] - 48) as i64
                    + 10 * (input[j + 2] - 48) as i64 + (input[j + 4] - 48) as i64;
                Some((v, j + 5))
            } else {
                None
            }
        } else {
            None
        }
    };
    match mag {
        Some((v, t)) => {
            if negative {
                Some((-v, t))
            } else {
                Some((v, t))
            }
        },
        None => None,
    }
}

/// Executable digit test, equal to [`is_digit`].
pub fn is_digit_x(b: u8) -> (r: bool)
    ensures
        r == is_digit(b),
{
    48 <= b && b <= 57
}

/// Canonical literal of an unsigned scaled value: integer digits without
/// leading zeros, the point, one fractional digit.
pub open spec fn spec_render_mag(m: int) -> Seq<u8> {
    let ip = m / 10;
    let f = m % 10;
    if ip >= 100 {
        seq![digit_ch(ip / 100), digit_ch((ip / 10) % 10), digit_ch(ip % 10), 46u8, digit_ch(f)]
    } else if ip >= 10 {
        seq![digit_ch(ip / 10), digit_ch(ip % 10), 46u8, digit_ch(f)]
    } else {
        seq![digit_ch(ip), 46u8, digit_ch(f)]
    }
}

/// Canonical literal of a scaled value, `-` first when negative.
pub open spec fn spec_render_fixed(v: int) -> Seq<u8> {
    if v < 0 {
        seq![45u8] + spec_render_mag(-v)
    } else {
        spec_render_mag(v)
    }
}

/// Append the canonical literal of `v / 10` to `out`.
pub fn render_fixed(v: i64, out: &mut Vec<u8>)
    requires
        VAL_MIN <= v <= VAL_MAX,
    ensures
        final(out)@ == old(out)@ + spec_render_fixed(v as int),
{
    let m: i64 = if v < 0 {
        out.push(45u8);
        -v
    } else {
        v
    };
    let ip: i64 = m / 10;
    let f: i64 = m % 10;
    if ip >= 100 {
        out.push(48 + (ip / 100) as u8);
        out.push(48 + ((ip / 10) % 10) as u8);
        out.push(48 + (ip % 10) as u8);
    } else if ip >= 10 {
        out.push(48 + (ip / 10) as u8);
        out.push(48 + (ip % 10) as u8);
    } else {
        out.push(48 + ip as u8);
    }
    out.push(46u8);
    out.push(48 + f as u8);
    proof {
        assert(out@ =~= old(out)@ + spec_render_fixed(v as int));
    }
}

/// Round-trip: the canonical literal of any scaled value in range parses
/// back to that same value, consuming the whole literal.
pub proof fn lemma_render_parse_round_trip(v: int)
    requires
        VAL_MIN as int <= v <= VAL_MAX as int,
    ensures
        spec_parse_value(spec_render_fixed(v), 0, spec_render_fixed(v).len() as int)
            == Some((v, spec_render_fixed(v).len() as int)),
{
    let s = spec_render_fixed(v);
    let m = if v < 0 { -v } else { v };
    let ip = m / 10;
    let f = m % 10;
    assert(m == 10 * ip + f);
    assert(0 <= f <= 9);
    if ip >= 100 {
        assert(ip == 100 * (ip / 100) + 10 * ((ip / 10) % 10) + ip % 10) by {
            assert(ip / 10 == 10 * (ip / 100) + (ip / 10) % 10);
        }
    } else if ip >= 10 {
        assert(ip == 10 * (ip / 10) + ip % 10);
    }
}

/// A canonical literal: one of the supported shapes, with no leading zero
/// before a second integer digit and no minus sign on zero.
pub open spec fn canonical_literal(l: Seq<u8>) -> bool {
    &&& spec_parse_value(l, 0, l.len() as int) is Some
    &&& spec_parse_value(l, 0, l.len() as int)->Some_0.1 == l.len()
    &&& (l[0] == 45u8 ==> l.len() >= 5 ==> l[1] != 48u8)
    &&& (l[0] != 45u8 ==> l.len() >= 4 ==> l[0] != 48u8)
    &&& (l[0] == 45u8 && l.len() == 4 ==> !(l[1] == 48u8 && l[3] == 48u8))
}

/// Round-trip, literal first: a canonical literal, parsed and re-rendered,
/// reproduces itself byte for byte.
pub proof fn lemma_parse_render_round_trip(l: Seq<u8>)
    requires
        canonical_literal(l),
    ensures
        spec_render_fixed(spec_parse_value(l, 0, l.len() as int)->Some_0.0) == l,
{
    let end = l.len() as int;
    let v = spec_parse_value(l, 0, end)->Some_0.0;
    let neg = l[0] == 45u8;
    let j: int = if neg {
        1
    } else {
        0
    };
    let mag = spec_parse_mag(l, j, end)->Some_0.0;
    assert(v == if neg {
        -mag
    } else {
        mag
    });
    if j + 1 < end && l[j + 1] == 46u8 {
        // d.d
        let a = dv(l[j]);
        let c = dv(l[j + 2]);
        assert(mag == 10 * a + c);
        vstd::arithmetic::div_mod::lemma_fundamental_div_mod_converse(mag, 10, a, c);
        if neg && mag == 0 {
            assert(l[1] == 48u8 && l[3] == 48u8);
            assert(false);
        }
        assert(spec_render_fixed(v) =~= l);
    } else if j + 2 < end && l[j + 2] == 46u8 {
        // dd.d
        let a = dv(l[j]);
        let b = dv(l[j + 1]);
        let c = dv(l[j + 3]);
        assert(mag == 100 * a + 10 * b + c);
        vstd::arithmetic::div_mod::lemma_fundamental_div_mod_converse(mag, 10, 10 * a + b, c);
        let ip = 10 * a + b;
        vstd::arithmetic::div_mod::lemma_fundamental_div_mod_converse(ip, 10, a, b);
        assert(a >= 1) by {
            assert(l[j] != 48u8);
        }
        assert(spec_render_fixed(v) =~= l);
    } else {
        // ddd.d
        let a = dv(l[j]);
        let b = dv(l[j + 1]);
        let c = dv(l[j + 2]);
        let d = dv(l[j + 4]);
        assert(mag == 1000 * a + 100 * b + 10 * c + d);
        vstd::arithmetic::div_mod::lemma_fundamental_div_mod_converse(
            mag,
            10,
            100 * a + 10 * b + c,
            d,
        );
        let ip = 100 * a + 10 * b + c;
        vstd::arithmetic::div_mod::lemma_fundamental_div_mod_converse(ip, 100, a, 10 * b + c);
        vstd::arithmetic::div_mod::lemma_fundamental_div_mod_converse(ip, 10, 10 * a + b, c);
        let q = ip / 10;
        vstd::arithmetic::div_mod::lemma_fundamental_div_mod_converse(q, 10, a, b);
        assert(a >= 1) by {
            assert(l[j] != 48u8);
        }
        assert(spec_render_fixed(v) =~= l);
    }
}

/// Rounding of the exact quotient `t / n` to the nearest integer, halves
/// away from zero.
pub open spec fn round_half_away(t: int, n: int) -> int {
    if t >= 0 {
        (2 * t + n) / (2 * n)
    } else {
        -((2 * -t + n) / (2 * n))
    }
}

/// The scaled average of a total over a count, rounded half away from zero.
pub fn avg_scaled(total: i128, num: u64) -> (r: i64)
    requires
        num >= 1,
        (VAL_MIN as int) * (num as int) <= total as int <= (VAL_MAX as int) * (num as int),
    ensures
        r as int == round_half_away(total as int, num as int),
        VAL_MIN <= r <= VAL_MAX,
{
    let n: i128 = num as i128;
    let ghost t: int = total as int;
    let ghost nn: int = num as int;
    proof {
        assert(t <= 9999 * nn && -t <= 9999 * nn && 9999 * nn <= 9999 * 0xffff_ffff_ffff_ffff)
            by (nonlinear_arith)
            requires
                (VAL_MIN as int) * nn <= t <= (VAL_MAX as int) * nn,
                1 <= nn <= 0xffff_ffff_ffff_ffff,
                VAL_MIN as int == -9999,
                VAL_MAX as int == 9999;
    }
    let mag: i128 = if total >= 0 {
        total
    } else {
        -total
    };
    let q: i128 = (2 * mag + n) / (2 * n);
    proof {
        vstd::arithmetic::div_mod::lemma_fundamental_div_mod(
            2 * (mag as int) + nn,
            2 * nn,
        );
        let qq = (2 * (mag as int) + nn) / (2 * nn);
        let rr = (2 * (mag as int) + nn) % (2 * nn);
        assert(0 <= qq <= 9999) by (nonlinear_arith)
            requires
                2 * (mag as int) + nn == 2 * nn * qq + rr,
                0 <= rr < 2 * nn,
                0 <= mag as int <= 9999 * nn,
                nn >= 1;
    }
    if total >= 0 {
        q as i64
    } else {
        -(q as i64)
    }
}

} // verus!
