//! Screen-region mapping: parse a region string of the form
//! `"(x0,x1,y0,y1)"` holding four decimal fractions, validate that every
//! fraction lies in [0, 1] with `x0 <= x1` and `y0 <= y1`, and map the
//! fractions to an absolute pixel rectangle.
//!
//! Fractions are read in fixed point with nine decimal places; longer
//! fractional parts are rejected as malformed.  Both the start and the end
//! coordinate round half up — one consistent rounding rule for both ends.
//! Digit runs are accumulated with saturation well above the valid range,
//! so an oversized integer part is always rejected as out of range.

use vstd::prelude::*;
use vstd::arithmetic::div_mod::lemma_fundamental_div_mod;
use vstd::arithmetic::div_mod::lemma_mod_division_less_than_divisor;
use vstd::arithmetic::div_mod::lemma_multiply_divide_lt;
use vstd::arithmetic::div_mod::lemma_div_is_ordered;
use vstd::string::StringSliceAdditionalSpecFns;
use crate::error::PipelineError;

verus! {

/// One fixed-point unit is a billionth, so the fraction 1 reads as
/// `1_000_000_000`.
pub const FRACTION_ONE: u64 = 1_000_000_000;

/// Digit accumulation saturates here; the cap exceeds `FRACTION_ONE`, so a
/// saturated value can never pass validation.
pub const DIGIT_CAP: u64 = 2_000_000_000;

pub open spec fn is_space(c: u8) -> bool {
    c == 32
}

pub open spec fn is_digit(c: u8) -> bool {
    48 <= c <= 57
}

/// Index of the first non-space byte at or after `i`.
pub open spec fn spec_skip_spaces(b: Seq<u8>, i: int) -> int
    decreases b.len() - i,
{
    if 0 <= i < b.len() && is_space(b[i]) {
        spec_skip_spaces(b, i + 1)
    } else {
        i
    }
}

/// Index just past the digit run starting at `i`.
pub open spec fn spec_digits_end(b: Seq<u8>, i: int) -> int
    decreases b.len() - i,
{
    if 0 <= i < b.len() && is_digit(b[i]) {
        spec_digits_end(b, i + 1)
    } else {
        i
    }
}

pub proof fn lemma_digits_end_bounds(b: Seq<u8>, i: int)
    requires
        0 <= i <= b.len(),
    ensures
        i <= spec_digits_end(b, i) <= b.len(),
        spec_digits_end(b, i) < b.len() ==> !is_digit(b[spec_digits_end(b, i)]),
    decreases b.len() - i,
{
    if i < b.len() && is_digit(b[i]) {
        lemma_digits_end_bounds(b, i + 1);
    }
}

/// Decimal value of the digits in `b[i .. end)`, saturated at `DIGIT_CAP`.
pub open spec fn spec_digits_value(b: Seq<u8>, i: int, end: int) -> int
    decreases end - i,
{
    if i >= end {
        0
    } else {
        let prefix = spec_digits_value(b, i, end - 1);
        let d: int = if 0 <= end - 1 < b.len() && is_digit(b[end - 1]) {
            b[end - 1] - 48
        } else {
            0
        };
        let v = prefix * 10 + d;
        if v > DIGIT_CAP {
            DIGIT_CAP as int
        } else {
            v
        }
    }
}

/// Every byte of a digit run is a digit.
pub proof fn lemma_digits_end_digits(b: Seq<u8>, i: int)
    requires
        0 <= i <= b.len(),
    ensures
        forall|j: int| #![trigger b[j]] i <= j < spec_digits_end(b, i) ==> is_digit(b[j]),
    decreases b.len() - i,
{
    if i < b.len() && is_digit(b[i]) {
        lemma_digits_end_digits(b, i + 1);
        lemma_digits_end_bounds(b, i + 1);
    }
}

/// Ten to the `k`-th power.
pub open spec fn spec_pow10(k: int) -> int
    decreases k,
{
    if k <= 0 {
        1
    } else {
        10 * spec_pow10(k - 1)
    }
}

/// Parses one number `digits [ '.' digits ]` at `i`: its fixed-point value
/// in billionths and the index just past it, or nothing if no digits start
/// at `i` or the fractional part is missing or longer than nine digits.
pub open spec fn spec_parse_number(b: Seq<u8>, i: int) -> Option<(int, int)> {
    let int_end = spec_digits_end(b, i);
    if int_end == i {
        Option::None
    } else {
        let int_val = spec_digits_value(b, i, int_end);
        if int_end < b.len() && b[int_end] == 46 {
            let frac_end = spec_digits_end(b, int_end + 1);
            let frac_len = frac_end - (int_end + 1);
            if frac_len < 1 || frac_len > 9 {
                Option::None
            } else {
                let frac_val = spec_digits_value(b, int_end + 1, frac_end);
                Option::Some(
                    (int_val * (FRACTION_ONE as int) + frac_val * spec_pow10(9 - frac_len), frac_end),
                )
            }
        } else {
            Option::Some((int_val * (FRACTION_ONE as int), int_end))
        }
    }
}

/// Parses one field `spaces number spaces`, yielding the value and the
/// index just past the trailing spaces.
pub open spec fn spec_parse_field(b: Seq<u8>, i: int) -> Option<(int, int)> {
    let start = spec_skip_spaces(b, i);
    match spec_parse_number(b, start) {
        Option::None => Option::None,
        Option::Some((v, end)) => Option::Some((v, spec_skip_spaces(b, end))),
    }
}

/// Parses the whole region string
/// `spaces '(' field ',' field ',' field ',' field ')' spaces`,
/// yielding the four fixed-point fractions in the order x0, x1, y0, y1.
pub open spec fn spec_parse_region(b: Seq<u8>) -> Option<(int, int, int, int)> {
    let open_at = spec_skip_spaces(b, 0);
    if !(open_at < b.len() && b[open_at] == 40) {
        Option::None
    } else {
        match spec_parse_field(b, open_at + 1) {
            Option::None => Option::None,
            Option::Some((v0, j0)) => if !(j0 < b.len() && b[j0] == 44) {
                Option::None
            } else {
                match spec_parse_field(b, j0 + 1) {
                    Option::None => Option::None,
                    Option::Some((v1, j1)) => if !(j1 < b.len() && b[j1] == 44) {
                        Option::None
                    } else {
                        match spec_parse_field(b, j1 + 1) {
                            Option::None => Option::None,
                            Option::Some((v2, j2)) => if !(j2 < b.len() && b[j2] == 44) {
                                Option::None
                            } else {
                                match spec_parse_field(b, j2 + 1) {
                                    Option::None => Option::None,
                                    Option::Some((v3, j3)) => if !(j3 < b.len() && b[j3] == 41) {
                                        Option::None
                                    } else {
                                        if spec_skip_spaces(b, j3 + 1) == b.len() {
                                            Option::Some((v0, v1, v2, v3))
                                        } else {
                                            Option::None
                                        }
                                    },
                                }
                            },
                        }
                    },
                }
            },
        }
    }
}

/// The four fractions lie in [0, 1] and each span runs forward.
pub open spec fn spec_region_valid(v: (int, int, int, int)) -> bool {
    &&& 0 <= v.0 <= FRACTION_ONE
    &&& 0 <= v.1 <= FRACTION_ONE
    &&& 0 <= v.2 <= FRACTION_ONE
    &&& 0 <= v.3 <= FRACTION_ONE
    &&& v.0 <= v.1
    &&& v.2 <= v.3
}

/// A fraction of `dim` mapped to a pixel coordinate, rounding half up.
pub open spec fn spec_map_coord(dim: u32, v: int) -> int {
    ((dim as int) * v + 500_000_000) / 1_000_000_000
}

/// The mapped coordinate never leaves the screen, mapping is monotone in
/// the fraction, and a span of mapped coordinates equals the
/// resolution-scaled fractional span to within one pixel of rounding.
pub proof fn lemma_map_coord_span(dim: u32, v0: int, v1: int)
    requires
        0 <= v0 <= v1 <= FRACTION_ONE,
    ensures
        0 <= spec_map_coord(dim, v0) <= spec_map_coord(dim, v1) <= dim,
        (spec_map_coord(dim, v1) - spec_map_coord(dim, v0)) * 1_000_000_000 - (dim as int) * (v1
            - v0) < 1_000_000_000,
        (dim as int) * (v1 - v0) - (spec_map_coord(dim, v1) - spec_map_coord(dim, v0))
            * 1_000_000_000 < 1_000_000_000,
{
    let s: int = 1_000_000_000;
    let d = dim as int;
    let n0 = d * v0 + 500_000_000;
    let n1 = d * v1 + 500_000_000;
    let c0 = spec_map_coord(dim, v0);
    let c1 = spec_map_coord(dim, v1);
    assert(0 <= d * v0 <= d * v1 <= d * s) by (nonlinear_arith)
        requires
            0 <= v0 <= v1 <= s,
            d >= 0,
    ;
    vstd::arithmetic::div_mod::lemma_div_pos_is_pos(n0, s);
    lemma_div_is_ordered(n0, n1, s);
    lemma_multiply_divide_lt(n1, s, d + 1);
    lemma_fundamental_div_mod(n0, s);
    lemma_fundamental_div_mod(n1, s);
    lemma_mod_division_less_than_divisor(n0, s);
    lemma_mod_division_less_than_divisor(n1, s);
    assert((c1 - c0) * s == n1 - n0 - (n1 % s) + (n0 % s)) by (nonlinear_arith)
        requires
            n0 == s * c0 + n0 % s,
            n1 == s * c1 + n1 % s,
    ;
    assert(n1 - n0 == d * (v1 - v0)) by (nonlinear_arith)
        requires
            n0 == d * v0 + 500_000_000,
            n1 == d * v1 + 500_000_000,
    ;
}

fn skip_spaces(b: &[u8], i: usize) -> (j: usize)
    requires
        i <= b.len(),
    ensures
        j == spec_skip_spaces(b@, i as int),
        i <= j <= b.len(),
{
    let mut j: usize = i;
    while j < b.len() && b[j] == 32
        invariant
            i <= j <= b.len(),
            spec_skip_spaces(b@, i as int) == spec_skip_spaces(b@, j as int),
        decreases b.len() - j,
    {
        j = j + 1;
    }
    j
}

fn digits_end(b: &[u8], i: usize) -> (j: usize)
    requires
        i <= b.len(),
    ensures
        j == spec_digits_end(b@, i as int),
        i <= j <= b.len(),
{
    let mut j: usize = i;
    while j < b.len() && 48 <= b[j] && b[j] <= 57
        invariant
            i <= j <= b.len(),
            spec_digits_end(b@, i as int) == spec_digits_end(b@, j as int),
        decreases b.len() - j,
    {
        j = j + 1;
    }
    j
}

fn digits_value(b: &[u8], i: usize, end: usize) -> (v: u64)
    requires
        i <= end <= b.len(),
        forall|j: int| #![trigger b@[j]] i <= j < end ==> is_digit(b@[j]),
    ensures
        v == spec_digits_value(b@, i as int, end as int),
        v <= DIGIT_CAP,
{
    let mut v: u64 = 0;
    let mut j: usize = i;
    while j < end
        invariant
            i <= j <= end,
            v == spec_digits_value(b@, i as int, j as int),
            v <= DIGIT_CAP,
        decreases end - j,
    {
        let d: u64 = (b[j] - 48) as u64;
        v = v * 10 + d;
        if v > DIGIT_CAP {
            v = DIGIT_CAP;
        }
        j = j + 1;
    }
    v
}

fn parse_number(b: &[u8], i: usize) -> (r: Option<(u64, usize)>)
    requires
        i <= b.len(),
    ensures
        r is Some <==> spec_parse_number(b@, i as int) is Some,
        r matches Some(p) ==> spec_parse_number(b@, i as int) == Option::Some(
            (p.0 as int, p.1 as int),
        ) && p.1 <= b.len(),
{
    let int_end = digits_end(b, i);
    if int_end == i {
        return None;
    }
    proof {
        lemma_digits_end_bounds(b@, i as int);
        lemma_digits_end_digits(b@, i as int);
    }
    let int_val = digits_value(b, i, int_end);
    if int_end < b.len() && b[int_end] == 46 {
        let frac_end = digits_end(b, int_end + 1);
        proof {
            lemma_digits_end_bounds(b@, int_end as int + 1);
            lemma_digits_end_digits(b@, int_end as int + 1);
        }
        let frac_len = frac_end - (int_end + 1);
        if frac_len < 1 || frac_len > 9 {
            return None;
        }
        let frac_val = digits_value(b, int_end + 1, frac_end);
        let scale = pow10(9 - (frac_len as u32));
        proof {
            lemma_pow10_bound(9 - frac_len as int);
            assert(frac_val * (spec_pow10(9 - frac_len as int)) <= DIGIT_CAP
                * 1_000_000_000) by (nonlinear_arith)
                requires
                    0 <= frac_val <= DIGIT_CAP,
                    0 <= spec_pow10(9 - frac_len as int) <= 1_000_000_000,
            ;
        }
        Some((int_val * 1_000_000_000 + frac_val * scale, frac_end))
    } else {
        Some((int_val * 1_000_000_000, int_end))
    }
}

proof fn lemma_pow10_bound(k: int)
    requires
        0 <= k <= 9,
    ensures
        1 <= spec_pow10(k) <= 1_000_000_000,
{
    assert(spec_pow10(0) == 1);
    assert(spec_pow10(1) == 10);
    assert(spec_pow10(2) == 100);
    assert(spec_pow10(3) == 1000);
    assert(spec_pow10(4) == 10000);
    assert(spec_pow10(5) == 100000);
    assert(spec_pow10(6) == 1000000);
    assert(spec_pow10(7) == 10000000);
    assert(spec_pow10(8) == 100000000);
    assert(spec_pow10(9) == 1000000000);
}

fn pow10(k: u32) -> (p: u64)
    requires
        k <= 9,
    ensures
        p == spec_pow10(k as int),
{
    proof {
        lemma_pow10_bound(k as int);
    }
    let mut p: u64 = 1;
    let mut j: u32 = 0;
    while j < k
        invariant
            j <= k,
            p == spec_pow10(j as int),
            p <= 1_000_000_000,
        decreases k - j,
    {
        proof {
            lemma_pow10_bound(j as int + 1);
        }
        p = p * 10;
        j = j + 1;
    }
    p
}

fn parse_field(b: &[u8], i: usize) -> (r: Option<(u64, usize)>)
    requires
        i <= b.len(),
    ensures
        r is Some <==> spec_parse_field(b@, i as int) is Some,
        r matches Some(p) ==> spec_parse_field(b@, i as int) == Option::Some(
            (p.0 as int, p.1 as int),
        ) && p.1 <= b.len(),
{
    let start = skip_spaces(b, i);
    match parse_number(b, start) {
        None => None,
        Some((v, end)) => Some((v, skip_spaces(b, end))),
    }
}

/// Parses a region string into its four fixed-point fractions, without
/// validating their ranges.
fn parse_region(b: &[u8]) -> (r: Option<(u64, u64, u64, u64)>)
    ensures
        r is Some <==> spec_parse_region(b@) is Some,
        r matches Some(v) ==> spec_parse_region(b@) == Option::Some(
            (v.0 as int, v.1 as int, v.2 as int, v.3 as int),
        ),
{
    let open_at = skip_spaces(b, 0);
    if !(open_at < b.len() && b[open_at] == 40) {
        return None;
    }
    let Some((v0, j0)) = parse_field(b, open_at + 1) else {
        return None;
    };
    if !(j0 < b.len() && b[j0] == 44) {
        return None;
    }
    let Some((v1, j1)) = parse_field(b, j0 + 1) else {
        return None;
    };
    if !(j1 < b.len() && b[j1] == 44) {
        return None;
    }
    let Some((v2, j2)) = parse_field(b, j1 + 1) else {
        return None;
    };
    if !(j2 < b.len() && b[j2] == 44) {
        return None;
    }
    let Some((v3, j3)) = parse_field(b, j2 + 1) else {
        return None;
    };
    if !(j3 < b.len() && b[j3] == 41) {
        return None;
    }
    if skip_spaces(b, j3 + 1) == b.len() {
        Some((v0, v1, v2, v3))
    } else {
        None
    }
}

/// Maps a fixed-point fraction of `dim` to a pixel coordinate, rounding
/// half up.
fn map_coord(dim: u32, v: u64) -> (c: u64)
    requires
        v <= FRACTION_ONE,
    ensures
        c == spec_map_coord(dim, v as int),
        c <= dim,
{
    proof {
        assert((dim as int) * (v as int) <= 0xFFFF_FFFFu64 * 1_000_000_000) by (nonlinear_arith)
            requires
                0 <= dim <= 0xFFFF_FFFFu64,
                0 <= v <= 1_000_000_000,
        ;
        assert((dim as int) * (v as int) >= 0) by (nonlinear_arith)
            requires
                dim >= 0,
                v >= 0,
        ;
    }
    let num: u64 = (dim as u64) * v + 500_000_000;
    let c: u64 = num / 1_000_000_000;
    proof {
        assert((num as int) < 1_000_000_000 * (dim as int + 1)) by (nonlinear_arith)
            requires
                num == (dim as int) * (v as int) + 500_000_000,
                0 <= v <= 1_000_000_000,
                dim >= 0,
        ;
        lemma_multiply_divide_lt(num as int, 1_000_000_000, dim as int + 1);
    }
    c
}

/// Maps a fractional screen region, given as the text
/// `"(x0,x1,y0,y1)"`, onto a screen of the given resolution, returning the
/// absolute rectangle `(x, y, width, height)`.
///
/// Fails with `RegionValidation` when the text does not parse, a fraction
/// leaves [0, 1], or a span runs backward; fails with `DegenerateCrop`
/// when a mapped span rounds to zero pixels.  On success the rectangle
/// lies inside the screen and both sides are at least one pixel.
pub fn convert_screen_region(resolution: (u32, u32), target_region: &str) -> (r: Result<
    (u32, u32, u32, u32),
    PipelineError,
>)
    ensures
        spec_parse_region(target_region.spec_bytes()) is None ==> r == Err::<
            (u32, u32, u32, u32),
            PipelineError,
        >(PipelineError::RegionValidation),
        spec_parse_region(target_region.spec_bytes()) matches Some(v) ==> {
            let x = spec_map_coord(resolution.0, v.0);
            let xe = spec_map_coord(resolution.0, v.1);
            let y = spec_map_coord(resolution.1, v.2);
            let ye = spec_map_coord(resolution.1, v.3);
            if !spec_region_valid(v) {
                r == Err::<(u32, u32, u32, u32), PipelineError>(PipelineError::RegionValidation)
            } else if xe == x || ye == y {
                r == Err::<(u32, u32, u32, u32), PipelineError>(PipelineError::DegenerateCrop)
            } else {
                r matches Ok(rect) && rect.0 == x && rect.1 == y && rect.2 == xe - x && rect.3 == ye
                    - y && rect.0 + rect.2 <= resolution.0 && rect.1 + rect.3 <= resolution.1
                    && rect.2 >= 1 && rect.3 >= 1
            }
        },
{
    let b: &[u8] = target_region.as_bytes();
    let Some((v0, v1, v2, v3)) = parse_region(b) else {
        return Err(PipelineError::RegionValidation);
    };
    if v0 > FRACTION_ONE || v1 > FRACTION_ONE || v2 > FRACTION_ONE || v3 > FRACTION_ONE || v1 < v0
        || v3 < v2 {
        return Err(PipelineError::RegionValidation);
    }
    let w_screen = resolution.0;
    let h_screen = resolution.1;
    let x = map_coord(w_screen, v0);
    let xe = map_coord(w_screen, v1);
    let y = map_coord(h_screen, v2);
    let ye = map_coord(h_screen, v3);
    proof {
        lemma_map_coord_span(w_screen, v0 as int, v1 as int);
        lemma_map_coord_span(h_screen, v2 as int, v3 as int);
    }
    if xe == x || ye == y {
        return Err(PipelineError::DegenerateCrop);
    }
    Ok((x as u32, y as u32, (xe - x) as u32, (ye - y) as u32))
}

} // verus!
