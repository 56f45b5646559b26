//! Rounding of whole numbers and fractions to 24 significant bits.
//!
//! Sizes and indices that are scaled by a ratio go through single precision,
//! which keeps 24 significant bits and rounds to the nearest value, ties to the
//! even one.  Here that is done on integers, so that the sizes and indices can
//! be reasoned about.

use vstd::prelude::*;

verus! {

/// The smallest whole number with 25 significant bits.
pub const PRECISION: u128 = 0x100_0000;

/// The distance between neighbouring values with 24 significant bits around
/// `q`, and 1 where they lie closer.
pub open spec fn spacing(q: nat) -> nat
    decreases q,
{
    if q < PRECISION {
        1
    } else {
        2 * spacing(q / 2)
    }
}

/// `num / den` rounded to a multiple of the spacing at that place: to the
/// nearest one, and halfway between two of them to the even multiple.
pub open spec fn nearest(num: nat, den: nat) -> nat {
    let step = spacing(num / den);
    let unit = den * step;
    let q = num / unit;
    let r = num % unit;
    if 2 * r > unit || (2 * r == unit && q % 2 == 1) {
        (q + 1) * step
    } else {
        q * step
    }
}

/// The spacing is at least 1, and no more than a `2^23`rd of the place.
pub proof fn lemma_spacing_bounds(q: nat)
    ensures
        spacing(q) >= 1,
        spacing(q) == 1 || spacing(q) * 0x80_0000 <= q,
    decreases q,
{
    if q >= PRECISION {
        lemma_spacing_bounds(q / 2);
    }
}

/// Rounding moves a value by no more than half a spacing.
pub proof fn lemma_nearest_error(num: nat, den: nat)
    requires
        den > 0,
    ensures
        2 * den * nearest(num, den) <= 2 * num + den * spacing(num / den),
        2 * num <= 2 * den * nearest(num, den) + den * spacing(num / den),
{
    let step = spacing(num / den);
    let unit = den * step;
    lemma_spacing_bounds(num / den);
    assert(unit > 0) by (nonlinear_arith)
        requires
            den > 0,
            step > 0,
            unit == den * step,
    ;
    let q = num / unit;
    let r = num % unit;
    vstd::arithmetic::div_mod::lemma_fundamental_div_mod(num as int, unit as int);
    assert(den * (q * step) == unit * q) by (nonlinear_arith)
        requires
            unit == den * step,
    ;
    assert(den * ((q + 1) * step) == unit * q + unit) by (nonlinear_arith)
        requires
            unit == den * step,
    ;
    let n = nearest(num, den);
    assert(2 * den * n == 2 * (den * n)) by (nonlinear_arith);
}

/// Whole numbers below `2^24` are kept as they are.
pub proof fn lemma_nearest_small(num: nat)
    requires
        num < PRECISION,
    ensures
        nearest(num, 1) == num,
{
    assert(spacing(num / 1) == 1);
    assert(1 * spacing(num / 1) == 1);
    assert(num / 1 == num && num % 1 == 0);
    assert(num * 1 == num);
}

/// A whole number is moved by no more than a `2^24`th of itself.
pub proof fn lemma_nearest_whole(num: nat)
    ensures
        0x100_0000 * nearest(num, 1) <= 0x100_0001 * num,
        0xff_ffff * num <= 0x100_0000 * nearest(num, 1),
{
    if num < PRECISION {
        lemma_nearest_small(num);
    } else {
        let n = nearest(num, 1);
        let step = spacing(num / 1);
        assert(num / 1 == num);
        lemma_nearest_error(num, 1);
        assert(2 * 1 * n == 2 * n && 1 * step == step);
        lemma_spacing_bounds(num);
        assert(step == 2 * spacing(num / 2));
        lemma_spacing_bounds(num / 2);
    }
}

/// A value has no more than 24 bits above the spacing at its place.
proof fn lemma_spacing_reach(q: nat)
    ensures
        q < PRECISION * spacing(q),
    decreases q,
{
    if q >= PRECISION {
        lemma_spacing_reach(q / 2);
    }
}

/// The spacing does not shrink upwards, and where it grows it at least doubles.
proof fn lemma_spacing_grows(a: nat, b: nat)
    requires
        a <= b,
    ensures
        spacing(a) == spacing(b) || 2 * spacing(a) <= spacing(b),
    decreases b,
{
    if a >= PRECISION {
        lemma_spacing_grows(a / 2, b / 2);
    } else if b >= PRECISION {
        lemma_spacing_bounds(b / 2);
    }
}

/// Rounding keeps the order of whole numbers.
pub proof fn lemma_nearest_monotonic(a: nat, b: nat)
    requires
        a <= b,
    ensures
        nearest(a, 1) <= nearest(b, 1),
{
    let s = spacing(a);
    let t = spacing(b);
    assert(a / 1 == a && b / 1 == b && 1 * s == s && 1 * t == t);
    lemma_spacing_bounds(a);
    lemma_spacing_bounds(b);
    lemma_spacing_grows(a, b);
    let qa = a / s;
    let qb = b / t;
    let ra = a % s;
    let rb = b % t;
    vstd::arithmetic::div_mod::lemma_fundamental_div_mod(a as int, s as int);
    vstd::arithmetic::div_mod::lemma_fundamental_div_mod(b as int, t as int);
    let na = if 2 * ra > s || (2 * ra == s && qa % 2 == 1) {
        qa + 1
    } else {
        qa
    };
    let nb = if 2 * rb > t || (2 * rb == t && qb % 2 == 1) {
        qb + 1
    } else {
        qb
    };
    if s == t {
        assert(qa <= qb) by (nonlinear_arith)
            requires
                a == s * qa + ra,
                b == s * qb + rb,
                a <= b,
                0 <= ra < s,
                0 <= rb < s,
        ;
        if qa == qb {
            assert(s * qa == s * qb);
        }
        assert(na <= nb);
        assert(na * s <= nb * s) by (nonlinear_arith)
            requires
                na <= nb,
        ;
    } else {
        lemma_spacing_reach(a);
        assert(na * s <= 0x100_0000 * s) by (nonlinear_arith)
            requires
                a == s * qa + ra,
                a < 0x100_0000 * s,
                0 <= ra < s,
                na <= qa + 1,
        ;
        assert(0x80_0000 * t <= nb * t) by (nonlinear_arith)
            requires
                b == t * qb + rb,
                t * 0x80_0000 <= b,
                0 <= rb < t,
                qb <= nb,
        ;
    }
}

/// `num / den` rounded to 24 significant bits.
pub fn round_nearest(num: u128, den: u128) -> (r: u128)
    requires
        den > 0,
        2 * num <= u128::MAX,
        2 * den <= u128::MAX,
    ensures
        r == nearest(num as nat, den as nat),
{
    let mut place: u128 = num / den;
    let mut step: u128 = 1;
    let ghost whole = place;
    assert(whole * den <= num) by (nonlinear_arith)
        requires
            whole == num / den,
            den > 0,
    ;
    while place >= PRECISION
        invariant
            step >= 1,
            step == 1 || place >= 1,
            step * place <= whole,
            spacing(whole as nat) == step * spacing(place as nat),
        decreases place,
    {
        assert(spacing(place as nat) == 2 * spacing((place / 2) as nat));
        assert(step * spacing(place as nat) == (2 * step) * spacing((place / 2) as nat))
            by (nonlinear_arith)
            requires
                spacing(place as nat) == 2 * spacing((place / 2) as nat),
        ;
        assert(2 * step * (place / 2) <= step * place && 2 * step <= step * place)
            by (nonlinear_arith)
            requires
                place >= 2,
                step >= 1,
        ;
        step = 2 * step;
        place = place / 2;
    }
    assert(step * den <= num || step == 1) by (nonlinear_arith)
        requires
            step * place <= whole,
            whole * den <= num,
            step >= 1,
            den > 0,
            place >= 0,
            step == 1 || place >= 1,
    ;
    assert(step == spacing(num as nat / den as nat)) by {
        assert(spacing(place as nat) == 1);
        assert(step * 1 == step);
    }
    assert(0 < den * step <= num || (step == 1 && den * step == den)) by (nonlinear_arith)
        requires
            step * den <= num || step == 1,
            step >= 1,
            den > 0,
    ;
    let unit = den * step;
    let q = num / unit;
    let r = num % unit;
    assert(q * step <= (q + 1) * step <= 2 * num + 1) by (nonlinear_arith)
        requires
            q == num / unit,
            unit == den * step,
            den > 0,
            step >= 1,
            step * den <= num || step == 1,
    ;
    let up = 2 * r > unit || (2 * r == unit && q % 2 == 1);
    if up {
        (q + 1) * step
    } else {
        q * step
    }
}

} // verus!
