//! Opaque RGB colours and their linear blend.
use vstd::prelude::*;
use vstd::arithmetic::div_mod::{lemma_div_is_ordered, lemma_fundamental_div_mod_converse};

verus! {

/// A fully opaque colour with three 8-bit channels.
#[derive(Clone, Copy, Debug, PartialEq, Eq, Structural)]
pub struct Color {
    pub r: u8,
    pub g: u8,
    pub b: u8,
}

/// Blend of one channel: `a + (b - a) * num / den`, rounded to the nearest
/// integer (halves round up), for `num <= den`.
pub open spec fn blend(a: u8, b: u8, num: nat, den: nat) -> int
    recommends
        0 < den,
        num <= den,
{
    ((a as int) * (den - num) + (b as int) * num + den / 2) / (den as int)
}

/// The blend fraction `num / den` clamped to at most one.
pub open spec fn clamp_num(num: nat, den: nat) -> nat {
    if num <= den {
        num
    } else {
        den
    }
}

/// The colour at fraction `num / den` of the way from `a` to `b`, per channel.
pub open spec fn mix(a: Color, b: Color, num: nat, den: nat) -> Color {
    let n = clamp_num(num, den);
    Color {
        r: blend(a.r, b.r, n, den) as u8,
        g: blend(a.g, b.g, n, den) as u8,
        b: blend(a.b, b.b, n, den) as u8,
    }
}

proof fn lemma_blend_bounds(a: u8, b: u8, num: nat, den: nat)
    requires
        0 < den,
        num <= den,
    ensures
        0 <= blend(a, b, num, den) <= 255,
{
    let x = (a as int) * (den - num) + (b as int) * num + den / 2;
    assert(0 <= x < 256 * den) by (nonlinear_arith)
        requires
            x == (a as int) * (den - num) + (b as int) * num + den / 2,
            0 <= a <= 255,
            0 <= b <= 255,
            num <= den,
            0 < den,
    ;
    lemma_div_is_ordered(x, 256 * den - 1, den as int);
    lemma_div_is_ordered(0, x, den as int);
    lemma_fundamental_div_mod_converse(256 * den - 1, den as int, 255, den - 1);
}

proof fn lemma_blend_ends(a: u8, b: u8, den: nat)
    requires
        0 < den,
    ensures
        blend(a, b, 0, den) == a as int,
        blend(a, b, den, den) == b as int,
{
    assert((a as int) * (den - 0) + (b as int) * 0 == (a as int) * den) by (nonlinear_arith);
    assert((a as int) * (den - den) + (b as int) * den == (b as int) * den) by (nonlinear_arith);
    lemma_fundamental_div_mod_converse((a as int) * den + den / 2, den as int, a as int, (den / 2) as int);
    lemma_fundamental_div_mod_converse((b as int) * den + den / 2, den as int, b as int, (den / 2) as int);
}

proof fn lemma_blend_ordered(a: u8, b: u8, n1: nat, n2: nat, den: nat)
    requires
        0 < den,
        n1 <= n2 <= den,
    ensures
        a <= b ==> blend(a, b, n1, den) <= blend(a, b, n2, den),
        b <= a ==> blend(a, b, n2, den) <= blend(a, b, n1, den),
{
    let x1 = (a as int) * (den - n1) + (b as int) * n1 + den / 2;
    let x2 = (a as int) * (den - n2) + (b as int) * n2 + den / 2;
    assert(x2 - x1 == ((b as int) - (a as int)) * (n2 - n1)) by (nonlinear_arith)
        requires
            x1 == (a as int) * (den - n1) + (b as int) * n1 + den / 2,
            x2 == (a as int) * (den - n2) + (b as int) * n2 + den / 2,
    ;
    if a <= b {
        assert(((b as int) - (a as int)) * (n2 - n1) >= 0) by (nonlinear_arith)
            requires
                a <= b,
                n1 <= n2,
        ;
        lemma_div_is_ordered(x1, x2, den as int);
    }
    if b <= a {
        assert(((b as int) - (a as int)) * (n2 - n1) <= 0) by (nonlinear_arith)
            requires
                b <= a,
                n1 <= n2,
        ;
        lemma_div_is_ordered(x2, x1, den as int);
    }
}

fn blend_channel(a: u8, b: u8, num: u64, den: u64) -> (r: u8)
    requires
        0 < den,
        num <= den,
    ensures
        r as int == blend(a, b, num as nat, den as nat),
{
    proof {
        lemma_blend_bounds(a, b, num as nat, den as nat);
    }
    let a1 = a as u128;
    let b1 = b as u128;
    let n1 = num as u128;
    let d1 = den as u128;
    assert(a1 * (d1 - n1) <= 255 * d1) by (nonlinear_arith)
        requires
            a1 <= 255,
            n1 <= d1,
    ;
    assert(255 * d1 <= 255 * u64::MAX) by (nonlinear_arith)
        requires
            d1 <= u64::MAX,
    ;
    assert(b1 * n1 <= 255 * d1) by (nonlinear_arith)
        requires
            b1 <= 255,
            n1 <= d1,
    ;
    let x: u128 = a1 * (d1 - n1) + b1 * n1 + d1 / 2;
    (x / d1) as u8
}

/// Linear blend from `a` (fraction 0) to `b` (fraction 1) at fraction
/// `num / den`; fractions above one count as one.
pub fn interpolate(a: Color, b: Color, num: u64, den: u64) -> (c: Color)
    requires
        0 < den,
    ensures
        c == mix(a, b, num as nat, den as nat),
{
    let n = if num <= den {
        num
    } else {
        den
    };
    Color {
        r: blend_channel(a.r, b.r, n, den),
        g: blend_channel(a.g, b.g, n, den),
        b: blend_channel(a.b, b.b, n, den),
    }
}

/// Fraction zero gives the first colour and fraction one the second, exactly.
pub proof fn lemma_interpolate_ends(a: Color, b: Color, den: nat)
    requires
        0 < den,
    ensures
        mix(a, b, 0, den) == a,
        mix(a, b, den, den) == b,
{
    lemma_blend_ends(a.r, b.r, den);
    lemma_blend_ends(a.g, b.g, den);
    lemma_blend_ends(a.b, b.b, den);
}

/// Each channel of the blend moves monotonically with the fraction, from the
/// first colour's value towards the second's, never leaving the range between
/// them.
pub proof fn lemma_interpolate_monotonic(a: Color, b: Color, n1: nat, n2: nat, den: nat)
    requires
        0 < den,
        n1 <= n2 <= den,
    ensures
        channel_between(a.r, mix(a, b, n1, den).r, mix(a, b, n2, den).r, b.r),
        channel_between(a.g, mix(a, b, n1, den).g, mix(a, b, n2, den).g, b.g),
        channel_between(a.b, mix(a, b, n1, den).b, mix(a, b, n2, den).b, b.b),
{
    lemma_channel_monotonic(a.r, b.r, n1, n2, den);
    lemma_channel_monotonic(a.g, b.g, n1, n2, den);
    lemma_channel_monotonic(a.b, b.b, n1, n2, den);
}

/// `x` then `y` lie, in this order, on the way from `a` to `b`.
pub open spec fn channel_between(a: u8, x: u8, y: u8, b: u8) -> bool {
    (a <= b ==> a <= x <= y <= b) && (b <= a ==> b <= y <= x <= a)
}

proof fn lemma_channel_monotonic(a: u8, b: u8, n1: nat, n2: nat, den: nat)
    requires
        0 < den,
        n1 <= n2 <= den,
    ensures
        channel_between(a, blend(a, b, n1, den) as u8, blend(a, b, n2, den) as u8, b),
{
    lemma_blend_bounds(a, b, n1, den);
    lemma_blend_bounds(a, b, n2, den);
    lemma_blend_ends(a, b, den);
    lemma_blend_ordered(a, b, 0, n1, den);
    lemma_blend_ordered(a, b, n1, n2, den);
    lemma_blend_ordered(a, b, n2, den, den);
}

} // verus!
