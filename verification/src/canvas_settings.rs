//! The Canvas Size panel's read-only aspect ratio: the canvas's width and
//! height (rounded to whole units by the application) reduced by their
//! greatest common divisor, shown as "16:9".

use vstd::prelude::*;
use vstd::string::StringExecFns;

use crate::text::{decimal, push_decimal};

verus! {

/// `d` times `k`.
pub open spec fn times(d: int, k: int) -> int {
    d * k
}

/// `d` divides `x`.
pub open spec fn divides(d: int, x: int) -> bool {
    exists|k: int| x == #[trigger] times(d, k)
}

/// Euclid's algorithm, with 1 for two zeros (so it can always divide).
pub open spec fn gcd_of(a: nat, b: nat) -> nat
    decreases b,
{
    if b == 0 {
        if a == 0 { 1 } else { a }
    } else {
        gcd_of(b, a % b)
    }
}

/// The greatest common divisor of `a` and `b` (1 when both are zero).
pub fn gcd(a: u64, b: u64) -> (g: u64)
    ensures
        g == gcd_of(a as nat, b as nat),
    decreases b,
{
    if b == 0 {
        if a == 0 { 1 } else { a }
    } else {
        gcd(b, a % b)
    }
}

/// `gcd_of(a, b)` is positive and divides both `a` and `b`.
pub proof fn lemma_gcd_divides(a: nat, b: nat)
    ensures
        gcd_of(a, b) > 0,
        divides(gcd_of(a, b) as int, a as int),
        divides(gcd_of(a, b) as int, b as int),
    decreases b,
{
    let g = gcd_of(a, b) as int;
    if b == 0 {
        if a == 0 {
            assert(a as int == times(g, 0));
        } else {
            assert(a as int == times(g, 1));
        }
        assert(b as int == times(g, 0));
    } else {
        let r = a % b;
        lemma_gcd_divides(b, r);
        let k1 = choose|k: int| b as int == times(g, k);
        let k2 = choose|k: int| r as int == times(g, k);
        let q = (a / b) as int;
        vstd::arithmetic::div_mod::lemma_fundamental_div_mod(a as int, b as int);
        assert(a as int == g * (k1 * q + k2)) by (nonlinear_arith)
            requires
                a as int == (b as int) * q + (r as int),
                b as int == g * k1,
                r as int == g * k2,
        ;
        assert(a as int == times(g, k1 * q + k2));
    }
}

/// Every positive common divisor of `a` and `b`, not both zero, divides
/// `gcd_of(a, b)`.
pub proof fn lemma_gcd_greatest(a: nat, b: nat, d: int)
    requires
        d > 0,
        a > 0 || b > 0,
        divides(d, a as int),
        divides(d, b as int),
    ensures
        divides(d, gcd_of(a, b) as int),
    decreases b,
{
    if b > 0 {
        let r = a % b;
        let x = choose|k: int| a as int == times(d, k);
        let y = choose|k: int| b as int == times(d, k);
        let q = (a / b) as int;
        vstd::arithmetic::div_mod::lemma_fundamental_div_mod(a as int, b as int);
        assert(r as int == d * (x - y * q)) by (nonlinear_arith)
            requires
                a as int == (b as int) * q + (r as int),
                a as int == d * x,
                b as int == d * y,
        ;
        assert(r as int == times(d, x - y * q));
        lemma_gcd_greatest(b, r, d);
    }
}

/// Dividing two numbers, not both zero, by their greatest common divisor
/// leaves numbers with no common divisor but 1: the ratio shown is fully
/// reduced.
pub proof fn lemma_ratio_reduced(w: nat, h: nat)
    requires
        w > 0 || h > 0,
    ensures
        gcd_of(w / gcd_of(w, h), h / gcd_of(w, h)) == 1,
{
    let g = gcd_of(w, h) as int;
    lemma_gcd_divides(w, h);
    let kw = choose|k: int| w as int == times(g, k);
    let kh = choose|k: int| h as int == times(g, k);
    vstd::arithmetic::div_mod::lemma_div_multiples_vanish(kw, g);
    vstd::arithmetic::div_mod::lemma_div_multiples_vanish(kh, g);
    assert(w / (g as nat) == kw);
    assert(h / (g as nat) == kh);
    let rw = kw as nat;
    let rh = kh as nat;
    lemma_gcd_divides(rw, rh);
    let g2 = gcd_of(rw, rh) as int;
    let m1 = choose|k: int| rw as int == times(g2, k);
    let m2 = choose|k: int| rh as int == times(g2, k);
    assert(w as int == (g * g2) * m1) by (nonlinear_arith)
        requires
            w as int == g * kw,
            kw == g2 * m1,
    ;
    assert(h as int == (g * g2) * m2) by (nonlinear_arith)
        requires
            h as int == g * kh,
            kh == g2 * m2,
    ;
    assert(g * g2 > 0) by (nonlinear_arith)
        requires
            g > 0,
            g2 > 0,
    ;
    assert(w as int == times(g * g2, m1));
    assert(h as int == times(g * g2, m2));
    lemma_gcd_greatest(w, h, g * g2);
    let gg = g * g2;
    let n = choose|k: int| g == #[trigger] times(gg, k);
    assert(g2 == 1) by (nonlinear_arith)
        requires
            g > 0,
            g2 > 0,
            g == (g * g2) * n,
    ;
}

/// `width:height` reduced by their greatest common divisor.
pub open spec fn ratio_text(width: nat, height: nat) -> Seq<char> {
    let g = gcd_of(width, height);
    decimal(width / g) + ":"@ + decimal(height / g)
}

/// The aspect ratio of a `width` by `height` canvas, e.g. "16:9".
pub fn format_aspect_ratio(width: u64, height: u64) -> (ratio: String)
    ensures
        ratio@ == ratio_text(width as nat, height as nat),
{
    let g = gcd(width, height);
    proof {
        lemma_gcd_divides(width as nat, height as nat);
    }
    let mut ratio = String::new();
    push_decimal(&mut ratio, width / g);
    ratio.append(":");
    push_decimal(&mut ratio, height / g);
    proof {
        reveal_strlit(":");
    }
    assert(ratio@ =~= ratio_text(width as nat, height as nat));
    ratio
}

} // verus!
