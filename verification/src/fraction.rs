//! Greatest common divisors and reduced fractions.

use vstd::prelude::*;
use vstd::arithmetic::div_mod::{
    lemma_fundamental_div_mod, lemma_add_mod_noop, lemma_mul_mod_noop_left, lemma_mod_twice, lemma_small_mod,
    lemma_mod_multiples_basic,
};

verus! {

/// `d` divides `n` (zero divides only zero).
pub open spec fn divides(d: nat, n: nat) -> bool {
    if d == 0 { n == 0 } else { n % d == 0 }
}

/// `g` is the greatest common divisor of `a` and `b`: a common divisor that
/// every common divisor divides.
pub open spec fn is_gcd(a: nat, b: nat, g: nat) -> bool {
    &&& divides(g, a)
    &&& divides(g, b)
    &&& forall|d: nat| divides(d, a) && divides(d, b) ==> #[trigger] divides(d, g)
}

/// Euclid's recursion for the greatest common divisor.
pub open spec fn gcd_nat(a: nat, b: nat) -> nat
    decreases b,
{
    if b == 0 { a } else { gcd_nat(b, a % b) }
}

proof fn lemma_mod_keeps_divisors(a: nat, b: nat, d: nat)
    requires
        b > 0,
        d > 0,
        b % d == 0,
    ensures
        a % d == (a % b) % d,
{
    let q = (a / b) as int;
    let r = (a % b) as int;
    lemma_fundamental_div_mod(a as int, b as int);
    lemma_add_mod_noop(b * q, r, d as int);
    lemma_mul_mod_noop_left(b as int, q, d as int);
    assert(0 * q == 0);
    vstd::arithmetic::div_mod::lemma_small_mod(0, d);
    lemma_mod_twice(r, d as int);
}

/// A step of Euclid's recursion keeps the common divisors.
proof fn lemma_euclid_step(a: nat, b: nat, d: nat)
    requires
        b > 0,
    ensures
        (divides(d, a) && divides(d, b)) == (divides(d, b) && divides(d, a % b)),
{
    if d > 0 && b % d == 0 {
        lemma_mod_keeps_divisors(a, b, d);
    }
}

/// Euclid's recursion gives the greatest common divisor.
pub proof fn lemma_gcd_nat_is_gcd(a: nat, b: nat)
    ensures
        is_gcd(a, b, gcd_nat(a, b)),
    decreases b,
{
    if b == 0 {
        assert(divides(a, a)) by {
            if a > 0 {
                vstd::arithmetic::div_mod::lemma_mod_self_0(a as int);
            }
        }
        assert(divides(a, 0)) by {
            if a > 0 {
                vstd::arithmetic::div_mod::lemma_small_mod(0, a);
            }
        }
    } else {
        lemma_gcd_nat_is_gcd(b, a % b);
        let g = gcd_nat(a, b);
        lemma_euclid_step(a, b, g);
        assert forall|d: nat| divides(d, a) && divides(d, b) implies #[trigger] divides(d, g) by {
            lemma_euclid_step(a, b, d);
        }
    }
}

/// Greatest common divisor by Euclid's algorithm; `gcd(0, 0) == 0`.
pub fn gcd(a: u32, b: u32) -> (r: u32)
    ensures
        r == gcd_nat(a as nat, b as nat),
        is_gcd(a as nat, b as nat, r as nat),
{
    let mut x = a;
    let mut y = b;
    while y != 0
        invariant
            gcd_nat(x as nat, y as nat) == gcd_nat(a as nat, b as nat),
        decreases y,
    {
        let t = y;
        y = x % y;
        x = t;
    }
    proof { lemma_gcd_nat_is_gcd(a as nat, b as nat); }
    x
}

/// Rust's `as i32` on a value below 2^32.
pub open spec fn wrap_i32(g: nat) -> int {
    if g < 0x8000_0000 { g as int } else { g - 0x1_0000_0000 }
}

/// Rust's `/` on integers: the quotient rounded toward zero.
pub open spec fn trunc_div(x: int, y: int) -> int {
    let q = (if x < 0 { -x } else { x }) / (if y < 0 { -y } else { y });
    if (x < 0) != (y < 0) { -q } else { q }
}

/// The magnitude of `x`.
pub open spec fn magnitude(x: int) -> nat {
    (if x < 0 { -x } else { x }) as nat
}

/// Divides `n` and `d` by their greatest common divisor `g`, taken as an
/// `i32` (so `g == 2^31`, when both are `i32::MIN` or zero, reads as `i32::MIN`).
pub fn simplify_frac(n: i32, d: i32) -> (r: (i32, i32))
    requires
        n != 0 || d != 0,
    ensures
        r.0 as int == trunc_div(n as int, wrap_i32(gcd_nat(magnitude(n as int), magnitude(d as int)))),
        r.1 as int == trunc_div(d as int, wrap_i32(gcd_nat(magnitude(n as int), magnitude(d as int)))),
{
    let an: u32 = if n < 0 { (-(n as i64)) as u32 } else { n as u32 };
    let ad: u32 = if d < 0 { (-(d as i64)) as u32 } else { d as u32 };
    let g = gcd(an, ad);
    proof {
        assert(divides(g as nat, an as nat));
        if g == 0 {
            assert(an == 0 && ad == 0) by {
                assert(divides(g as nat, an as nat));
                assert(divides(g as nat, ad as nat));
            }
        }
    }
    let qn = an / g;
    let qd = ad / g;
    let rn: i64 = if (n < 0) != (g >= 0x8000_0000u32) { -(qn as i64) } else { qn as i64 };
    let rd: i64 = if (d < 0) != (g >= 0x8000_0000u32) { -(qd as i64) } else { qd as i64 };
    proof {
        // g divides both magnitudes, so it is at most the larger of them, 2^31.
        assert(g <= 0x8000_0000u32) by {
            if an > 0 {
                vstd::arithmetic::div_mod::lemma_mod_decreases(an as nat, g as nat);
                assert(g as nat <= an) by {
                    if g > an {
                        vstd::arithmetic::div_mod::lemma_small_mod(an as nat, g as nat);
                    }
                }
            } else {
                assert(ad > 0);
                assert(g as nat <= ad) by {
                    if g > ad {
                        vstd::arithmetic::div_mod::lemma_small_mod(ad as nat, g as nat);
                    }
                }
            }
        }
        if g == 0x8000_0000u32 {
            assert(qn <= 1 && qd <= 1) by {
                vstd::arithmetic::div_mod::lemma_div_is_ordered(an as int, 0x8000_0000int, g as int);
                vstd::arithmetic::div_mod::lemma_div_is_ordered(ad as int, 0x8000_0000int, g as int);
                vstd::arithmetic::div_mod::lemma_div_by_self(g as int);
            }
        }
    }
    (rn as i32, rd as i32)
}

/// A positive common divisor is at most any positive multiple.
proof fn lemma_divisor_at_most(g: nat, x: nat)
    requires
        g > 0,
        x > 0,
        x % g == 0,
    ensures
        g <= x,
{
    if g > x {
        lemma_small_mod(x, g);
    }
}

/// `k * m` is divisible by `m`.
proof fn lemma_multiple_divides(k: nat, m: nat)
    requires
        m > 0,
    ensures
        (k * m) % m == 0,
{
    lemma_mod_multiples_basic(k as int, m as int);
}

/// Reducing a fraction keeps its value and leaves it in lowest terms: the
/// result `(p, q)` of [`simplify_frac`] has `p * d == q * n` and its parts
/// have no common divisor but 1. (When both parts are 0 or `i32::MIN` the
/// divisor 2^31 does not fit in an `i32` and the result is neither.)
pub proof fn law_simplify_keeps_value_and_reduces(n: i32, d: i32)
    requires
        n != 0 || d != 0,
        !((n == 0 || n == i32::MIN) && (d == 0 || d == i32::MIN)),
    ensures
        ({
            let g = wrap_i32(gcd_nat(magnitude(n as int), magnitude(d as int)));
            let p = trunc_div(n as int, g);
            let q = trunc_div(d as int, g);
            &&& p * d == q * n
            &&& gcd_nat(magnitude(p), magnitude(q)) == 1
        }),
{
    let an = magnitude(n as int);
    let ad = magnitude(d as int);
    let g = gcd_nat(an, ad);
    lemma_gcd_nat_is_gcd(an, ad);
    assert(g > 0) by {
        if g == 0 {
            assert(divides(g, an));
            assert(divides(g, ad));
        }
    }
    // g is at most a nonzero part that is not 2^31, so it is below 2^31.
    if an != 0 && an != 0x8000_0000 {
        lemma_divisor_at_most(g, an);
    } else {
        assert(ad != 0 && ad != 0x8000_0000);
        lemma_divisor_at_most(g, ad);
    }
    assert(wrap_i32(g) == g);
    let a = an / g;
    let b = ad / g;
    lemma_fundamental_div_mod(an as int, g as int);
    lemma_fundamental_div_mod(ad as int, g as int);
    assert(an == g * a);
    assert(ad == g * b);
    let p = trunc_div(n as int, g as int);
    let q = trunc_div(d as int, g as int);
    assert(magnitude(p) == a);
    assert(magnitude(q) == b);
    assert(p * d == q * n) by (nonlinear_arith)
        requires
            an == g * a,
            ad == g * b,
            p == (if n < 0 { -(a as int) } else { a as int }),
            q == (if d < 0 { -(b as int) } else { b as int }),
            n == (if n < 0 { -(an as int) } else { an as int }),
            d == (if d < 0 { -(ad as int) } else { ad as int }),
    ;
    let h = gcd_nat(a, b);
    lemma_gcd_nat_is_gcd(a, b);
    assert(h > 0) by {
        if h == 0 {
            assert(divides(h, a));
            assert(divides(h, b));
            assert(an == 0 && ad == 0) by (nonlinear_arith)
                requires an == g * a, ad == g * b, a == 0, b == 0;
        }
    }
    // h * g divides both parts, so it divides g, hence h == 1.
    let ka = a / h;
    let kb = b / h;
    lemma_fundamental_div_mod(a as int, h as int);
    lemma_fundamental_div_mod(b as int, h as int);
    assert(an == ka * (h * g)) by (nonlinear_arith)
        requires an == g * a, a == h * ka + a % h, a % h == 0;
    assert(ad == kb * (h * g)) by (nonlinear_arith)
        requires ad == g * b, b == h * kb + b % h, b % h == 0;
    assert(h * g > 0) by (nonlinear_arith)
        requires h > 0, g > 0;
    let hg = (h * g) as nat;
    lemma_multiple_divides(ka as nat, hg);
    lemma_multiple_divides(kb as nat, hg);
    assert(divides(hg, an));
    assert(divides(hg, ad));
    assert(divides(hg, g));
    lemma_divisor_at_most(hg, g);
    assert(h <= 1) by (nonlinear_arith)
        requires h * g <= g, g > 0;
}

} // verus!
