//! Arithmetic facts about aligned power-of-two blocks.
use vstd::prelude::*;
use vstd::arithmetic::div_mod::{lemma_div_multiples_vanish, lemma_fundamental_div_mod};

use crate::allocator::{buddy, units, MAXIMUM_ORDER};

verus! {

pub proof fn lemma_units_add(a: nat, b: nat)
    ensures
        units(a + b) == units(a) * units(b),
    decreases a,
{
    if a > 0 {
        lemma_units_add((a - 1) as nat, b);
        let x = units((a - 1) as nat) as int;
        let y = units(b) as int;
        assert(units(a + b) == 2 * units((a - 1 + b) as nat));
        assert(units((a - 1 + b) as nat) == x * y);
        assert(units(a) == 2 * x);
        assert(units(a) * units(b) == 2 * (x * y)) by (nonlinear_arith)
            requires
                units(a) == 2 * x,
                units(b) == y,
        ;
    } else {
        assert(units(a) == 1);
        assert(a + b == b);
    }
}

/// `x` is a multiple of `d`: `x == d * (x / d)`.
pub proof fn lemma_multiple(x: int, d: int)
    requires
        d > 0,
        x % d == 0,
    ensures
        x == d * (x / d),
{
    lemma_fundamental_div_mod(x, d);
}

/// A multiple of `d` below another multiple `e` of `d` is at least `d` below it.
pub proof fn lemma_aligned_step(x: int, d: int, e: int)
    requires
        d > 0,
        x % d == 0,
        e % d == 0,
        0 <= x < e,
    ensures
        x + d <= e,
{
    lemma_multiple(x, d);
    lemma_multiple(e, d);
    let a = x / d;
    let c = e / d;
    assert(x + d <= e) by (nonlinear_arith)
        requires
            x == d * a,
            e == d * c,
            x < e,
            d > 0,
    ;
}

/// Two multiples of `d` less than `d` apart are equal.
pub proof fn lemma_aligned_eq(a: int, b: int, d: int)
    requires
        d > 0,
        a % d == 0,
        b % d == 0,
        a <= b < a + d,
    ensures
        a == b,
{
    lemma_multiple(a, d);
    lemma_multiple(b, d);
    let p = a / d;
    let q = b / d;
    assert(p == q) by (nonlinear_arith)
        requires
            a == d * p,
            b == d * q,
            a <= b < a + d,
            d > 0,
    ;
}

/// A block of order `k + 1` or more is also aligned to order `k`.
pub proof fn lemma_aligned_down(x: int, k: nat, k2: nat)
    requires
        k <= k2,
        x % (units(k2) as int) == 0,
    ensures
        x % (units(k) as int) == 0,
{
    lemma_units_add(k, (k2 - k) as nat);
    lemma_units_positive(k);
    lemma_units_positive((k2 - k) as nat);
    let u = units(k) as int;
    let v = units((k2 - k) as nat) as int;
    assert(u * v > 0) by (nonlinear_arith)
        requires
            u >= 1,
            v >= 1,
    ;
    lemma_multiple(x, u * v);
    let t = x / (u * v);
    assert(x == u * (v * t)) by (nonlinear_arith)
        requires
            x == (u * v) * t,
    ;
    vstd::arithmetic::div_mod::lemma_mod_multiples_basic(v * t, u);
    assert(u * (v * t) == (v * t) * u) by (nonlinear_arith);
}

pub proof fn lemma_units_positive(k: nat)
    ensures
        units(k) >= 1,
    decreases k,
{
    if k > 0 {
        lemma_units_positive((k - 1) as nat);
    }
}

/// Every block size up to the maximum divides the maximum block.
pub proof fn lemma_units_divide_max(k: nat)
    requires
        k <= MAXIMUM_ORDER,
    ensures
        1024int % (units(k) as int) == 0,
{
    lemma_units_add(k, (MAXIMUM_ORDER - k) as nat);
    reveal_with_fuel(units, 11);
    lemma_units_positive(k);
    lemma_units_positive((MAXIMUM_ORDER - k) as nat);
    let u = units(k) as int;
    let v = units((MAXIMUM_ORDER - k) as nat) as int;
    assert(1024 == v * u) by (nonlinear_arith)
        requires
            1024 == u * v,
    ;
    vstd::arithmetic::div_mod::lemma_mod_multiples_basic(v, u);
}

/// Facts about a block `b` of order `k < MAXIMUM_ORDER` inside the first `e`
/// subranges, `e` a multiple of the maximum block: its buddy `c` lies inside
/// too, the buddy of `c` is `b`, and the lower of the two starts the block of
/// order `k + 1` that they make up.
#[verifier::rlimit(30)]
pub proof fn lemma_buddy(b: int, k: nat, e: int)
    requires
        k < MAXIMUM_ORDER,
        0 <= b,
        b % (units(k) as int) == 0,
        b + units(k) <= e,
        e % 1024 == 0,
    ensures
        ({
            let u = units(k) as int;
            let c = buddy(b, k);
            let lo = if b < c {
                b
            } else {
                c
            };
            &&& 0 <= c
            &&& c != b
            &&& c % u == 0
            &&& c + u <= e
            &&& buddy(c, k) == b
            &&& lo % (units(k + 1) as int) == 0
            &&& lo + units(k + 1) <= e
            &&& (lo == b || lo == c)
            &&& (if b < c {
                c == b + u
            } else {
                b == c + u
            })
        }),
{
    let u = units(k) as int;
    lemma_units_positive(k);
    lemma_multiple(b, u);
    let q = b / u;
    let c = buddy(b, k);
    let w = units(k + 1) as int;
    assert(w == 2 * u);
    lemma_units_divide_max(k + 1);
    assert(e % w == 0) by {
        lemma_multiple(e, 1024);
        lemma_multiple(1024, w);
        let m = e / 1024;
        let r = 1024int / w;
        assert(e == w * (r * m)) by (nonlinear_arith)
            requires
                e == 1024 * m,
                1024 == w * r,
        ;
        vstd::arithmetic::div_mod::lemma_mod_multiples_basic(r * m, w);
        assert(w * (r * m) == (r * m) * w) by (nonlinear_arith);
    }
    if q % 2 == 0 {
        assert(c == b + u);
        let h = q / 2;
        assert(b == w * h) by (nonlinear_arith)
            requires
                b == u * q,
                q == 2 * h,
                w == 2 * u,
        ;
        assert(c == u * (q + 1)) by (nonlinear_arith)
            requires
                b == u * q,
                c == b + u,
        ;
        lemma_div_multiples_vanish(q + 1, u);
        vstd::arithmetic::div_mod::lemma_mod_multiples_basic(q + 1, u);
        assert(c % u == 0) by (nonlinear_arith)
            requires
                c == u * (q + 1),
                ((q + 1) * u) % u == 0,
        ;
        vstd::arithmetic::div_mod::lemma_mod_multiples_basic(h, w);
        assert(b % w == 0) by (nonlinear_arith)
            requires
                b == w * h,
                (h * w) % w == 0,
        ;
        lemma_aligned_step(b, w, e);
    } else {
        assert(c == b - u);
        let h = (q - 1) / 2;
        assert(q >= 1);
        assert(c == w * h) by (nonlinear_arith)
            requires
                b == u * q,
                q - 1 == 2 * h,
                w == 2 * u,
                c == b - u,
        ;
        assert(c == u * (q - 1)) by (nonlinear_arith)
            requires
                b == u * q,
                c == b - u,
        ;
        lemma_div_multiples_vanish(q - 1, u);
        vstd::arithmetic::div_mod::lemma_mod_multiples_basic(q - 1, u);
        assert(c % u == 0) by (nonlinear_arith)
            requires
                c == u * (q - 1),
                ((q - 1) * u) % u == 0,
        ;
        vstd::arithmetic::div_mod::lemma_mod_multiples_basic(h, w);
        assert(c % w == 0) by (nonlinear_arith)
            requires
                c == w * h,
                (h * w) % w == 0,
        ;
        assert(c >= 0) by (nonlinear_arith)
            requires
                c == w * h,
                h >= 0,
                w > 0,
        ;
    }
}

} // verus!
