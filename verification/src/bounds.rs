//! Facts about doubles near whole numbers: what is exact, and between which
//! whole numbers a result stays.
use crate::double::Double;
use vstd::prelude::*;

verus! {

/// A number below infinity and above its negative is finite.
pub proof fn lemma_sign(d: Double)
    requires
        !d.nan(),
        -(crate::rounding::units(crate::rounding::INF as nat) as int) < d.value()
            < crate::rounding::units(crate::rounding::INF as nat),
    ensures
        d.finite(),
{
}

/// Whole numbers of either sign are exact.
pub proof fn lemma_rounded_int(n: int)
    requires
        -0x20_0000_0000_0000 <= n <= 0x20_0000_0000_0000,
    ensures
        crate::order::rounded(n * crate::double::one()).value() == n * crate::double::one(),
        -(crate::rounding::units(crate::rounding::INF as nat) as int) < n * crate::double::one()
            < crate::rounding::units(crate::rounding::INF as nat),
{
    let w = crate::double::one() as int;
    let d = Double::whole(crate::double::size(n));
    crate::order::lemma_whole(crate::double::size(n));
    crate::order::lemma_negation(d);
    crate::order::lemma_value_bound(d);
    assert(n < 0 ==> -((-n) * w) == n * w) by (nonlinear_arith);
    crate::order::lemma_rounded_exact(
        if n < 0 {
            d.negation()
        } else {
            d
        },
    );
}

/// A sum between whole numbers stays there when it is rounded.
pub proof fn lemma_plus(a: Double, b: Double, low: int, high: int)
    requires
        a.finite(),
        b.finite(),
        -0x20_0000_0000_0000 <= low <= high <= 0x20_0000_0000_0000,
        low * crate::double::one() <= a.value() + b.value() <= high * crate::double::one(),
    ensures
        a.sum(b).finite(),
        low * crate::double::one() <= a.sum(b).value() <= high * crate::double::one(),
{
    let w = crate::double::one() as int;
    crate::order::lemma_sum(a, b);
    crate::order::lemma_rounded_mono(low * w, a.value() + b.value());
    crate::order::lemma_rounded_mono(a.value() + b.value(), high * w);
    lemma_rounded_int(low);
    lemma_rounded_int(high);
}

/// A difference between whole numbers stays there when it is rounded.
pub proof fn lemma_minus(a: Double, b: Double, low: int, high: int)
    requires
        a.finite(),
        b.finite(),
        -0x20_0000_0000_0000 <= low <= high <= 0x20_0000_0000_0000,
        low * crate::double::one() <= a.value() - b.value() <= high * crate::double::one(),
    ensures
        a.difference(b).finite(),
        low * crate::double::one() <= a.difference(b).value() <= high * crate::double::one(),
{
    crate::order::lemma_negation(b);
    lemma_plus(a, b.negation(), low, high);
}

/// Raising to a whole number does not lower it, and never goes below zero.
pub proof fn lemma_raised(d: Double)
    requires
        !d.nan(),
    ensures
        d.at_most(d.raised()),
        d.raised().value() >= 0,
{
    let w = crate::double::one() as int;
    crate::rounding::lemma_two_to_pos(1074);
    crate::order::lemma_whole(0x20_0000_0000_0000);
    assert(0x20_0000_0000_0000 * w >= 0);
    if d.at_most(Double::whole(0x20_0000_0000_0000)) {
        let v = d.value();
        let q = (v + w - 1) / w;
        if v > 0 {
            assert(q * w >= v && 0 <= q <= 0x20_0000_0000_0000) by (nonlinear_arith)
                requires
                    q == (v + w - 1) / w,
                    0 < v <= 0x20_0000_0000_0000 * w,
                    w > 0,
            ;
            crate::order::lemma_whole(q as nat);
        } else {
            crate::order::lemma_whole(0);
            assert(0 * w == 0);
        }
    }
}

/// The whole part of a number from eight up to 2^33.
pub proof fn lemma_whole_part(d: Double) -> (s: nat)
    requires
        !d.nan(),
        8 * crate::double::one() <= d.value() <= 0x2_0000_0000 * crate::double::one(),
    ensures
        8 <= s <= 0x2_0000_0000,
        s * crate::double::one() <= d.value() < (s + 1) * crate::double::one(),
{
    let w = crate::double::one() as int;
    crate::rounding::lemma_two_to_pos(1074);
    let v = d.value();
    let s = v / w;
    assert(8 <= s <= 0x2_0000_0000 && s * w <= v < (s + 1) * w) by (nonlinear_arith)
        requires
            s == v / w,
            8 * w <= v <= 0x2_0000_0000 * w,
            w > 0,
    ;
    s as nat
}

/// Twice the softness, between whole numbers.
pub proof fn lemma_twice(soft: Double, s: nat)
    requires
        soft.finite(),
        !soft.negative(),
        s <= 0x2_0000_0000,
        s * crate::double::one() <= soft.value() < (s + 1) * crate::double::one(),
    ensures
        ({
            let d = soft.product(Double::whole(2));
            &&& d.finite()
            &&& !d.negative()
            &&& 2 * s * crate::double::one() <= d.value() <= 2 * (s + 1) * crate::double::one()
        }),
{
    let w = crate::double::one();
    let two = Double::whole(2);
    let low = Double::whole(s);
    let high = Double::whole(2 * (s + 1));
    crate::rounding::lemma_two_to_pos(1074);
    crate::order::lemma_whole(2);
    crate::order::lemma_whole(s);
    crate::order::lemma_whole(2 * s);
    crate::order::lemma_whole(2 * (s + 1));
    let x = crate::double::size(soft.value());
    assert(x * (2 * w) <= (2 * (s + 1) * w) * w) by (nonlinear_arith)
        requires
            x < (s + 1) * w,
    ;
    assert(2 * (s + 1) * w >= 0) by (nonlinear_arith);
    assert(2 * s * w >= 0) by (nonlinear_arith);
    crate::order::lemma_product_bound(soft, two, high.magnitude());
    crate::order::lemma_product_mono(low, soft, two);
    // Twice a whole number is exact.
    assert((s * w) * (2 * w) == (2 * s * w) * w) by (nonlinear_arith);
    crate::rounding::lemma_nearest_exact(Double::whole(2 * s).magnitude(), w);
    assert(low.product(two).value() == 2 * s * w) by {
        crate::order::lemma_of(false, Double::whole(2 * s).magnitude());
    }
    assert(soft.product(two).finite());
}

/// One times a number is that number, and nothing times it is nothing.
pub proof fn lemma_share(span: Double)
    requires
        span.finite(),
        !span.negative(),
    ensures
        Double::whole(1).product(span).value() == span.value(),
        Double::whole(1).product(span).finite(),
        Double::whole(0).product(span).value() == 0,
        Double::whole(0).product(span).finite(),
{
    let w = crate::double::one();
    crate::rounding::lemma_two_to_pos(1074);
    crate::order::lemma_whole(0);
    crate::order::lemma_whole(1);
    let x = crate::double::size(span.value());
    assert(w * x == crate::rounding::units(span.magnitude()) * w) by (nonlinear_arith)
        requires
            x == crate::rounding::units(span.magnitude()),
    ;
    crate::rounding::lemma_nearest_exact(span.magnitude(), w);
    crate::order::lemma_of(false, span.magnitude());
    crate::order::lemma_zero(span);
    assert(0 * x == 0 && 0 * w == 0);
    assert(crate::rounding::units(0) * w == 0);
    crate::rounding::lemma_nearest_exact(0, w);
    crate::order::lemma_of(false, 0);
}

/// Below 2^53 the last place of a number is worth at most one.
pub proof fn lemma_scale_below(d: Double, k: nat)
    requires
        k == crate::rounding::exponent(d.magnitude()),
        0 <= d.value() < 0x20_0000_0000_0000 * crate::double::one(),
    ensures
        k <= 1074,
{
    let w = crate::double::one();
    let n = crate::rounding::significand(d.magnitude());
    let u = crate::rounding::two_to(k);
    let step = crate::rounding::STEP as nat;
    crate::rounding::lemma_parts(d.magnitude());
    if k > 1074 {
        crate::rounding::lemma_two_to_mono(1075, k);
        assert(n * u >= step * (2 * w)) by (nonlinear_arith)
            requires
                n >= step,
                u >= 2 * w,
        ;
        assert(crate::rounding::units(d.magnitude()) == 0) by {
            if !d.negative() {
                assert(false);
            }
        }
        crate::rounding::lemma_two_to_pos(1074);
        assert(step * (2 * w) > 0) by (nonlinear_arith)
            requires
                step == 0x10_0000_0000_0000,
                w > 0,
        ;
    }
}

/// A number from one up to 2^53, less one, is exact.
pub proof fn lemma_less_one(d: Double) -> (k: nat)
    requires
        d.finite(),
        crate::double::one() <= d.value() < 0x20_0000_0000_0000 * crate::double::one(),
    ensures
        k == crate::rounding::exponent(d.magnitude()),
        k <= 1074,
        d.difference(Double::whole(1)).finite(),
        d.difference(Double::whole(1)).value() == d.value() - crate::double::one(),
{
    let w = crate::double::one();
    let m = d.magnitude();
    let k = crate::rounding::exponent(m);
    let n = crate::rounding::significand(m);
    let u = crate::rounding::two_to(k);
    crate::rounding::lemma_parts(m);
    crate::rounding::lemma_two_to_pos(k);
    crate::rounding::lemma_two_to_pos(1074);
    crate::order::lemma_whole(1);
    crate::order::lemma_negation(Double::whole(1));
    crate::order::lemma_sum(d, Double::whole(1).negation());
    crate::order::lemma_zero(d);
    lemma_scale_below(d, k);
    let t = crate::rounding::two_to((1074 - k) as nat);
    crate::rounding::lemma_two_to_add((1074 - k) as nat, k);
    assert(n >= t) by (nonlinear_arith)
        requires
            n * u >= t * u,
            u > 0,
    ;
    assert((n - t) * u == n * u - t * u) by (nonlinear_arith);
    crate::order::lemma_multiple((n - t) as nat, k);
    lemma_rounded_int(0x20_0000_0000_0000);
    lemma_sign(d.difference(Double::whole(1)));
    k
}

/// A number less one and a greater whole number are at least the last place
/// apart.
pub proof fn lemma_apart(d: Double, k: nat, q: nat)
    requires
        d.finite(),
        k == crate::rounding::exponent(d.magnitude()),
        d.value() >= crate::double::one(),
        d.value() < 0x20_0000_0000_0000 * crate::double::one(),
        d.value() - crate::double::one() < q * crate::double::one(),
    ensures
        q * crate::double::one() - (d.value() - crate::double::one()) >= crate::rounding::two_to(k),
{
    let w = crate::double::one();
    let n = crate::rounding::significand(d.magnitude());
    let u = crate::rounding::two_to(k);
    lemma_scale_below(d, k);
    crate::rounding::lemma_two_to_pos(k);
    crate::rounding::lemma_two_to_pos(1074);
    crate::order::lemma_zero(d);
    crate::rounding::lemma_parts(d.magnitude());
    let t = crate::rounding::two_to((1074 - k) as nat);
    crate::rounding::lemma_two_to_add((1074 - k) as nat, k);
    let a = (q + 1) * t - n;
    assert(q * w - (n * u - w) == a * u) by (nonlinear_arith)
        requires
            w == t * u,
            a == (q + 1) * t - n,
    ;
    assert(a >= 1) by (nonlinear_arith)
        requires
            a * u > 0,
            u > 0,
    ;
    assert(a * u >= u) by (nonlinear_arith)
        requires
            a >= 1,
            u > 0,
    ;
}

/// A number more than three times what a magnitude is worth has a coarser last
/// place than that, by a factor of two at least.
pub proof fn lemma_coarser(d: Double, k: nat, m: nat)
    requires
        d.finite(),
        k == crate::rounding::exponent(d.magnitude()),
        d.value() - crate::double::one() > 3 * crate::rounding::units(m),
        crate::rounding::units(m + 1) >= crate::double::one(),
    ensures
        crate::rounding::two_to(k) >= 2 * crate::rounding::two_to(crate::rounding::exponent(m)),
{
    let w = crate::double::one();
    let e = crate::rounding::exponent(m);
    let g = crate::rounding::two_to(e);
    let n = crate::rounding::significand(m);
    let u = crate::rounding::two_to(k);
    let s = crate::rounding::significand(d.magnitude());
    let step = crate::rounding::STEP as nat;
    crate::rounding::lemma_parts(m);
    crate::rounding::lemma_parts(d.magnitude());
    crate::rounding::lemma_two_to_pos(e);
    crate::rounding::lemma_two_to_pos(k);
    crate::rounding::lemma_two_to_pos(1074);
    crate::rounding::lemma_units_step(m);
    if e == 0 {
        crate::rounding::lemma_two_to_values();
        crate::rounding::lemma_two_to_mono(64, 1074);
        assert(n * g == n) by (nonlinear_arith)
            requires
                g == 1,
        ;
        assert(false);
    }
    if k <= e {
        crate::rounding::lemma_two_to_mono(k, e);
        assert(s * u <= (2 * step) * g) by (nonlinear_arith)
            requires
                s < 2 * step,
                u <= g,
        ;
        assert(n * g >= step * g) by (nonlinear_arith)
            requires
                n >= step,
        ;
        assert(3 * (step * g) >= (2 * step) * g) by (nonlinear_arith);
        assert(false);
    }
    crate::rounding::lemma_two_to_mono(e + 1, k);
}

/// A share of a third that is rounded down to a whole number is at least that
/// whole number before it is rounded.
pub proof fn lemma_third(d: Double, k: nat, p: nat)
    requires
        d.finite(),
        k == crate::rounding::exponent(d.magnitude()),
        crate::double::one() <= d.value() < 0x20_0000_0000_0000 * crate::double::one(),
        p >= 1,
        p <= 0x20_0000_0000_0000,
        crate::rounding::nearest(
            ((d.value() - crate::double::one()) * crate::double::one()) as nat,
            3 * crate::double::one(),
        ) >= Double::whole(p).magnitude(),
    ensures
        d.value() - crate::double::one() >= 3 * p * crate::double::one(),
{
    let w = crate::double::one();
    let v = d.value() - w;
    crate::rounding::lemma_two_to_pos(1074);
    crate::rounding::lemma_two_to_pos(k);
    crate::order::lemma_whole(p);
    if v < 3 * p * w {
        let big = Double::whole(p).magnitude();
        assert(p * w > 0) by (nonlinear_arith)
            requires
                p >= 1,
                w > 0,
        ;
        crate::order::lemma_zero(Double::whole(p));
        let m = (big - 1) as nat;
        let e = crate::rounding::exponent(m);
        let g = crate::rounding::two_to(e);
        crate::rounding::lemma_units_step(m);
        crate::rounding::lemma_parts(m);
        crate::rounding::lemma_two_to_pos(e);
        let below = crate::rounding::units(m);
        assert(below + g == p * w);
        assert(p * w >= w && 3 * p * w == 3 * (p * w)) by (nonlinear_arith)
            requires
                p >= 1,
                w > 0,
        ;
        // More than a third of the way: the quotient is above the magnitude
        // before the whole number.
        if v <= 3 * below {
            assert(v * w <= below * (3 * w)) by (nonlinear_arith)
                requires
                    v <= 3 * below,
            ;
            crate::rounding::lemma_nearest_mono((v * w) as nat, below * (3 * w), 3 * w);
            crate::rounding::lemma_nearest_exact(m, 3 * w);
            assert(false);
        }
        // So the last place of the number is worth at least two of the
        // quotient's.
        lemma_coarser(d, k, m);
        let u = crate::rounding::two_to(k);
        lemma_apart(d, k, 3 * p);
        assert(2 * u > 3 * g);
        assert(2 * (v * w) < (below + p * w) * (3 * w)) by (nonlinear_arith)
            requires
                3 * (p * w) - v >= u,
                2 * u > 3 * g,
                below + g == p * w,
                w > 0,
        ;
        crate::rounding::lemma_nearest_half((v * w) as nat, 3 * w, m);
    }
}

/// What the last place of a double is worth.
pub open spec fn last_place(d: Double) -> nat {
    crate::rounding::two_to(crate::rounding::exponent(d.magnitude()))
}

/// A quotient that fits the significand at some scale is rounded by no more
/// than one step of that scale.
pub proof fn lemma_near(num: nat, den: nat, k: nat)
    requires
        den > 0,
        k <= 2044,
        num <= (2 * crate::rounding::STEP) * (crate::rounding::two_to(k) * den),
    ensures
        crate::rounding::nearest(num, den) < crate::rounding::INF,
        crate::rounding::units(crate::rounding::nearest(num, den)) * den <= num
            + crate::rounding::two_to(k) * den,
        num <= crate::rounding::units(crate::rounding::nearest(num, den)) * den
            + crate::rounding::two_to(k) * den,
{
    let g = crate::rounding::two_to(k);
    let step = crate::rounding::STEP as nat;
    let d = g * den;
    crate::rounding::lemma_two_to_pos(k);
    assert(d > 0) by (nonlinear_arith)
        requires
            d == g * den,
            g > 0,
            den > 0,
    ;
    let m = crate::rounding::nearest(num, den);
    let n = num / d;
    vstd::arithmetic::div_mod::lemma_fundamental_div_mod(num as int, d as int);
    vstd::arithmetic::div_mod::lemma_mod_bound(num as int, d as int);
    assert(n <= 2 * step) by (nonlinear_arith)
        requires
            num <= (2 * step) * d,
            d * n <= num,
            d > 0,
    ;
    let a = crate::order::lemma_multiple(n, k);
    let low = crate::rounding::units(a);
    assert(low * den == d * n) by (nonlinear_arith)
        requires
            low == n * g,
            d == g * den,
    ;
    crate::rounding::lemma_nearest_mono(low * den, num, den);
    crate::rounding::lemma_nearest_exact(a, den);
    crate::rounding::lemma_units_mono(a, m);
    let u = crate::rounding::units(m);
    assert(u * den >= low * den) by (nonlinear_arith)
        requires
            u >= low,
    ;
    if num == d * n {
    } else {
        assert(n < 2 * step) by (nonlinear_arith)
            requires
                num <= (2 * step) * d,
                d * n < num,
                d > 0,
        ;
        let b = crate::order::lemma_multiple(n + 1, k);
        let high = crate::rounding::units(b);
        assert(high * den == d * n + d) by (nonlinear_arith)
            requires
                high == (n + 1) * g,
                d == g * den,
        ;
        crate::rounding::lemma_nearest_mono(num, high * den, den);
        crate::rounding::lemma_nearest_exact(b, den);
        crate::rounding::lemma_units_mono(m, b);
        assert(u * den <= high * den) by (nonlinear_arith)
            requires
                u <= high,
        ;
    }
}

/// A quotient in the normal range is rounded by no more than one part in 2^52.
pub proof fn lemma_near_relative(num: nat, den: nat)
    requires
        den > 0,
        num >= crate::rounding::STEP * den,
        num <= crate::rounding::two_to(1200) * den,
    ensures
        crate::rounding::nearest(num, den) < crate::rounding::INF,
        crate::rounding::STEP * (crate::rounding::units(crate::rounding::nearest(num, den)) * den
            - num) <= num,
        crate::rounding::STEP * (num - crate::rounding::units(crate::rounding::nearest(num, den))
            * den) <= num,
{
    let step = crate::rounding::STEP as nat;
    let c = crate::rounding::scale_of(num, den);
    let g = crate::rounding::two_to(c);
    crate::rounding::lemma_scale(num, den);
    crate::rounding::lemma_two_to_pos(c);
    assert(den * g == g * den) by (nonlinear_arith);
    if c > 1200 {
        crate::rounding::lemma_two_to_mono(1201, c);
        let t = crate::rounding::two_to(1200);
        crate::rounding::lemma_two_to_pos(1200);
        assert((den * g) * step > t * den) by (nonlinear_arith)
            requires
                g >= 2 * t,
                t > 0,
                den > 0,
                step >= 1,
        ;
        assert(false);
    }
    if c == 0 {
        assert((g * den) * step == step * den) by (nonlinear_arith)
            requires
                g == 1,
        ;
    }
    assert((2 * step) * (g * den) == (den * g) * (2 * step)) by (nonlinear_arith);
    lemma_near(num, den, c);
    let u = crate::rounding::units(crate::rounding::nearest(num, den));
    let d = g * den;
    assert(step * (u * den - num) <= num && step * (num - u * den) <= num) by (nonlinear_arith)
        requires
            u * den - num <= d,
            num - u * den <= d,
            d * step <= num,
            step > 0,
    ;
}

/// A sum is rounded by no more than what its last place is worth.
pub proof fn lemma_sum_near(a: Double, b: Double)
    requires
        a.finite(),
        b.finite(),
        a.value() >= 0,
        b.value() >= 0,
        a.sum(b).finite(),
    ensures
        a.sum(b).value() - last_place(a.sum(b)) <= a.value() + b.value() <= a.sum(b).value()
            + last_place(a.sum(b)),
{
    let v = a.value() + b.value();
    let s = a.sum(b);
    let m = s.magnitude();
    crate::order::lemma_sum(a, b);
    crate::order::lemma_rounded_mono(0, v);
    crate::order::lemma_zero(s);
    crate::rounding::lemma_units_step(m);
    let next = Double::of(false, m + 1);
    crate::order::lemma_of(false, m + 1);
    crate::rounding::lemma_units_mono(m, m + 1);
    if v > next.value() {
        crate::order::lemma_rounded_exact(next);
        crate::order::lemma_rounded_mono(next.value(), v);
        assert(false);
    }
    if m > 0 {
        let last = (m - 1) as nat;
        let before = Double::of(false, last);
        crate::order::lemma_of(false, last);
        crate::rounding::lemma_units_step(last);
        crate::rounding::lemma_units_mono(last, m);
        lemma_exponent_mono(last, m);
        if v < before.value() {
            crate::order::lemma_rounded_exact(before);
            crate::order::lemma_rounded_mono(v, before.value());
            assert(false);
        }
    }
}

/// Less than half of its last place leaves a number as it is.
pub proof fn lemma_absorbed(a: Double, b: Double)
    requires
        a.finite(),
        b.finite(),
        a.value() > 0,
        b.value() >= 0,
        crate::rounding::exponent(a.magnitude()) > 0,
        2 * b.value() < last_place(a),
    ensures
        a.sum(b).finite(),
        a.sum(b).value() == a.value(),
{
    let m = a.magnitude();
    let k = crate::rounding::exponent(m);
    let n = crate::rounding::significand(m);
    let g = crate::rounding::two_to(k);
    let step = crate::rounding::STEP as nat;
    let v = (a.value() + b.value()) as nat;
    let r = b.value() as nat;
    crate::rounding::lemma_parts(m);
    crate::rounding::lemma_two_to_pos(k);
    assert(g * 1 == g && 1 * g == g);
    assert(v < g * (2 * step) && v >= g * step && v == g * n + r) by (nonlinear_arith)
        requires
            v == n * g + r,
            step <= n < 2 * step,
            2 * r < g,
    ;
    crate::rounding::lemma_scale_unique(v, 1, k);
    assert(v / g == n && v % g == r) by {
        assert(v == n * g + r) by (nonlinear_arith)
            requires
                v == g * n + r,
        ;
        vstd::arithmetic::div_mod::lemma_fundamental_div_mod_converse(
            v as int,
            g as int,
            n as int,
            r as int,
        );
    }
    assert(crate::rounding::nearest(v, 1) == m);
    crate::order::lemma_of(false, m);
}

/// A number of at least 2^1016 has a coarse last place.
pub proof fn lemma_coarse(d: Double)
    requires
        d.finite(),
        d.value() >= crate::rounding::two_to(2090),
    ensures
        crate::rounding::exponent(d.magnitude()) >= 2038,
        last_place(d) >= crate::rounding::two_to(2038),
{
    let m = d.magnitude();
    let k = crate::rounding::exponent(m);
    let n = crate::rounding::significand(m);
    let step = crate::rounding::STEP as nat;
    crate::rounding::lemma_parts(m);
    crate::rounding::lemma_two_to_values();
    crate::rounding::lemma_two_to_add(53, k);
    crate::rounding::lemma_two_to_pos(k);
    assert(n * crate::rounding::two_to(k) < (2 * step) * crate::rounding::two_to(k))
        by (nonlinear_arith)
        requires
            n < 2 * step,
            crate::rounding::two_to(k) > 0,
    ;
    if k < 2038 {
        crate::rounding::lemma_two_to_mono(53 + k, 2090);
        assert(false);
    }
    crate::rounding::lemma_two_to_mono(2038, k);
}

/// A larger number has no finer last place.
pub proof fn lemma_exponent_mono(a: nat, b: nat)
    requires
        a <= b,
    ensures
        crate::rounding::exponent(a) <= crate::rounding::exponent(b),
        crate::rounding::two_to(crate::rounding::exponent(a)) <= crate::rounding::two_to(
            crate::rounding::exponent(b),
        ),
{
    let step = crate::rounding::STEP as nat;
    let (j, k) = (crate::rounding::exponent(a), crate::rounding::exponent(b));
    let (n, m) = (crate::rounding::significand(a), crate::rounding::significand(b));
    crate::rounding::lemma_parts(a);
    crate::rounding::lemma_parts(b);
    assert(j <= k) by (nonlinear_arith)
        requires
            a == j * step + n,
            b == k * step + m,
            j > 0 ==> n >= step,
            m < 2 * step,
            a <= b,
            step > 0,
    ;
    crate::rounding::lemma_two_to_mono(j, k);
}

/// Raising to a whole number keeps the order of what is not negative.
pub proof fn lemma_raised_mono(a: Double, b: Double)
    requires
        a.at_most(b),
        0 <= a.value(),
    ensures
        a.raised().at_most(b.raised()),
{
    let w = crate::double::one() as int;
    let limit: nat = 0x20_0000_0000_0000;
    crate::rounding::lemma_two_to_pos(1074);
    crate::order::lemma_whole(limit);
    crate::order::lemma_whole(0);
    lemma_raised(a);
    lemma_raised(b);
    if a.at_most(Double::whole(limit)) {
        let p = a.ceil_word();
        lemma_ceil(a, limit);
        crate::order::lemma_whole(p as nat);
        if b.at_most(Double::whole(limit)) {
            let q = b.ceil_word();
            lemma_ceil(b, limit);
            crate::order::lemma_whole(q as nat);
            assert(p <= q) by (nonlinear_arith)
                requires
                    a.value() <= b.value(),
                    (p - 1) * w < a.value() || p == 0,
                    b.value() <= q * w,
                    q >= 0,
                    w > 0,
            ;
            assert(p * w <= q * w) by (nonlinear_arith)
                requires
                    p <= q,
                    w > 0,
            ;
        } else {
            assert(p * w <= limit * w) by (nonlinear_arith)
                requires
                    p <= limit,
                    w > 0,
            ;
        }
    }
}

/// The smallest whole number not below one that is not negative.
pub(crate) proof fn lemma_ceil(d: Double, limit: nat)
    requires
        !d.nan(),
        0 <= d.value() <= limit * crate::double::one(),
        limit <= 0x20_0000_0000_0000,
    ensures
        0 <= d.ceil_word() <= limit,
        d.value() <= d.ceil_word() * crate::double::one(),
        (d.ceil_word() - 1) * crate::double::one() < d.value() || d.ceil_word() == 0,
{
    let w = crate::double::one() as int;
    crate::rounding::lemma_two_to_pos(1074);
    let v = d.value();
    let q = (v + w - 1) / w;
    assert(0 <= q <= limit && v <= q * w && (q - 1) * w < v) by (nonlinear_arith)
        requires
            q == (v + w - 1) / w,
            0 <= v <= limit * w,
            w > 0,
    ;
    assert(0 * w == 0);
}

/// Lowering to a whole number keeps the order of what is not negative.
pub proof fn lemma_lowered_mono(a: Double, b: Double)
    requires
        a.at_most(b),
        0 <= a.value(),
    ensures
        a.lowered().at_most(b.lowered()),
        0 <= a.lowered().value(),
{
    let w = crate::double::one() as int;
    let limit: nat = 0x20_0000_0000_0000;
    crate::rounding::lemma_two_to_pos(1074);
    crate::order::lemma_whole(limit);
    if a.at_most(Double::whole(limit)) {
        let p = a.floor_word();
        lemma_floor(a, limit);
        crate::order::lemma_whole(p as nat);
        assert(0 <= p * w) by (nonlinear_arith)
            requires
                p >= 0,
                w > 0,
        ;
        if b.at_most(Double::whole(limit)) {
            let q = b.floor_word();
            lemma_floor(b, limit);
            crate::order::lemma_whole(q as nat);
            assert(p <= q) by (nonlinear_arith)
                requires
                    p * w <= a.value() <= b.value(),
                    b.value() < (q + 1) * w,
                    w > 0,
            ;
            assert(p * w <= q * w) by (nonlinear_arith)
                requires
                    p <= q,
                    w > 0,
            ;
        }
    }
}

/// The largest whole number not above one that is not negative.
pub(crate) proof fn lemma_floor(d: Double, limit: nat)
    requires
        !d.nan(),
        0 <= d.value() <= limit * crate::double::one(),
        limit <= 0x20_0000_0000_0000,
    ensures
        0 <= d.floor_word() <= limit,
        d.floor_word() * crate::double::one() <= d.value() < (d.floor_word() + 1)
            * crate::double::one(),
{
    let w = crate::double::one() as int;
    crate::rounding::lemma_two_to_pos(1074);
    let v = d.value();
    let q = v / w;
    assert(0 <= q <= limit && q * w <= v < (q + 1) * w) by (nonlinear_arith)
        requires
            q == v / w,
            0 <= v <= limit * w,
            w > 0,
    ;
    assert(0 * w == 0);
}

/// Rounding does not cross a multiple of a scale that fits the significand.
pub proof fn lemma_beyond(v: int, n: nat, k: nat)
    requires
        n <= 2 * crate::rounding::STEP,
        k <= 2044,
    ensures
        n * crate::rounding::two_to(k) < crate::rounding::units(crate::rounding::INF as nat),
        v >= n * crate::rounding::two_to(k) ==> crate::order::rounded(v).value() >= n
            * crate::rounding::two_to(k),
        v <= n * crate::rounding::two_to(k) ==> crate::order::rounded(v).value() <= n
            * crate::rounding::two_to(k),
{
    let g = crate::rounding::two_to(k);
    let m = crate::order::lemma_multiple(n, k);
    crate::rounding::lemma_units_mono(m, crate::rounding::INF as nat);
    if v >= n * g {
        crate::order::lemma_rounded_mono((n * g) as int, v);
    }
    if v <= n * g {
        crate::order::lemma_rounded_mono(v, (n * g) as int);
    }
}

/// The difference of a number and a smaller one, neither negative, is finite
/// where the number is, and is the exact one rounded.
pub proof fn lemma_taken(a: Double, b: Double)
    requires
        a.finite(),
        b.finite(),
        0 <= b.value() <= a.value(),
    ensures
        a.difference(b).finite(),
        a.difference(b).value() == crate::order::rounded(a.value() - b.value()).value(),
        0 <= a.difference(b).value() <= a.value(),
{
    crate::order::lemma_negation(b);
    crate::order::lemma_sum(a, b.negation());
    crate::order::lemma_rounded_exact(a);
    crate::order::lemma_rounded_mono(0, a.value() - b.value());
    crate::order::lemma_rounded_mono(a.value() - b.value(), a.value());
    crate::order::lemma_nearest_zero();
    crate::order::lemma_value_bound(a);
    lemma_sign(a.difference(b));
}

/// A number divided by a whole one, in the normal range.
pub proof fn lemma_part(d: Double, by: Double, n: nat) -> (q: nat)
    requires
        d.finite(),
        !d.negative(),
        d.value() >= 0x2000_0000_0000_0000_0000_0000_0000,
        d.value() <= crate::rounding::two_to(1200),
        1 <= n <= 131072,
        by == Double::whole(n),
        by.finite(),
        !by.negative(),
        by.value() == n * crate::double::one(),
        by.magnitude() > 0,
    ensures
        d.quotient(by).finite(),
        !d.quotient(by).negative(),
        d.quotient(by).value() == q,
        crate::rounding::STEP * (q * n - d.value()) <= d.value(),
        crate::rounding::STEP * (d.value() - q * n) <= d.value(),
{
    let w = crate::double::one();
    let v = d.value() as nat;
    let s = crate::rounding::STEP as int;
    crate::rounding::lemma_two_to_pos(1074);
    let num = v * w;
    let den = n * w;
    assert(den > 0 && num >= s * den && num <= crate::rounding::two_to(1200) * den)
        by (nonlinear_arith)
        requires
            num == v * w,
            den == n * w,
            w > 0,
            1 <= n <= 131072,
            0x2000_0000_0000_0000_0000_0000_0000 <= v <= crate::rounding::two_to(1200),
            s == 0x10_0000_0000_0000,
    ;
    crate::bounds::lemma_near_relative(num, den);
    let m = crate::rounding::nearest(num, den);
    let q = crate::rounding::units(m);
    crate::order::lemma_of(false, m);
    assert(s * (q * n - v) <= v && s * (v - q * n) <= v) by (nonlinear_arith)
        requires
            s * (q * den - num) <= num,
            s * (num - q * den) <= num,
            num == v * w,
            den == n * w,
            w > 0,
    ;
    q
}

} // verus!
