//! How far a rounded result lies from the exact one.
use crate::double::Double;
use crate::rounding::STEP;
use vstd::prelude::*;

verus! {

/// Whether two numbers differ by no more than a third.
pub open spec fn close(a: int, b: int, e: int) -> bool {
    -e <= a - b <= e
}

/// A count of units that is not negative is rounded by no more than what the
/// last place of the result is worth.
pub proof fn lemma_rounded_near(v: int)
    requires
        v >= 0,
        crate::order::rounded(v).finite(),
    ensures
        close(
            crate::order::rounded(v).value(),
            v,
            crate::bounds::last_place(crate::order::rounded(v)) as int,
        ),
{
    let s = crate::order::rounded(v);
    let m = s.magnitude();
    crate::order::lemma_rounded_mono(0, v);
    crate::order::lemma_zero(s);
    crate::rounding::lemma_units_step(m);
    let next = Double::of(false, m + 1);
    crate::order::lemma_of(false, m + 1);
    crate::rounding::lemma_units_mono(m, m + 1);
    if v > next.value() {
        crate::order::lemma_rounded_exact(next);
        crate::order::lemma_rounded_mono(next.value(), v);
        assert(false);
    }
    if m > 0 {
        let last = (m - 1) as nat;
        let before = Double::of(false, last);
        crate::order::lemma_of(false, last);
        crate::rounding::lemma_units_step(last);
        crate::rounding::lemma_units_mono(last, m);
        crate::bounds::lemma_exponent_mono(last, m);
        if v < before.value() {
            crate::order::lemma_rounded_exact(before);
            crate::order::lemma_rounded_mono(v, before.value());
            assert(false);
        }
    }
}

/// A sum is rounded by no more than one step of a scale that it fits.
pub proof fn lemma_sum_close(a: Double, b: Double, k: nat)
    requires
        a.finite(),
        b.finite(),
        k <= 2044,
        crate::double::size(a.value() + b.value()) <= (2 * STEP) * crate::rounding::two_to(k),
    ensures
        a.sum(b).finite(),
        close(a.sum(b).value(), a.value() + b.value(), crate::rounding::two_to(k) as int),
{
    let v = a.value() + b.value();
    let n = crate::double::size(v);
    let g = crate::rounding::two_to(k);
    crate::order::lemma_sum(a, b);
    assert(g * 1 == g);
    crate::bounds::lemma_near(n, 1, k);
    let m = crate::rounding::nearest(n, 1);
    crate::order::lemma_of(v < 0, m);
    crate::rounding::lemma_units_mono(m, crate::rounding::INF as nat);
    assert(crate::rounding::units(m) * 1 == crate::rounding::units(m));
    crate::bounds::lemma_sign(a.sum(b));
}

/// A difference is rounded by no more than one step of a scale that it fits.
pub proof fn lemma_difference_close(a: Double, b: Double, k: nat)
    requires
        a.finite(),
        b.finite(),
        k <= 2044,
        crate::double::size(a.value() - b.value()) <= (2 * STEP) * crate::rounding::two_to(k),
    ensures
        a.difference(b).finite(),
        close(a.difference(b).value(), a.value() - b.value(), crate::rounding::two_to(k) as int),
{
    crate::order::lemma_negation(b);
    lemma_sum_close(a, b.negation(), k);
}

/// The product of the signs is the sign of the product.
proof fn lemma_signed(a: Double, b: Double)
    requires
        !a.nan(),
        !b.nan(),
    ensures
        ({
            let n = crate::double::size(a.value()) * crate::double::size(b.value());
            a.value() * b.value() == if a.negative() != b.negative() {
                -(n as int)
            } else {
                n as int
            }
        }),
{
    let (x, y) = (a.value(), b.value());
    let (m, n) = (crate::double::size(x), crate::double::size(y));
    crate::order::lemma_zero(a);
    crate::order::lemma_zero(b);
    assert((-m) * n == -(m * n) && m * (-n) == -(m * n) && (-m) * (-n) == m * n)
        by (nonlinear_arith);
}

/// A product is rounded by no more than one step of a scale that it fits.
pub proof fn lemma_product_close(a: Double, b: Double, k: nat)
    requires
        a.finite(),
        b.finite(),
        k <= 2044,
        crate::double::size(a.value()) * crate::double::size(b.value()) <= (2 * STEP) * (
        crate::rounding::two_to(k) * crate::double::one()),
    ensures
        a.product(b).finite(),
        a.product(b).negative() == (a.negative() != b.negative()),
        close(
            a.product(b).value() * crate::double::one(),
            a.value() * b.value(),
            (crate::rounding::two_to(k) * crate::double::one()) as int,
        ),
{
    let w = crate::double::one();
    let n = crate::double::size(a.value()) * crate::double::size(b.value());
    crate::rounding::lemma_two_to_pos(1074);
    crate::bounds::lemma_near(n, w, k);
    let m = crate::rounding::nearest(n, w);
    let s = a.negative() != b.negative();
    crate::order::lemma_of(s, m);
    lemma_signed(a, b);
    let u = crate::rounding::units(m);
    assert((-u) * w == -(u * w)) by (nonlinear_arith);
}

/// A quotient is rounded by no more than one step of a scale that it fits.
pub proof fn lemma_quotient_close(a: Double, b: Double, k: nat)
    requires
        a.finite(),
        b.finite(),
        b.value() != 0,
        k <= 2044,
        crate::double::size(a.value()) * crate::double::one() <= (2 * STEP) * (
        crate::rounding::two_to(k) * crate::double::size(b.value())),
    ensures
        a.quotient(b).finite(),
        a.quotient(b).negative() == (a.negative() != b.negative()),
        close(
            a.quotient(b).value() * b.value(),
            a.value() * crate::double::one(),
            (crate::rounding::two_to(k) * crate::double::size(b.value())) as int,
        ),
{
    let w = crate::double::one();
    let (x, y) = (crate::double::size(a.value()), crate::double::size(b.value()));
    crate::order::lemma_zero(b);
    crate::bounds::lemma_near(x * w, y, k);
    let m = crate::rounding::nearest(x * w, y);
    let s = a.negative() != b.negative();
    crate::order::lemma_of(s, m);
    crate::order::lemma_zero(a);
    let q = a.quotient(b);
    let u = crate::rounding::units(m);
    crate::order::lemma_zero(q);
    lemma_signed(q, b);
    assert(a.value() * w == if a.negative() {
        -(x * w)
    } else {
        (x * w) as int
    }) by {
        assert((-x) * w == -(x * w)) by (nonlinear_arith);
    }
    assert(u * y == y * u) by (nonlinear_arith);
}

/// What the bit pattern of a positive double is worth.
pub proof fn lemma_bits(bits: u64, k: nat, n: nat)
    requires
        bits == k * STEP + n,
        STEP <= n < 2 * STEP,
        k <= 2044,
    ensures
        (Double { bits }).finite(),
        !(Double { bits }).negative(),
        (Double { bits }).value() == n * crate::rounding::two_to(k),
{
    crate::rounding::lemma_parts_unique(k, n);
    assert(k * STEP + n < crate::rounding::INF) by (nonlinear_arith)
        requires
            n < 2 * STEP,
            k <= 2044,
            STEP == 0x10_0000_0000_0000,
            crate::rounding::INF == 0x7ff0_0000_0000_0000,
    ;
}

} // verus!
