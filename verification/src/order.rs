//! The order of the doubles: rounding keeps it, so sums and products do too.
use crate::double::Double;
use crate::rounding::{INF, STEP};
use vstd::prelude::*;

verus! {

/// The sign and magnitude of what they make.
pub proof fn lemma_of(negative: bool, m: nat)
    requires
        m <= INF,
    ensures
        Double::of(negative, m).magnitude() == m,
        Double::of(negative, m).negative() == negative,
        !Double::of(negative, m).nan(),
        Double::of(negative, m).value() == if negative {
            -(crate::rounding::units(m) as int)
        } else {
            crate::rounding::units(m) as int
        },
{
}

/// Zero is worth nothing, and nothing else is.
pub proof fn lemma_zero(d: Double)
    ensures
        d.value() == 0 <==> d.magnitude() == 0,
        crate::rounding::units(0) == 0,
{
    crate::rounding::lemma_parts_unique(0, 0);
    crate::rounding::lemma_units_mono(0, d.magnitude());
    assert(0 * crate::rounding::two_to(0) == 0);
}

/// No number is worth more than infinity, or less than its negative.
pub proof fn lemma_value_bound(d: Double)
    requires
        !d.nan(),
    ensures
        -(crate::rounding::units(INF as nat) as int) <= d.value() <= crate::rounding::units(
            INF as nat,
        ),
        d.finite() ==> -(crate::rounding::units(INF as nat) as int) < d.value()
            < crate::rounding::units(INF as nat),
{
    crate::rounding::lemma_units_mono(d.magnitude(), INF as nat);
}

/// The double nearest to an integer count of units.
pub open spec fn rounded(v: int) -> Double {
    Double::of(v < 0, crate::rounding::nearest(crate::double::size(v), 1))
}

/// Rounding keeps the order.
pub proof fn lemma_rounded_mono(v: int, w: int)
    requires
        v <= w,
    ensures
        rounded(v).value() <= rounded(w).value(),
        !rounded(v).nan(),
        v >= 0 ==> rounded(v).value() >= 0,
        v <= 0 ==> rounded(v).value() <= 0,
{
    let a = crate::double::size(v);
    let b = crate::double::size(w);
    let ma = crate::rounding::nearest(a, 1);
    let mb = crate::rounding::nearest(b, 1);
    lemma_of(v < 0, ma);
    lemma_of(w < 0, mb);
    if v == 0 {
        lemma_nearest_zero();
    }
    if v >= 0 {
        crate::rounding::lemma_nearest_mono(a, b, 1);
        crate::rounding::lemma_units_mono(ma, mb);
    } else if w < 0 {
        crate::rounding::lemma_nearest_mono(b, a, 1);
        crate::rounding::lemma_units_mono(mb, ma);
    }
}

pub proof fn lemma_nearest_zero()
    ensures
        crate::rounding::nearest(0, 1) == 0,
        crate::rounding::units(0) == 0,
{
    crate::rounding::lemma_parts_unique(0, 0);
    assert(0 * crate::rounding::two_to(0) == 0);
    assert(crate::rounding::units(0) * 1 == 0);
    crate::rounding::lemma_nearest_exact(0, 1);
}

/// A double rounds to itself.
pub proof fn lemma_rounded_exact(d: Double)
    requires
        !d.nan(),
    ensures
        rounded(d.value()).value() == d.value(),
{
    let m = d.magnitude();
    lemma_zero(d);
    crate::rounding::lemma_units_mono(0, m);
    assert(crate::rounding::units(m) * 1 == crate::rounding::units(m));
    crate::rounding::lemma_nearest_exact(m, 1);
    lemma_of(d.value() < 0, m);
}

/// The sum of finite doubles is their exact sum, rounded.
pub proof fn lemma_sum(a: Double, b: Double)
    requires
        a.finite(),
        b.finite(),
    ensures
        !a.sum(b).nan(),
        a.sum(b).value() == rounded(a.value() + b.value()).value(),
{
    let v = a.value() + b.value();
    lemma_rounded_mono(v, v);
    if v == 0 {
        lemma_nearest_zero();
        lemma_of(a.negative() && b.negative(), 0);
        lemma_of(false, 0);
    }
}

/// Adding the same to both sides keeps the order.
pub proof fn lemma_sum_mono(a: Double, b: Double, c: Double)
    requires
        a.at_most(b),
        !a.sum(c).nan(),
        !b.sum(c).nan(),
        !c.nan(),
    ensures
        a.sum(c).at_most(b.sum(c)),
{
    lemma_value_bound(a.sum(c));
    lemma_value_bound(b.sum(c));
    lemma_value_bound(a);
    lemma_value_bound(b);
    if c.finite() {
        if a.finite() && b.finite() {
            lemma_sum(a, c);
            lemma_sum(b, c);
            lemma_rounded_mono(a.value() + c.value(), b.value() + c.value());
        } else if a.infinite() && b.finite() {
            assert(a.negative());
        } else if a.finite() && b.infinite() {
            assert(!b.negative());
        }
    }
}

/// The value of a negated double.
pub proof fn lemma_negation(d: Double)
    requires
        !d.nan(),
    ensures
        !d.negation().nan(),
        d.negation().value() == -d.value(),
        d.negation().magnitude() == d.magnitude(),
        d.negation().negative() == !d.negative(),
{
    lemma_of(!d.negative(), d.magnitude());
}

/// Taking the same from both sides keeps the order.
pub proof fn lemma_difference_mono(a: Double, b: Double, c: Double)
    requires
        a.at_most(b),
        !a.difference(c).nan(),
        !b.difference(c).nan(),
        !c.nan(),
    ensures
        a.difference(c).at_most(b.difference(c)),
{
    lemma_negation(c);
    lemma_sum_mono(a, b, c.negation());
}

/// What is not negative only grows by what is not negative.
pub proof fn lemma_sum_grows(t: Double, g: Double)
    requires
        !t.nan(),
        !g.nan(),
        t.value() >= 0,
        g.value() >= 0,
    ensures
        t.at_most(t.sum(g)),
        t.sum(g).value() >= 0,
{
    crate::rounding::lemma_two_to_pos(1074);
    lemma_zero(t);
    lemma_zero(g);
    if t.finite() && g.finite() {
        lemma_sum(t, g);
        lemma_rounded_exact(t);
        lemma_rounded_mono(t.value(), t.value() + g.value());
    } else {
        lemma_value_bound(t);
        crate::rounding::lemma_units_mono(0, INF as nat);
        assert(!(t.infinite() && t.negative())) by {
            if t.infinite() && t.negative() {
                assert(t.value() < 0);
            }
        }
        assert(!(g.infinite() && g.negative())) by {
            if g.infinite() && g.negative() {
                assert(g.value() < 0);
            }
        }
    }
}

/// The product of what is not negative is not negative.
pub proof fn lemma_product_sign(a: Double, b: Double)
    requires
        a.value() >= 0,
        b.value() >= 0,
        !a.product(b).nan(),
    ensures
        a.product(b).value() >= 0,
{
    lemma_zero(a);
    lemma_zero(b);
    let x = crate::double::size(a.value());
    let y = crate::double::size(b.value());
    if !a.infinite() && !b.infinite() {
        let m = crate::rounding::nearest(x * y, crate::double::one());
        lemma_of(a.negative() != b.negative(), m);
        if a.negative() != b.negative() {
            assert(x == 0 || y == 0);
            assert(x * y == 0) by (nonlinear_arith)
                requires
                    x == 0 || y == 0,
            ;
            crate::rounding::lemma_two_to_pos(1074);
            lemma_nearest_zero_over(crate::double::one());
        }
    } else {
        lemma_of(a.negative() != b.negative(), INF as nat);
        crate::rounding::lemma_units_mono(0, INF as nat);
    }
}

/// Nothing over anything is nearest to zero.
pub proof fn lemma_nearest_zero_over(den: nat)
    requires
        den > 0,
    ensures
        crate::rounding::nearest(0, den) == 0,
{
    crate::rounding::lemma_parts_unique(0, 0);
    assert(crate::rounding::units(0) * den == 0) by (nonlinear_arith)
        requires
            crate::rounding::units(0) == 0 * crate::rounding::two_to(0),
    ;
    crate::rounding::lemma_nearest_exact(0, den);
}

/// A product that stays within a magnitude is rounded to within it.
pub proof fn lemma_product_bound(a: Double, b: Double, m: nat)
    requires
        a.finite(),
        b.finite(),
        m <= INF,
        crate::double::size(a.value()) * crate::double::size(b.value()) <= crate::rounding::units(m)
            * crate::double::one(),
    ensures
        !a.product(b).nan(),
        a.product(b).magnitude() <= m,
        crate::double::size(a.product(b).value()) <= crate::rounding::units(m),
        a.product(b).negative() == (a.negative() != b.negative()),
{
    let x = crate::double::size(a.value()) * crate::double::size(b.value());
    let w = crate::double::one();
    crate::rounding::lemma_two_to_pos(1074);
    crate::rounding::lemma_nearest_mono(x, crate::rounding::units(m) * w, w);
    crate::rounding::lemma_nearest_exact(m, w);
    let p = crate::rounding::nearest(x, w);
    lemma_of(a.negative() != b.negative(), p);
    crate::rounding::lemma_units_mono(p, m);
}

/// A quotient that stays within a magnitude is rounded to within it.
pub proof fn lemma_quotient_bound(a: Double, b: Double, m: nat)
    requires
        a.finite(),
        b.finite(),
        b.magnitude() > 0,
        m <= INF,
        crate::double::size(a.value()) * crate::double::one() <= crate::rounding::units(m)
            * crate::double::size(b.value()),
    ensures
        !a.quotient(b).nan(),
        a.quotient(b).magnitude() <= m,
        crate::double::size(a.quotient(b).value()) <= crate::rounding::units(m),
        a.quotient(b).negative() == (a.negative() != b.negative()),
{
    lemma_zero(b);
    let x = crate::double::size(a.value()) * crate::double::one();
    let y = crate::double::size(b.value());
    crate::rounding::lemma_nearest_mono(x, crate::rounding::units(m) * y, y);
    crate::rounding::lemma_nearest_exact(m, y);
    let q = crate::rounding::nearest(x, y);
    lemma_of(a.negative() != b.negative(), q);
    crate::rounding::lemma_units_mono(q, m);
}

/// A quotient of numbers that are not negative is not negative.
pub proof fn lemma_quotient_sign(a: Double, b: Double)
    requires
        a.value() >= 0,
        !b.negative(),
        !a.quotient(b).nan(),
        a.negative() ==> a.magnitude() == 0,
    ensures
        a.quotient(b).value() >= 0,
{
    lemma_zero(a);
    lemma_zero(b);
    crate::rounding::lemma_units_mono(0, INF as nat);
    lemma_of(a.negative() != b.negative(), 0);
    lemma_of(a.negative() != b.negative(), INF as nat);
    if a.finite() && b.finite() && b.magnitude() > 0 {
        let x = crate::double::size(a.value()) * crate::double::one();
        let y = crate::double::size(b.value());
        let q = crate::rounding::nearest(x, y);
        lemma_of(a.negative() != b.negative(), q);
        if a.negative() {
            assert(x == 0) by (nonlinear_arith)
                requires
                    crate::double::size(a.value()) == 0,
                    x == crate::double::size(a.value()) * crate::double::one(),
            ;
            lemma_nearest_zero_over(y);
        }
    }
}

/// How far a number must be doubled to fill a significand.
spec fn fill(n: nat) -> nat
    decreases 2 * STEP - n,
{
    if n == 0 || n >= STEP {
        0
    } else {
        1 + fill(2 * n)
    }
}

proof fn lemma_fill(n: nat)
    requires
        0 < n < 2 * STEP,
    ensures
        STEP <= n * crate::rounding::two_to(fill(n)) < 2 * STEP,
        fill(n) <= 52,
    decreases 2 * STEP - n,
{
    let t = crate::rounding::two_to(fill(n));
    crate::rounding::lemma_two_to_values();
    if n >= STEP {
        assert(n * 1 == n);
    } else {
        lemma_fill(2 * n);
        let u = crate::rounding::two_to(fill(2 * n));
        assert((2 * n) * u == n * (2 * u)) by (nonlinear_arith);
        assert(n * t < 2 * STEP);
        if fill(n) > 52 {
            crate::rounding::lemma_two_to_mono(53, fill(n));
            assert(n * t >= 2 * STEP) by (nonlinear_arith)
                requires
                    n >= 1,
                    t >= 2 * STEP,
            ;
        }
    }
}

/// Whole numbers up to 2^53 are doubles.
pub proof fn lemma_whole(n: nat)
    requires
        n <= 2 * STEP,
    ensures
        Double::whole(n).value() == n * crate::double::one(),
        Double::whole(n).finite(),
        !Double::whole(n).negative(),
{
    let w = crate::double::one();
    if n == 0 {
        assert(0 * w == 0);
        lemma_nearest_zero();
        lemma_of(false, 0);
    } else {
        let (k, s) = if n < 2 * STEP {
            ((1074 - fill(n)) as nat, n * crate::rounding::two_to(fill(n)))
        } else {
            (1075, STEP as nat)
        };
        let u = crate::rounding::two_to(k);
        let m = crate::rounding::pack(k, s);
        if n < 2 * STEP {
            lemma_fill(n);
            let t = crate::rounding::two_to(fill(n));
            crate::rounding::lemma_two_to_add(fill(n), k);
            assert(s * u == n * w) by (nonlinear_arith)
                requires
                    s == n * t,
                    w == t * u,
            ;
        } else {
            assert(u == 2 * w);
            assert(s * u == n * w) by (nonlinear_arith)
                requires
                    s == STEP,
                    n == 2 * STEP,
                    u == 2 * w,
            ;
        }
        crate::rounding::lemma_parts_unique(k, s);
        assert(m < INF) by (nonlinear_arith)
            requires
                m == k * STEP + s,
                k <= 1075,
                s < 2 * STEP,
        ;
        assert(crate::rounding::units(m) * 1 == n * w);
        crate::rounding::lemma_nearest_exact(m, 1);
        lemma_of(false, m);
    }
}

/// Dividing by the same positive number keeps the order of what is not
/// negative.
pub proof fn lemma_quotient_mono(a: Double, b: Double, c: Double)
    requires
        a.finite(),
        b.finite(),
        c.finite(),
        0 <= a.value() <= b.value(),
        c.value() > 0,
    ensures
        !a.quotient(c).nan(),
        !b.quotient(c).nan(),
        0 <= a.quotient(c).value() <= b.quotient(c).value(),
{
    lemma_zero(a);
    lemma_zero(b);
    lemma_zero(c);
    assert(!c.negative()) by {
        crate::rounding::lemma_units_mono(0, c.magnitude());
    }
    let w = crate::double::one();
    crate::rounding::lemma_two_to_pos(1074);
    let x = crate::double::size(a.value()) * w;
    let y = crate::double::size(b.value()) * w;
    let z = crate::double::size(c.value());
    assert(x <= y) by (nonlinear_arith)
        requires
            crate::double::size(a.value()) <= crate::double::size(b.value()),
            x == crate::double::size(a.value()) * w,
            y == crate::double::size(b.value()) * w,
    ;
    crate::rounding::lemma_nearest_mono(x, y, z);
    let p = crate::rounding::nearest(x, z);
    let q = crate::rounding::nearest(y, z);
    lemma_of(a.negative(), p);
    lemma_of(b.negative(), q);
    crate::rounding::lemma_units_mono(p, q);
    assert(x == 0 <==> crate::double::size(a.value()) == 0) by (nonlinear_arith)
        requires
            x == crate::double::size(a.value()) * w,
            w > 0,
    ;
    assert(y == 0 <==> crate::double::size(b.value()) == 0) by (nonlinear_arith)
        requires
            y == crate::double::size(b.value()) * w,
            w > 0,
    ;
    if x == 0 {
        lemma_nearest_zero_over(z);
    }
    if y == 0 {
        lemma_nearest_zero_over(z);
    }
    crate::rounding::lemma_units_mono(0, p);
    crate::rounding::lemma_units_mono(0, q);
    if b.negative() {
        assert(b.magnitude() == 0) by {
            crate::rounding::lemma_units_mono(0, b.magnitude());
        }
    }
    if a.negative() {
        assert(a.magnitude() == 0) by {
            crate::rounding::lemma_units_mono(0, a.magnitude());
        }
    }
}

/// Multiplying by the same number that is not negative keeps the order of what
/// is not negative.
pub proof fn lemma_product_mono(a: Double, b: Double, c: Double)
    requires
        a.finite(),
        b.finite(),
        c.finite(),
        !a.negative(),
        !b.negative(),
        !c.negative(),
        a.value() <= b.value(),
    ensures
        a.product(c).at_most(b.product(c)),
        a.product(c).value() >= 0,
{
    let w = crate::double::one();
    crate::rounding::lemma_two_to_pos(1074);
    let x = crate::double::size(a.value()) * crate::double::size(c.value());
    let y = crate::double::size(b.value()) * crate::double::size(c.value());
    assert(x <= y) by (nonlinear_arith)
        requires
            crate::double::size(a.value()) <= crate::double::size(b.value()),
            x == crate::double::size(a.value()) * crate::double::size(c.value()),
            y == crate::double::size(b.value()) * crate::double::size(c.value()),
    ;
    crate::rounding::lemma_nearest_mono(x, y, w);
    let p = crate::rounding::nearest(x, w);
    let q = crate::rounding::nearest(y, w);
    lemma_of(false, p);
    lemma_of(false, q);
    crate::rounding::lemma_units_mono(p, q);
}

/// A bit pattern below that of 1.0 is a number from zero up to one.
pub proof fn lemma_fraction(d: Double)
    requires
        d.bits < 0x3ff0_0000_0000_0000,
    ensures
        d.finite(),
        0 <= d.value() < crate::double::one(),
{
    crate::rounding::lemma_two_to_values();
    crate::rounding::lemma_two_to_add(52, 1022);
    crate::rounding::lemma_parts_unique(1022, STEP as nat);
    assert(crate::rounding::pack(1022, STEP as nat) == 0x3ff0_0000_0000_0000);
    crate::rounding::lemma_units_mono(d.magnitude(), 0x3ff0_0000_0000_0000);
}

/// A sum of what is not negative covers its second part.
pub proof fn lemma_sum_covers(t: Double, g: Double)
    requires
        !t.nan(),
        !g.nan(),
        t.value() >= 0,
        g.value() >= 0,
    ensures
        g.value() <= t.sum(g).value(),
{
    if t.finite() && g.finite() {
        lemma_sum(t, g);
        lemma_rounded_exact(g);
        lemma_rounded_mono(g.value(), t.value() + g.value());
    } else {
        lemma_value_bound(g);
        lemma_zero(t);
        lemma_zero(g);
        crate::rounding::lemma_units_mono(0, INF as nat);
    }
}

/// A significand at any scale is worth a finite magnitude.
pub proof fn lemma_multiple(n: nat, k: nat) -> (m: nat)
    requires
        n <= 2 * STEP,
        k <= 2044,
    ensures
        m < INF,
        crate::rounding::units(m) == n * crate::rounding::two_to(k),
        rounded((n * crate::rounding::two_to(k)) as int).value() == n * crate::rounding::two_to(k),
{
    let u = crate::rounding::two_to(k);
    crate::rounding::lemma_two_to_pos(k);
    let (a, b): (nat, nat) = if n == 2 * STEP {
        (k + 1, STEP as nat)
    } else if k == 0 || n >= STEP {
        (k, n)
    } else if n > 0 && fill(n) <= k {
        ((k - fill(n)) as nat, n * crate::rounding::two_to(fill(n)))
    } else {
        (0, n * u)
    };
    if n == 2 * STEP {
        assert(STEP * (2 * u) == (2 * STEP) * u) by (nonlinear_arith);
    } else if 0 < k && n < STEP {
        if n > 0 {
            lemma_fill(n);
            let t = crate::rounding::two_to(fill(n));
            if fill(n) <= k {
                let v = crate::rounding::two_to(a);
                crate::rounding::lemma_two_to_add(fill(n), a);
                assert((n * t) * v == n * u) by (nonlinear_arith)
                    requires
                        u == t * v,
                ;
            } else {
                crate::rounding::lemma_two_to_mono(k, fill(n));
                assert(n * u <= n * t) by (nonlinear_arith)
                    requires
                        u <= t,
                ;
            }
        } else {
            assert(0 * u == 0);
        }
    }
    assert((n * u) * 1 == n * u) by (nonlinear_arith);
    assert(crate::rounding::two_to(0) == 1);
    let m = crate::rounding::pack(a, b);
    crate::rounding::lemma_parts_unique(a, b);
    assert(crate::rounding::units(m) == n * u);
    assert(m < INF) by (nonlinear_arith)
        requires
            m == a * STEP + b,
            a <= 2044 || (a <= 2045 && b == STEP),
            b < 2 * STEP,
    ;
    crate::rounding::lemma_nearest_exact(m, 1);
    lemma_of(false, m);
    m
}

/// The order of the factors does not matter.
pub proof fn lemma_product_commutes(a: Double, b: Double)
    ensures
        a.product(b) == b.product(a),
{
    let x = crate::double::size(a.value());
    let y = crate::double::size(b.value());
    assert(x * y == y * x) by (nonlinear_arith);
}

} // verus!
