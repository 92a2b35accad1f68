//! Rounding to the double-precision grid, by exact integer arithmetic.
//!
//! A magnitude is the bit pattern of a non-negative double. Its worth is
//! counted in units of 2^-1074, the spacing of the smallest doubles, so every
//! finite magnitude is worth a whole number of units.
use vstd::prelude::*;

verus! {

/// One step of the exponent field, and the width of the significand range.
pub const STEP: u64 = 0x0010_0000_0000_0000;

/// The magnitude of infinity: the first bit pattern past the finite doubles.
pub const INF: u64 = 0x7ff0_0000_0000_0000;

/// 2 to the power `n`.
pub open spec fn two_to(n: nat) -> nat
    decreases n,
{
    if n == 0 {
        1
    } else {
        2 * two_to((n - 1) as nat)
    }
}

/// The power of two by which the significand of a magnitude is scaled.
pub open spec fn exponent(m: nat) -> nat {
    if m < STEP {
        0
    } else {
        (m / (STEP as nat) - 1) as nat
    }
}

/// The significand of a magnitude, hidden bit included.
pub open spec fn significand(m: nat) -> nat {
    (m - exponent(m) * STEP) as nat
}

/// The magnitude with exponent `k` and significand `n`.
pub open spec fn pack(k: nat, n: nat) -> nat {
    (k * STEP + n) as nat
}

/// What a magnitude is worth, in units of 2^-1074.
pub open spec fn units(m: nat) -> nat {
    significand(m) * two_to(exponent(m))
}

/// `num / den` rounded to the nearest integer, ties to the even one.
pub open spec fn half_even(num: nat, den: nat) -> nat {
    let q = num / den;
    let twice = 2 * (num % den);
    if twice < den || (twice == den && q % 2 == 0) {
        q
    } else {
        q + 1
    }
}

/// The least exponent at which `num / den` fits a significand of 53 bits.
pub open spec fn scale_of(num: nat, den: nat) -> nat
    decreases num - den,
{
    if den == 0 || num < den * (2 * STEP) {
        0
    } else {
        proof {
            assert(den * (2 * STEP) >= 2 * den) by (nonlinear_arith);
        }
        1 + scale_of(num, 2 * den)
    }
}

/// The magnitude nearest to `num / den` units, ties to the even significand;
/// infinity once the finite magnitudes run out.
pub open spec fn nearest(num: nat, den: nat) -> nat {
    let k = scale_of(num, den);
    let m = pack(k, half_even(num, den * two_to(k)));
    if m < INF {
        m
    } else {
        INF as nat
    }
}

pub proof fn lemma_two_to_add(a: nat, b: nat)
    ensures
        two_to(a + b) == two_to(a) * two_to(b),
    decreases b,
{
    if b == 0 {
        assert(two_to(a) * 1 == two_to(a));
    } else {
        lemma_two_to_add(a, (b - 1) as nat);
        let x = two_to(a) as int;
        let y = two_to((b - 1) as nat) as int;
        assert(2 * (x * y) == x * (2 * y)) by (nonlinear_arith);
    }
}

pub proof fn lemma_two_to_pos(n: nat)
    ensures
        two_to(n) > 0,
    decreases n,
{
    if n > 0 {
        lemma_two_to_pos((n - 1) as nat);
    }
}

pub proof fn lemma_two_to_mono(a: nat, b: nat)
    requires
        a <= b,
    ensures
        two_to(a) <= two_to(b),
    decreases b - a,
{
    if a < b {
        lemma_two_to_mono(a, (b - 1) as nat);
        lemma_two_to_pos((b - 1) as nat);
    }
}

proof fn lemma_two_to_product(a: nat, x: nat, b: nat, y: nat)
    requires
        two_to(a) == x,
        two_to(b) == y,
    ensures
        two_to(a + b) == x * y,
{
    lemma_two_to_add(a, b);
}

/// The powers of two that fit the machine words used here.
pub proof fn lemma_two_to_values()
    ensures
        two_to(0) == 1,
        two_to(1) == 2,
        two_to(11) == 2048,
        two_to(52) == STEP,
        two_to(53) == 2 * STEP,
        two_to(64) == 0x1_0000_0000_0000_0000,
        two_to(106) == 0x400_0000_0000_0000_0000_0000_0000,
        two_to(118) == 0x40_0000_0000_0000_0000_0000_0000_0000,
        two_to(127) == 0x8000_0000_0000_0000_0000_0000_0000_0000,
{
    reveal_with_fuel(two_to, 14);
    lemma_two_to_product(13, 0x2000, 13, 0x2000);
    lemma_two_to_product(26, 0x400_0000, 26, 0x400_0000);
    lemma_two_to_product(52, 0x10_0000_0000_0000, 1, 2);
    lemma_two_to_product(52, 0x10_0000_0000_0000, 12, 0x1000);
    lemma_two_to_product(53, 0x20_0000_0000_0000, 53, 0x20_0000_0000_0000);
    lemma_two_to_product(106, 0x400_0000_0000_0000_0000_0000_0000, 12, 0x1000);
    lemma_two_to_product(118, 0x40_0000_0000_0000_0000_0000_0000_0000, 9, 0x200);
}

/// Exponent and significand of a magnitude lie in their ranges.
pub proof fn lemma_parts(m: nat)
    ensures
        m == exponent(m) * STEP + significand(m),
        significand(m) < 2 * STEP,
        exponent(m) > 0 ==> significand(m) >= STEP,
{
    if m >= STEP {
        vstd::arithmetic::div_mod::lemma_fundamental_div_mod(m as int, STEP as int);
        let q = m / (STEP as nat);
        assert((q - 1) * STEP == q * STEP - STEP) by (nonlinear_arith);
        assert(q >= 1) by (nonlinear_arith)
            requires
                m == STEP * q + m % (STEP as nat),
                m % (STEP as nat) < STEP,
                m >= STEP,
        ;
    }
}

/// An exponent and a significand in range make up the magnitude that has them.
pub proof fn lemma_parts_unique(k: nat, n: nat)
    requires
        n < 2 * STEP,
        k > 0 ==> n >= STEP,
    ensures
        exponent(pack(k, n)) == k,
        significand(pack(k, n)) == n,
        units(pack(k, n)) == n * two_to(k),
{
    let m = pack(k, n);
    assert(k * STEP >= 0) by (nonlinear_arith);
    if m >= STEP {
        if n >= STEP {
            assert(m == (k + 1) * STEP + (n - STEP)) by (nonlinear_arith)
                requires
                    m == k * STEP + n,
            ;
            vstd::arithmetic::div_mod::lemma_fundamental_div_mod_converse(
                m as int,
                STEP as int,
                k as int + 1,
                n - STEP,
            );
        } else {
            assert(k == 0);
            assert(0 * STEP == 0);
        }
    } else {
        if k > 0 {
            assert(k * STEP >= STEP) by (nonlinear_arith)
                requires
                    k >= 1,
            ;
        }
        assert(0 * STEP == 0);
    }
}

/// The next magnitude is worth one unit in the last place more.
pub proof fn lemma_units_step(m: nat)
    ensures
        units(m) + two_to(exponent(m)) == units(m + 1),
{
    lemma_parts(m);
    let k = exponent(m);
    let n = significand(m);
    let p = two_to(k);
    if n + 1 < 2 * STEP {
        lemma_parts_unique(k, n + 1);
        assert(n * p + p == (n + 1) * p) by (nonlinear_arith);
    } else {
        assert(m + 1 == (k + 1) * STEP + STEP) by (nonlinear_arith)
            requires
                m == k * STEP + n,
                n + 1 == 2 * STEP,
        ;
        lemma_parts_unique(k + 1, STEP as nat);
        assert(n * p + p == STEP * (2 * p)) by (nonlinear_arith)
            requires
                n + 1 == 2 * STEP,
        ;
    }
}

proof fn lemma_units_increase(a: nat, b: nat)
    requires
        a < b,
    ensures
        units(a) < units(b),
    decreases b - a,
{
    if a + 1 < b {
        lemma_units_increase(a, (b - 1) as nat);
    }
    lemma_units_step((b - 1) as nat);
    lemma_two_to_pos(exponent((b - 1) as nat));
}

/// Larger magnitudes are worth more: `units` is strictly increasing.
pub proof fn lemma_units_mono(a: nat, b: nat)
    ensures
        a < b ==> units(a) < units(b),
        a <= b ==> units(a) <= units(b),
        units(a) < units(b) ==> a < b,
{
    if a < b {
        lemma_units_increase(a, b);
    } else if b < a {
        lemma_units_increase(b, a);
    }
}

/// At its scale a quotient fills the significand: 53 bits, and no fewer once
/// the exponent is above zero.
pub proof fn lemma_scale(num: nat, den: nat)
    requires
        den > 0,
    ensures
        num < (den * two_to(scale_of(num, den))) * (2 * STEP),
        scale_of(num, den) > 0 ==> num >= (den * two_to(scale_of(num, den))) * STEP,
    decreases num - den,
{
    if num < den * (2 * STEP) {
        assert(den * two_to(0) == den) by (nonlinear_arith)
            requires
                two_to(0) == 1,
        ;
    } else {
        assert(den * (2 * STEP) >= 2 * den) by (nonlinear_arith);
        lemma_scale(num, 2 * den);
        let j = scale_of(num, 2 * den);
        let p = two_to(j);
        assert((2 * den) * p == den * (2 * p)) by (nonlinear_arith);
        if j == 0 {
            assert((den * 2) * STEP == den * (2 * STEP)) by (nonlinear_arith);
        }
    }
}

/// The scale is the only exponent with that property.
pub proof fn lemma_scale_unique(num: nat, den: nat, k: nat)
    requires
        den > 0,
        num < (den * two_to(k)) * (2 * STEP),
        k > 0 ==> num >= (den * two_to(k)) * STEP,
    ensures
        scale_of(num, den) == k,
    decreases k,
{
    if k == 0 {
        assert(den * two_to(0) == den) by (nonlinear_arith)
            requires
                two_to(0) == 1,
        ;
    } else {
        let j = (k - 1) as nat;
        let p = two_to(j);
        lemma_two_to_pos(j);
        assert((2 * den) * p == den * (2 * p)) by (nonlinear_arith);
        assert((den * (2 * p)) * STEP >= den * (2 * STEP)) by (nonlinear_arith)
            requires
                p >= 1,
        ;
        lemma_scale_unique(num, 2 * den, j);
        assert(den * (2 * STEP) >= 2 * den) by (nonlinear_arith);
    }
}

/// Rounding stays between the integers on either side.
pub proof fn lemma_half_even_bounds(num: nat, den: nat, low: nat, high: nat)
    requires
        den > 0,
        den * low <= num,
        num <= den * high,
    ensures
        low <= half_even(num, den) <= high,
{
    let q = num / den;
    let r = num % den;
    vstd::arithmetic::div_mod::lemma_fundamental_div_mod(num as int, den as int);
    assert(low <= q) by (nonlinear_arith)
        requires
            den * low <= num,
            num == den * q + r,
            r < den,
            den > 0,
    ;
    assert(q <= high && (q == high ==> r == 0)) by (nonlinear_arith)
        requires
            num <= den * high,
            num == den * q + r,
            0 <= r < den,
            den > 0,
    ;
}

/// Rounding never swaps two quotients.
pub proof fn lemma_half_even_mono(a: nat, b: nat, den: nat)
    requires
        den > 0,
        a <= b,
    ensures
        half_even(a, den) <= half_even(b, den),
{
    vstd::arithmetic::div_mod::lemma_fundamental_div_mod(a as int, den as int);
    vstd::arithmetic::div_mod::lemma_fundamental_div_mod(b as int, den as int);
    let qa = a / den;
    let qb = b / den;
    assert(qa <= qb && (qa == qb ==> a % den <= b % den)) by (nonlinear_arith)
        requires
            a <= b,
            a == den * qa + a % den,
            b == den * qb + b % den,
            0 <= a % den < den,
            0 <= b % den < den,
    ;
}

/// A common factor does not change what rounds where.
pub proof fn lemma_half_even_scaled(num: nat, den: nat, c: nat)
    requires
        den > 0,
        c > 0,
    ensures
        half_even(num * c, den * c) == half_even(num, den),
{
    let q = num / den;
    let r = num % den;
    vstd::arithmetic::div_mod::lemma_fundamental_div_mod(num as int, den as int);
    assert(num * c == q * (den * c) + r * c && r * c < den * c && den * c > 0 && r * c >= 0)
        by (nonlinear_arith)
        requires
            num == den * q + r,
            0 <= r < den,
            c > 0,
    ;
    vstd::arithmetic::div_mod::lemma_fundamental_div_mod_converse(
        (num * c) as int,
        (den * c) as int,
        q as int,
        (r * c) as int,
    );
    assert((2 * (r * c) < den * c <==> 2 * r < den) && (2 * (r * c) == den * c <==> 2 * r == den))
        by (nonlinear_arith)
        requires
            c > 0,
    ;
}

/// A whole number rounds to itself.
pub proof fn lemma_half_even_exact(n: nat, den: nat)
    requires
        den > 0,
    ensures
        half_even(n * den, den) == n,
{
    vstd::arithmetic::div_mod::lemma_fundamental_div_mod_converse(
        (n * den) as int,
        den as int,
        n as int,
        0,
    );
    assert(n * den == den * n) by (nonlinear_arith);
}

/// The rounded significand is in the range of `pack`, the carry included.
proof fn lemma_rounded_significand(num: nat, den: nat)
    requires
        den > 0,
    ensures
        ({
            let k = scale_of(num, den);
            let n = half_even(num, den * two_to(k));
            n <= 2 * STEP && (k > 0 ==> n >= STEP)
        }),
{
    let k = scale_of(num, den);
    lemma_scale(num, den);
    lemma_two_to_pos(k);
    let d = den * two_to(k);
    assert(d > 0) by (nonlinear_arith)
        requires
            den > 0,
            two_to(k) > 0,
            d == den * two_to(k),
    ;
    assert(d * 0 == 0);
    let low: nat = if k > 0 {
        STEP as nat
    } else {
        0
    };
    lemma_half_even_bounds(num, d, low, 2 * (STEP as nat));
}

/// Larger quotients round to larger or equal magnitudes.
pub proof fn lemma_nearest_mono(a: nat, b: nat, den: nat)
    requires
        den > 0,
        a <= b,
    ensures
        nearest(a, den) <= nearest(b, den),
{
    let ka = scale_of(a, den);
    let kb = scale_of(b, den);
    lemma_scale(a, den);
    lemma_scale(b, den);
    lemma_rounded_significand(a, den);
    lemma_rounded_significand(b, den);
    lemma_two_to_pos(ka);
    lemma_two_to_pos(kb);
    let pa = two_to(ka);
    let pb = two_to(kb);
    if ka == kb {
        assert(den * pa > 0) by (nonlinear_arith)
            requires
                den > 0,
                pa > 0,
        ;
        lemma_half_even_mono(a, b, den * pa);
    } else if ka > kb {
        lemma_two_to_mono(kb + 1, ka);
        assert((den * pa) * STEP >= (den * pb) * (2 * STEP)) by (nonlinear_arith)
            requires
                pa >= 2 * pb,
        ;
        assert(false);
    } else {
        assert(ka * STEP + 2 * STEP <= kb * STEP + STEP) by (nonlinear_arith)
            requires
                ka + 1 <= kb,
        ;
    }
}

/// A quotient that a magnitude is worth exactly rounds to that magnitude.
pub proof fn lemma_nearest_exact(m: nat, den: nat)
    requires
        den > 0,
        m <= INF,
    ensures
        nearest(units(m) * den, den) == m,
{
    lemma_parts(m);
    let k = exponent(m);
    let n = significand(m);
    let p = two_to(k);
    lemma_two_to_pos(k);
    let num = units(m) * den;
    assert(num == n * (den * p) && den * p > 0) by (nonlinear_arith)
        requires
            num == (n * p) * den,
            den > 0,
            p > 0,
    ;
    let d = den * p;
    assert(num < d * (2 * STEP) && (n >= STEP ==> num >= d * STEP)) by (nonlinear_arith)
        requires
            num == n * d,
            n < 2 * STEP,
            d > 0,
    ;
    lemma_scale_unique(num, den, k);
    lemma_half_even_exact(n, d);
}

/// A common factor does not change the nearest magnitude.
pub proof fn lemma_nearest_scaled(num: nat, den: nat, c: nat)
    requires
        den > 0,
        c > 0,
    ensures
        nearest(num * c, den * c) == nearest(num, den),
{
    let k = scale_of(num, den);
    let p = two_to(k);
    lemma_scale(num, den);
    lemma_two_to_pos(k);
    let d = den * p;
    assert(d > 0 && den * c > 0 && (den * c) * p == d * c) by (nonlinear_arith)
        requires
            d == den * p,
            den > 0,
            p > 0,
            c > 0,
    ;
    assert(num * c < (d * c) * (2 * STEP) && (num >= d * STEP ==> num * c >= (d * c) * STEP))
        by (nonlinear_arith)
        requires
            num < d * (2 * STEP),
            c > 0,
    ;
    lemma_scale_unique(num * c, den * c, k);
    lemma_half_even_scaled(num, d, c);
}

/// Equal quotients have the same nearest magnitude.
pub proof fn lemma_nearest_ratio(a: nat, b: nat, c: nat, d: nat)
    requires
        b > 0,
        d > 0,
        a * d == c * b,
    ensures
        nearest(a, b) == nearest(c, d),
{
    lemma_nearest_scaled(a, b, d);
    lemma_nearest_scaled(c, d, b);
    assert(b * d == d * b) by (nonlinear_arith);
}

/// A magnitude absorbs one that is smaller by more than its last place shows.
pub proof fn lemma_absorb(big: nat, small: nat)
    requires
        big <= INF,
        exponent(big) >= exponent(small) + 56,
    ensures
        nearest(units(big) + units(small), 1) == big,
        units(big) > units(small),
        nearest((units(big) - units(small)) as nat, 1) == big,
{
    lemma_parts(big);
    lemma_parts(small);
    lemma_two_to_values();
    let k = exponent(big);
    let n = significand(big);
    let p = two_to(k);
    let j = exponent(small);
    let r = units(small);
    lemma_two_to_pos(j);
    lemma_two_to_add(53, j);
    lemma_two_to_add(53 + j, 3);
    lemma_two_to_mono(56 + j, k);
    assert(two_to(3) == 8) by {
        reveal_with_fuel(two_to, 4);
    }
    assert(8 * r < p) by (nonlinear_arith)
        requires
            r == significand(small) * two_to(j),
            significand(small) < two_to(53),
            two_to(j) > 0,
            (two_to(53) * two_to(j)) * 8 <= p,
    ;
    assert(1 * p == p);
    let up = units(big) + r;
    assert(up == n * p + r);
    assert(up < p * (2 * STEP) && up >= p * STEP) by (nonlinear_arith)
        requires
            up == n * p + r,
            n + 1 <= 2 * STEP,
            n >= STEP,
            0 <= r < p,
    ;
    lemma_scale_unique(up, 1, k);
    vstd::arithmetic::div_mod::lemma_fundamental_div_mod_converse(
        up as int,
        p as int,
        n as int,
        r as int,
    );
    let down = (units(big) - r) as nat;
    assert(n * p > r) by (nonlinear_arith)
        requires
            n >= STEP,
            0 <= r < p,
    ;
    if r == 0 {
        assert(down == up);
    } else if n > STEP {
        assert(down == (n - 1) * p + (p - r) && down < p * (2 * STEP) && down >= p * STEP)
            by (nonlinear_arith)
            requires
                down == n * p - r,
                STEP + 1 <= n < 2 * STEP,
                0 < r < p,
        ;
        lemma_scale_unique(down, 1, k);
        vstd::arithmetic::div_mod::lemma_fundamental_div_mod_converse(
            down as int,
            p as int,
            n - 1,
            p - r,
        );
    } else {
        // Just below a power of two the spacing halves.
        let i = (k - 1) as nat;
        let h = two_to(i);
        assert(1 * h == h);
        assert(down == (2 * STEP - 1) * h + (h - r) && down < h * (2 * STEP) && down >= h * STEP)
            by (nonlinear_arith)
            requires
                down == STEP * (2 * h) - r,
                0 < r < h,
        ;
        lemma_scale_unique(down, 1, i);
        vstd::arithmetic::div_mod::lemma_fundamental_div_mod_converse(
            down as int,
            h as int,
            2 * STEP - 1,
            h - r,
        );
        assert(i * STEP + 2 * STEP == k * STEP + STEP) by (nonlinear_arith)
            requires
                i + 1 == k,
        ;
    }
}

/// The remainder of a division matters to rounding only by being there.
proof fn lemma_sticky(x: nat, d: nat, s: nat)
    requires
        d > 0,
        s >= 1,
    ensures
        ({
            let p = 2 * (x / d) + if x % d == 0 {
                0nat
            } else {
                1nat
            };
            half_even(x, d * two_to(s)) == half_even(p, two_to(s + 1))
        }),
{
    let q = x / d;
    let r = x % d;
    let st: nat = if r == 0 {
        0
    } else {
        1
    };
    let p = 2 * q + st;
    let h = two_to((s - 1) as nat);
    let w = two_to(s);
    assert(w == 2 * h);
    lemma_two_to_pos(s);
    let a = q / w;
    let b = q % w;
    vstd::arithmetic::div_mod::lemma_fundamental_div_mod(x as int, d as int);
    vstd::arithmetic::div_mod::lemma_fundamental_div_mod(q as int, w as int);
    assert(x == a * (d * w) + (b * d + r) && 0 <= b * d + r < d * w && d * w > 0) by (nonlinear_arith)
        requires
            x == d * q + r,
            q == w * a + b,
            0 <= b < w,
            0 <= r < d,
            w > 0,
    ;
    vstd::arithmetic::div_mod::lemma_fundamental_div_mod_converse(
        x as int,
        (d * w) as int,
        a as int,
        (b * d + r) as int,
    );
    assert(p == a * (2 * w) + (2 * b + st)) by (nonlinear_arith)
        requires
            p == 2 * q + st,
            q == w * a + b,
    ;
    vstd::arithmetic::div_mod::lemma_fundamental_div_mod_converse(
        p as int,
        (2 * w) as int,
        a as int,
        (2 * b + st) as int,
    );
    // Compare twice the remainder with the divisor, on both sides.
    if b < h {
        assert(2 * (b * d + r) < d * w) by (nonlinear_arith)
            requires
                b + 1 <= h,
                r < d,
                w == 2 * h,
        ;
    } else if b == h {
        assert(2 * (b * d + r) == d * w + 2 * r) by (nonlinear_arith)
            requires
                b == h,
                w == 2 * h,
        ;
    } else {
        assert(2 * (b * d + r) > d * w) by (nonlinear_arith)
            requires
                b >= h + 1,
                w == 2 * h,
                d > 0,
                r >= 0,
        ;
    }
}

/// A quotient and its sticky bit round as the exact quotient does.
pub proof fn lemma_sticky_nearest(x: nat, d: nat, t: int)
    requires
        d > 0,
        x / d >= STEP * 4,
    ensures
        ({
            let p = 2 * (x / d) + if x % d == 0 {
                0nat
            } else {
                1nat
            };
            nearest(scaled_num(x, t), d * scaled_den(t)) == nearest(
                scaled_num(p, t - 1),
                scaled_den(t - 1),
            )
        }),
{
    let q = x / d;
    let r = x % d;
    let p = 2 * q + if r == 0 {
        0nat
    } else {
        1nat
    };
    let e = t - 1;
    let num = scaled_num(p, e);
    let den = scaled_den(e);
    lemma_two_to_values();
    if e < 0 {
        lemma_two_to_pos((-e) as nat);
    }
    let k = scale_of(num, den);
    lemma_scale(num, den);
    lemma_scaled_half_even(p, e, k);
    lemma_two_to_pos(k);
    // The scale drops at least three digits of `p`.
    if k - e <= 1 {
        if e >= 0 {
            let up = e as nat;
            lemma_two_to_mono(k, up + 1);
            assert(1 * two_to(k) == two_to(k));
            assert(num >= (1 * two_to(k)) * (2 * STEP)) by (nonlinear_arith)
                requires
                    num == p * two_to(up),
                    p >= 8 * STEP,
                    2 * two_to(up) >= two_to(k),
            ;
        } else {
            assert(k == 0 && e == -1);
            assert(num >= (2 * 1) * (2 * STEP));
        }
        assert(false);
    }
    let s = (k - e - 1) as nat;
    lemma_sticky(x, d, s);
    lemma_two_to_pos(s);
    let w = two_to(s);
    // Bounds on `p` at the scale, carried over to `x / d`.
    lemma_half_bounds(p, e, k);
    vstd::arithmetic::div_mod::lemma_fundamental_div_mod(x as int, d as int);
    assert(p < (2 * w) * (2 * STEP));
    assert(q < w * (2 * STEP)) by (nonlinear_arith)
        requires
            2 * q <= p,
            p < (2 * w) * (2 * STEP),
    ;
    assert(x < (d * w) * (2 * STEP)) by (nonlinear_arith)
        requires
            x == d * q + r,
            r < d,
            q + 1 <= w * (2 * STEP),
            d > 0,
    ;
    if k > 0 {
        assert(p >= (2 * w) * STEP);
        assert(q >= w * STEP) by (nonlinear_arith)
            requires
                p <= 2 * q + 1,
                p >= (2 * w) * STEP,
        ;
        assert(x >= (d * w) * STEP) by (nonlinear_arith)
            requires
                x == d * q + r,
                r >= 0,
                q >= w * STEP,
                d > 0,
        ;
    }
    // The exact quotient, brought to the same shape.
    let xn = scaled_num(x, t);
    let xd = d * scaled_den(t);
    if t >= 0 {
        let up = t as nat;
        lemma_two_to_pos(up);
        assert(xd == d);
        lemma_two_to_add(s, up);
        assert(s + up == k);
        let u = two_to(up);
        assert(xn < (d * two_to(k)) * (2 * STEP) && (x >= (d * w) * STEP ==> xn >= (d * two_to(k))
            * STEP)) by (nonlinear_arith)
            requires
                xn == x * u,
                two_to(k) == w * u,
                x < (d * w) * (2 * STEP),
                u > 0,
        ;
        lemma_scale_unique(xn, xd, k);
        assert((d * w) * u == d * two_to(k)) by (nonlinear_arith)
            requires
                two_to(k) == w * u,
        ;
        assert(d * w > 0) by (nonlinear_arith)
            requires
                d > 0,
                w > 0,
        ;
        lemma_half_even_scaled(x, d * w, u);
    } else {
        let down = (-t) as nat;
        lemma_two_to_pos(down);
        lemma_two_to_add(down, k);
        assert(down + k == s);
        let v = two_to(down);
        assert(xd * two_to(k) == d * w && xd > 0) by (nonlinear_arith)
            requires
                xd == d * v,
                w == v * two_to(k),
                d > 0,
                v > 0,
        ;
        lemma_scale_unique(xn, xd, k);
    }
}

/// The bounds of a scale, stated for `p` alone.
proof fn lemma_half_bounds(p: nat, e: int, k: nat)
    requires
        k >= e,
        scaled_num(p, e) < (scaled_den(e) * two_to(k)) * (2 * STEP),
        k > 0 ==> scaled_num(p, e) >= (scaled_den(e) * two_to(k)) * STEP,
    ensures
        p < two_to((k - e) as nat) * (2 * STEP),
        k > 0 ==> p >= two_to((k - e) as nat) * STEP,
{
    let s = (k - e) as nat;
    if e >= 0 {
        let u = two_to(e as nat);
        lemma_two_to_pos(e as nat);
        lemma_two_to_add(s, e as nat);
        let w = two_to(s);
        assert(1 * two_to(k) == two_to(k));
        assert(p < w * (2 * STEP)) by (nonlinear_arith)
            requires
                p * u < (w * u) * (2 * STEP),
                u > 0,
        ;
        if k > 0 {
            assert(p >= w * STEP) by (nonlinear_arith)
                requires
                    p * u >= (w * u) * STEP,
                    u > 0,
            ;
        }
    } else {
        lemma_two_to_add((-e) as nat, k);
    }
}

/// 2 to the power `n`, as a machine word.
pub fn word_two_to(n: u32) -> (p: u128)
    requires
        n < 128,
    ensures
        p == two_to(n as nat),
        p > 0,
{
    let mut p: u128 = 1;
    let mut i: u32 = 0;
    proof {
        lemma_two_to_values();
    }
    while i < n
        invariant
            i <= n < 128,
            p == two_to(i as nat),
            p > 0,
        decreases n - i,
    {
        proof {
            lemma_two_to_values();
            lemma_two_to_mono(i as nat + 1, 127);
        }
        p = p * 2;
        i = i + 1;
    }
    p
}

/// The number of binary digits of `p`.
fn bit_length(p: u128) -> (n: u32)
    ensures
        n <= 128,
        p < two_to(n as nat),
        p > 0 ==> n > 0 && two_to((n - 1) as nat) <= p,
        p == 0 ==> n == 0,
{
    let mut q: u128 = p;
    let mut n: u32 = 0;
    proof {
        lemma_two_to_values();
        assert(p / 1 == p);
    }
    while q > 0
        invariant
            n <= 128,
            q == p as nat / two_to(n as nat),
            q > 0 ==> n < 128,
            p > 0 && q == 0 ==> n > 0 && two_to((n - 1) as nat) <= p,
            p == 0 ==> n == 0,
        decreases q,
    {
        proof {
            lemma_two_to_values();
            let d = two_to(n as nat);
            lemma_two_to_pos(n as nat);
            vstd::arithmetic::div_mod::lemma_div_denominator(p as int, d as int, 2);
            assert(d * 2 == two_to(n as nat + 1));
            vstd::arithmetic::div_mod::lemma_fundamental_div_mod(p as int, d as int);
            assert(d <= p) by (nonlinear_arith)
                requires
                    p == d * q + p as nat % d,
                    q >= 1,
                    p as nat % d >= 0,
            ;
            if n == 127 {
                assert(q == 1) by (nonlinear_arith)
                    requires
                        p == d * q + p as nat % d,
                        p as nat % d >= 0,
                        d == 0x8000_0000_0000_0000_0000_0000_0000_0000,
                        p <= u128::MAX,
                        q >= 1,
                ;
            }
        }
        q = q / 2;
        n = n + 1;
    }
    proof {
        let d = two_to(n as nat);
        lemma_two_to_pos(n as nat);
        vstd::arithmetic::div_mod::lemma_small_div_converse(p as int, d as int);
        assert(p as int / d as int == 0);
    }
    n
}

/// The numerator of `p * 2^e`, written as a quotient of whole numbers.
pub open spec fn scaled_num(p: nat, e: int) -> nat {
    if e >= 0 {
        p * two_to(e as nat)
    } else {
        p
    }
}

/// The denominator of `p * 2^e`, written as a quotient of whole numbers.
pub open spec fn scaled_den(e: int) -> nat {
    if e >= 0 {
        1
    } else {
        two_to((-e) as nat)
    }
}

proof fn lemma_scaled_scale(p: nat, e: int, len: nat, k: nat)
    requires
        0 < p < two_to(len),
        len > 0,
        two_to((len - 1) as nat) <= p,
        k == if len + e > 53 {
            len + e - 53
        } else {
            0
        },
    ensures
        scale_of(scaled_num(p, e), scaled_den(e)) == k,
{
    let num = scaled_num(p, e);
    let den = scaled_den(e);
    lemma_two_to_values();
    let up: nat = if e >= 0 {
        e as nat
    } else {
        0
    };
    let down: nat = if e >= 0 {
        0
    } else {
        (-e) as nat
    };
    assert(num == p * two_to(up)) by (nonlinear_arith)
        requires
            num == if e >= 0 {
                p * two_to(up)
            } else {
                p
            },
            e < 0 ==> two_to(up) == 1,
    ;
    assert(den == two_to(down));
    lemma_two_to_pos(down);
    lemma_two_to_pos(up);
    lemma_two_to_add(down, k);
    let d = den * two_to(k);
    // Both sides of each bound are powers of two.
    lemma_two_to_add(down + k, 53);
    lemma_two_to_add(len, up);
    lemma_two_to_mono(len + up, down + k + 53);
    assert(num < d * (2 * STEP)) by (nonlinear_arith)
        requires
            num == p * two_to(up),
            p < two_to(len),
            two_to(up) > 0,
            two_to(len) * two_to(up) <= d * two_to(53),
            two_to(53) == 2 * STEP,
    ;
    if k > 0 {
        lemma_two_to_add(down + k, 52);
        lemma_two_to_add((len - 1) as nat, up);
        assert(len - 1 + up == down + k + 52);
        assert(num >= d * STEP) by (nonlinear_arith)
            requires
                num == p * two_to(up),
                p >= two_to((len - 1) as nat),
                two_to(up) > 0,
                two_to((len - 1) as nat) * two_to(up) == d * two_to(52),
                two_to(52) == STEP,
        ;
    }
    lemma_scale_unique(num, den, k);
}

proof fn lemma_scaled_half_even(p: nat, e: int, k: nat)
    ensures
        k - e >= 0 ==> half_even(scaled_num(p, e), scaled_den(e) * two_to(k)) == half_even(
            p,
            two_to((k - e) as nat),
        ),
        k - e <= 0 ==> half_even(scaled_num(p, e), scaled_den(e) * two_to(k)) == p * two_to(
            (e - k) as nat,
        ),
{
    lemma_two_to_pos(k);
    lemma_two_to_values();
    if e >= 0 {
        let up = e as nat;
        lemma_two_to_pos(up);
        assert(1 * two_to(k) == two_to(k));
        if k >= e {
            let s = (k - e) as nat;
            lemma_two_to_pos(s);
            lemma_two_to_add(s, up);
            lemma_half_even_scaled(p, two_to(s), two_to(up));
        }
        if k <= e {
            let s = (e - k) as nat;
            lemma_two_to_add(s, k);
            assert(p * two_to(up) == (p * two_to(s)) * two_to(k)) by (nonlinear_arith)
                requires
                    two_to(up) == two_to(s) * two_to(k),
            ;
            lemma_half_even_exact(p * two_to(s), two_to(k));
        }
    } else {
        lemma_two_to_add((-e) as nat, k);
    }
}

/// The magnitude nearest to `p * 2^e` units.
pub fn round_scaled(p: u128, e: i32) -> (m: u64)
    requires
        p < 0x40_0000_0000_0000_0000_0000_0000_0000,
        -5000 < e < 5000,
    ensures
        m == nearest(scaled_num(p as nat, e as int), scaled_den(e as int)),
{
    proof {
        lemma_two_to_values();
        lemma_two_to_pos((-e) as nat);
    }
    if p == 0 {
        proof {
            let den = scaled_den(e as int);
            assert(0 * two_to(e as nat) == 0);
            lemma_nearest_exact(0, den);
            assert(units(0) == 0) by {
                lemma_parts_unique(0, 0);
            }
            assert(0 * den == 0);
        }
        return 0;
    }
    let len: u32 = bit_length(p);
    proof {
        if len > 118 {
            lemma_two_to_mono(118, (len - 1) as nat);
        }
    }
    let top: i32 = len as i32 + e - 53;
    let k: i32 = if top > 0 {
        top
    } else {
        0
    };
    proof {
        lemma_scaled_scale(p as nat, e as int, len as nat, k as nat);
        lemma_scaled_half_even(p as nat, e as int, k as nat);
        lemma_rounded_significand(scaled_num(p as nat, e as int), scaled_den(e as int));
    }
    if k >= 2046 {
        assert(k * STEP + STEP >= INF) by (nonlinear_arith)
            requires
                k >= 2046,
        ;
        return INF;
    }
    let s: i32 = k - e;
    let n: u64 = if s <= 0 {
        proof {
            let up = (e - k) as nat;
            lemma_two_to_mono(len as nat + up, 53);
            lemma_two_to_add(len as nat, up);
            lemma_two_to_pos(up);
            assert(p * two_to(up) < two_to(len as nat) * two_to(up)) by (nonlinear_arith)
                requires
                    p < two_to(len as nat),
                    two_to(up) > 0,
            ;
        }
        let f: u128 = word_two_to((-s) as u32);
        (p * f) as u64
    } else if s < 128 {
        let d: u128 = word_two_to(s as u32);
        let q: u128 = p / d;
        let r: u128 = p % d;
        proof {
            lemma_two_to_mono(s as nat, 127);
        }
        let rest: u128 = d - r;
        if r < rest || (r == rest && q % 2 == 0) {
            q as u64
        } else {
            (q + 1) as u64
        }
    } else {
        proof {
            assert(k == 0);
            lemma_two_to_mono(128, s as nat);
            lemma_two_to_add(127, 1);
            vstd::arithmetic::div_mod::lemma_fundamental_div_mod_converse(
                p as int,
                two_to(s as nat) as int,
                0,
                p as int,
            );
        }
        0
    };
    let m: u64 = k as u64 * STEP + n;
    if m < INF {
        m
    } else {
        INF
    }
}

/// Below the middle between a magnitude and the next one, a quotient does not
/// round up to the next.
pub proof fn lemma_nearest_half(num: nat, den: nat, m: nat)
    requires
        den > 0,
        m < INF,
        2 * num < (units(m) + units(m + 1)) * den,
    ensures
        nearest(num, den) <= m,
{
    let k = exponent(m);
    let n = significand(m);
    let u = two_to(k);
    lemma_parts(m);
    lemma_units_step(m);
    lemma_two_to_pos(k);
    if num <= units(m) * den {
        lemma_nearest_mono(num, units(m) * den, den);
        lemma_nearest_exact(m, den);
    } else {
        let d = den * u;
        assert(d > 0 && d * n < num && 2 * (num - d * n) < d) by (nonlinear_arith)
            requires
                d == den * u,
                den > 0,
                u > 0,
                (n * u) * den < num,
                2 * num < (n * u + n * u + u) * den,
        ;
        assert(num < d * (2 * STEP) && (n >= STEP ==> num >= d * STEP)) by (nonlinear_arith)
            requires
                d * n < num,
                2 * (num - d * n) < d,
                n + 1 <= 2 * STEP,
                d > 0,
        ;
        lemma_scale_unique(num, den, k);
        assert(n * d == d * n) by (nonlinear_arith);
        vstd::arithmetic::div_mod::lemma_fundamental_div_mod_converse(
            num as int,
            d as int,
            n as int,
            num - d * n,
        );
    }
}

} // verus!
