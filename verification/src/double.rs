//! Double-precision numbers, held by their IEEE 754 bit pattern.
//!
//! Times, speeds and ratios are doubles throughout. Keeping the bit pattern
//! lets their arithmetic be stated exactly: each operation gives the double
//! nearest to the exact result, ties to even.
use crate::rounding::{INF, STEP};
use vstd::prelude::*;

verus! {

/// The sign bit.
pub const SIGN: u64 = 0x8000_0000_0000_0000;

/// The bit pattern given to every result that is not a number.
pub const NAN: u64 = 0x7ff8_0000_0000_0000;

/// A double, by its bit pattern.
#[derive(Clone, Copy, PartialEq, Eq, Structural, Debug)]
pub struct Double {
    pub bits: u64,
}

/// The worth of 1.0, in units of 2^-1074.
pub open spec fn one() -> nat {
    crate::rounding::two_to(1074)
}

/// The size of an integer.
pub open spec fn size(v: int) -> nat {
    if v < 0 {
        (-v) as nat
    } else {
        v as nat
    }
}

impl Double {
    pub open spec fn negative(self) -> bool {
        self.bits >= SIGN
    }

    /// The bit pattern without its sign.
    pub open spec fn magnitude(self) -> nat {
        if self.bits >= SIGN {
            (self.bits - SIGN) as nat
        } else {
            self.bits as nat
        }
    }

    pub open spec fn nan(self) -> bool {
        self.magnitude() > INF
    }

    pub open spec fn infinite(self) -> bool {
        self.magnitude() == INF
    }

    pub open spec fn finite(self) -> bool {
        self.magnitude() < INF
    }

    /// The exact value in units of 2^-1074. Infinity counts as 2^1024, the
    /// value that follows the largest finite one.
    pub open spec fn value(self) -> int {
        let u = crate::rounding::units(self.magnitude()) as int;
        if self.negative() {
            -u
        } else {
            u
        }
    }

    /// The double with a sign and a magnitude.
    pub open spec fn of(negative: bool, m: nat) -> Double {
        Double {
            bits: if negative {
                (SIGN + m) as u64
            } else {
                m as u64
            },
        }
    }

    pub open spec fn not_a_number() -> Double {
        Double { bits: NAN }
    }

    /// The order of IEEE 754: false whenever a side is not a number.
    pub open spec fn below(self, other: Double) -> bool {
        !self.nan() && !other.nan() && self.value() < other.value()
    }

    /// At most `other`: false whenever a side is not a number.
    pub open spec fn at_most(self, other: Double) -> bool {
        !self.nan() && !other.nan() && self.value() <= other.value()
    }

    pub open spec fn negation(self) -> Double {
        Double::of(!self.negative(), self.magnitude())
    }

    /// The double nearest to the exact sum.
    pub open spec fn sum(self, other: Double) -> Double {
        let v = self.value() + other.value();
        if self.nan() || other.nan() {
            Double::not_a_number()
        } else if self.infinite() {
            if other.infinite() && self.negative() != other.negative() {
                Double::not_a_number()
            } else {
                self
            }
        } else if other.infinite() {
            other
        } else if v == 0 {
            Double::of(self.negative() && other.negative(), 0)
        } else {
            Double::of(v < 0, crate::rounding::nearest(size(v), 1))
        }
    }

    /// The double nearest to the exact difference.
    pub open spec fn difference(self, other: Double) -> Double {
        if other.nan() {
            Double::not_a_number()
        } else {
            self.sum(other.negation())
        }
    }

    /// The double nearest to the exact product.
    pub open spec fn product(self, other: Double) -> Double {
        let s = self.negative() != other.negative();
        if self.nan() || other.nan() {
            Double::not_a_number()
        } else if self.infinite() || other.infinite() {
            if self.magnitude() == 0 || other.magnitude() == 0 {
                Double::not_a_number()
            } else {
                Double::of(s, INF as nat)
            }
        } else {
            Double::of(
                s,
                crate::rounding::nearest(size(self.value()) * size(other.value()), one()),
            )
        }
    }

    /// The double nearest to the exact quotient.
    pub open spec fn quotient(self, other: Double) -> Double {
        let s = self.negative() != other.negative();
        if self.nan() || other.nan() {
            Double::not_a_number()
        } else if self.infinite() {
            if other.infinite() {
                Double::not_a_number()
            } else {
                Double::of(s, INF as nat)
            }
        } else if other.infinite() {
            Double::of(s, 0)
        } else if other.magnitude() == 0 {
            if self.magnitude() == 0 {
                Double::not_a_number()
            } else {
                Double::of(s, INF as nat)
            }
        } else {
            Double::of(
                s,
                crate::rounding::nearest(size(self.value()) * one(), size(other.value())),
            )
        }
    }

    /// The double nearest to a whole number.
    pub open spec fn whole(n: nat) -> Double {
        Double::of(false, crate::rounding::nearest(n * one(), 1))
    }

    /// The largest whole number not above the value, held to the range of
    /// `u64`; zero for what is negative or not a number.
    pub open spec fn floor_word(self) -> int {
        if self.nan() || self.value() <= 0 {
            0
        } else if self.value() / (one() as int) <= u64::MAX {
            self.value() / (one() as int)
        } else {
            u64::MAX as int
        }
    }

    /// The smallest whole number not below the value, held to the range of
    /// `u64`; zero for what is negative or not a number.
    pub open spec fn ceil_word(self) -> int {
        if self.nan() || self.value() <= 0 {
            0
        } else if (self.value() + one() - 1) / (one() as int) <= u64::MAX {
            (self.value() + one() - 1) / (one() as int)
        } else {
            u64::MAX as int
        }
    }
}

/// Facts about a magnitude that the arithmetic below relies on.
pub proof fn lemma_units_parts(m: nat)
    ensures
        crate::rounding::units(m) == crate::rounding::significand(m) * crate::rounding::two_to(
            crate::rounding::exponent(m),
        ),
        crate::rounding::units(m) == 0 <==> m == 0,
        crate::rounding::significand(m) < 2 * STEP,
        crate::rounding::exponent(m) > 0 ==> crate::rounding::significand(m) >= STEP,
        m <= INF ==> crate::rounding::exponent(m) <= 2046,
        crate::rounding::units(m) > 0 <==> crate::rounding::significand(m) > 0,
{
    crate::rounding::lemma_parts(m);
    crate::rounding::lemma_units_mono(0, m);
    crate::rounding::lemma_parts_unique(0, 0);
    crate::rounding::lemma_two_to_pos(crate::rounding::exponent(m));
    let n = crate::rounding::significand(m);
    let k = crate::rounding::exponent(m);
    let p = crate::rounding::two_to(k);
    assert(n > 0 ==> n * p > 0) by (nonlinear_arith)
        requires
            p > 0,
    ;
    assert(n == 0 ==> n * p == 0) by (nonlinear_arith);
    if m <= INF && k > 2046 {
        assert(k * STEP + STEP > INF) by (nonlinear_arith)
            requires
                k >= 2047,
        ;
    }
}

impl Double {
    pub fn from_bits(bits: u64) -> (d: Double)
        ensures
            d.bits == bits,
    {
        Double { bits }
    }

    pub fn to_bits(self) -> (bits: u64)
        ensures
            bits == self.bits,
    {
        self.bits
    }

    /// The bit pattern without its sign.
    pub(crate) fn word(self) -> (m: u64)
        ensures
            m == self.magnitude(),
            m < SIGN,
    {
        if self.bits >= SIGN {
            self.bits - SIGN
        } else {
            self.bits
        }
    }

    pub(crate) fn make(negative: bool, m: u64) -> (d: Double)
        requires
            m <= INF,
        ensures
            d == Double::of(negative, m as nat),
            d.negative() == negative,
            d.magnitude() == m,
    {
        if negative {
            Double { bits: SIGN + m }
        } else {
            Double { bits: m }
        }
    }

    pub(crate) fn is_negative(self) -> (r: bool)
        ensures
            r == self.negative(),
    {
        self.bits >= SIGN
    }

    pub fn is_nan(self) -> (r: bool)
        ensures
            r == self.nan(),
    {
        self.word() > INF
    }

    pub fn is_finite(self) -> (r: bool)
        ensures
            r == self.finite(),
    {
        self.word() < INF
    }

    /// Exponent and significand of a magnitude.
    pub(crate) fn parts(m: u64) -> (r: (i32, u64))
        requires
            m <= INF,
        ensures
            r.0 == crate::rounding::exponent(m as nat),
            r.1 == crate::rounding::significand(m as nat),
            0 <= r.0 <= 2046,
            r.1 < 2 * STEP,
    {
        proof {
            lemma_units_parts(m as nat);
            crate::rounding::lemma_parts(m as nat);
        }
        if m < STEP {
            (0, m)
        } else {
            let k: u64 = m / STEP - 1;
            (k as i32, m - k * STEP)
        }
    }

    /// The order of IEEE 754: false whenever a side is not a number.
    pub fn lt(self, other: Double) -> (r: bool)
        ensures
            r == self.below(other),
    {
        if self.is_nan() || other.is_nan() {
            return false;
        }
        let a: u64 = self.word();
        let b: u64 = other.word();
        proof {
            crate::rounding::lemma_units_mono(a as nat, b as nat);
            crate::rounding::lemma_units_mono(b as nat, a as nat);
            lemma_units_parts(a as nat);
            lemma_units_parts(b as nat);
        }
        if self.is_negative() {
            if other.is_negative() {
                b < a
            } else {
                a > 0 || b > 0
            }
        } else if other.is_negative() {
            false
        } else {
            a < b
        }
    }

    /// At most `other`: false whenever a side is not a number.
    pub fn le(self, other: Double) -> (r: bool)
        ensures
            r == self.at_most(other),
    {
        !self.is_nan() && !other.is_nan() && !other.lt(self)
    }

    pub fn neg(self) -> (r: Double)
        requires
            !self.nan(),
        ensures
            r == self.negation(),
            r.value() == -self.value(),
            r.magnitude() == self.magnitude(),
            r.negative() == !self.negative(),
    {
        Double::make(!self.is_negative(), self.word())
    }

    pub fn plus(self, other: Double) -> (r: Double)
        ensures
            r == self.sum(other),
    {
        if self.is_nan() || other.is_nan() {
            return Double { bits: NAN };
        }
        let (a, b) = (self.word(), other.word());
        if a == INF {
            if b == INF && self.is_negative() != other.is_negative() {
                return Double { bits: NAN };
            }
            return self;
        }
        if b == INF {
            return other;
        }
        let (ka, _) = Double::parts(a);
        let (kb, _) = Double::parts(b);
        if ka >= kb {
            Double::plus_ordered(self, other)
        } else {
            Double::plus_ordered(other, self)
        }
    }

    /// The sum of two finite doubles, the larger exponent first.
    fn plus_ordered(x: Double, y: Double) -> (r: Double)
        requires
            x.finite(),
            y.finite(),
            crate::rounding::exponent(x.magnitude()) >= crate::rounding::exponent(y.magnitude()),
        ensures
            r == x.sum(y),
    {
        let (a, b) = (x.word(), y.word());
        let (ka, na) = Double::parts(a);
        let (kb, nb) = Double::parts(b);
        let d: i32 = ka - kb;
        proof {
            lemma_units_parts(a as nat);
            lemma_units_parts(b as nat);
        }
        if d >= 56 {
            proof {
                crate::rounding::lemma_absorb(a as nat, b as nat);
            }
            return x;
        }
        let f: u128 = crate::rounding::word_two_to(d as u32);
        proof {
            crate::rounding::lemma_two_to_values();
            crate::rounding::lemma_two_to_mono(d as nat, 55);
            assert(crate::rounding::two_to(55) == 0x80_0000_0000_0000) by {
                reveal_with_fuel(crate::rounding::two_to, 4);
            }
            assert(na * f < 2 * STEP * 0x80_0000_0000_0000) by (nonlinear_arith)
                requires
                    na < 2 * STEP,
                    0 < f <= 0x80_0000_0000_0000,
            ;
            crate::rounding::lemma_two_to_add(d as nat, kb as nat);
        }
        let big: u128 = na as u128 * f;
        let small: u128 = nb as u128;
        let ghost u = crate::rounding::two_to(kb as nat);
        proof {
            assert(crate::rounding::units(a as nat) == big * u) by (nonlinear_arith)
                requires
                    crate::rounding::units(a as nat) == na * crate::rounding::two_to(ka as nat),
                    crate::rounding::two_to(ka as nat) == f * u,
                    big == na * f,
            ;
            crate::rounding::lemma_two_to_pos(kb as nat);
        }
        let (s, negative): (u128, bool) = if x.is_negative() == y.is_negative() {
            proof {
                assert((big + small) * u == big * u + small * u) by (nonlinear_arith);
            }
            (big + small, x.is_negative())
        } else if big >= small {
            proof {
                assert((big - small) * u == big * u - small * u && (big - small) * u >= 0)
                    by (nonlinear_arith)
                    requires
                        big >= small,
                        u > 0,
                ;
            }
            (big - small, x.is_negative())
        } else {
            proof {
                assert((small - big) * u == small * u - big * u && (small - big) * u >= 0)
                    by (nonlinear_arith)
                    requires
                        big < small,
                        u > 0,
                ;
            }
            (small - big, y.is_negative())
        };
        proof {
            assert(size(x.value() + y.value()) == s * u);
            assert(s * u == 0 <==> s == 0) by (nonlinear_arith)
                requires
                    u > 0,
            ;
        }
        if s == 0 {
            return Double::make(x.is_negative() && y.is_negative(), 0);
        }
        let m: u64 = crate::rounding::round_scaled(s, kb);
        Double::make(negative, m)
    }

    pub fn minus(self, other: Double) -> (r: Double)
        ensures
            r == self.difference(other),
    {
        if other.is_nan() {
            return Double { bits: NAN };
        }
        self.plus(other.neg())
    }

    pub fn times(self, other: Double) -> (r: Double)
        ensures
            r == self.product(other),
    {
        if self.is_nan() || other.is_nan() {
            return Double { bits: NAN };
        }
        let negative: bool = self.is_negative() != other.is_negative();
        let (a, b) = (self.word(), other.word());
        if a == INF || b == INF {
            if a == 0 || b == 0 {
                return Double { bits: NAN };
            }
            return Double::make(negative, INF);
        }
        let (ka, na) = Double::parts(a);
        let (kb, nb) = Double::parts(b);
        proof {
            lemma_units_parts(a as nat);
            lemma_units_parts(b as nat);
            assert(na * nb < (2 * STEP) * (2 * STEP)) by (nonlinear_arith)
                requires
                    na < 2 * STEP,
                    nb < 2 * STEP,
            ;
        }
        let p: u128 = na as u128 * nb as u128;
        let e: i32 = ka + kb - 1074;
        proof {
            lemma_product(na as nat, ka as nat, nb as nat, kb as nat);
        }
        let m: u64 = crate::rounding::round_scaled(p, e);
        Double::make(negative, m)
    }

    pub fn over(self, other: Double) -> (r: Double)
        ensures
            r == self.quotient(other),
    {
        if self.is_nan() || other.is_nan() {
            return Double { bits: NAN };
        }
        let negative: bool = self.is_negative() != other.is_negative();
        let (a, b) = (self.word(), other.word());
        if a == INF {
            if b == INF {
                return Double { bits: NAN };
            }
            return Double::make(negative, INF);
        }
        if b == INF {
            return Double::make(negative, 0);
        }
        if b == 0 {
            if a == 0 {
                return Double { bits: NAN };
            }
            return Double::make(negative, INF);
        }
        let (ka, na) = Double::parts(a);
        let (kb, nb) = Double::parts(b);
        proof {
            lemma_units_parts(a as nat);
            lemma_units_parts(b as nat);
            crate::rounding::lemma_two_to_values();
        }
        if a == 0 {
            proof {
                let den = crate::rounding::units(b as nat);
                assert(0 * one() == 0);
                assert(0 * den == 0);
                crate::rounding::lemma_nearest_exact(0, den);
            }
            return Double::make(negative, 0);
        }
        // Bring the dividend up to a full significand.
        let mut x: u64 = na;
        let mut j: i32 = 0;
        proof {
            assert(na * crate::rounding::two_to(0) == na) by (nonlinear_arith)
                requires
                    crate::rounding::two_to(0) == 1,
            ;
        }
        while x < STEP
            invariant
                0 < na < 2 * STEP,
                0 < x < 2 * STEP,
                0 <= j <= 52,
                x == na * crate::rounding::two_to(j as nat),
                x < STEP ==> j < 52,
            decreases 2 * STEP - x,
        {
            proof {
                let t = crate::rounding::two_to(j as nat);
                assert((na * t) * 2 == na * (2 * t)) by (nonlinear_arith);
                crate::rounding::lemma_two_to_values();
                if j == 51 {
                    let h = crate::rounding::two_to(52);
                    assert(h == 2 * t);
                    assert(na * (2 * t) >= STEP) by (nonlinear_arith)
                        requires
                            na >= 1,
                            2 * t == STEP,
                    ;
                }
            }
            x = x * 2;
            j = j + 1;
        }
        let wide: u128 = x as u128 * 0x1_0000_0000_0000_0000;
        let q: u128 = wide / nb as u128;
        let sticky: u128 = if wide % nb as u128 == 0 {
            0
        } else {
            1
        };
        let t: i32 = ka - kb + 1074 - 64 - j;
        proof {
            assert(q >= STEP * 4) by (nonlinear_arith)
                requires
                    q == wide / nb as u128,
                    wide >= STEP * 0x1_0000_0000_0000_0000,
                    0 < nb < 2 * STEP,
            ;
            assert(q <= wide) by (nonlinear_arith)
                requires
                    q == wide / nb as u128,
                    nb >= 1,
            ;
            lemma_quotient(na as nat, ka as nat, nb as nat, kb as nat, j as nat, t as int);
            crate::rounding::lemma_sticky_nearest(wide as nat, nb as nat, t as int);
        }
        let m: u64 = crate::rounding::round_scaled(2 * q + sticky, t - 1);
        Double::make(negative, m)
    }

    pub fn from_word(n: u64) -> (r: Double)
        ensures
            r == Double::whole(n as nat),
    {
        let m: u64 = crate::rounding::round_scaled(n as u128, 1074);
        Double::make(false, m)
    }

    /// The value as a whole number, rounded down and held to the range.
    pub fn to_word(self) -> (r: u64)
        ensures
            r == self.floor_word(),
    {
        let (q, _) = self.split();
        q
    }

    /// The value as a whole number, rounded up and held to the range.
    pub fn to_word_up(self) -> (r: u64)
        ensures
            r == self.ceil_word(),
    {
        let (q, exact) = self.split();
        proof {
            crate::rounding::lemma_two_to_pos(1074);
            let v = self.value();
            let w = one() as int;
            if !self.nan() && v > 0 {
                vstd::arithmetic::div_mod::lemma_fundamental_div_mod(v, w);
                if v % w == 0 {
                    assert(v + w - 1 == (v / w) * w + (w - 1)) by (nonlinear_arith)
                        requires
                            v == w * (v / w) + v % w,
                            v % w == 0,
                    ;
                    vstd::arithmetic::div_mod::lemma_fundamental_div_mod_converse(
                        v + w - 1,
                        w,
                        v / w,
                        w - 1,
                    );
                } else {
                    assert(v + w - 1 == (v / w + 1) * w + (v % w - 1)) by (nonlinear_arith)
                        requires
                            v == w * (v / w) + v % w,
                    ;
                    vstd::arithmetic::div_mod::lemma_fundamental_div_mod_converse(
                        v + w - 1,
                        w,
                        v / w + 1,
                        v % w - 1,
                    );
                }
            }
        }
        if exact || q == u64::MAX {
            q
        } else {
            q + 1
        }
    }

    /// The whole part of the value, held to the range, and whether nothing of
    /// the value was left over.
    pub(crate) fn split(self) -> (r: (u64, bool))
        ensures
            r.0 == self.floor_word(),
            self.nan() || self.value() <= 0 ==> r.1,
            !self.nan() && self.value() > 0 && self.value() / (one() as int) <= u64::MAX ==> r.1
                == (self.value() % (one() as int) == 0),
    {
        let m: u64 = self.word();
        proof {
            lemma_units_parts(m as nat);
            crate::rounding::lemma_two_to_pos(1074);
            crate::rounding::lemma_two_to_values();
        }
        if m > INF || self.is_negative() || m == 0 {
            return (0, true);
        }
        let (k, n) = Double::parts(m);
        let ghost w = one();
        let ghost v = crate::rounding::units(m as nat);
        if k >= 1074 {
            let up: i32 = k - 1074;
            proof {
                crate::rounding::lemma_two_to_add(up as nat, 1074);
                let f = crate::rounding::two_to(up as nat);
                assert(v == (n * f) * w) by (nonlinear_arith)
                    requires
                        v == n * crate::rounding::two_to(k as nat),
                        crate::rounding::two_to(k as nat) == f * w,
                ;
                vstd::arithmetic::div_mod::lemma_fundamental_div_mod_converse(
                    v as int,
                    w as int,
                    (n * f) as int,
                    0,
                );
            }
            if up >= 12 {
                proof {
                    crate::rounding::lemma_two_to_mono(12, up as nat);
                    assert(crate::rounding::two_to(12) == 4096) by {
                        reveal_with_fuel(crate::rounding::two_to, 3);
                    }
                    let f = crate::rounding::two_to(up as nat);
                    assert(n * f > u64::MAX) by (nonlinear_arith)
                        requires
                            n >= STEP,
                            f >= 4096,
                    ;
                }
                return (u64::MAX, true);
            }
            let f: u128 = crate::rounding::word_two_to(up as u32);
            proof {
                crate::rounding::lemma_two_to_mono(up as nat, 11);
                assert(n * f < 2 * STEP * 2048) by (nonlinear_arith)
                    requires
                        n < 2 * STEP,
                        0 < f <= 2048,
                ;
            }
            let whole: u128 = n as u128 * f;
            ((whole as u64), true)
        } else {
            let down: i32 = 1074 - k;
            proof {
                crate::rounding::lemma_two_to_add(down as nat, k as nat);
                crate::rounding::lemma_two_to_pos(k as nat);
                crate::rounding::lemma_two_to_pos(down as nat);
            }
            let ghost u = crate::rounding::two_to(k as nat);
            let ghost f = crate::rounding::two_to(down as nat);
            proof {
                // Both sides share the factor 2^k.
                let q = n as nat / f;
                let r = n as nat % f;
                vstd::arithmetic::div_mod::lemma_fundamental_div_mod(n as int, f as int);
                assert(v == q * w + r * u && 0 <= r * u < w) by (nonlinear_arith)
                    requires
                        v == n * u,
                        w == f * u,
                        n == f * q + r,
                        0 <= r < f,
                        u > 0,
                ;
                vstd::arithmetic::div_mod::lemma_fundamental_div_mod_converse(
                    v as int,
                    w as int,
                    q as int,
                    (r * u) as int,
                );
                assert(r * u == 0 <==> r == 0) by (nonlinear_arith)
                    requires
                        u > 0,
                ;
            }
            if down >= 64 {
                proof {
                    crate::rounding::lemma_two_to_mono(64, down as nat);
                    vstd::arithmetic::div_mod::lemma_fundamental_div_mod_converse(
                        n as int,
                        f as int,
                        0,
                        n as int,
                    );
                }
                return (0, false);
            }
            let d: u128 = crate::rounding::word_two_to(down as u32);
            let whole: u128 = n as u128 / d;
            proof {
                assert(whole <= n) by (nonlinear_arith)
                    requires
                        whole == n as u128 / d,
                        d >= 1,
                ;
            }
            ((whole as u64), n as u128 % d == 0)
        }
    }
}

/// The exact product of two doubles, by exponents and significands.
proof fn lemma_product(na: nat, ka: nat, nb: nat, kb: nat)
    ensures
        crate::rounding::nearest(
            crate::rounding::scaled_num(na * nb, ka + kb - 1074),
            crate::rounding::scaled_den(ka + kb - 1074),
        ) == crate::rounding::nearest(
            (na * crate::rounding::two_to(ka)) * (nb * crate::rounding::two_to(kb)),
            one(),
        ),
{
    let e = ka + kb - 1074;
    let p = na * nb;
    let u = crate::rounding::two_to(ka);
    let v = crate::rounding::two_to(kb);
    let w = one();
    crate::rounding::lemma_two_to_add(ka, kb);
    crate::rounding::lemma_two_to_pos(1074);
    let num = crate::rounding::scaled_num(p, e);
    let den = crate::rounding::scaled_den(e);
    let exact = (na * u) * (nb * v);
    assert(exact == p * (u * v)) by (nonlinear_arith)
        requires
            exact == (na * u) * (nb * v),
            p == na * nb,
    ;
    if e >= 0 {
        let t = crate::rounding::two_to(e as nat);
        crate::rounding::lemma_two_to_add(e as nat, 1074);
        assert(num * w == exact * den) by (nonlinear_arith)
            requires
                num == p * t,
                exact == p * (u * v),
                u * v == t * w,
                den == 1,
        ;
    } else {
        let t = crate::rounding::two_to((-e) as nat);
        crate::rounding::lemma_two_to_pos((-e) as nat);
        crate::rounding::lemma_two_to_add(ka + kb, (-e) as nat);
        assert(num * w == exact * den) by (nonlinear_arith)
            requires
                num == p,
                exact == p * (u * v),
                (u * v) * t == w,
                den == t,
        ;
    }
    crate::rounding::lemma_nearest_ratio(num, den, exact, w);
}

/// The exact quotient of two doubles, by exponents and significands, with the
/// dividend shifted up by `j` and by a word.
proof fn lemma_quotient(na: nat, ka: nat, nb: nat, kb: nat, j: nat, t: int)
    requires
        nb > 0,
        t == ka - kb + 1074 - 64 - j,
    ensures
        ({
            let x = (na * crate::rounding::two_to(j)) * 0x1_0000_0000_0000_0000;
            crate::rounding::nearest(
                crate::rounding::scaled_num(x, t),
                nb * crate::rounding::scaled_den(t),
            ) == crate::rounding::nearest(
                (na * crate::rounding::two_to(ka)) * one(),
                nb * crate::rounding::two_to(kb),
            )
        }),
{
    let tj = crate::rounding::two_to(j);
    let x = (na * tj) * 0x1_0000_0000_0000_0000;
    let u = crate::rounding::two_to(ka);
    let v = crate::rounding::two_to(kb);
    let w = one();
    crate::rounding::lemma_two_to_values();
    crate::rounding::lemma_two_to_pos(kb);
    crate::rounding::lemma_two_to_add(j, 64);
    let f = crate::rounding::two_to(j + 64);
    assert(x == na * f) by (nonlinear_arith)
        requires
            x == (na * tj) * 0x1_0000_0000_0000_0000,
            f == tj * 0x1_0000_0000_0000_0000,
    ;
    crate::rounding::lemma_two_to_add(ka, 1074);
    let num = crate::rounding::scaled_num(x, t);
    let den = nb * crate::rounding::scaled_den(t);
    let a = (na * u) * w;
    let b = nb * v;
    if t >= 0 {
        let g = crate::rounding::two_to(t as nat);
        crate::rounding::lemma_two_to_add(j + 64, t as nat);
        crate::rounding::lemma_two_to_add(j + 64 + t as nat, kb);
        assert(num * b == a * den && den > 0 && b > 0) by (nonlinear_arith)
            requires
                num == (na * f) * g,
                den == nb * 1,
                a == (na * u) * w,
                b == nb * v,
                u * w == (f * g) * v,
                nb > 0,
                v > 0,
        ;
    } else {
        let g = crate::rounding::two_to((-t) as nat);
        crate::rounding::lemma_two_to_pos((-t) as nat);
        crate::rounding::lemma_two_to_add(ka + 1074, (-t) as nat);
        crate::rounding::lemma_two_to_add(j + 64, kb);
        assert(num * b == a * den && den > 0 && b > 0) by (nonlinear_arith)
            requires
                num == na * f,
                den == nb * g,
                a == (na * u) * w,
                b == nb * v,
                (u * w) * g == f * v,
                nb > 0,
                v > 0,
                g > 0,
        ;
    }
    crate::rounding::lemma_nearest_ratio(num, den, a, b);
}

} // verus!
