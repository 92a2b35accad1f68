//! Between doubles and whole numbers, and the larger and smaller of two.
use crate::double::Double;
use crate::rounding::{INF, STEP};
use vstd::prelude::*;

verus! {

impl Double {
    /// The whole number nearest to the value, halves up, held to the range of
    /// `u64`; zero for what is negative or not a number.
    pub open spec fn round_word(self) -> int {
        let q = (2 * self.value() + crate::double::one()) / (2 * crate::double::one() as int);
        if self.nan() || self.value() <= 0 {
            0
        } else if q <= u64::MAX {
            q
        } else {
            u64::MAX as int
        }
    }

    /// The double nearest to an integer.
    pub open spec fn integer(n: int) -> Double {
        Double::of(
            n < 0,
            crate::rounding::nearest(crate::double::size(n) * crate::double::one(), 1),
        )
    }

    /// An integer held to the range of `i32`.
    pub open spec fn held(n: int) -> int {
        if n < i32::MIN {
            i32::MIN as int
        } else if n > i32::MAX {
            i32::MAX as int
        } else {
            n
        }
    }

    /// The value without its fraction, held to the range of `i32`; zero for
    /// what is not a number.
    pub open spec fn trunc_int(self) -> int {
        let q = crate::double::size(self.value()) / crate::double::one();
        if self.nan() {
            0
        } else if self.value() < 0 {
            Double::held(-(q as int))
        } else {
            Double::held(q as int)
        }
    }

    /// The smallest integer not below the value, held to the range of `i32`;
    /// zero for what is not a number.
    pub open spec fn ceil_int(self) -> int {
        if self.nan() {
            0
        } else if self.value() <= 0 {
            Double::held(-((crate::double::size(self.value()) / crate::double::one()) as int))
        } else {
            Double::held(
                (self.value() + crate::double::one() - 1) / (crate::double::one() as int),
            )
        }
    }

    /// The larger of two; the other one where a side is not a number.
    pub open spec fn larger(self, other: Double) -> Double {
        if self.nan() || self.below(other) {
            other
        } else {
            self
        }
    }

    /// The smaller of two; the other one where a side is not a number.
    pub open spec fn smaller(self, other: Double) -> Double {
        if self.nan() || other.below(self) {
            other
        } else {
            self
        }
    }

    /// The smallest whole number not below what is not negative. From 2^53 on
    /// every double is whole.
    pub open spec fn raised(self) -> Double {
        if self.at_most(Double::whole(0x20_0000_0000_0000)) {
            Double::whole(self.ceil_word() as nat)
        } else {
            self
        }
    }

    /// The largest whole number not above what is not negative. From 2^53 on
    /// every double is whole.
    pub open spec fn lowered(self) -> Double {
        if self.at_most(Double::whole(0x20_0000_0000_0000)) {
            Double::whole(self.floor_word() as nat)
        } else {
            self
        }
    }

    /// The value twice over.
    fn twice(self) -> (r: Double)
        requires
            self.finite(),
            self.magnitude() < INF - STEP,
        ensures
            r.finite(),
            r.negative() == self.negative(),
            r.value() == 2 * self.value(),
    {
        let m: u64 = self.word();
        let d: u64 = if m >= STEP {
            m + STEP
        } else {
            m + m
        };
        proof {
            crate::rounding::lemma_parts(m as nat);
            let k = crate::rounding::exponent(m as nat);
            let n = crate::rounding::significand(m as nat);
            if m >= STEP {
                assert((k + 1) * STEP == k * STEP + STEP) by (nonlinear_arith);
                assert(n >= STEP) by {
                    if k == 0 {
                        assert(0 * STEP == 0);
                    }
                }
                crate::rounding::lemma_parts_unique(k + 1, n);
                assert(n * (2 * crate::rounding::two_to(k)) == 2 * (n * crate::rounding::two_to(k)))
                    by (nonlinear_arith);
            } else {
                assert(0 * STEP == 0);
                crate::rounding::lemma_parts_unique(0, d as nat);
                crate::rounding::lemma_parts_unique(0, m as nat);
                assert(crate::rounding::two_to(0) == 1);
                assert(d as nat * 1 == d && m as nat * 1 == m);
            }
        }
        Double::make(self.is_negative(), d)
    }

    /// The value as a whole number, rounded to the nearest, halves up.
    pub fn to_word_nearest(self) -> (r: u64)
        ensures
            r == self.round_word(),
    {
        let (q, exact) = self.split();
        let ghost v = self.value();
        let ghost w = crate::double::one() as int;
        proof {
            crate::rounding::lemma_two_to_pos(1074);
            if !self.nan() && v > 0 {
                vstd::arithmetic::div_mod::lemma_fundamental_div_mod(v, w);
                if v % w == 0 {
                    assert(2 * v + w == (v / w) * (2 * w) + w) by (nonlinear_arith)
                        requires
                            v == w * (v / w),
                    ;
                    vstd::arithmetic::div_mod::lemma_fundamental_div_mod_converse(
                        2 * v + w,
                        2 * w,
                        v / w,
                        w,
                    );
                } else {
                    vstd::arithmetic::div_mod::lemma_fundamental_div_mod(2 * v + w, 2 * w);
                    assert((2 * v + w) / (2 * w) >= v / w) by (nonlinear_arith)
                        requires
                            v == w * (v / w) + v % w,
                            v % w >= 0,
                            2 * v + w == (2 * w) * ((2 * v + w) / (2 * w)) + (2 * v + w) % (2 * w),
                            (2 * v + w) % (2 * w) < 2 * w,
                            w > 0,
                    ;
                }
            }
        }
        if exact || q == u64::MAX {
            return q;
        }
        proof {
            lemma_fraction_small(self);
        }
        let (t, _) = self.twice().split();
        proof {
            let t = (2 * v) / w;
            vstd::arithmetic::div_mod::lemma_fundamental_div_mod(2 * v, w);
            let r = (2 * v) % w;
            let h = (t + 1) / 2;
            let s = (t + 1) % 2;
            assert(2 * v + w == h * (2 * w) + (s * w + r) && 0 <= s * w + r < 2 * w && t <= 2 * (v
                / w) + 1) by (nonlinear_arith)
                requires
                    2 * v == w * t + r,
                    0 <= r < w,
                    t + 1 == 2 * h + s,
                    0 <= s < 2,
                    v == w * (v / w) + v % w,
                    0 <= v % w < w,
                    w > 0,
            ;
            vstd::arithmetic::div_mod::lemma_fundamental_div_mod_converse(
                2 * v + w,
                2 * w,
                h,
                s * w + r,
            );
            assert(v / w < 2 * STEP) by (nonlinear_arith)
                requires
                    v == w * (v / w) + v % w,
                    0 <= v % w,
                    v < (2 * STEP) * w,
                    w > 0,
            ;
        }
        t / 2 + t % 2
    }

    /// The double nearest to an integer.
    pub fn from_int(n: i64) -> (r: Double)
        ensures
            r == Double::integer(n as int),
    {
        let size: u64 = if n < 0 {
            (-(n as i128)) as u64
        } else {
            n as u64
        };
        let d: Double = Double::from_word(size);
        proof {
            crate::order::lemma_of(
                false,
                crate::rounding::nearest(size as nat * crate::double::one(), 1),
            );
        }
        Double::make(n < 0, d.word())
    }

    /// The value without its fraction, held to the range.
    pub fn to_i32(self) -> (r: i32)
        ensures
            r == self.trunc_int(),
    {
        if self.is_nan() {
            return 0;
        }
        let q: u64 = Double::make(false, self.word()).to_word();
        proof {
            lemma_size(self);
        }
        if self.is_negative() {
            if q >= 0x8000_0000 {
                i32::MIN
            } else {
                -(q as i32)
            }
        } else if q >= 0x7fff_ffff {
            i32::MAX
        } else {
            q as i32
        }
    }

    /// The value rounded up to an integer, held to the range.
    pub fn to_i32_up(self) -> (r: i32)
        ensures
            r == self.ceil_int(),
    {
        if self.is_nan() {
            return 0;
        }
        proof {
            lemma_size(self);
        }
        if self.is_negative() {
            return self.to_i32();
        }
        let q: u64 = self.to_word_up();
        if q >= 0x7fff_ffff {
            i32::MAX
        } else {
            q as i32
        }
    }

    pub fn max(self, other: Double) -> (r: Double)
        ensures
            r == self.larger(other),
    {
        if self.is_nan() || self.lt(other) {
            other
        } else {
            self
        }
    }

    pub fn min(self, other: Double) -> (r: Double)
        ensures
            r == self.smaller(other),
    {
        if self.is_nan() || other.lt(self) {
            other
        } else {
            self
        }
    }

    pub fn ceil(self) -> (r: Double)
        ensures
            r == self.raised(),
    {
        if self.le(Double::from_word(0x20_0000_0000_0000)) {
            Double::from_word(self.to_word_up())
        } else {
            self
        }
    }
}

impl Double {
    pub fn floor(self) -> (r: Double)
        ensures
            r == self.lowered(),
    {
        if self.le(Double::from_word(0x20_0000_0000_0000)) {
            Double::from_word(self.to_word())
        } else {
            self
        }
    }
}

/// What has a fraction is below 2^53.
proof fn lemma_fraction_small(d: Double)
    requires
        !d.nan(),
        d.value() > 0,
        d.value() % (crate::double::one() as int) != 0,
    ensures
        d.magnitude() < INF - STEP,
        d.finite(),
        d.value() < (2 * STEP) * crate::double::one(),
{
    let m = d.magnitude();
    let w = crate::double::one();
    crate::double::lemma_units_parts(m);
    let k = crate::rounding::exponent(m);
    let n = crate::rounding::significand(m);
    if k >= 1074 {
        crate::rounding::lemma_two_to_add((k - 1074) as nat, 1074);
        let f = crate::rounding::two_to((k - 1074) as nat);
        assert(d.value() == (n * f) * w) by (nonlinear_arith)
            requires
                d.value() == n * crate::rounding::two_to(k),
                crate::rounding::two_to(k) == f * w,
        ;
        crate::rounding::lemma_two_to_pos(1074);
        vstd::arithmetic::div_mod::lemma_fundamental_div_mod_converse(
            d.value(),
            w as int,
            (n * f) as int,
            0,
        );
    }
    crate::rounding::lemma_two_to_mono(k, 1074);
    crate::rounding::lemma_two_to_pos(k);
    assert(n * crate::rounding::two_to(k) < (2 * STEP) * w) by (nonlinear_arith)
        requires
            n < 2 * STEP,
            0 < crate::rounding::two_to(k) <= w,
    ;
    crate::rounding::lemma_parts(m);
    assert(m < INF - STEP) by (nonlinear_arith)
        requires
            m == k * STEP + n,
            k < 1074,
            n < 2 * STEP,
    ;
}

/// The size of a value is the value of its magnitude.
proof fn lemma_size(d: Double)
    requires
        !d.nan(),
    ensures
        Double::of(false, d.magnitude()).value() == crate::double::size(d.value()),
        !Double::of(false, d.magnitude()).nan(),
        d.negative() ==> d.value() <= 0,
        !d.negative() ==> d.value() >= 0,
        crate::double::size(d.value()) / crate::double::one() >= 0,
        d.value() == 0 ==> crate::double::size(d.value()) / crate::double::one() == 0,
{
    crate::order::lemma_of(false, d.magnitude());
    crate::rounding::lemma_two_to_pos(1074);
    vstd::arithmetic::div_mod::lemma_div_pos_is_pos(
        crate::double::size(d.value()) as int,
        crate::double::one() as int,
    );
    vstd::arithmetic::div_mod::lemma_div_of0(crate::double::one() as int);
}

} // verus!
