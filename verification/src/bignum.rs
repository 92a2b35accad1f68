//! Natural numbers of any size, for reading decimals exactly.
use vstd::prelude::*;

verus! {

/// The weight of limb `i`.
pub open spec fn weight(i: nat) -> nat {
    crate::rounding::two_to(64 * i)
}

/// What a sequence of limbs amounts to, the lowest limb first.
pub open spec fn amount(s: Seq<u64>) -> nat
    decreases s.len(),
{
    if s.len() == 0 {
        0
    } else {
        amount(s.drop_last()) + s.last() as nat * weight((s.len() - 1) as nat)
    }
}

/// A natural number of any size.
#[derive(Debug)]
pub struct Big {
    limbs: Vec<u64>,
}

impl View for Big {
    type V = nat;

    closed spec fn view(&self) -> nat {
        amount(self.limbs@)
    }
}

proof fn lemma_weight(i: nat)
    ensures
        weight(i) > 0,
        weight(i + 1) == weight(i) * 0x1_0000_0000_0000_0000,
        weight(0) == 1,
{
    crate::rounding::lemma_two_to_values();
    crate::rounding::lemma_two_to_pos(64 * i);
    crate::rounding::lemma_two_to_add(64 * i, 64);
}

proof fn lemma_amount_bound(s: Seq<u64>)
    ensures
        amount(s) < weight(s.len()),
    decreases s.len(),
{
    if s.len() > 0 {
        let i = (s.len() - 1) as nat;
        lemma_amount_bound(s.drop_last());
        lemma_weight(i);
        let w = weight(i);
        let x = s.last() as nat;
        assert(amount(s.drop_last()) + x * w < w * 0x1_0000_0000_0000_0000) by (nonlinear_arith)
            requires
                amount(s.drop_last()) < w,
                x + 1 <= 0x1_0000_0000_0000_0000,
        ;
    } else {
        lemma_weight(0);
    }
}

impl Big {
    pub fn new(n: u64) -> (r: Big)
        ensures
            r@ == n,
    {
        let mut limbs: Vec<u64> = Vec::new();
        limbs.push(n);
        proof {
            lemma_weight(0);
            assert(limbs@.drop_last() =~= Seq::<u64>::empty());
            assert(n as nat * weight(0) == n) by (nonlinear_arith)
                requires
                    weight(0) == 1,
            ;
            reveal_with_fuel(amount, 2);
        }
        Big { limbs }
    }

    pub fn copy(&self) -> (r: Big)
        ensures
            r@ == self@,
    {
        let limbs: Vec<u64> = self.limbs.clone();
        assert(limbs@ =~= self.limbs@);
        Big { limbs }
    }

    /// Multiply by a word and add a word.
    pub fn scale(&mut self, f: u64, c: u64)
        ensures
            final(self)@ == old(self)@ * f + c,
    {
        let mut out: Vec<u64> = Vec::new();
        let mut carry: u64 = c;
        let mut i: usize = 0;
        let ghost s = self.limbs@;
        proof {
            lemma_weight(0);
            assert(s.take(0) =~= Seq::<u64>::empty());
            assert(carry * weight(0) == carry) by (nonlinear_arith)
                requires
                    weight(0) == 1,
            ;
            assert(amount(s.take(0)) * f == 0) by (nonlinear_arith)
                requires
                    amount(s.take(0)) == 0,
            ;
        }
        while i < self.limbs.len()
            invariant
                i <= self.limbs.len(),
                self.limbs@ == s,
                out.len() == i,
                amount(out@) + carry * weight(i as nat) == amount(s.take(i as int)) * f + c,
            decreases self.limbs.len() - i,
        {
            let x: u64 = self.limbs[i];
            proof {
                assert(x * f + carry <= 0xffff_ffff_ffff_ffff * 0xffff_ffff_ffff_ffff
                    + 0xffff_ffff_ffff_ffff) by (nonlinear_arith)
                    requires
                        x <= 0xffff_ffff_ffff_ffff,
                        f <= 0xffff_ffff_ffff_ffff,
                        carry <= 0xffff_ffff_ffff_ffff,
                ;
                assert(x * f >= 0) by (nonlinear_arith);
            }
            let t: u128 = x as u128 * f as u128 + carry as u128;
            let low: u64 = (t % 0x1_0000_0000_0000_0000) as u64;
            let high: u64 = (t / 0x1_0000_0000_0000_0000) as u64;
            let ghost old_out = out@;
            out.push(low);
            proof {
                assert(out@.drop_last() =~= old_out);
                assert(s.take(i + 1).drop_last() =~= s.take(i as int));
                lemma_weight(i as nat);
                let w = weight(i as nat);
                let a = amount(s.take(i as int));
                assert((amount(old_out) + low * w) + high * (w * 0x1_0000_0000_0000_0000) == (a + x
                    * w) * f + c) by (nonlinear_arith)
                    requires
                        amount(old_out) + carry * w == a * f + c,
                        x * f + carry == low + high * 0x1_0000_0000_0000_0000,
                ;
            }
            carry = high;
            i = i + 1;
        }
        let ghost old_out = out@;
        out.push(carry);
        proof {
            assert(out@.drop_last() =~= old_out);
            assert(s.take(i as int) =~= s);
        }
        self.limbs = out;
    }

    /// Multiply by 2 to the power `k`.
    pub fn shift(&mut self, k: u32)
        ensures
            final(self)@ == old(self)@ * crate::rounding::two_to(k as nat),
    {
        let mut left: u32 = k;
        let ghost start = self@;
        proof {
            crate::rounding::lemma_two_to_values();
            assert(start * crate::rounding::two_to(0) == start) by (nonlinear_arith)
                requires
                    crate::rounding::two_to(0) == 1,
            ;
        }
        while left > 0
            invariant
                left <= k,
                self@ == start * crate::rounding::two_to((k - left) as nat),
            decreases left,
        {
            let step: u32 = if left > 32 {
                32
            } else {
                left
            };
            let f: u128 = crate::rounding::word_two_to(step);
            proof {
                crate::rounding::lemma_two_to_values();
                crate::rounding::lemma_two_to_mono(step as nat, 52);
                crate::rounding::lemma_two_to_add((k - left) as nat, step as nat);
                let t = crate::rounding::two_to((k - left) as nat);
                assert((start * t) * f == start * (t * f)) by (nonlinear_arith);
            }
            self.scale(f as u64, 0);
            left = left - step;
        }
    }

    fn limb(&self, i: usize) -> (x: u64)
        ensures
            x == (if i < self.limbs@.len() {
                self.limbs@[i as int]
            } else {
                0
            }),
    {
        if i < self.limbs.len() {
            self.limbs[i]
        } else {
            0
        }
    }

    /// How two numbers compare: below, and equal.
    pub fn compare(&self, other: &Big) -> (r: (bool, bool))
        ensures
            r.0 == (self@ < other@),
            r.1 == (self@ == other@),
    {
        let n: usize = if self.limbs.len() > other.limbs.len() {
            self.limbs.len()
        } else {
            other.limbs.len()
        };
        let mut below: bool = false;
        let mut equal: bool = true;
        let mut i: usize = 0;
        let ghost a = self.limbs@;
        let ghost b = other.limbs@;
        while i < n
            invariant
                i <= n,
                a == self.limbs@,
                b == other.limbs@,
                n == a.len() || n == b.len(),
                n >= a.len() && n >= b.len(),
                below == (amount(low(a, i as nat)) < amount(low(b, i as nat))),
                equal == (amount(low(a, i as nat)) == amount(low(b, i as nat))),
            decreases n - i,
        {
            let x: u64 = self.limb(i);
            let y: u64 = other.limb(i);
            proof {
                lemma_low_step(a, i as nat);
                lemma_low_step(b, i as nat);
                lemma_low_bound(a, i as nat);
                lemma_low_bound(b, i as nat);
                let w = weight(i as nat);
                let p = amount(low(a, i as nat));
                let q = amount(low(b, i as nat));
                if x < y {
                    assert(p + x * w < q + y * w) by (nonlinear_arith)
                        requires
                            p < w,
                            q >= 0,
                            x + 1 <= y,
                    ;
                } else if y < x {
                    assert(q + y * w < p + x * w) by (nonlinear_arith)
                        requires
                            q < w,
                            p >= 0,
                            y + 1 <= x,
                    ;
                }
            }
            if x < y {
                below = true;
                equal = false;
            } else if y < x {
                below = false;
                equal = false;
            }
            i = i + 1;
        }
        proof {
            assert(low(a, n as nat) =~= a);
            assert(low(b, n as nat) =~= b);
        }
        (below, equal)
    }
}

/// The lowest `i` limbs, or all of them.
spec fn low(s: Seq<u64>, i: nat) -> Seq<u64> {
    if i <= s.len() {
        s.take(i as int)
    } else {
        s
    }
}

proof fn lemma_low_step(s: Seq<u64>, i: nat)
    ensures
        amount(low(s, i + 1)) == amount(low(s, i)) + (if i < s.len() {
            s[i as int]
        } else {
            0
        }) as nat * weight(i),
{
    if i < s.len() {
        assert(s.take(i as int + 1).drop_last() =~= s.take(i as int));
    } else {
        assert(s.take(s.len() as int) =~= s);
        assert(0 * weight(i) == 0) by (nonlinear_arith);
    }
}

proof fn lemma_low_bound(s: Seq<u64>, i: nat)
    ensures
        amount(low(s, i)) < weight(i),
{
    lemma_amount_bound(low(s, i));
    if i > s.len() {
        crate::rounding::lemma_two_to_mono(64 * s.len(), 64 * i);
    }
}

} // verus!
