//! Reveal, hold and vanish timing in milliseconds, independent of any clock.
//! The hold starts after the reveal completes.
use crate::config::{Reveal, Vanish};
use crate::double::Double;
use crate::rounding::INF;
use vstd::prelude::*;

verus! {

/// One step of xorshift.
pub open spec fn shuffled(x: u64) -> u64 {
    let a = x ^ (x << 13);
    let b = a ^ (a >> 7);
    b ^ (b << 17)
}

/// The number drawn from a state, from 0 up to 1.
pub open spec fn unit_of(x: u64) -> Double {
    Double::whole((x >> 11) as nat).quotient(Double::whole(0x20_0000_0000_0000))
}

/// Seeded xorshift64 for reproducible typing jitter.
#[derive(Clone, Copy, Debug, PartialEq, Eq, Structural)]
pub struct Rng {
    pub state: u64,
}

/// A step never leaves the states that are not zero.
pub proof fn lemma_shuffled(x: u64)
    requires
        x != 0,
    ensures
        shuffled(x) != 0,
{
    assert(x != 0 ==> x ^ (x << 13) != 0) by (bit_vector);
    let a = x ^ (x << 13);
    assert(a != 0 ==> a ^ (a >> 7) != 0) by (bit_vector);
    let b = a ^ (a >> 7);
    assert(b != 0 ==> b ^ (b << 17) != 0) by (bit_vector);
}

impl Rng {
    /// Zero is a fixed point of xorshift; anything else is fine.
    pub fn new(seed: u64) -> (r: Rng)
        ensures
            r.state == seed | 1,
            r.state != 0,
    {
        assert(seed | 1 != 0) by (bit_vector);
        Rng { state: seed | 1 }
    }

    /// Uniform in 0.0..1.0.
    pub fn unit(&mut self) -> (u: Double)
        ensures
            final(self).state == shuffled(old(self).state),
            u == unit_of(final(self).state),
            old(self).state != 0 ==> final(self).state != 0,
    {
        let mut x: u64 = self.state;
        proof {
            if x != 0 {
                lemma_shuffled(x);
            }
        }
        x = x ^ (x << 13);
        x = x ^ (x >> 7);
        x = x ^ (x << 17);
        self.state = x;
        Double::from_word(x >> 11).over(Double::from_word(0x20_0000_0000_0000))
    }
}

/// What is on screen at a moment.
#[derive(Clone, Copy, Debug, PartialEq, Eq, Structural)]
pub enum Phase {
    /// Text is still being typed out; `chars` are visible so far.
    Reveal { chars: usize },
    /// Fully visible, waiting out the timeout.
    Hold,
    /// Going away; `p` runs 0.0 -> 1.0.
    Vanish { p: Double },
    /// Nothing left to draw; the window can close.
    Done,
}

/// A number held between 0 and 1. What is not a number stays so.
pub open spec fn clamped(d: Double) -> Double {
    if d.below(Double::whole(0)) {
        Double::whole(0)
    } else if Double::whole(1).below(d) {
        Double::whole(1)
    } else {
        d
    }
}

pub fn clamp(d: Double) -> (r: Double)
    ensures
        r == clamped(d),
{
    if d.lt(Double::from_word(0)) {
        Double::from_word(0)
    } else if Double::from_word(1).lt(d) {
        Double::from_word(1)
    } else {
        d
    }
}

/// How much longer than nominal a gap is, for the number drawn.
pub open spec fn gap_factor(jitter: Double, unit: Double) -> Double {
    Double::whole(1).sum(
        jitter.product(unit.product(Double::whole(2)).difference(Double::whole(1))),
    )
}

/// The moment of the next character after one typed at `t`, for the
/// state drawn from.
#[verifier::opaque]
pub open spec fn next_typed(t: Double, base: Double, jitter: Double, x: u64) -> Double {
    t.sum(base.product(gap_factor(jitter, unit_of(x))))
}

/// The moment of the `n`-th typed character, and the state of the draw after
/// it. Each gap is the nominal one, varied by the jitter.
pub open spec fn typed(base: Double, jitter: Double, seed: u64, n: nat) -> (Double, u64)
    decreases n,
{
    if n == 0 {
        (Double::whole(0), seed | 1)
    } else {
        let (t, x) = typed(base, jitter, seed, (n - 1) as nat);
        let y = shuffled(x);
        (next_typed(t, base, jitter, y), y)
    }
}

/// The moments at which the characters appear: the first `shown` at once, the
/// others typed after them. None where nothing is typed.
pub open spec fn steps_of(reveal: Reveal, seed: u64, chars: nat, shown: nat) -> Seq<Double> {
    match reveal {
        Reveal::Instant => Seq::empty(),
        Reveal::Typewriter { cps, jitter, .. } => if cps.at_most(Double::whole(0)) {
            Seq::empty()
        } else {
            let base = Double::whole(1000).quotient(cps);
            Seq::new(
                chars,
                |i: int|
                    if i < shown {
                        Double::whole(0)
                    } else {
                        typed(base, clamped(jitter), seed, (i - shown + 1) as nat).0
                    },
            )
        },
    }
}

/// Which characters sound: those still to be typed that are not white space.
pub open spec fn audible_of(text: Seq<char>, shown: nat) -> Seq<bool> {
    Seq::new(text.len(), |i: int| i >= shown && !crate::text::white(text[i]))
}

/// A timeline, by its moments.
#[verifier::ext_equal]
pub ghost struct TimelineView {
    pub steps: Seq<Double>,
    pub chars: nat,
    pub reveal_ms: Double,
    pub hold_ms: Double,
    pub vanish_ms: Double,
    pub audible: Seq<bool>,
    pub untype: bool,
}

/// The timeline of a block whose first `shown` characters are on screen.
pub open spec fn timeline_of(
    text: Seq<char>,
    reveal: Reveal,
    timeout_ms: u64,
    vanish: Vanish,
    seed: u64,
    shown: nat,
) -> TimelineView {
    let held: nat = if shown < text.len() {
        shown
    } else {
        text.len()
    };
    let steps = steps_of(reveal, seed, text.len(), held);
    TimelineView {
        steps,
        chars: text.len(),
        reveal_ms: if steps.len() > 0 {
            steps.last()
        } else {
            Double::whole(0)
        },
        hold_ms: Double::whole(timeout_ms as nat),
        vanish_ms: Double::whole(vanish.duration() as nat),
        audible: audible_of(text, held),
        untype: vanish is Untype,
    }
}

/// How many moments are not after a time.
pub open spec fn reached(steps: Seq<Double>, t: Double) -> nat
    decreases steps.len(),
{
    if steps.len() == 0 {
        0
    } else {
        reached(steps.drop_last(), t) + if steps.last().at_most(t) {
            1nat
        } else {
            0nat
        }
    }
}

/// The positions that sound, one in `every`.
pub open spec fn blips(audible: Seq<bool>, every: nat) -> Seq<nat>
    decreases audible.len(),
{
    if audible.len() == 0 {
        Seq::empty()
    } else {
        let before = blips(audible.drop_last(), every);
        let i = (audible.len() - 1) as nat;
        if audible.last() && i % every == 0 {
            before.push(i)
        } else {
            before
        }
    }
}

/// The moments in order, none of them missing.
pub open spec fn ascending(steps: Seq<Double>) -> bool {
    forall|i: int, j: int| 0 <= i <= j < steps.len() ==> (#[trigger] steps[i]).at_most(#[trigger] steps[j])
}

impl TimelineView {
    /// What every timeline keeps: as many moments as characters, or none; once
    /// the last moment is a number, the moments are in order; and it is held and
    /// vanishes for a finite time.
    pub open spec fn wf(self) -> bool {
        &&& self.steps.len() == 0 || self.steps.len() == self.chars
        &&& self.audible.len() == self.chars
        &&& self.reveal_ms == if self.steps.len() > 0 {
            self.steps.last()
        } else {
            Double::whole(0)
        }
        &&& !self.reveal_ms.nan() ==> ascending(self.steps)
        &&& self.hold_ms.finite()
        &&& self.vanish_ms.finite()
    }

    /// No part of it takes a negative time.
    pub open spec fn forward(self) -> bool {
        &&& !self.reveal_ms.nan() ==> self.reveal_ms.value() >= 0
        &&& self.hold_ms.value() >= 0
        &&& self.vanish_ms.value() >= 0
    }

    /// Whether reveal, hold and vanish together fit the maximum lifetime.
    pub open spec fn fits_lifetime(self) -> bool {
        let total = total_of(self);
        total.finite() && total.at_most(Double::whole(crate::config::MAX_LIFETIME_MS as nat))
    }

    /// What is on screen at a time.
    pub open spec fn phase(self, t_ms: Double) -> Phase {
        let after_reveal = t_ms.difference(self.reveal_ms);
        let after_hold = after_reveal.difference(self.hold_ms);
        if t_ms.below(self.reveal_ms) {
            Phase::Reveal { chars: reached(self.steps, t_ms) as usize }
        } else if after_reveal.below(self.hold_ms) {
            Phase::Hold
        } else if after_hold.below(self.vanish_ms) {
            Phase::Vanish { p: clamped(after_hold.quotient(self.vanish_ms)) }
        } else {
            Phase::Done
        }
    }

    /// Blip times in seconds from the start.
    pub open spec fn reveal_blips(self, every: nat) -> Seq<Double> {
        if self.steps.len() == 0 {
            Seq::empty()
        } else {
            blips(self.audible, at_least_one(every)).map_values(
                |i: nat| self.steps[i as int].quotient(Double::whole(1000)),
            )
        }
    }

    /// How long an untype takes to erase one character, in seconds.
    pub open spec fn untype_step(self) -> Double {
        self.vanish_ms.quotient(Double::whole(self.chars)).quotient(Double::whole(1000))
    }

    /// When an untype erases a character, in seconds from the start of the
    /// vanish.
    pub open spec fn untype_blip(self, i: nat) -> Double {
        Double::whole((self.chars - i) as nat).product(self.untype_step())
    }

    /// The share of the vanish that has passed at such a moment.
    pub open spec fn untype_share(self, i: nat) -> Double {
        self.untype_blip(i).product(Double::whole(1000)).quotient(self.vanish_ms)
    }

    /// Untype blip times in seconds from the start of the vanish. Erased from
    /// the end at a constant rate: the last character goes first.
    pub open spec fn vanish_blips(self, every: nat) -> Seq<Double> {
        if !self.untype || self.vanish_ms.at_most(Double::whole(0)) || self.chars == 0 {
            Seq::empty()
        } else {
            blips(self.audible, at_least_one(every)).map_values(|i: nat| self.untype_blip(i))
        }
    }

    /// How many characters are visible when a share of the untype has passed.
    pub open spec fn left(self, p: Double) -> int {
        let n = Double::whole(1).difference(p).product(Double::whole(self.chars)).ceil_word();
        if n < self.chars {
            n
        } else {
            self.chars as int
        }
    }
}

pub open spec fn at_least_one(n: nat) -> nat {
    if n == 0 {
        1
    } else {
        n
    }
}

/// Facts about the small whole numbers that the timing is built from.
pub(crate) proof fn lemma_small()
    ensures
        crate::double::one() > 0,
        Double::whole(0).value() == 0,
        !Double::whole(0).nan(),
        Double::whole(1).value() == crate::double::one(),
        Double::whole(1).finite(),
        !Double::whole(1).negative(),
        crate::rounding::units(Double::whole(1).magnitude()) == crate::double::one(),
        Double::whole(2).value() == 2 * crate::double::one(),
        Double::whole(2).finite(),
        !Double::whole(2).negative(),
        crate::rounding::units(Double::whole(2).magnitude()) == 2 * crate::double::one(),
{
    crate::rounding::lemma_two_to_pos(1074);
    crate::order::lemma_whole(0);
    crate::order::lemma_whole(1);
    crate::order::lemma_whole(2);
}

/// A number drawn lies between 0 and 1.
pub proof fn lemma_unit(x: u64)
    ensures
        !unit_of(x).nan(),
        unit_of(x).finite(),
        0 <= unit_of(x).value() <= crate::double::one(),
{
    lemma_small();
    let n = (x >> 11) as nat;
    assert(x >> 11 < 0x20_0000_0000_0000) by (bit_vector);
    crate::order::lemma_whole(n);
    crate::order::lemma_whole(0x20_0000_0000_0000);
    let a = Double::whole(n);
    let b = Double::whole(0x20_0000_0000_0000);
    let w = crate::double::one();
    assert((n * w) * w <= w * (0x20_0000_0000_0000 * w)) by (nonlinear_arith)
        requires
            n <= 0x20_0000_0000_0000,
    ;
    crate::order::lemma_zero(b);
    assert(0x20_0000_0000_0000 * w > 0) by (nonlinear_arith)
        requires
            w > 0,
    ;
    assert(n * w >= 0) by (nonlinear_arith);
    crate::order::lemma_quotient_bound(a, b, Double::whole(1).magnitude());
}

/// A number held between 0 and 1 lies there, unless it is not a number.
pub proof fn lemma_clamped(d: Double)
    ensures
        clamped(d).nan() == d.nan(),
        !d.nan() ==> 0 <= clamped(d).value() <= crate::double::one() && clamped(d).finite(),
{
    lemma_small();
    crate::rounding::lemma_two_to_pos(1074);
    if !d.nan() && d.infinite() {
        crate::rounding::lemma_units_mono(Double::whole(1).magnitude(), INF as nat);
    }
}

/// A gap stays within the jitter of the nominal one, so it is never negative
/// and at most twice that.
pub proof fn lemma_gap_factor(jitter: Double, x: u64)
    requires
        !jitter.nan(),
        0 <= jitter.value() <= crate::double::one(),
        jitter.finite(),
    ensures
        gap_factor(jitter, unit_of(x)).finite(),
        !gap_factor(jitter, unit_of(x)).negative(),
        0 <= gap_factor(jitter, unit_of(x)).value() <= 2 * crate::double::one(),
        Double::whole(1).difference(jitter).at_most(gap_factor(jitter, unit_of(x))),
        gap_factor(jitter, unit_of(x)).at_most(Double::whole(1).sum(jitter)),
{
    lemma_small();
    lemma_unit(x);
    let w = crate::double::one();
    let one = Double::whole(1);
    let two = Double::whole(2);
    let u = unit_of(x);
    assert(crate::double::size(u.value()) * (2 * w) <= (2 * w) * w) by (nonlinear_arith)
        requires
            crate::double::size(u.value()) <= w,
    ;
    crate::order::lemma_product_bound(u, two, two.magnitude());
    let d = u.product(two);
    crate::order::lemma_product_sign(u, two);
    crate::rounding::lemma_units_mono(two.magnitude(), INF as nat);
    crate::order::lemma_negation(one);
    let e = d.difference(one);
    crate::order::lemma_sum(d, one.negation());
    crate::order::lemma_rounded_exact(one);
    crate::order::lemma_rounded_exact(one.negation());
    crate::order::lemma_rounded_mono(-w, d.value() - w);
    crate::order::lemma_rounded_mono(d.value() - w, w as int);
    assert(e.finite()) by {
        if e.infinite() {
            crate::rounding::lemma_units_mono(one.magnitude(), INF as nat);
        }
    }
    let j = crate::double::size(jitter.value());
    assert(j * crate::double::size(e.value()) <= j * w) by (nonlinear_arith)
        requires
            crate::double::size(e.value()) <= w,
    ;
    crate::order::lemma_product_bound(jitter, e, jitter.magnitude());
    let f = jitter.product(e);
    assert(f.finite());
    crate::order::lemma_sum(one, f);
    crate::order::lemma_negation(jitter);
    crate::order::lemma_sum(one, jitter);
    crate::order::lemma_sum(one, jitter.negation());
    crate::order::lemma_rounded_mono(w - j, w + f.value());
    crate::order::lemma_rounded_mono(w + f.value(), (w + j) as int);
    crate::order::lemma_rounded_mono(0, w + f.value());
    crate::order::lemma_rounded_mono(w + f.value(), 2 * w as int);
    crate::order::lemma_rounded_exact(two);
    let r = one.sum(f);
    crate::order::lemma_value_bound(two);
    crate::bounds::lemma_sign(r);
    crate::order::lemma_of(false, 0);
    crate::order::lemma_of(
        false,
        crate::rounding::nearest(crate::double::size(w + f.value()), 1),
    );
}

/// The moments typed so far are in order as long as they are numbers.
proof fn lemma_typed(base: Double, jitter: Double, seed: u64, n: nat, k: nat)
    requires
        k <= n,
        base.nan() || base.value() >= 0,
        jitter.nan() || (0 <= jitter.value() <= crate::double::one() && jitter.finite()),
        !typed(base, jitter, seed, n).0.nan(),
    ensures
        !typed(base, jitter, seed, k).0.nan(),
        typed(base, jitter, seed, k).0.value() >= 0,
        typed(base, jitter, seed, k).0.at_most(typed(base, jitter, seed, n).0),
    decreases n,
{
    lemma_small();
    if n > 0 {
        let (t, x) = typed(base, jitter, seed, (n - 1) as nat);
        let y = shuffled(x);
        let f = gap_factor(jitter, unit_of(y));
        let gap = base.product(f);
        reveal(next_typed);
        assert(Double::not_a_number().nan());
        assert(!t.nan() && !gap.nan() && !f.nan() && !base.nan() && !jitter.nan());
        lemma_gap_factor(jitter, y);
        crate::order::lemma_product_sign(base, f);
        lemma_typed(base, jitter, seed, (n - 1) as nat, (n - 1) as nat);
        crate::order::lemma_sum_grows(t, gap);
        if k < n {
            lemma_typed(base, jitter, seed, (n - 1) as nat, k);
        }
    }
}

/// The nominal gap of a typing speed is not negative.
proof fn lemma_base(cps: Double)
    requires
        !cps.at_most(Double::whole(0)),
    ensures
        ({
            let base = Double::whole(1000).quotient(cps);
            base.nan() || base.value() >= 0
        }),
{
    lemma_small();
    crate::order::lemma_whole(1000);
    assert(1000 * crate::double::one() >= 0);
    if !cps.nan() {
        assert(cps.value() > 0);
        crate::order::lemma_zero(cps);
        assert(!cps.negative()) by {
            crate::rounding::lemma_units_mono(0, cps.magnitude());
        }
        if !Double::whole(1000).quotient(cps).nan() {
            crate::order::lemma_quotient_sign(Double::whole(1000), cps);
        }
    }
}

/// Every timeline keeps its moments in order.
pub proof fn lemma_timeline_wf(
    text: Seq<char>,
    reveal: Reveal,
    timeout_ms: u64,
    vanish: Vanish,
    seed: u64,
    shown: nat,
)
    ensures
        timeline_of(text, reveal, timeout_ms, vanish, seed, shown).wf(),
        timeline_of(text, reveal, timeout_ms, vanish, seed, shown).forward(),
{
    let tl = timeline_of(text, reveal, timeout_ms, vanish, seed, shown);
    let held: nat = if shown < text.len() {
        shown
    } else {
        text.len()
    };
    let steps = tl.steps;
    lemma_small();
    lemma_word_value(timeout_ms);
    lemma_word_value(vanish.duration());
    lemma_not_negative(text, reveal, timeout_ms, vanish, seed, shown);
    if steps.len() > 0 && !tl.reveal_ms.nan() {
        match reveal {
            Reveal::Instant => {},
            Reveal::Typewriter { cps, jitter, .. } => {
                let base = Double::whole(1000).quotient(cps);
                let j = clamped(jitter);
                lemma_base(cps);
                lemma_clamped(jitter);
                let last = (steps.len() - held) as nat;
                assert forall|a: int, b: int| 0 <= a <= b < steps.len() implies (
                #[trigger] steps[a]).at_most(#[trigger] steps[b]) by {
                    if b >= held {
                        lemma_typed(base, j, seed, last, (b - held + 1) as nat);
                        if a >= held {
                            lemma_typed(
                                base,
                                j,
                                seed,
                                (b - held + 1) as nat,
                                (a - held + 1) as nat,
                            );
                        }
                    }
                }
            },
        }
    }
}

/// The moments of one message.
#[derive(Debug)]
pub struct Timeline {
    /// Character reveal times in ascending milliseconds from t0. Empty for
    /// instant reveal. Animation and audio share these times, including jitter.
    steps: Vec<Double>,
    chars: usize,
    reveal_ms: Double,
    hold_ms: Double,
    vanish_ms: Double,
    /// Non-whitespace character positions eligible for blips.
    audible: Vec<bool>,
    /// Untype erases character by character, so it gets blips of its own.
    untype: bool,
}

impl View for Timeline {
    type V = TimelineView;

    closed spec fn view(&self) -> TimelineView {
        TimelineView {
            steps: self.steps@,
            chars: self.chars as nat,
            reveal_ms: self.reveal_ms,
            hold_ms: self.hold_ms,
            vanish_ms: self.vanish_ms,
            audible: self.audible@,
            untype: self.untype,
        }
    }
}

impl Clone for Timeline {
    fn clone(&self) -> (r: Timeline)
        ensures
            r@ == self@,
    {
        proof {
            use_type_invariant(self);
        }
        let steps: Vec<Double> = self.steps.clone();
        let audible: Vec<bool> = self.audible.clone();
        assert(steps@ =~= self.steps@);
        assert(audible@ =~= self.audible@);
        Timeline {
            steps,
            chars: self.chars,
            reveal_ms: self.reveal_ms,
            hold_ms: self.hold_ms,
            vanish_ms: self.vanish_ms,
            audible,
            untype: self.untype,
        }
    }
}

/// The moment of the next character after one typed at `t`.
fn type_next(t: Double, base: Double, jitter: Double, rng: &mut Rng) -> (next: Double)
    ensures
        final(rng).state == shuffled(old(rng).state),
        next == next_typed(t, base, jitter, final(rng).state),
{
    reveal(next_typed);
    let unit: Double = rng.unit();
    let swing: Double = unit.times(Double::from_word(2)).minus(Double::from_word(1));
    let factor: Double = Double::from_word(1).plus(jitter.times(swing));
    t.plus(base.times(factor))
}

/// The moments at which `chars` characters appear, the first `shown` at once.
fn type_out(reveal: &Reveal, seed: u64, chars: usize, shown: usize) -> (steps: Vec<Double>)
    requires
        shown <= chars,
    ensures
        steps@ == steps_of(*reveal, seed, chars as nat, shown as nat),
{
    let mut steps: Vec<Double> = Vec::new();
    match reveal {
        Reveal::Instant => steps,
        Reveal::Typewriter { cps, jitter, .. } => {
            // Defensive fallback for non-positive cps; normal input is
            // validated earlier.
            if cps.le(Double::from_word(0)) {
                return steps;
            }
            let base: Double = Double::from_word(1000).over(*cps);
            let jitter: Double = clamp(*jitter);
            let mut rng: Rng = Rng::new(seed);
            let mut t: Double = Double::from_word(0);
            let ghost all = steps_of(*reveal, seed, chars as nat, shown as nat);
            let mut i: usize = 0;
            while i < chars
                invariant
                    i <= chars,
                    shown <= chars,
                    all.len() == chars,
                    steps@ == all.take(i as int),
                    forall|k: int|
                        0 <= k < chars ==> #[trigger] all[k] == if k < shown {
                            Double::whole(0)
                        } else {
                            typed(base, jitter, seed, (k - shown + 1) as nat).0
                        },
                    (t, rng.state) == typed(
                        base,
                        jitter,
                        seed,
                        if i < shown {
                            0nat
                        } else {
                            (i - shown) as nat
                        },
                    ),
                decreases chars - i,
            {
                if i < shown {
                    steps.push(Double::from_word(0));
                } else {
                    t = type_next(t, base, jitter, &mut rng);
                    steps.push(t);
                }
                assert(all.take(i + 1) =~= all.take(i as int).push(all[i as int]));
                i = i + 1;
            }
            assert(all.take(i as int) =~= all);
            steps
        },
    }
}

/// Which characters sound.
fn listen_for(cs: &Vec<char>, shown: usize) -> (audible: Vec<bool>)
    ensures
        audible@ == audible_of(cs@, shown as nat),
{
    let mut audible: Vec<bool> = Vec::new();
    let mut i: usize = 0;
    while i < cs.len()
        invariant
            i <= cs.len(),
            audible@ == audible_of(cs@, shown as nat).take(i as int),
        decreases cs.len() - i,
    {
        audible.push(i >= shown && !crate::text::is_white(cs[i]));
        proof {
            let all = audible_of(cs@, shown as nat);
            assert(all.take(i + 1) =~= all.take(i as int).push(all[i as int]));
        }
        i = i + 1;
    }
    assert(audible_of(cs@, shown as nat).take(i as int) =~= audible_of(cs@, shown as nat));
    audible
}

/// In order, a step is at or before a time exactly below the count of those
/// that are.
pub(crate) proof fn lemma_reached(steps: Seq<Double>, t: Double, i: int)
    requires
        ascending(steps),
        0 <= i < steps.len(),
        !t.nan(),
    ensures
        steps[i].at_most(t) ==> i < reached(steps, t),
        !steps[i].at_most(t) ==> reached(steps, t) <= i,
        reached(steps, t) <= steps.len(),
    decreases steps.len(),
{
    let rest = steps.drop_last();
    let last = steps.len() - 1;
    assert forall|a: int, b: int| 0 <= a <= b < rest.len() implies (#[trigger] rest[a]).at_most(
        #[trigger] rest[b],
    ) by {
        assert(steps[a].at_most(steps[b]));
    }
    assert(steps[i].at_most(steps[last]));
    if i < last {
        lemma_reached(rest, t, i);
    } else {
        lemma_reached_bound(rest, t);
        if steps[last].at_most(t) {
            assert forall|a: int| 0 <= a < rest.len() implies (#[trigger] rest[a]).at_most(t) by {
                assert(steps[a].at_most(steps[last]));
            }
            lemma_reached_all(rest, t);
        }
    }
}

/// No more moments are reached than there are.
pub proof fn lemma_reached_bound(steps: Seq<Double>, t: Double)
    ensures
        reached(steps, t) <= steps.len(),
    decreases steps.len(),
{
    if steps.len() > 0 {
        lemma_reached_bound(steps.drop_last(), t);
    }
}

proof fn lemma_reached_all(steps: Seq<Double>, t: Double)
    requires
        forall|i: int| 0 <= i < steps.len() ==> (#[trigger] steps[i]).at_most(t),
    ensures
        reached(steps, t) == steps.len(),
    decreases steps.len(),
{
    if steps.len() > 0 {
        let rest = steps.drop_last();
        assert forall|i: int| 0 <= i < rest.len() implies (#[trigger] rest[i]).at_most(t) by {
            assert(steps[i].at_most(t));
        }
        lemma_reached_all(rest, t);
    }
}

impl Timeline {
    #[verifier::type_invariant]
    spec fn in_order(&self) -> bool {
        self@.wf() && self@.forward()
    }

    /// The timeline of a message that is typed from its start.
    pub fn new(text: &str, reveal: &Reveal, timeout_ms: u64, vanish: &Vanish, seed: u64) -> (r:
        Timeline)
        ensures
            r@ == timeline_of(text@, *reveal, timeout_ms, *vanish, seed, 0),
    {
        Timeline::resuming(text, reveal, timeout_ms, vanish, seed, 0)
    }

    /// A timeline for a block whose first `shown` characters are already on
    /// screen.
    ///
    /// They are given a step of zero, so they are visible on the first frame
    /// and the typewriter runs only over what follows. A listener appends a
    /// line to a block that is already up; retyping the whole block on every
    /// arrival is the thing this exists to avoid.
    ///
    /// They do not sound either: a step of zero would otherwise fire every one
    /// of their blips at once at t0.
    pub fn resuming(
        text: &str,
        reveal: &Reveal,
        timeout_ms: u64,
        vanish: &Vanish,
        seed: u64,
        shown: usize,
    ) -> (r: Timeline)
        ensures
            r@ == timeline_of(text@, *reveal, timeout_ms, *vanish, seed, shown as nat),
    {
        let cs: Vec<char> = crate::text::chars_of(text);
        let chars: usize = cs.len();
        let shown: usize = if shown < chars {
            shown
        } else {
            chars
        };
        let steps: Vec<Double> = type_out(reveal, seed, chars, shown);
        let reveal_ms: Double = if steps.len() > 0 {
            steps[steps.len() - 1]
        } else {
            Double::from_word(0)
        };
        let audible: Vec<bool> = listen_for(&cs, shown);
        let hold_ms: Double = Double::from_word(timeout_ms);
        let vanish_ms: Double = Double::from_word(vanish.ms());
        let untype: bool = vanish.is_untype();
        proof {
            lemma_timeline_wf(text@, *reveal, timeout_ms, *vanish, seed, shown as nat);
        }
        Timeline { steps, chars, reveal_ms, hold_ms, vanish_ms, audible, untype }
    }

    /// What is on screen at a time. Sorted steps allow a lookup by bisection.
    pub fn phase_at(&self, t_ms: Double) -> (phase: Phase)
        ensures
            phase == self@.phase(t_ms),
    {
        proof {
            use_type_invariant(self);
        }
        if t_ms.lt(self.reveal_ms) {
            let mut lo: usize = 0;
            let mut hi: usize = self.steps.len();
            proof {
                lemma_reached_bound(self.steps@, t_ms);
            }
            while lo < hi
                invariant
                    lo <= hi <= self.steps@.len(),
                    ascending(self.steps@),
                    !t_ms.nan(),
                    lo <= reached(self.steps@, t_ms) <= hi,
                decreases hi - lo,
            {
                let mid: usize = lo + (hi - lo) / 2;
                proof {
                    lemma_reached(self.steps@, t_ms, mid as int);
                }
                if self.steps[mid].le(t_ms) {
                    lo = mid + 1;
                } else {
                    hi = mid;
                }
            }
            return Phase::Reveal { chars: lo };
        }
        let t: Double = t_ms.minus(self.reveal_ms);
        if t.lt(self.hold_ms) {
            return Phase::Hold;
        }
        let t: Double = t.minus(self.hold_ms);
        if t.lt(self.vanish_ms) {
            return Phase::Vanish { p: clamp(t.over(self.vanish_ms)) };
        }
        Phase::Done
    }

    /// The positions that sound, one in `every`.
    fn blip_indices(&self, every: usize) -> (out: Vec<usize>)
        requires
            every > 0,
        ensures
            out@.map_values(|i: usize| i as nat) == blips(self@.audible, every as nat),
            forall|k: int| 0 <= k < out@.len() ==> #[trigger] out@[k] < self@.chars,
    {
        proof {
            use_type_invariant(self);
        }
        let mut out: Vec<usize> = Vec::new();
        let ghost all = self.audible@;
        let mut i: usize = 0;
        assert(all.take(0) =~= Seq::<bool>::empty());
        assert(out@.map_values(|i: usize| i as nat) =~= Seq::<nat>::empty());
        while i < self.audible.len()
            invariant
                i <= self.audible@.len(),
                all == self.audible@,
                every > 0,
                out@.map_values(|i: usize| i as nat) == blips(all.take(i as int), every as nat),
                forall|k: int| 0 <= k < out@.len() ==> #[trigger] out@[k] < i,
            decreases self.audible.len() - i,
        {
            let ghost before = out@;
            proof {
                assert(all.take(i + 1).drop_last() =~= all.take(i as int));
                assert(all.take(i + 1).last() == all[i as int]);
            }
            if self.audible[i] && i % every == 0 {
                out.push(i);
                assert(out@.map_values(|i: usize| i as nat) =~= before.map_values(
                    |i: usize| i as nat,
                ).push(i as nat));
            }
            i = i + 1;
        }
        assert(all.take(i as int) =~= all);
        out
    }

    /// Blip times in seconds from t0, excluding whitespace: the same moments
    /// as the visual reveal.
    pub fn onsets(&self, every: usize) -> (out: Vec<Double>)
        ensures
            out@ == self@.reveal_blips(every as nat),
    {
        proof {
            use_type_invariant(self);
        }
        let mut out: Vec<Double> = Vec::new();
        if self.steps.len() == 0 {
            return out;
        }
        let every: usize = if every == 0 {
            1
        } else {
            every
        };
        let at: Vec<usize> = self.blip_indices(every);
        let ghost all = blips(self@.audible, every as nat);
        let ghost want = self@.reveal_blips(every as nat);
        let mut k: usize = 0;
        while k < at.len()
            invariant
                k <= at@.len(),
                self@.steps.len() == self@.chars,
                self@.steps.len() > 0,
                at@.map_values(|i: usize| i as nat) == all,
                want == all.map_values(
                    |i: nat| self@.steps[i as int].quotient(Double::whole(1000)),
                ),
                forall|k: int| 0 <= k < at@.len() ==> #[trigger] at@[k] < self@.chars,
                out@ == want.take(k as int),
            decreases at.len() - k,
        {
            let i: usize = at[k];
            assert(all[k as int] == i as nat);
            out.push(self.steps[i].over(Double::from_word(1000)));
            assert(want.take(k + 1) =~= want.take(k as int).push(want[k as int]));
            k = k + 1;
        }
        assert(want.take(k as int) =~= want);
        out
    }

    /// Untype blip times in seconds from the start of vanish. The caller delays
    /// playback by `vanish_start()` to avoid allocating hold-time silence.
    /// Other effects return no onsets.
    pub fn vanish_onsets(&self, every: usize) -> (out: Vec<Double>)
        ensures
            out@ == self@.vanish_blips(every as nat),
    {
        let mut out: Vec<Double> = Vec::new();
        if !self.untype || self.vanish_ms.le(Double::from_word(0)) || self.chars == 0 {
            return out;
        }
        // Erase at a constant rate.
        let step: Double = self.vanish_ms.over(Double::from_word(self.chars as u64)).over(
            Double::from_word(1000),
        );
        let every: usize = if every == 0 {
            1
        } else {
            every
        };
        let at: Vec<usize> = self.blip_indices(every);
        let ghost all = blips(self@.audible, every as nat);
        let ghost want = self@.vanish_blips(every as nat);
        let mut k: usize = 0;
        while k < at.len()
            invariant
                k <= at@.len(),
                at@.map_values(|i: usize| i as nat) == all,
                want == all.map_values(
                    |i: nat| Double::whole((self@.chars - i) as nat).product(step),
                ),
                forall|k: int| 0 <= k < at@.len() ==> #[trigger] at@[k] < self@.chars,
                out@ == want.take(k as int),
            decreases at.len() - k,
        {
            // Erased from the end: the last character goes first.
            let i: usize = at[k];
            assert(all[k as int] == i as nat);
            out.push(Double::from_word((self.chars - i) as u64).times(step));
            assert(want.take(k + 1) =~= want.take(k as int).push(want[k as int]));
            k = k + 1;
        }
        assert(want.take(k as int) =~= want);
        out
    }

    /// When the vanish begins, in seconds from t0.
    pub fn vanish_start(&self) -> (s: Double)
        ensures
            s == self@.reveal_ms.sum(self@.hold_ms).quotient(Double::whole(1000)),
            s == vanish_start_of(self@),
    {
        self.reveal_ms.plus(self.hold_ms).over(Double::from_word(1000))
    }

    /// Visible character count during untype, matched to `vanish_onsets`
    /// timing.
    pub fn untype_visible(&self, p: Double) -> (n: usize)
        ensures
            n == self@.left(p),
            n <= self@.chars,
    {
        let left: Double = Double::from_word(1).minus(p).times(Double::from_word(self.chars as u64));
        let n: u64 = left.to_word_up();
        if n < self.chars as u64 {
            n as usize
        } else {
            self.chars
        }
    }

    /// Everything from t0 to the frame the window closes.
    pub fn total_ms(&self) -> (ms: Double)
        ensures
            ms == self@.reveal_ms.sum(self@.hold_ms).sum(self@.vanish_ms),
            ms == total_of(self@),
    {
        self.reveal_ms.plus(self.hold_ms).plus(self.vanish_ms)
    }

    pub fn chars(&self) -> (n: usize)
        ensures
            n == self@.chars,
    {
        self.chars
    }

    /// Whether the text is untyped at the end.
    pub fn untypes(&self) -> (r: bool)
        ensures
            r == self@.untype,
    {
        self.untype
    }

    /// Whether reveal, hold and vanish together fit the maximum lifetime.
    pub fn fits(&self) -> (r: bool)
        ensures
            r == self@.fits_lifetime(),
    {
        let total: Double = self.total_ms();
        total.is_finite() && total.le(Double::from_word(crate::config::MAX_LIFETIME_MS))
    }

    /// When each character appears, in milliseconds from t0.
    pub fn steps(&self) -> (steps: &Vec<Double>)
        ensures
            steps@ == self@.steps,
    {
        &self.steps
    }

    /// When the reveal is over, in milliseconds from t0.
    pub fn reveal_ms(&self) -> (ms: Double)
        ensures
            ms == self@.reveal_ms,
    {
        self.reveal_ms
    }
}

/// The order of the phases.
pub open spec fn rank(phase: Phase) -> int {
    match phase {
        Phase::Reveal { .. } => 0,
        Phase::Hold => 1,
        Phase::Vanish { .. } => 2,
        Phase::Done => 3,
    }
}

proof fn lemma_reached_mono(steps: Seq<Double>, s: Double, t: Double)
    requires
        s.at_most(t),
    ensures
        reached(steps, s) <= reached(steps, t),
    decreases steps.len(),
{
    if steps.len() > 0 {
        lemma_reached_mono(steps.drop_last(), s, t);
    }
}

/// Time only moves a message forward: reveal, hold, vanish, done. While it is
/// being typed the visible characters only grow, and while it vanishes the
/// share that has passed does.
pub proof fn lemma_phases_in_order(tl: TimelineView, s: Double, t: Double)
    requires
        tl.wf(),
        tl.chars <= usize::MAX,
        s.at_most(t),
    ensures
        rank(tl.phase(s)) <= rank(tl.phase(t)),
        match (tl.phase(s), tl.phase(t)) {
            (Phase::Reveal { chars: a }, Phase::Reveal { chars: b }) => a <= b,
            (Phase::Vanish { p: a }, Phase::Vanish { p: b }) => a.at_most(b),
            _ => true,
        },
{
    let sr = s.difference(tl.reveal_ms);
    let tr = t.difference(tl.reveal_ms);
    let sh = sr.difference(tl.hold_ms);
    let th = tr.difference(tl.hold_ms);
    lemma_reached_mono(tl.steps, s, t);
    lemma_reached_bound(tl.steps, s);
    lemma_reached_bound(tl.steps, t);
    lemma_nan_less(sr, tl.hold_ms);
    lemma_nan_less(tr, tl.hold_ms);
    if tl.reveal_ms.finite() {
        lemma_less(s, tl.reveal_ms);
        lemma_less(t, tl.reveal_ms);
        crate::order::lemma_difference_mono(s, t, tl.reveal_ms);
        lemma_less(sr, tl.hold_ms);
        lemma_less(tr, tl.hold_ms);
        crate::order::lemma_difference_mono(sr, tr, tl.hold_ms);
        if tl.phase(s) is Vanish && tl.phase(t) is Vanish {
            lemma_after_hold(sr, tl.hold_ms, tl.vanish_ms);
            lemma_after_hold(tr, tl.hold_ms, tl.vanish_ms);
            crate::order::lemma_quotient_mono(sh, th, tl.vanish_ms);
            lemma_clamped_mono(sh.quotient(tl.vanish_ms), th.quotient(tl.vanish_ms));
        }
    } else {
        lemma_endless(tl, s);
        lemma_endless(tl, t);
    }
}

/// A reveal that never ends, or whose end is not a number, is followed by
/// nothing.
proof fn lemma_endless(tl: TimelineView, t: Double)
    requires
        tl.wf(),
        !tl.reveal_ms.finite(),
        !t.nan(),
    ensures
        tl.phase(t) == if t.below(tl.reveal_ms) {
            Phase::Reveal { chars: reached(tl.steps, t) as usize }
        } else {
            Phase::Done
        },
{
    let after = t.difference(tl.reveal_ms);
    lemma_nan_less(after, tl.hold_ms);
    crate::order::lemma_value_bound(tl.hold_ms);
    crate::order::lemma_value_bound(tl.vanish_ms);
    crate::order::lemma_value_bound(t);
    crate::order::lemma_of(true, INF as nat);
    crate::order::lemma_of(false, INF as nat);
    assert(Double::not_a_number().nan());
    if !tl.reveal_ms.nan() && !t.below(tl.reveal_ms) {
        crate::order::lemma_negation(tl.reveal_ms);
        if !after.nan() {
            lemma_infinite(after);
        }
    }
}

/// What is not a number stays so, less anything.
proof fn lemma_nan_less(a: Double, b: Double)
    ensures
        a.nan() ==> a.difference(b).nan(),
{
    assert(Double::not_a_number().nan());
}

/// A number less a finite one is a number.
pub(crate) proof fn lemma_less(a: Double, b: Double)
    requires
        !a.nan(),
        b.finite(),
    ensures
        !a.difference(b).nan(),
{
    crate::order::lemma_negation(b);
    if a.finite() {
        crate::order::lemma_sum(a, b.negation());
    }
}

/// What has passed of a vanish is not negative, and finite while it lasts.
pub(crate) proof fn lemma_after_hold(after_reveal: Double, hold: Double, vanish: Double)
    requires
        !after_reveal.nan(),
        hold.finite(),
        vanish.finite(),
        !after_reveal.below(hold),
        after_reveal.difference(hold).below(vanish),
    ensures
        after_reveal.difference(hold).finite(),
        after_reveal.difference(hold).value() >= 0,
        vanish.value() > 0,
{
    let d = after_reveal.difference(hold);
    crate::order::lemma_negation(hold);
    crate::order::lemma_value_bound(vanish);
    crate::order::lemma_value_bound(hold);
    if after_reveal.finite() {
        crate::order::lemma_sum(after_reveal, hold.negation());
        crate::order::lemma_rounded_mono(0, after_reveal.value() - hold.value());
    }
}

/// Holding between 0 and 1 keeps the order.
proof fn lemma_clamped_mono(a: Double, b: Double)
    requires
        a.at_most(b),
    ensures
        clamped(a).at_most(clamped(b)),
{
    lemma_small();
}

/// What a block already shows is there on the first frame: while it is being
/// typed at time zero, at least `shown` of its characters are visible.
pub proof fn lemma_shown_at_once(
    text: Seq<char>,
    reveal: Reveal,
    timeout_ms: u64,
    vanish: Vanish,
    seed: u64,
    shown: nat,
)
    requires
        shown <= text.len() <= usize::MAX,
    ensures
        match timeline_of(text, reveal, timeout_ms, vanish, seed, shown).phase(Double::whole(0)) {
            Phase::Reveal { chars } => chars >= shown,
            _ => true,
        },
{
    let tl = timeline_of(text, reveal, timeout_ms, vanish, seed, shown);
    lemma_timeline_wf(text, reveal, timeout_ms, vanish, seed, shown);
    lemma_small();
    lemma_reached_bound(tl.steps, Double::whole(0));
    if tl.phase(Double::whole(0)) is Reveal && shown > 0 {
        lemma_reached(tl.steps, Double::whole(0), shown - 1);
    }
}

/// Blips come one in `every`, only for characters still to be typed, never for
/// white space, and in order.
pub proof fn lemma_blips(text: Seq<char>, shown: nat, every: nat)
    requires
        every > 0,
    ensures
        forall|i: nat|
            #[trigger] blips(audible_of(text, shown), every).contains(i) <==> i < text.len() && i
                >= shown && !crate::text::white(text[i as int]) && i % every == 0,
        forall|a: int, b: int|
            0 <= a < b < blips(audible_of(text, shown), every).len() ==> #[trigger] blips(
                audible_of(text, shown),
                every,
            )[a] < #[trigger] blips(audible_of(text, shown), every)[b],
{
    let audible = audible_of(text, shown);
    lemma_blip_positions(audible, every);
    assert forall|i: nat| #[trigger]
        blips(audible, every).contains(i) <==> i < text.len() && i >= shown && !crate::text::white(
            text[i as int],
        ) && i % every == 0 by {
        if i < text.len() {
            assert(audible[i as int] == (i >= shown && !crate::text::white(text[i as int])));
        }
    }
}

pub proof fn lemma_blip_positions(audible: Seq<bool>, every: nat)
    requires
        every > 0,
    ensures
        forall|i: nat|
            #[trigger] blips(audible, every).contains(i) <==> i < audible.len()
                && audible[i as int] && i % every == 0,
        forall|a: int, b: int|
            0 <= a < b < blips(audible, every).len() ==> #[trigger] blips(audible, every)[a]
                < #[trigger] blips(audible, every)[b],
    decreases audible.len(),
{
    let all = blips(audible, every);
    if audible.len() > 0 {
        let rest = audible.drop_last();
        let last = (audible.len() - 1) as nat;
        let before = blips(rest, every);
        lemma_blip_positions(rest, every);
        assert forall|i: nat| #[trigger]
            all.contains(i) <==> i < audible.len() && audible[i as int] && i % every == 0 by {
            assert(before.contains(i) <==> i < rest.len() && rest[i as int] && i % every == 0);
            if before.contains(i) {
                let k = choose|k: int| 0 <= k < before.len() && before[k] == i;
                assert(all[k] == i);
            }
            if all.contains(i) {
                let k = choose|k: int| 0 <= k < all.len() && all[k] == i;
                if k < before.len() {
                    assert(before[k] == i);
                }
            }
            if i == last && audible[last as int] && last % every == 0 {
                assert(all[before.len() as int] == last);
            }
        }
        assert forall|a: int, b: int| 0 <= a < b < all.len() implies #[trigger] all[a]
            < #[trigger] all[b] by {
            assert(before.contains(before[a]));
            if b < before.len() {
                assert(before[a] < before[b]);
            }
        }
    } else {
        assert(all =~= Seq::<nat>::empty());
    }
}

/// An untype starts with every character visible, ends with none, and never
/// brings one back.
pub proof fn lemma_untype(tl: TimelineView, p: Double, q: Double)
    requires
        tl.chars <= crate::config::MAX_TEXT_CHARS,
        p.at_most(q),
        0 <= p.value(),
        q.value() <= crate::double::one(),
    ensures
        tl.left(Double::whole(0)) == tl.chars,
        tl.left(Double::whole(1)) == 0,
        0 <= tl.left(q) <= tl.left(p) <= tl.chars,
{
    lemma_small();
    let w = crate::double::one() as int;
    let one = Double::whole(1);
    let c = Double::whole(tl.chars);
    crate::order::lemma_whole(tl.chars);
    lemma_remaining(Double::whole(0));
    lemma_remaining(one);
    lemma_remaining(p);
    lemma_remaining(q);
    let rp = one.difference(p);
    let rq = one.difference(q);
    crate::order::lemma_negation(p);
    crate::order::lemma_negation(q);
    crate::order::lemma_rounded_mono(w - q.value(), w - p.value());
    crate::order::lemma_product_mono(rq, rp, c);
    lemma_ceil_mono(rq.product(c), rp.product(c));
    // All of them at the start.
    crate::order::lemma_rounded_exact(one);
    let r0 = one.difference(Double::whole(0));
    assert(r0.value() == w);
    crate::rounding::lemma_nearest_exact(c.magnitude(), w as nat);
    let m = crate::rounding::nearest(
        crate::double::size(r0.value()) * crate::double::size(c.value()),
        w as nat,
    );
    assert(crate::double::size(r0.value()) * crate::double::size(c.value())
        == crate::rounding::units(c.magnitude()) * (w as nat)) by (nonlinear_arith)
        requires
            crate::double::size(r0.value()) == w,
            crate::double::size(c.value()) == crate::rounding::units(c.magnitude()),
    ;
    crate::order::lemma_of(false, m);
    let v = r0.product(c).value();
    assert(v == tl.chars * w);
    assert(tl.chars > 0 ==> v > 0) by (nonlinear_arith)
        requires
            v == tl.chars * w,
            w > 0,
    ;
    vstd::arithmetic::div_mod::lemma_fundamental_div_mod_converse(
        v + w - 1,
        w,
        tl.chars as int,
        w - 1,
    );
    // None of them at the end.
    let r1 = one.difference(one);
    crate::order::lemma_nearest_zero();
    assert(r1.value() == 0);
    crate::order::lemma_zero(r1);
    crate::order::lemma_product_bound(r1, c, 0);
}

/// What is left of a share between 0 and 1 lies there too.
pub(crate) proof fn lemma_remaining(p: Double)
    requires
        !p.nan(),
        0 <= p.value() <= crate::double::one(),
    ensures
        ({
            let r = Double::whole(1).difference(p);
            &&& r.finite()
            &&& !r.negative()
            &&& r.value() == crate::order::rounded(crate::double::one() - p.value()).value()
            &&& 0 <= r.value() <= crate::double::one()
        }),
{
    lemma_small();
    let w = crate::double::one() as int;
    let one = Double::whole(1);
    assert(p.finite()) by {
        if p.infinite() {
            crate::rounding::lemma_units_mono(one.magnitude(), INF as nat);
        }
    }
    crate::order::lemma_negation(p);
    crate::order::lemma_sum(one, p.negation());
    crate::order::lemma_rounded_exact(one);
    crate::order::lemma_rounded_mono(0, w - p.value());
    crate::order::lemma_rounded_mono(w - p.value(), w);
    let r = one.difference(p);
    assert(r.finite()) by {
        if r.infinite() {
            crate::rounding::lemma_units_mono(one.magnitude(), INF as nat);
        }
    }
    let v = w - p.value();
    if v == 0 {
        crate::order::lemma_of(false, 0);
    } else {
        crate::order::lemma_of(false, crate::rounding::nearest(crate::double::size(v), 1));
    }
}

/// Rounding up to a whole number keeps the order.
proof fn lemma_ceil_mono(a: Double, b: Double)
    requires
        a.at_most(b),
    ensures
        0 <= a.ceil_word() <= b.ceil_word(),
{
    lemma_small();
    let w = crate::double::one() as int;
    if a.value() > 0 {
        vstd::arithmetic::div_mod::lemma_div_is_ordered(a.value() + w - 1, b.value() + w - 1, w);
        vstd::arithmetic::div_mod::lemma_div_pos_is_pos(a.value() + w - 1, w);
    } else if b.value() > 0 {
        vstd::arithmetic::div_mod::lemma_div_pos_is_pos(b.value() + w - 1, w);
    }
}

/// A message that fits the maximum lifetime is over no later than a
/// millisecond after it.
pub proof fn lemma_message_ends(
    text: Seq<char>,
    reveal: Reveal,
    timeout_ms: u64,
    vanish: Vanish,
    seed: u64,
    shown: nat,
    t: Double,
)
    requires
        timeline_of(text, reveal, timeout_ms, vanish, seed, shown).fits_lifetime(),
        !t.nan(),
        t.value() >= (crate::config::MAX_LIFETIME_MS + 1) * crate::double::one(),
    ensures
        timeline_of(text, reveal, timeout_ms, vanish, seed, shown).phase(t) == Phase::Done,
{
    let tl = timeline_of(text, reveal, timeout_ms, vanish, seed, shown);
    let w = crate::double::one() as int;
    let max = crate::config::MAX_LIFETIME_MS as int;
    let r = tl.reveal_ms;
    lemma_small();
    crate::order::lemma_whole(max as nat);
    lemma_not_negative(text, reveal, timeout_ms, vanish, seed, shown);
    lemma_whole_value(timeout_ms as nat);
    lemma_whole_value(vanish.duration() as nat);
    assert(Double::not_a_number().nan());
    assert(!r.nan());
    // Each part is at most the whole.
    let a = r.sum(tl.hold_ms);
    crate::order::lemma_sum_grows(r, tl.hold_ms);
    crate::order::lemma_sum_grows(a, tl.vanish_ms);
    crate::order::lemma_sum_covers(r, tl.hold_ms);
    crate::order::lemma_sum_covers(a, tl.vanish_ms);
    lemma_whole_bound(timeout_ms as nat, max as nat);
    lemma_whole_bound(vanish.duration() as nat, max as nat);
    let h = timeout_ms as int;
    let v = vanish.duration() as int;
    crate::order::lemma_whole(h as nat);
    crate::order::lemma_whole(v as nat);
    // Whole milliseconds of the reveal.
    let k = r.value() / w;
    assert(k * w <= r.value() < (k + 1) * w && 0 <= k <= max) by (nonlinear_arith)
        requires
            k == r.value() / w,
            w > 0,
            0 <= r.value() <= max * w,
    ;
    crate::order::lemma_value_bound(Double::whole(max as nat));
    assert(r.finite() && tl.hold_ms.finite() && tl.vanish_ms.finite());
    crate::order::lemma_sum(r, tl.hold_ms);
    assert(k * w + h * w == (k + h) * w) by (nonlinear_arith);
    assert(0 <= h * w && 0 <= v * w) by (nonlinear_arith)
        requires
            h >= 0,
            v >= 0,
            w > 0,
    ;
    crate::order::lemma_rounded_mono((k + h) * w, r.value() + h * w);
    crate::bounds::lemma_rounded_int(k + h);
    crate::order::lemma_sum(a, tl.vanish_ms);
    assert((k + h) * w + v * w == (k + h + v) * w) by (nonlinear_arith);
    crate::order::lemma_rounded_mono((k + h + v) * w, a.value() + v * w);
    crate::bounds::lemma_rounded_int(k + h + v);
    assert(k + h + v <= max) by (nonlinear_arith)
        requires
            (k + h + v) * w <= max * w,
            w > 0,
    ;
    // What has passed since the reveal, and since the hold.
    let b = t.difference(r);
    lemma_less(t, r);
    crate::order::lemma_negation(r);
    assert((max + 1) * w - (k + 1) * w == (max - k) * w) by (nonlinear_arith);
    if t.finite() {
        crate::order::lemma_sum(t, r.negation());
        crate::order::lemma_rounded_mono((max - k) * w, t.value() - r.value());
        crate::bounds::lemma_rounded_int(max - k);
    } else {
        lemma_infinite(t);
        crate::bounds::lemma_rounded_int(max - k);
    }
    assert(b.value() >= (max - k) * w);
    assert((max - k) * w >= (h + v) * w) by (nonlinear_arith)
        requires
            max - k >= h + v,
            w > 0,
    ;
    assert((h + v) * w == h * w + v * w) by (nonlinear_arith);
    let c = b.difference(tl.hold_ms);
    lemma_less(b, tl.hold_ms);
    crate::order::lemma_negation(tl.hold_ms);
    if b.finite() {
        crate::order::lemma_sum(b, tl.hold_ms.negation());
        crate::order::lemma_rounded_mono(v * w, b.value() - h * w);
        crate::bounds::lemma_rounded_int(v);
    } else {
        lemma_infinite(b);
        crate::bounds::lemma_rounded_int(v);
    }
    assert(c.value() >= v * w);
    assert((max + 1) * w >= max * w) by (nonlinear_arith)
        requires
            w > 0,
    ;
}

/// The moments of a timeline are not negative.
pub(crate) proof fn lemma_not_negative(
    text: Seq<char>,
    reveal: Reveal,
    timeout_ms: u64,
    vanish: Vanish,
    seed: u64,
    shown: nat,
)
    ensures
        ({
            let r = timeline_of(text, reveal, timeout_ms, vanish, seed, shown).reveal_ms;
            r.nan() || r.value() >= 0
        }),
{
    let tl = timeline_of(text, reveal, timeout_ms, vanish, seed, shown);
    let held: nat = if shown < text.len() {
        shown
    } else {
        text.len()
    };
    lemma_small();
    if tl.steps.len() > held && !tl.reveal_ms.nan() {
        match reveal {
            Reveal::Instant => {},
            Reveal::Typewriter { cps, jitter, .. } => {
                let n = (tl.steps.len() - held) as nat;
                lemma_base(cps);
                lemma_clamped(jitter);
                lemma_typed(Double::whole(1000).quotient(cps), clamped(jitter), seed, n, n);
            },
        }
    }
}

/// The double of a whole number is a number and not negative.
proof fn lemma_whole_value(n: nat)
    ensures
        !Double::whole(n).nan(),
        Double::whole(n).value() >= 0,
{
    crate::order::lemma_of(false, crate::rounding::nearest(n * crate::double::one(), 1));
}

/// The double of a word is finite, and at least one where the word is.
pub(crate) proof fn lemma_word_value(n: u64)
    ensures
        Double::whole(n as nat).finite(),
        !Double::whole(n as nat).negative(),
        0 <= Double::whole(n as nat).value() <= crate::rounding::two_to(1138),
        n > 0 ==> Double::whole(n as nat).value() >= crate::double::one(),
{
    let w = crate::double::one();
    let top = crate::rounding::two_to(1138);
    lemma_small();
    lemma_whole_value(n as nat);
    crate::rounding::lemma_two_to_values();
    crate::rounding::lemma_two_to_add(64, 1074);
    crate::rounding::lemma_two_to_add(53, 1085);
    assert(0 <= n * w <= top && (n > 0 ==> w <= n * w)) by (nonlinear_arith)
        requires
            0 <= n <= 0xffff_ffff_ffff_ffff,
            top == 0x1_0000_0000_0000_0000 * w,
    ;
    crate::bounds::lemma_beyond((n * w) as int, 2 * crate::rounding::STEP as nat, 1085);
    assert(Double::whole(n as nat) == crate::order::rounded((n * w) as int));
    if n > 0 {
        crate::order::lemma_rounded_mono(w as int, (n * w) as int);
        crate::order::lemma_rounded_exact(Double::whole(1));
    }
    crate::order::lemma_of(false, crate::rounding::nearest((n * w) as nat, 1));
}

/// A whole number whose double is at most that of another one is at most that
/// one, where the second is exact.
proof fn lemma_whole_bound(n: nat, max: nat)
    requires
        max < 0x20_0000_0000_0000,
        Double::whole(n).value() <= max * crate::double::one(),
    ensures
        n <= max,
{
    let w = crate::double::one();
    lemma_small();
    if n > max {
        crate::order::lemma_whole(max + 1);
        assert((max + 1) * w <= n * w) by (nonlinear_arith)
            requires
                max + 1 <= n,
        ;
        let x = crate::rounding::nearest((max + 1) * w, 1);
        let y = crate::rounding::nearest(n * w, 1);
        crate::rounding::lemma_nearest_mono((max + 1) * w, n * w, 1);
        crate::rounding::lemma_units_mono(x, y);
        crate::order::lemma_of(false, x);
        crate::order::lemma_of(false, y);
        assert((max + 1) * w > max * w) by (nonlinear_arith)
            requires
                w > 0,
        ;
    }
}

/// What is infinite and not negative stays so when something finite is taken
/// from it.
pub(crate) proof fn lemma_infinite(t: Double)
    requires
        t.infinite(),
        t.value() >= 0,
    ensures
        !t.negative(),
        t.value() == crate::rounding::units(INF as nat),
        forall|r: Double| r.finite() ==> #[trigger] t.difference(r) == t,
{
    crate::order::lemma_zero(t);
    crate::rounding::lemma_units_mono(0, INF as nat);
    assert forall|r: Double| r.finite() implies #[trigger] t.difference(r) == t by {
        crate::order::lemma_negation(r);
    }
}

/// From the start on, a message that is being typed is not yet all there, and
/// the share of a vanish that has passed lies between 0 and 1.
pub proof fn lemma_phase_in_range(tl: TimelineView, t: Double)
    requires
        tl.wf(),
        tl.chars <= usize::MAX,
        !t.nan(),
        t.value() >= 0,
    ensures
        match tl.phase(t) {
            Phase::Reveal { chars } => chars < tl.chars,
            Phase::Vanish { p } => !p.nan() && 0 <= p.value() <= crate::double::one(),
            _ => true,
        },
{
    lemma_small();
    let after = t.difference(tl.reveal_ms);
    match tl.phase(t) {
        Phase::Reveal { .. } => {
            assert(tl.steps.len() > 0);
            lemma_reached_bound(tl.steps.drop_last(), t);
        },
        Phase::Vanish { .. } => {
            if !tl.reveal_ms.finite() {
                lemma_endless(tl, t);
            }
            lemma_less(t, tl.reveal_ms);
            lemma_after_hold(after, tl.hold_ms, tl.vanish_ms);
            let d = after.difference(tl.hold_ms);
            crate::order::lemma_quotient_mono(d, d, tl.vanish_ms);
            lemma_clamped(d.quotient(tl.vanish_ms));
        },
        _ => {},
    }
}

/// When the vanish begins, in seconds.
pub open spec fn vanish_start_of(tl: TimelineView) -> Double {
    tl.reveal_ms.sum(tl.hold_ms).quotient(Double::whole(1000))
}

/// How long a message stays, as the parts are added up.
pub open spec fn total_of(tl: TimelineView) -> Double {
    tl.reveal_ms.sum(tl.hold_ms).sum(tl.vanish_ms)
}

/// The parts of a message on a grid of four last places of its total: where
/// each of them lies, and that together they are the total up to three steps.
proof fn lemma_parts_of_total(tl: TimelineView, k: nat) -> (parts: (nat, nat, nat))
    requires
        tl.reveal_ms.finite(),
        tl.hold_ms.finite(),
        tl.vanish_ms.finite(),
        tl.reveal_ms.value() >= 0,
        tl.hold_ms.value() >= 0,
        tl.vanish_ms.value() >= 0,
        total_of(tl).finite(),
        k == crate::rounding::exponent(total_of(tl).magnitude()) + 2,
        k <= 2044,
    ensures
        ({
            let g = crate::rounding::two_to(k);
            let (a, b, c) = parts;
            &&& a * g <= tl.reveal_ms.value() < (a + 1) * g
            &&& b * g <= tl.hold_ms.value() < (b + 1) * g
            &&& c * g <= tl.vanish_ms.value() < (c + 1) * g
            &&& (a + b + c) * g <= total_of(tl).value() <= (a + b + c + 3) * g
            &&& a + b + c + 8 <= 2 * crate::rounding::STEP
        }),
{
    let (r, h, v) = (tl.reveal_ms, tl.hold_ms, tl.vanish_ms);
    let s = r.sum(h);
    let total = s.sum(v);
    let g = crate::rounding::two_to(k);
    let step = crate::rounding::STEP as nat;
    lemma_small();
    crate::rounding::lemma_two_to_pos(k);
    crate::order::lemma_sum_grows(r, h);
    crate::order::lemma_sum_covers(r, h);
    crate::order::lemma_sum_grows(s, v);
    crate::order::lemma_sum_covers(s, v);
    crate::order::lemma_value_bound(total);
    crate::bounds::lemma_sign(s);
    crate::order::lemma_zero(total);
    // A quarter of the significand holds the total.
    let m = total.magnitude();
    let n = crate::rounding::significand(m);
    let u = crate::rounding::two_to((k - 2) as nat);
    crate::rounding::lemma_parts(m);
    assert(g == 4 * u) by {
        assert(crate::rounding::two_to((k - 1) as nat) == 2 * u);
    }
    assert(2 * (n * u) <= step * g) by (nonlinear_arith)
        requires
            n < 2 * step,
            g == 4 * u,
    ;
    assert(2 * total.value() <= step * g);
    let a = lemma_cell(r.value(), g, step);
    let b = lemma_cell(h.value(), g, step);
    let c = lemma_cell(v.value(), g, step);
    assert(a * g + b * g == (a + b) * g && (a + b) * g + c * g == (a + b + c) * g)
        by (nonlinear_arith);
    assert((a + 1) * g + (b + 1) * g == (a + b + 2) * g && (a + b + 2) * g + (c + 1) * g == (a + b
        + c + 3) * g) by (nonlinear_arith);
    crate::order::lemma_sum(r, h);
    crate::order::lemma_sum(s, v);
    crate::bounds::lemma_beyond(r.value() + h.value(), a + b, k);
    crate::bounds::lemma_beyond(r.value() + h.value(), a + b + 2, k);
    crate::bounds::lemma_beyond(s.value() + v.value(), a + b + c, k);
    crate::bounds::lemma_beyond(s.value() + v.value(), a + b + c + 3, k);
    (a, b, c)
}

/// The cell of a grid that holds a number of at most half a significand.
proof fn lemma_cell(v: int, g: nat, step: nat) -> (a: nat)
    requires
        g > 0,
        0 <= v,
        2 * v <= step * g,
    ensures
        a * g <= v < (a + 1) * g,
        2 * a <= step,
{
    let a = v / (g as int);
    assert(0 <= a && a * g <= v < (a + 1) * g && 2 * a <= step) by (nonlinear_arith)
        requires
            a == v / (g as int),
            0 <= v,
            2 * v <= step * g,
            g > 0,
    ;
    a as nat
}

/// A message is over once its total has passed, and not before, up to sixteen
/// last places of that total. One that never ends is never over.
pub proof fn lemma_done_at_the_total(
    text: Seq<char>,
    reveal: Reveal,
    timeout_ms: u64,
    vanish: Vanish,
    seed: u64,
    shown: nat,
    t: Double,
)
    requires
        !total_of(timeline_of(text, reveal, timeout_ms, vanish, seed, shown)).nan(),
        !t.nan(),
        t.value() >= 0,
    ensures
        ({
            let tl = timeline_of(text, reveal, timeout_ms, vanish, seed, shown);
            let total = total_of(tl);
            let slack = 16 * crate::bounds::last_place(total);
            if total.finite() {
                &&& t.value() >= total.value() + slack ==> tl.phase(t) == Phase::Done
                &&& tl.phase(t) == Phase::Done ==> t.value() >= total.value() - slack
            } else {
                tl.phase(t) == Phase::Done <==> t.value() >= total.value()
            }
        }),
{
    let tl = timeline_of(text, reveal, timeout_ms, vanish, seed, shown);
    let (r, h, v) = (tl.reveal_ms, tl.hold_ms, tl.vanish_ms);
    lemma_timeline_wf(text, reveal, timeout_ms, vanish, seed, shown);
    lemma_not_negative(text, reveal, timeout_ms, vanish, seed, shown);
    lemma_word_value(timeout_ms);
    lemma_word_value(vanish.duration());
    assert(Double::not_a_number().nan());
    assert(!r.nan());
    if !r.finite() {
        lemma_infinite(r);
        lemma_endless(tl, t);
    } else if r.value() >= crate::rounding::two_to(2090) {
        lemma_long_reveal(tl, t);
    } else {
        lemma_short_reveal(tl);
        lemma_done_on_the_grid(tl, t);
    }
}

/// The total of a message that is not typed for long is not long either.
proof fn lemma_short_reveal(tl: TimelineView)
    requires
        tl.reveal_ms.finite(),
        tl.hold_ms.finite(),
        tl.vanish_ms.finite(),
        0 <= tl.reveal_ms.value() < crate::rounding::two_to(2090),
        0 <= tl.hold_ms.value() <= crate::rounding::two_to(1138),
        0 <= tl.vanish_ms.value() <= crate::rounding::two_to(1138),
    ensures
        total_of(tl).finite(),
        total_of(tl).value() < crate::rounding::two_to(2095),
{
    let (r, h, v) = (tl.reveal_ms, tl.hold_ms, tl.vanish_ms);
    let s = r.sum(h);
    let step = crate::rounding::STEP as nat;
    crate::rounding::lemma_two_to_values();
    crate::rounding::lemma_two_to_mono(1138, 2090);
    crate::rounding::lemma_two_to_mono(2092, 2094);
    crate::rounding::lemma_two_to_pos(2090);
    assert(crate::rounding::two_to(2091) == 2 * crate::rounding::two_to(2090));
    assert(crate::rounding::two_to(2092) == 2 * crate::rounding::two_to(2091));
    assert(crate::rounding::two_to(2095) == 2 * crate::rounding::two_to(2094));
    crate::rounding::lemma_two_to_add(53, 2038);
    crate::rounding::lemma_two_to_add(53, 2039);
    crate::order::lemma_sum(r, h);
    crate::bounds::lemma_beyond(r.value() + h.value(), 2 * step, 2038);
    crate::order::lemma_value_bound(s);
    crate::bounds::lemma_beyond(s.value() + v.value(), 2 * step, 2039);
    crate::order::lemma_sum_grows(r, h);
    assert(s.finite());
    crate::order::lemma_sum(s, v);
    crate::order::lemma_value_bound(total_of(tl));
}

/// A reveal so long that the rest is lost in its last place.
proof fn lemma_long_reveal(tl: TimelineView, t: Double)
    requires
        tl.reveal_ms.finite(),
        tl.hold_ms.finite(),
        tl.vanish_ms.finite(),
        tl.reveal_ms.value() >= crate::rounding::two_to(2090),
        0 <= tl.hold_ms.value() <= crate::rounding::two_to(1138),
        0 <= tl.vanish_ms.value() <= crate::rounding::two_to(1138),
        !t.nan(),
        t.value() >= 0,
    ensures
        total_of(tl).finite(),
        total_of(tl).value() == tl.reveal_ms.value(),
        tl.phase(t) == Phase::Done ==> t.value() >= total_of(tl).value(),
        t.value() >= total_of(tl).value() + crate::bounds::last_place(total_of(tl)) ==> tl.phase(t)
            == Phase::Done,
{
    let (r, h, v) = (tl.reveal_ms, tl.hold_ms, tl.vanish_ms);
    let s = r.sum(h);
    crate::rounding::lemma_two_to_pos(2090);
    crate::rounding::lemma_two_to_pos(1138);
    crate::rounding::lemma_two_to_mono(1139, 2037);
    assert(crate::rounding::two_to(1139) == 2 * crate::rounding::two_to(1138));
    assert(crate::rounding::two_to(2038) == 2 * crate::rounding::two_to(2037));
    crate::bounds::lemma_coarse(r);
    crate::bounds::lemma_absorbed(r, h);
    crate::bounds::lemma_coarse(s);
    crate::bounds::lemma_absorbed(s, v);
    crate::bounds::lemma_coarse(total_of(tl));
    crate::order::lemma_value_bound(r);
    if t.value() >= total_of(tl).value() + crate::bounds::last_place(total_of(tl)) {
        let x = t.difference(r);
        crate::bounds::lemma_beyond(t.value() - r.value(), 1, 2038);
        lemma_less(t, r);
        if t.finite() {
            crate::bounds::lemma_taken(t, r);
        } else {
            lemma_infinite(t);
        }
        assert(x.value() >= crate::rounding::two_to(2038));
        let y = x.difference(h);
        crate::bounds::lemma_beyond(x.value() - h.value(), 1, 2037);
        lemma_less(x, h);
        if x.finite() {
            crate::bounds::lemma_taken(x, h);
        } else {
            lemma_infinite(x);
        }
        assert(y.value() >= crate::rounding::two_to(2037));
    }
}

/// The same of a message whose parts lie on one grid with its total.
proof fn lemma_done_on_the_grid(tl: TimelineView, t: Double)
    requires
        tl.reveal_ms.finite(),
        tl.hold_ms.finite(),
        tl.vanish_ms.finite(),
        tl.reveal_ms.value() >= 0,
        tl.hold_ms.value() >= 0,
        tl.vanish_ms.value() >= 0,
        total_of(tl).finite(),
        total_of(tl).value() < crate::rounding::two_to(2095),
        !t.nan(),
        t.value() >= 0,
    ensures
        ({
            let total = total_of(tl);
            let slack = 16 * crate::bounds::last_place(total);
            &&& t.value() >= total.value() + slack ==> tl.phase(t) == Phase::Done
            &&& tl.phase(t) == Phase::Done ==> t.value() >= total.value() - slack
        }),
{
    let total = total_of(tl);
    let (r, h, v) = (tl.reveal_ms, tl.hold_ms, tl.vanish_ms);
    let s = r.sum(h);
    crate::order::lemma_sum_grows(r, h);
    assert(Double::not_a_number().nan());
    crate::order::lemma_sum_grows(s, v);
    lemma_exponent(total);
    let k = (crate::rounding::exponent(total.magnitude()) + 2) as nat;
    let g = crate::rounding::two_to(k);
    crate::rounding::lemma_two_to_pos(k);
    assert(g == 4 * crate::bounds::last_place(total)) by {
        assert(crate::rounding::two_to((k - 1) as nat) == 2 * crate::bounds::last_place(total));
    }
    let (a, b, c) = lemma_parts_of_total(tl, k);
    if t.value() >= total.value() + 4 * g {
        lemma_over(tl, t, k, a, b, c);
    }
    if t.value() < total.value() - 4 * g && tl.phase(t) == Phase::Done {
        lemma_not_over(tl, t, k, a, b, c);
    }
}

/// How coarse the last place of a number below 2^1021 can be.
proof fn lemma_exponent(d: Double)
    requires
        d.finite(),
        0 <= d.value() < crate::rounding::two_to(2095),
    ensures
        crate::rounding::exponent(d.magnitude()) <= 2042,
{
    let m = d.magnitude();
    let step = crate::rounding::STEP as nat;
    let cap = crate::rounding::pack(2043, step);
    crate::rounding::lemma_two_to_values();
    crate::rounding::lemma_two_to_add(52, 2043);
    crate::rounding::lemma_parts_unique(2043, step);
    crate::order::lemma_zero(d);
    crate::rounding::lemma_units_mono(cap, m);
    assert(m < cap);
    crate::rounding::lemma_parts(m);
    let e = crate::rounding::exponent(m);
    let n = crate::rounding::significand(m);
    assert(e <= 2042) by (nonlinear_arith)
        requires
            m == e * step + n,
            e > 0 ==> n >= step,
            m < 2043 * step + step,
            step > 0,
    ;
}

/// Four steps after its total a message is over.
proof fn lemma_over(tl: TimelineView, t: Double, k: nat, a: nat, b: nat, c: nat)
    requires
        k <= 2044,
        tl.reveal_ms.finite(),
        tl.hold_ms.finite(),
        tl.vanish_ms.finite(),
        !t.nan(),
        ({
            let g = crate::rounding::two_to(k);
            &&& a * g <= tl.reveal_ms.value() < (a + 1) * g
            &&& b * g <= tl.hold_ms.value() < (b + 1) * g
            &&& c * g <= tl.vanish_ms.value() < (c + 1) * g
            &&& t.value() >= (a + b + c) * g + 4 * g
        }),
        a + b + c + 8 <= 2 * crate::rounding::STEP,
    ensures
        tl.phase(t) == Phase::Done,
{
    let g = crate::rounding::two_to(k) as int;
    let (r, h, v) = (tl.reveal_ms, tl.hold_ms, tl.vanish_ms);
    crate::rounding::lemma_two_to_pos(k);
    assert((a + b + c) * g + 4 * g - (a + 1) * g == (b + c + 3) * g) by (nonlinear_arith);
    assert((b + c + 3) * g - (b + 1) * g == (c + 2) * g) by (nonlinear_arith);
    assert((c + 2) * g == (c + 1) * g + g && 0 <= a * g && 0 <= b * g && 0 <= c * g)
        by (nonlinear_arith)
        requires
            g > 0,
    ;
    let x = t.difference(r);
    lemma_less(t, r);
    crate::bounds::lemma_beyond(t.value() - r.value(), b + c + 3, k);
    if t.finite() {
        crate::bounds::lemma_taken(t, r);
    } else {
        lemma_infinite(t);
    }
    assert(x.value() >= (b + c + 3) * g);
    let y = x.difference(h);
    lemma_less(x, h);
    crate::bounds::lemma_beyond(x.value() - h.value(), c + 2, k);
    if x.finite() {
        crate::bounds::lemma_taken(x, h);
    } else {
        lemma_infinite(x);
    }
    assert(y.value() >= (c + 2) * g);
}

/// Four steps before its total a message is not over.
proof fn lemma_not_over(tl: TimelineView, t: Double, k: nat, a: nat, b: nat, c: nat)
    requires
        k <= 2044,
        tl.reveal_ms.finite(),
        tl.hold_ms.finite(),
        tl.vanish_ms.finite(),
        !t.nan(),
        t.value() >= 0,
        ({
            let g = crate::rounding::two_to(k);
            &&& a * g <= tl.reveal_ms.value() < (a + 1) * g
            &&& b * g <= tl.hold_ms.value() < (b + 1) * g
            &&& c * g <= tl.vanish_ms.value() < (c + 1) * g
            &&& t.value() < (a + b + c + 3) * g - 4 * g
        }),
        a + b + c + 8 <= 2 * crate::rounding::STEP,
    ensures
        tl.phase(t) != Phase::Done,
{
    let g = crate::rounding::two_to(k) as int;
    let (r, h, v) = (tl.reveal_ms, tl.hold_ms, tl.vanish_ms);
    crate::rounding::lemma_two_to_pos(k);
    assert((a + b + c + 3) * g - 4 * g - a * g == (b + c - 1) * g) by (nonlinear_arith);
    assert(0 <= a * g && 0 <= b * g && 0 <= c * g) by (nonlinear_arith)
        requires
            g > 0,
    ;
    if tl.phase(t) == Phase::Done {
        crate::order::lemma_value_bound(t);
        assert(t.value() >= r.value());
        assert(b + c >= 1) by (nonlinear_arith)
            requires
                (b + c - 1) * g > 0,
                g > 0,
        ;
        crate::bounds::lemma_beyond(0, (a + b + c) as nat, k);
        assert((a + b + c + 3) * g - 4 * g <= (a + b + c) * g) by (nonlinear_arith)
            requires
                g > 0,
        ;
        crate::bounds::lemma_sign(t);
        let x = t.difference(r);
        crate::bounds::lemma_taken(t, r);
        crate::bounds::lemma_beyond(t.value() - r.value(), (b + c - 1) as nat, k);
        assert(x.value() <= (b + c - 1) * g);
        assert(x.value() >= h.value());
        assert((b + c - 1) * g - b * g == (c - 1) * g) by (nonlinear_arith);
        assert(c >= 1) by (nonlinear_arith)
            requires
                (c - 1) * g >= 0,
                g > 0,
        ;
        crate::bounds::lemma_taken(x, h);
        crate::bounds::lemma_beyond(x.value() - h.value(), (c - 1) as nat, k);
        assert((c - 1) * g < c * g) by (nonlinear_arith)
            requires
                g > 0,
        ;
        assert(false);
    }
}

/// The nominal gap between two characters, in milliseconds.
pub open spec fn nominal_gap(cps: Double) -> Double {
    Double::whole(1000).quotient(cps)
}

/// The moment before a typed one: that of the character before it, or the
/// start where that was on screen already.
pub open spec fn moment_before(tl: TimelineView, shown: nat, i: int) -> Double {
    if i <= shown {
        Double::whole(0)
    } else {
        tl.steps[i - 1]
    }
}

/// Every typed character follows the one before it by the nominal gap, shorter
/// or longer by no more than the jitter. The shortest and longest gap are
/// computed as the moments are; as a difference of moments, a gap is off by no
/// more than the last place of the later one. Without jitter it is the nominal
/// gap. Left out is an infinite nominal gap that the jitter may cut to nothing,
/// where no moment is a number.
pub proof fn lemma_gaps(
    text: Seq<char>,
    reveal: Reveal,
    timeout_ms: u64,
    vanish: Vanish,
    seed: u64,
    shown: nat,
    i: int,
)
    requires
        reveal is Typewriter,
        reveal->cps.finite(),
        reveal->cps.value() > 0,
        !reveal->jitter.nan(),
        nominal_gap(reveal->cps).finite() || clamped(reveal->jitter).value()
            < crate::double::one(),
        shown <= i < text.len(),
    ensures
        ({
            let tl = timeline_of(text, reveal, timeout_ms, vanish, seed, shown);
            let before = moment_before(tl, shown, i);
            let step = tl.steps[i];
            let jitter = clamped(reveal->jitter);
            let base = nominal_gap(reveal->cps);
            let shortest = base.product(Double::whole(1).difference(jitter));
            let longest = base.product(Double::whole(1).sum(jitter));
            &&& tl.steps.len() == text.len()
            &&& before.sum(shortest).at_most(step)
            &&& step.at_most(before.sum(longest))
            &&& step.finite() ==> shortest.value() - crate::bounds::last_place(step) <= step.value()
                - before.value() <= longest.value() + crate::bounds::last_place(step)
            &&& jitter.value() == 0 ==> shortest.value() == base.value() && longest.value()
                == base.value() && step.value() == before.sum(base).value()
        }),
{
    let tl = timeline_of(text, reveal, timeout_ms, vanish, seed, shown);
    let (cps, jitter) = (reveal->cps, clamped(reveal->jitter));
    let base = nominal_gap(cps);
    let n = (i - shown + 1) as nat;
    lemma_small();
    lemma_clamped(reveal->jitter);
    lemma_base_sign(cps, base);
    assert(tl.steps.len() == text.len());
    lemma_typed_number(base, jitter, seed, (n - 1) as nat);
    let step = tl.steps[i];
    let before = moment_before(tl, shown, i);
    let (t, x) = typed(base, jitter, seed, (n - 1) as nat);
    assert(before == t);
    assert(step == typed(base, jitter, seed, n).0);
    reveal(next_typed);
    let f = gap_factor(jitter, unit_of(shuffled(x)));
    lemma_gap_factor(jitter, shuffled(x));
    if base.finite() {
        lemma_gap_bounds(base, jitter, f, before);
    } else {
        lemma_endless_gap(base, jitter, f, before);
    }
}

/// The moments of a resumed block, one per character and in order: what is
/// already up is there at once. It sounds for no character that is, nor for
/// white space.
pub proof fn lemma_resumed(
    text: Seq<char>,
    reveal: Reveal,
    timeout_ms: u64,
    vanish: Vanish,
    seed: u64,
    shown: nat,
)
    requires
        reveal is Typewriter,
        reveal->cps.finite(),
        reveal->cps.value() > 0,
        !reveal->jitter.nan(),
        nominal_gap(reveal->cps).finite() || clamped(reveal->jitter).value()
            < crate::double::one(),
    ensures
        ({
            let tl = timeline_of(text, reveal, timeout_ms, vanish, seed, shown);
            &&& tl.steps.len() == text.len()
            &&& tl.audible.len() == text.len()
            &&& ascending(tl.steps)
            &&& forall|i: int|
                0 <= i < text.len() && i < shown ==> (#[trigger] tl.steps[i]) == Double::whole(0)
            &&& forall|i: int|
                0 <= i < text.len() ==> (#[trigger] tl.audible[i] <==> i >= shown
                    && !crate::text::white(text[i]))
        }),
{
    let tl = timeline_of(text, reveal, timeout_ms, vanish, seed, shown);
    let (cps, jitter) = (reveal->cps, clamped(reveal->jitter));
    let base = nominal_gap(cps);
    lemma_small();
    lemma_clamped(reveal->jitter);
    lemma_base_sign(cps, base);
    lemma_timeline_wf(text, reveal, timeout_ms, vanish, seed, shown);
    if shown < text.len() {
        lemma_typed_number(base, jitter, seed, (text.len() - shown) as nat);
    }
}

/// The nominal gap of a finite speed is a number and not negative.
proof fn lemma_base_sign(cps: Double, base: Double)
    requires
        cps.finite(),
        cps.value() > 0,
        base == nominal_gap(cps),
    ensures
        !base.nan(),
        !base.negative(),
        base.value() >= 0,
{
    lemma_small();
    crate::order::lemma_whole(1000);
    crate::order::lemma_zero(cps);
    assert(!cps.negative()) by {
        crate::rounding::lemma_units_mono(0, cps.magnitude());
    }
    crate::order::lemma_of(
        false,
        crate::rounding::nearest(
            crate::double::size(Double::whole(1000).value()) * crate::double::one(),
            crate::double::size(cps.value()),
        ),
    );
}

/// The moments are numbers, where an infinite gap is not cut to nothing.
proof fn lemma_typed_number(base: Double, jitter: Double, seed: u64, n: nat)
    requires
        !base.nan(),
        !base.negative(),
        base.value() >= 0,
        jitter.finite(),
        0 <= jitter.value() <= crate::double::one(),
        base.finite() || jitter.value() < crate::double::one(),
    ensures
        !typed(base, jitter, seed, n).0.nan(),
        typed(base, jitter, seed, n).0.value() >= 0,
    decreases n,
{
    lemma_small();
    if n > 0 {
        let (t, x) = typed(base, jitter, seed, (n - 1) as nat);
        let y = shuffled(x);
        let f = gap_factor(jitter, unit_of(y));
        reveal(next_typed);
        lemma_typed_number(base, jitter, seed, (n - 1) as nat);
        lemma_gap_factor(jitter, y);
        lemma_gap_number(base, jitter, f);
        crate::order::lemma_product_sign(base, f);
        crate::order::lemma_sum_grows(t, base.product(f));
    }
}

/// A gap is a number, where an infinite one is not cut to nothing.
proof fn lemma_gap_number(base: Double, jitter: Double, f: Double)
    requires
        !base.nan(),
        !base.negative(),
        base.value() >= 0,
        jitter.finite(),
        0 <= jitter.value() <= crate::double::one(),
        base.finite() || jitter.value() < crate::double::one(),
        f.finite(),
        !f.negative(),
        Double::whole(1).difference(jitter).at_most(f),
    ensures
        !base.product(f).nan(),
        base.infinite() ==> base.product(f).infinite() && !base.product(f).negative(),
{
    if base.infinite() {
        let w = crate::double::one() as int;
        lemma_remaining(jitter);
        crate::bounds::lemma_beyond(w - jitter.value(), 1, 0);
        crate::rounding::lemma_two_to_values();
        assert(f.value() >= 1);
        crate::order::lemma_zero(f);
        crate::order::lemma_zero(base);
        crate::order::lemma_of(false, INF as nat);
    } else {
        crate::order::lemma_of(
            false,
            crate::rounding::nearest(
                crate::double::size(base.value()) * crate::double::size(f.value()),
                crate::double::one(),
            ),
        );
    }
}

/// Adding more gives more.
proof fn lemma_adds(t: Double, a: Double, b: Double)
    requires
        !t.nan(),
        t.value() >= 0,
        a.at_most(b),
        a.value() >= 0,
    ensures
        t.sum(a).at_most(t.sum(b)),
{
    crate::order::lemma_sum_grows(t, a);
    crate::order::lemma_sum_grows(t, b);
    crate::order::lemma_value_bound(t);
    crate::order::lemma_value_bound(a);
    crate::order::lemma_value_bound(b);
    crate::order::lemma_value_bound(t.sum(a));
    crate::rounding::lemma_units_mono(0, INF as nat);
    crate::order::lemma_zero(t);
    if t.infinite() {
        assert(!t.negative());
        assert(t.sum(a) == t && t.sum(b) == t);
    } else if b.infinite() {
        assert(!b.negative());
        assert(t.sum(b) == b);
    } else {
        assert(a.finite());
        crate::order::lemma_sum(t, a);
        crate::order::lemma_sum(t, b);
        crate::order::lemma_rounded_mono(t.value() + a.value(), t.value() + b.value());
    }
}

/// What `lemma_gaps` says of one gap.
spec fn gap_bounded(base: Double, jitter: Double, before: Double, step: Double) -> bool {
    let shortest = base.product(Double::whole(1).difference(jitter));
    let longest = base.product(Double::whole(1).sum(jitter));
    &&& before.sum(shortest).at_most(step)
    &&& step.at_most(before.sum(longest))
    &&& step.finite() ==> shortest.value() - crate::bounds::last_place(step) <= step.value()
        - before.value() <= longest.value() + crate::bounds::last_place(step)
    &&& jitter.value() == 0 ==> shortest.value() == base.value() && longest.value() == base.value()
        && step.value() == before.sum(base).value()
}

/// A gap between the shortest and the longest one, added to a moment.
proof fn lemma_gap_bounds(base: Double, jitter: Double, f: Double, before: Double)
    requires
        base.finite(),
        !base.negative(),
        base.value() >= 0,
        jitter.finite(),
        0 <= jitter.value() <= crate::double::one(),
        f.finite(),
        !f.negative(),
        Double::whole(1).difference(jitter).at_most(f),
        f.at_most(Double::whole(1).sum(jitter)),
        !before.nan(),
        before.value() >= 0,
    ensures
        gap_bounded(base, jitter, before, before.sum(base.product(f))),
{
    let w = crate::double::one() as int;
    let one = Double::whole(1);
    let less = one.difference(jitter);
    let more = one.sum(jitter);
    let shortest = base.product(less);
    let longest = base.product(more);
    let gap = base.product(f);
    let step = before.sum(gap);
    lemma_small();
    lemma_remaining(jitter);
    crate::order::lemma_sum(one, jitter);
    crate::order::lemma_rounded_mono(w, w + jitter.value());
    crate::order::lemma_rounded_mono(w + jitter.value(), 2 * w);
    crate::order::lemma_rounded_exact(one);
    crate::order::lemma_rounded_exact(Double::whole(2));
    crate::order::lemma_value_bound(Double::whole(2));
    crate::bounds::lemma_sign(more);
    crate::order::lemma_zero(more);
    crate::order::lemma_product_commutes(base, less);
    crate::order::lemma_product_commutes(base, f);
    crate::order::lemma_product_commutes(base, more);
    crate::order::lemma_product_mono(less, f, base);
    crate::order::lemma_product_mono(f, more, base);
    lemma_adds(before, shortest, gap);
    lemma_adds(before, gap, longest);
    if step.finite() {
        crate::order::lemma_sum_grows(before, gap);
        crate::order::lemma_sum_covers(before, gap);
        crate::order::lemma_value_bound(step);
        crate::order::lemma_value_bound(before);
        crate::order::lemma_value_bound(gap);
        crate::rounding::lemma_units_mono(0, INF as nat);
        assert(before.finite() && gap.finite());
        crate::bounds::lemma_sum_near(before, gap);
    }
    if jitter.value() == 0 {
        lemma_times_one(base, less);
        lemma_times_one(base, more);
        lemma_adds(before, gap, base);
        lemma_adds(before, base, gap);
    }
}

/// An infinite gap, added to a moment.
proof fn lemma_endless_gap(base: Double, jitter: Double, f: Double, before: Double)
    requires
        base.infinite(),
        !base.negative(),
        base.value() >= 0,
        jitter.finite(),
        0 <= jitter.value() < crate::double::one(),
        f.finite(),
        !f.negative(),
        Double::whole(1).difference(jitter).at_most(f),
        f.at_most(Double::whole(1).sum(jitter)),
        !before.nan(),
        before.value() >= 0,
    ensures
        gap_bounded(base, jitter, before, before.sum(base.product(f))),
{
    let w = crate::double::one() as int;
    let one = Double::whole(1);
    let less = one.difference(jitter);
    let more = one.sum(jitter);
    lemma_small();
    lemma_remaining(jitter);
    crate::order::lemma_sum(one, jitter);
    crate::order::lemma_rounded_mono(w, w + jitter.value());
    crate::order::lemma_rounded_mono(w + jitter.value(), 2 * w);
    crate::order::lemma_rounded_exact(one);
    crate::order::lemma_rounded_exact(Double::whole(2));
    crate::order::lemma_value_bound(Double::whole(2));
    crate::bounds::lemma_sign(more);
    crate::order::lemma_zero(more);
    lemma_gap_number(base, jitter, less);
    lemma_gap_number(base, jitter, f);
    lemma_gap_number(base, jitter, more);
    let endless = base.product(f);
    crate::order::lemma_value_bound(endless);
    crate::rounding::lemma_units_mono(0, INF as nat);
    crate::order::lemma_sum_grows(before, endless);
    crate::order::lemma_sum_covers(before, endless);
    crate::order::lemma_value_bound(before.sum(endless));
    lemma_adds(before, base, endless);
    lemma_adds(before, endless, base);
    lemma_adds(before, endless, base.product(more));
    lemma_adds(before, base.product(less), endless);
}

/// A number times one is that number.
proof fn lemma_times_one(base: Double, one: Double)
    requires
        base.finite(),
        !base.negative(),
        one.finite(),
        !one.negative(),
        one.value() == crate::double::one(),
    ensures
        base.product(one).value() == base.value(),
{
    let w = crate::double::one();
    let m = base.magnitude();
    crate::rounding::lemma_two_to_pos(1074);
    crate::rounding::lemma_nearest_exact(m, w);
    crate::order::lemma_of(false, m);
}

} // verus!
