//! Typewriter audio: blips mixed into one track, and which message a delayed
//! track belongs to.
use crate::config::Sound;
use crate::double::Double;
use vstd::prelude::*;

verus! {

/// Samples per second.
pub const RATE: u32 = 48_000;

/// Maximum track duration in seconds; bounds allocation from onset times.
pub const MAX_TRACK_S: u64 = 120;

/// Most samples before the last blip starts.
pub const MAX_START: u64 = 5_760_000;

/// Whether a blip can be mixed in at a time.
pub open spec fn usable(t: Double) -> bool {
    t.finite() && crate::config::within(0, t, MAX_TRACK_S as nat)
}

/// The onsets that can be mixed, in order.
pub open spec fn kept(onsets: Seq<Double>) -> Seq<Double>
    decreases onsets.len(),
{
    if onsets.len() == 0 {
        Seq::empty()
    } else {
        let before = kept(onsets.drop_last());
        if usable(onsets.last()) {
            before.push(onsets.last())
        } else {
            before
        }
    }
}

/// The latest of some onsets, zero at the least.
pub open spec fn latest(onsets: Seq<Double>) -> Double
    decreases onsets.len(),
{
    if onsets.len() == 0 {
        Double::whole(0)
    } else {
        latest(onsets.drop_last()).larger(onsets.last())
    }
}

/// The sample at which a blip starts.
pub open spec fn start_of(t: Double) -> int {
    t.product(Double::whole(RATE as nat)).round_word()
}

/// How many samples a track takes: up to the last onset, and the blip's tail.
pub open spec fn track_len(onsets: Seq<Double>, blip: nat) -> int {
    latest(onsets).product(Double::whole(RATE as nat)).ceil_word() + blip
}

/// The sum of the blips that cover a sample, in the order of their onsets.
pub open spec fn mixed(onsets: Seq<Double>, blip: Seq<Double>, j: int) -> Double
    decreases onsets.len(),
{
    if onsets.len() == 0 {
        Double::whole(0)
    } else {
        let before = mixed(onsets.drop_last(), blip, j);
        let start = start_of(onsets.last());
        if start <= j < start + blip.len() {
            before.sum(blip[j - start])
        } else {
            before
        }
    }
}

/// A sample held to full scale.
pub open spec fn full_scale(v: Double) -> Double {
    if v.below(Double::integer(-1)) {
        Double::integer(-1)
    } else if Double::whole(1).below(v) {
        Double::whole(1)
    } else {
        v
    }
}

/// A sample as a 16-bit number.
pub open spec fn quantised(v: Double) -> int {
    let x = full_scale(v).product(Double::whole(32767));
    if x.negative() {
        -x.negation().round_word()
    } else {
        x.round_word()
    }
}

/// The track of some onsets: nothing where there is nothing to play.
pub open spec fn track_of(cfg: Sound, blip: Seq<Double>, onsets: Seq<Double>) -> Seq<int> {
    let played = kept(onsets);
    if !cfg.enabled || blip.len() == 0 || played.len() == 0 {
        Seq::empty()
    } else {
        Seq::new(track_len(played, blip.len()) as nat, |j: int| quantised(mixed(played, blip, j)))
    }
}

pub proof fn lemma_levels()
    ensures
        crate::double::one() > 0,
        Double::whole(0).value() == 0,
        !Double::whole(0).nan(),
        Double::whole(0).finite(),
        Double::whole(1).value() == crate::double::one(),
        Double::whole(1).finite(),
        Double::integer(-1).value() == -(crate::double::one() as int),
        Double::integer(-1).finite(),
        Double::whole(32767).value() == 32767 * crate::double::one(),
        Double::whole(32767).finite(),
        crate::rounding::units(Double::whole(32767).magnitude()) == 32767 * crate::double::one(),
{
    crate::rounding::lemma_two_to_pos(1074);
    crate::order::lemma_whole(0);
    crate::order::lemma_whole(1);
    crate::order::lemma_whole(32767);
    let w = crate::double::one();
    assert(crate::double::size(-1) * w == 1 * w);
    crate::order::lemma_of(true, Double::whole(1).magnitude());
    crate::order::lemma_of(false, crate::rounding::nearest(1 * w, 1));
}

/// A number that is not negative rounds to at most what its bound does.
pub proof fn lemma_round_bound(d: Double, n: nat)
    requires
        !d.nan(),
        d.value() <= n * crate::double::one(),
    ensures
        0 <= d.round_word() <= n,
{
    let w = crate::double::one() as int;
    let v = d.value();
    crate::rounding::lemma_two_to_pos(1074);
    if v > 0 {
        vstd::arithmetic::div_mod::lemma_fundamental_div_mod(2 * v + w, 2 * w);
        let q = (2 * v + w) / (2 * w);
        assert(0 <= q <= n) by (nonlinear_arith)
            requires
                2 * v + w == (2 * w) * q + (2 * v + w) % (2 * w),
                0 <= (2 * v + w) % (2 * w) < 2 * w,
                0 < v <= n * w,
                w > 0,
        ;
    }
}

/// A sample always fits its 16 bits, and full scale is never exceeded.
pub proof fn lemma_quantised(v: Double)
    ensures
        -32767 <= quantised(v) <= 32767,
{
    lemma_levels();
    let w = crate::double::one();
    let c = full_scale(v);
    let x = c.product(Double::whole(32767));
    if v.nan() {
        assert(x == Double::not_a_number());
        assert(x.round_word() == 0);
    } else {
        assert(-w <= c.value() <= w);
        assert(c.finite()) by {
            if c.infinite() {
                crate::order::lemma_value_bound(Double::whole(1));
            }
        }
        assert(crate::double::size(c.value()) * (32767 * w) <= (32767 * w) * w) by (nonlinear_arith)
            requires
                crate::double::size(c.value()) <= w,
        ;
        crate::order::lemma_product_bound(
            c,
            Double::whole(32767),
            Double::whole(32767).magnitude(),
        );
        crate::order::lemma_negation(x);
        if x.negative() {
            lemma_round_bound(x.negation(), 32767);
        } else {
            lemma_round_bound(x, 32767);
        }
    }
}

/// A sample held to full scale.
pub fn hold(v: Double) -> (r: Double)
    ensures
        r == full_scale(v),
{
    let minus_one: Double = Double::from_int(-1);
    let one: Double = Double::from_word(1);
    if v.lt(minus_one) {
        minus_one
    } else if one.lt(v) {
        one
    } else {
        v
    }
}

/// A sample as a 16-bit number.
fn quantise(v: Double) -> (s: i16)
    ensures
        s == quantised(v),
{
    let x: Double = hold(v).times(Double::from_word(32767));
    proof {
        lemma_quantised(v);
        lemma_levels();
    }
    if x.is_nan() {
        proof {
            assert(x.round_word() == 0);
            assert(x == Double::not_a_number()) by {
                assert(x.nan());
                if !v.nan() {
                    lemma_not_nan(v);
                }
            }
        }
        return 0;
    }
    if x.is_negative() {
        let n: u64 = x.neg().to_word_nearest();
        -(n as i16)
    } else {
        let n: u64 = x.to_word_nearest();
        n as i16
    }
}

pub(crate) proof fn lemma_not_nan(v: Double)
    requires
        !v.nan(),
    ensures
        !full_scale(v).product(Double::whole(32767)).nan(),
{
    lemma_levels();
    let w = crate::double::one();
    let c = full_scale(v);
    assert(c.finite()) by {
        if c.infinite() {
            crate::order::lemma_value_bound(Double::whole(1));
        }
    }
    assert(crate::double::size(c.value()) * (32767 * w) <= (32767 * w) * w) by (nonlinear_arith)
        requires
            crate::double::size(c.value()) <= w,
    ;
    crate::order::lemma_product_bound(c, Double::whole(32767), Double::whole(32767).magnitude());
}

/// Facts about a usable onset: its blip starts no later than the track's last
/// sample before the tail.
pub(crate) proof fn lemma_start(t: Double, last: Double)
    requires
        usable(t),
        usable(last),
        t.value() <= last.value(),
    ensures
        0 <= start_of(t) <= last.product(Double::whole(RATE as nat)).ceil_word() <= MAX_START,
{
    lemma_levels();
    let w = crate::double::one() as int;
    let r = Double::whole(RATE as nat);
    crate::order::lemma_whole(RATE as nat);
    crate::order::lemma_whole(MAX_TRACK_S as nat);
    crate::order::lemma_whole(MAX_START as nat);
    crate::order::lemma_zero(t);
    crate::order::lemma_zero(last);
    let top = Double::whole(MAX_START as nat);
    lemma_scaled(t);
    lemma_scaled(last);
    let x = t.product(r);
    let y = last.product(r);
    lemma_round_below_ceil(x);
    // The order of the two products.
    if t.value() > 0 {
        crate::rounding::lemma_units_mono(0, t.magnitude());
        crate::rounding::lemma_units_mono(0, last.magnitude());
        crate::order::lemma_product_mono(t, last, r);
        vstd::arithmetic::div_mod::lemma_div_is_ordered(
            x.value() + w - 1,
            y.value() + w - 1,
            w,
        );
    }
    lemma_ceil_bound(y, MAX_START as nat);
}

/// A usable onset in samples.
pub(crate) proof fn lemma_scaled(t: Double)
    requires
        usable(t),
    ensures
        ({
            let x = t.product(Double::whole(RATE as nat));
            &&& !x.nan()
            &&& 0 <= x.value() <= MAX_START * crate::double::one()
            &&& t.value() == 0 ==> x.value() == 0
        }),
{
    lemma_levels();
    let w = crate::double::one();
    let r = Double::whole(RATE as nat);
    crate::order::lemma_whole(RATE as nat);
    crate::order::lemma_whole(MAX_TRACK_S as nat);
    crate::order::lemma_whole(MAX_START as nat);
    let top = Double::whole(MAX_START as nat);
    let s = crate::double::size(t.value());
    assert(s * (48_000 * w) <= (5_760_000 * w) * w) by (nonlinear_arith)
        requires
            s <= 120 * w,
    ;
    crate::order::lemma_product_bound(t, r, top.magnitude());
    crate::order::lemma_product_sign(t, r);
    if t.value() == 0 {
        assert(s * crate::double::size(r.value()) == 0) by (nonlinear_arith)
            requires
                s == 0,
        ;
        assert(crate::rounding::units(0) * w == 0) by (nonlinear_arith)
            requires
                crate::rounding::units(0) == 0,
        {
        }
        crate::order::lemma_product_bound(t, r, 0);
    }
}

/// Rounding to the nearest never passes rounding up.
proof fn lemma_round_below_ceil(d: Double)
    requires
        !d.nan(),
    ensures
        0 <= d.round_word() <= d.ceil_word(),
{
    let w = crate::double::one() as int;
    let v = d.value();
    crate::rounding::lemma_two_to_pos(1074);
    if v > 0 {
        vstd::arithmetic::div_mod::lemma_fundamental_div_mod(2 * v + w, 2 * w);
        vstd::arithmetic::div_mod::lemma_fundamental_div_mod(v + w - 1, w);
        let q = (2 * v + w) / (2 * w);
        let c = (v + w - 1) / w;
        assert(0 <= q <= c) by (nonlinear_arith)
            requires
                2 * v + w == (2 * w) * q + (2 * v + w) % (2 * w),
                0 <= (2 * v + w) % (2 * w) < 2 * w,
                v + w - 1 == w * c + (v + w - 1) % w,
                0 <= (v + w - 1) % w < w,
                v > 0,
                w > 0,
        ;
    }
}

proof fn lemma_ceil_bound(d: Double, n: nat)
    requires
        !d.nan(),
        d.value() <= n * crate::double::one(),
    ensures
        0 <= d.ceil_word() <= n,
{
    let w = crate::double::one() as int;
    let v = d.value();
    crate::rounding::lemma_two_to_pos(1074);
    if v > 0 {
        vstd::arithmetic::div_mod::lemma_fundamental_div_mod(v + w - 1, w);
        let c = (v + w - 1) / w;
        assert(0 <= c <= n) by (nonlinear_arith)
            requires
                v + w - 1 == w * c + (v + w - 1) % w,
                0 <= (v + w - 1) % w < w,
                0 < v <= n * w,
                w > 0,
        ;
    }
}

/// The latest of usable onsets is usable, and none is later.
pub(crate) proof fn lemma_latest(onsets: Seq<Double>)
    requires
        forall|i: int| 0 <= i < onsets.len() ==> usable(#[trigger] onsets[i]),
    ensures
        usable(latest(onsets)),
        forall|i: int|
            0 <= i < onsets.len() ==> (#[trigger] onsets[i]).value() <= latest(onsets).value(),
    decreases onsets.len(),
{
    lemma_levels();
    crate::order::lemma_whole(MAX_TRACK_S as nat);
    if onsets.len() > 0 {
        let rest = onsets.drop_last();
        assert forall|i: int| 0 <= i < rest.len() implies usable(#[trigger] rest[i]) by {
            assert(usable(onsets[i]));
        }
        lemma_latest(rest);
        assert(usable(onsets.last()));
        assert forall|i: int| 0 <= i < onsets.len() implies (#[trigger] onsets[i]).value()
            <= latest(onsets).value() by {
            if i < rest.len() {
                assert(rest[i] == onsets[i]);
            }
        }
    }
}

/// Discard non-finite and out-of-range onsets before allocating.
fn keep(onsets: &Vec<Double>) -> (out: Vec<Double>)
    ensures
        out@ == kept(onsets@),
        forall|i: int| 0 <= i < out@.len() ==> usable(#[trigger] out@[i]),
{
    let mut out: Vec<Double> = Vec::new();
    let mut i: usize = 0;
    assert(onsets@.take(0) =~= Seq::<Double>::empty());
    while i < onsets.len()
        invariant
            i <= onsets@.len(),
            out@ == kept(onsets@.take(i as int)),
            forall|i: int| 0 <= i < out@.len() ==> usable(#[trigger] out@[i]),
        decreases onsets.len() - i,
    {
        let t: Double = onsets[i];
        assert(onsets@.take(i + 1).drop_last() =~= onsets@.take(i as int));
        if t.is_finite() && Double::from_word(0).le(t) && t.le(Double::from_word(MAX_TRACK_S)) {
            out.push(t);
        }
        i = i + 1;
    }
    assert(onsets@.take(i as int) =~= onsets@);
    out
}

/// Mix one blip in at each onset (seconds) and quantise to mono 16 bits. The
/// track is empty when there is nothing to play. Overlapping tails sum, and are
/// held to full scale before the conversion.
pub fn typewriter_track(cfg: &Sound, blip: &Vec<Double>, onsets: &Vec<Double>) -> (track: Vec<i16>)
    requires
        blip@.len() + MAX_START <= usize::MAX,
    ensures
        track@.map_values(|s: i16| s as int) == track_of(*cfg, blip@, onsets@),
{
    let mut track: Vec<i16> = Vec::new();
    let ghost none = track@.map_values(|s: i16| s as int);
    assert(none =~= Seq::<int>::empty());
    if !cfg.enabled || blip.len() == 0 {
        return track;
    }
    let played: Vec<Double> = keep(onsets);
    if played.len() == 0 {
        return track;
    }
    let mut last: Double = Double::from_word(0);
    let mut k: usize = 0;
    assert(played@.take(0) =~= Seq::<Double>::empty());
    while k < played.len()
        invariant
            k <= played@.len(),
            last == latest(played@.take(k as int)),
        decreases played.len() - k,
    {
        assert(played@.take(k + 1).drop_last() =~= played@.take(k as int));
        last = last.max(played[k]);
        k = k + 1;
    }
    proof {
        assert(played@.take(k as int) =~= played@);
        lemma_latest(played@);
        lemma_start(latest(played@), latest(played@));
    }
    let total: usize = last.times(Double::from_word(RATE as u64)).to_word_up() as usize + blip.len();
    let mut acc: Vec<Double> = Vec::new();
    let mut j: usize = 0;
    while j < total
        invariant
            j <= total,
            acc@.len() == j,
            forall|i: int| 0 <= i < j ==> #[trigger] acc@[i] == Double::whole(0),
        decreases total - j,
    {
        acc.push(Double::from_word(0));
        j = j + 1;
    }
    let mut k: usize = 0;
    while k < played.len()
        invariant
            k <= played@.len(),
            acc@.len() == total,
            total == track_len(played@, blip@.len()),
            blip@.len() <= total,
            forall|i: int| 0 <= i < played@.len() ==> usable(#[trigger] played@[i]),
            forall|i: int|
                0 <= i < total ==> #[trigger] acc@[i] == mixed(played@.take(k as int), blip@, i),
        decreases played.len() - k,
    {
        let t: Double = played[k];
        proof {
            lemma_latest(played@);
            lemma_start(t, latest(played@));
            assert(played@.take(k + 1).drop_last() =~= played@.take(k as int));
        }
        let start: usize = t.times(Double::from_word(RATE as u64)).to_word_nearest() as usize;
        let mut i: usize = 0;
        while i < blip.len()
            invariant
                i <= blip@.len(),
                k < played@.len(),
                acc@.len() == total,
                start == start_of(played@[k as int]),
                start + blip@.len() <= total,
                played@.take(k + 1).drop_last() == played@.take(k as int),
                played@.take(k + 1).last() == played@[k as int],
                forall|j: int|
                    0 <= j < total ==> #[trigger] acc@[j] == if start <= j < start + i {
                        mixed(played@.take(k + 1), blip@, j)
                    } else {
                        mixed(played@.take(k as int), blip@, j)
                    },
            decreases blip.len() - i,
        {
            let at: usize = start + i;
            let v: Double = acc[at].plus(blip[i]);
            acc.set(at, v);
            i = i + 1;
        }
        k = k + 1;
    }
    assert(played@.take(k as int) =~= played@);
    let ghost want = track_of(*cfg, blip@, onsets@);
    let mut j: usize = 0;
    assert(want.take(0) =~= none);
    while j < total
        invariant
            j <= total,
            acc@.len() == total,
            want.len() == total,
            forall|i: int| 0 <= i < total ==> #[trigger] want[i] == quantised(acc@[i]),
            track@.map_values(|s: i16| s as int) == want.take(j as int),
        decreases total - j,
    {
        let ghost before = track@.map_values(|s: i16| s as int);
        let s: i16 = quantise(acc[j]);
        track.push(s);
        proof {
            assert(track@.map_values(|s: i16| s as int) =~= before.push(s as int));
            assert(want.take(j + 1) =~= want.take(j as int).push(want[j as int]));
        }
        j = j + 1;
    }
    assert(want.take(j as int) =~= want);
    track
}

/// A track is never longer than its limit and one blip, whatever the onsets.
pub proof fn lemma_track_len(cfg: Sound, blip: Seq<Double>, onsets: Seq<Double>)
    ensures
        track_of(cfg, blip, onsets).len() <= MAX_START + blip.len(),
        forall|j: int|
            0 <= j < track_of(cfg, blip, onsets).len() ==> -32767 <= #[trigger] track_of(
                cfg,
                blip,
                onsets,
            )[j] <= 32767,
{
    lemma_kept(onsets);
    lemma_latest(kept(onsets));
    lemma_start(latest(kept(onsets)), latest(kept(onsets)));
    assert forall|j: int| 0 <= j < track_of(cfg, blip, onsets).len() implies -32767
        <= #[trigger] track_of(cfg, blip, onsets)[j] <= 32767 by {
        lemma_quantised(mixed(kept(onsets), blip, j));
    }
}

/// What can be mixed, of what can be mixed, is all of it.
proof fn lemma_kept_twice(onsets: Seq<Double>)
    ensures
        kept(kept(onsets)) == kept(onsets),
    decreases onsets.len(),
{
    if onsets.len() > 0 {
        let before = kept(onsets.drop_last());
        lemma_kept_twice(onsets.drop_last());
        if usable(onsets.last()) {
            assert(before.push(onsets.last()).drop_last() =~= before);
        }
    }
}

/// The track of a valid sound and its rendered blip: empty exactly where sound
/// is off or no onset can be mixed; else as long as it takes to the last of
/// them, and the blip. Onsets that cannot be mixed change nothing.
pub proof fn lemma_track(cfg: Sound, blip: Seq<Double>, onsets: Seq<Double>)
    requires
        crate::config::sound_fault(cfg) is None,
        blip.len() == crate::synth::envelope_of(crate::synth::params_of(cfg)).total_n,
    ensures
        track_of(cfg, blip, onsets) == track_of(cfg, blip, kept(onsets)),
        track_of(cfg, blip, onsets).len() == 0 <==> !cfg.enabled || kept(onsets).len() == 0,
        track_of(cfg, blip, onsets).len() > 0 ==> track_of(cfg, blip, onsets).len() == latest(
            kept(onsets),
        ).product(Double::whole(RATE as nat)).ceil_word() + blip.len(),
        blip.len() + MAX_START <= usize::MAX,
{
    crate::synth::lemma_blip_has_samples(cfg);
    lemma_kept_twice(onsets);
    lemma_kept(onsets);
    lemma_latest(kept(onsets));
    lemma_start(latest(kept(onsets)), latest(kept(onsets)));
}

pub(crate) proof fn lemma_kept(onsets: Seq<Double>)
    ensures
        forall|i: int| 0 <= i < kept(onsets).len() ==> usable(#[trigger] kept(onsets)[i]),
    decreases onsets.len(),
{
    if onsets.len() > 0 {
        let before = kept(onsets.drop_last());
        lemma_kept(onsets.drop_last());
        assert forall|i: int| 0 <= i < kept(onsets).len() implies usable(
            #[trigger] kept(onsets)[i],
        ) by {
            if i < before.len() {
                assert(kept(onsets)[i] == before[i]);
            }
        }
    }
}

/// Which message a delayed track belongs to.
///
/// An untype track is scheduled when its message goes up but plays when the
/// vanish begins, which for a listener may be after the message has been
/// replaced. Bumping this drops what was scheduled for the message that went
/// away.
#[derive(Clone, Copy, Debug, PartialEq, Eq, Structural)]
pub struct Generation {
    count: u64,
}

impl View for Generation {
    type V = u64;

    closed spec fn view(&self) -> u64 {
        self.count
    }
}

impl Generation {
    pub fn new() -> (g: Generation)
        ensures
            g@ == 0,
    {
        Generation { count: 0 }
    }

    pub fn get(&self) -> (n: u64)
        ensures
            n == self@,
    {
        self.count
    }

    /// Abandon everything scheduled so far.
    pub fn bump(&mut self)
        ensures
            final(self)@ == if old(self)@ == u64::MAX {
                0
            } else {
                (old(self)@ + 1) as u64
            },
            final(self)@ != old(self)@,
    {
        self.count = if self.count == u64::MAX {
            0
        } else {
            self.count + 1
        };
    }

    /// Whether a track issued under a count is still to be played. One without
    /// a delay always is; a delayed one, unless it has been abandoned since.
    pub fn wants(&self, issued: u64, delayed: bool) -> (r: bool)
        ensures
            r == (!delayed || self@ == issued),
            !delayed ==> r,
            delayed && r ==> self@ == issued,
            self@ == issued ==> r,
    {
        !delayed || self.count == issued
    }
}

/// A sample in little-endian order.
pub open spec fn sample_bytes(s: i16) -> Seq<u8> {
    let u = if s < 0 {
        s + 0x1_0000
    } else {
        s as int
    };
    seq![(u % 256) as u8, (u / 256) as u8]
}

/// The samples of a track in little-endian order.
pub open spec fn track_bytes(pcm: Seq<i16>) -> Seq<u8>
    decreases pcm.len(),
{
    if pcm.len() == 0 {
        Seq::empty()
    } else {
        track_bytes(pcm.drop_last()) + sample_bytes(pcm.last())
    }
}

/// The bytes a track is played from.
pub fn to_bytes(pcm: &Vec<i16>) -> (bytes: Vec<u8>)
    ensures
        bytes@ == track_bytes(pcm@),
{
    let mut bytes: Vec<u8> = Vec::new();
    let mut i: usize = 0;
    assert(pcm@.take(0) =~= Seq::<i16>::empty());
    while i < pcm.len()
        invariant
            i <= pcm@.len(),
            bytes@ == track_bytes(pcm@.take(i as int)),
        decreases pcm.len() - i,
    {
        let s: i32 = pcm[i] as i32;
        let u: i32 = if s < 0 {
            s + 0x1_0000
        } else {
            s
        };
        let ghost before = bytes@;
        bytes.push((u % 256) as u8);
        bytes.push((u / 256) as u8);
        proof {
            assert(pcm@.take(i + 1).drop_last() =~= pcm@.take(i as int));
            assert(bytes@ =~= before + sample_bytes(pcm@[i as int]));
        }
        i = i + 1;
    }
    assert(pcm@.take(i as int) =~= pcm@);
    bytes
}

} // verus!
