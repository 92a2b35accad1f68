//! Blip synthesis: the partials, the envelope and the normalisation. Sines,
//! cosines and exponentials are evaluated by the caller, on the arguments given
//! here.
use crate::config::Sound;
use crate::double::Double;
use crate::sound::RATE;
use vstd::prelude::*;

verus! {

/// The bit pattern of pi.
pub const PI: u64 = 0x4009_21fb_5444_2d18;

/// The bit pattern of the natural logarithm of 1000.
pub const LN_1000: u64 = 0x401b_a18a_998f_ffa0;

/// The bit pattern of 0.5.
pub const HALF: u64 = 0x3fe0_0000_0000_0000;

/// The bit pattern of 0.005: the longest fade, in seconds.
pub const FADE: u64 = 0x3f74_7ae1_47ae_147b;

/// The bit pattern of 0.35.
pub const BRIGHTNESS: u64 = 0x3fd6_6666_6666_6666;

/// The bit pattern of 0.09.
pub const DETUNE: u64 = 0x3fb7_0a3d_70a3_d70a;

/// The bit patterns of 2.33, 0.70, 0.63 and 0.86.
pub const THIRD_RATIO: u64 = 0x4002_a3d7_0a3d_70a4;

pub const BASE_WEIGHT: u64 = 0x3fe6_6666_6666_6666;

pub const FIRST_WEIGHT: u64 = 0x3fe4_28f5_c28f_5c29;

pub const SECOND_WEIGHT: u64 = 0x3feb_851e_b851_eb85;

/// Synthesis parameters, validated with the style before allocation.
#[derive(Clone, Copy, Debug, PartialEq, Eq, Structural)]
pub struct Params {
    /// Base frequency, Hz.
    pub freq: Double,
    /// Raised-cosine attack to peak, ms.
    pub attack_ms: Double,
    /// Ring-out to -60 dB, ms.
    pub decay_ms: Double,
    /// Octave overtone weight, 0..1.
    pub brightness: Double,
    /// Cluster spread, 0..0.4.
    pub detune: Double,
    /// Output peak amplitude, 0..1.
    pub gain: Double,
    /// Sample rate, Hz.
    pub rate: u32,
}

/// The parameters of the typewriter's blip.
pub open spec fn params_of(cfg: Sound) -> Params {
    Params {
        freq: cfg.freq,
        attack_ms: Double::whole(1),
        decay_ms: cfg.decay_ms,
        brightness: Double { bits: BRIGHTNESS },
        detune: Double { bits: DETUNE },
        gain: cfg.gain,
        rate: RATE,
    }
}

/// The parameters of the typewriter's blip.
pub fn blip_params(cfg: &Sound) -> (p: Params)
    ensures
        p == params_of(*cfg),
{
    Params {
        freq: cfg.freq,
        attack_ms: Double::from_word(1),
        decay_ms: cfg.decay_ms,
        brightness: Double { bits: BRIGHTNESS },
        detune: Double { bits: DETUNE },
        gain: cfg.gain,
        rate: RATE,
    }
}

/// One resolved sine partial: absolute frequency + relative weight.
#[derive(Clone, Copy, Debug, PartialEq, Eq, Structural)]
pub struct Partial {
    pub freq: Double,
    pub weight: Double,
}

/// Cluster ratios and weights measured from a bell sample: the detune
/// multiplier k in the ratio (1 - k*detune), and the weight. The base is the
/// octave's fundamental; the last partial is the dominant one.
pub open spec fn cluster(i: int) -> (Double, Double) {
    if i == 0 {
        (Double::whole(0), Double { bits: BASE_WEIGHT })
    } else if i == 1 {
        (Double::whole(1), Double { bits: FIRST_WEIGHT })
    } else if i == 2 {
        (Double::whole(2), Double { bits: SECOND_WEIGHT })
    } else {
        (Double { bits: THIRD_RATIO }, Double::whole(1))
    }
}

/// The partials before any is discarded: the cluster, and the octave overtone
/// with the brightness as its weight.
pub open spec fn candidate(p: Params, i: int) -> Partial {
    if i < 4 {
        Partial {
            freq: p.freq.product(Double::whole(1).difference(cluster(i).0.product(p.detune))),
            weight: cluster(i).1,
        }
    } else {
        Partial { freq: p.freq.product(Double::whole(2)), weight: p.brightness }
    }
}

/// Whether a partial is heard: it has a weight, and a frequency below half the
/// sample rate.
pub open spec fn heard(p: Params, part: Partial) -> bool {
    Double::whole(0).below(part.freq) && part.freq.below(
        Double::whole(p.rate as nat).quotient(Double::whole(2)),
    ) && Double::whole(0).below(part.weight)
}

/// The first `n` candidates that are heard.
pub open spec fn heard_among(p: Params, n: nat) -> Seq<Partial>
    decreases n,
{
    if n == 0 {
        Seq::empty()
    } else {
        let before = heard_among(p, (n - 1) as nat);
        let part = candidate(p, n - 1);
        if heard(p, part) {
            before.push(part)
        } else {
            before
        }
    }
}

/// Resolve partials and discard inaudible or aliasing frequencies. An empty
/// cluster is silence.
pub fn partials(p: &Params) -> (out: Vec<Partial>)
    ensures
        out@ == heard_among(*p, 5),
{
    let nyquist: Double = Double::from_word(p.rate as u64).over(Double::from_word(2));
    let zero: Double = Double::from_word(0);
    let mut out: Vec<Partial> = Vec::new();
    let mut i: u8 = 0;
    while i < 5
        invariant
            i <= 5,
            nyquist == Double::whole(p.rate as nat).quotient(Double::whole(2)),
            zero == Double::whole(0),
            out@ == heard_among(*p, i as nat),
        decreases 5 - i,
    {
        let part: Partial = if i < 4 {
            let (mul, weight): (Double, Double) = if i == 0 {
                (Double::from_word(0), Double { bits: BASE_WEIGHT })
            } else if i == 1 {
                (Double::from_word(1), Double { bits: FIRST_WEIGHT })
            } else if i == 2 {
                (Double::from_word(2), Double { bits: SECOND_WEIGHT })
            } else {
                (Double { bits: THIRD_RATIO }, Double::from_word(1))
            };
            let ratio: Double = Double::from_word(1).minus(mul.times(p.detune));
            Partial { freq: p.freq.times(ratio), weight }
        } else {
            Partial { freq: p.freq.times(Double::from_word(2)), weight: p.brightness }
        };
        if zero.lt(part.freq) && part.freq.lt(nyquist) && zero.lt(part.weight) {
            out.push(part);
        }
        i = i + 1;
    }
    out
}

/// Envelope timing derived from attack and decay.
#[derive(Clone, Copy, Debug, PartialEq, Eq, Structural)]
pub struct Envelope {
    /// Seconds to the peak.
    pub attack: Double,
    /// Exponential decay time-constant, in seconds.
    pub tau: Double,
    pub rate: Double,
    /// Samples in all.
    pub total_n: u64,
    /// Samples of the final fade.
    pub fade_n: u64,
}

/// The envelope of some parameters. The decay is the time to -60 dB, a factor
/// of 1000. The fade is 5 ms, or a quarter of the body for tiny blips; it has
/// at least one sample and is never longer than the whole.
pub open spec fn envelope_of(p: Params) -> Envelope {
    let rate = Double::whole(p.rate as nat);
    let attack = p.attack_ms.quotient(Double::whole(1000));
    let decay = p.decay_ms.quotient(Double::whole(1000));
    let body = attack.sum(decay);
    let fade = (Double { bits: FADE }).smaller(body.quotient(Double::whole(4)));
    let total_n = body.sum(fade).product(rate).round_word();
    let fade_n = fade.product(rate).round_word();
    Envelope {
        attack,
        tau: decay.quotient(Double { bits: LN_1000 }),
        rate,
        total_n: total_n as u64,
        fade_n: (if fade_n < 1 {
            1
        } else if fade_n > total_n {
            if total_n < 1 {
                1
            } else {
                total_n
            }
        } else {
            fade_n
        }) as u64,
    }
}

impl Envelope {
    /// The time of a sample, in seconds.
    pub open spec fn time(self, i: u64) -> Double {
        Double::whole(i as nat).quotient(self.rate)
    }

    /// The angle whose cosine shapes the attack at a sample.
    pub open spec fn swell(self, i: u64) -> Double {
        (Double { bits: PI }).product(
            crate::timeline::clamped(self.time(i).quotient(self.attack)),
        )
    }

    /// The exponent of the decay at a sample.
    pub open spec fn ring(self, i: u64) -> Double {
        let after = self.time(i).difference(self.attack);
        (if after.nan() {
            after
        } else {
            after.negation()
        }).quotient(self.tau)
    }

    /// How much of a sample the final fade leaves.
    pub open spec fn tail(self, i: u64) -> Double {
        if i + self.fade_n >= self.total_n {
            let denom = if self.fade_n < 2 {
                1
            } else {
                self.fade_n - 1
            };
            crate::timeline::clamped(
                Double::whole((self.total_n - 1 - i) as nat).quotient(Double::whole(denom as nat)),
            )
        } else {
            Double::whole(1)
        }
    }

    /// The envelope at a sample: attack, decay and fade. `cos` is the cosine of
    /// the swell, `exp` the exponential of the ring.
    pub open spec fn level(self, i: u64, cos: Double, exp: Double) -> Double {
        let attack = if self.attack.at_most(Double::whole(0)) {
            Double::whole(1)
        } else {
            (Double { bits: HALF }).product(Double::whole(1).difference(cos))
        };
        let decay = if self.attack.at_most(self.time(i)) {
            exp
        } else {
            Double::whole(1)
        };
        attack.product(decay).product(self.tail(i))
    }

    pub fn new(p: &Params) -> (e: Envelope)
        ensures
            e == envelope_of(*p),
    {
        let rate: Double = Double::from_word(p.rate as u64);
        let attack: Double = p.attack_ms.over(Double::from_word(1000));
        let decay: Double = p.decay_ms.over(Double::from_word(1000));
        let body: Double = attack.plus(decay);
        let fade: Double = (Double { bits: FADE }).min(body.over(Double::from_word(4)));
        let tau: Double = decay.over(Double { bits: LN_1000 });
        let total_n: u64 = body.plus(fade).times(rate).to_word_nearest();
        let fade_n: u64 = fade.times(rate).to_word_nearest();
        let fade_n: u64 = if fade_n < 1 {
            1
        } else if fade_n > total_n {
            if total_n < 1 {
                1
            } else {
                total_n
            }
        } else {
            fade_n
        };
        Envelope { attack, tau, rate, total_n, fade_n }
    }

    fn seconds(&self, i: u64) -> (t: Double)
        ensures
            t == self.time(i),
    {
        Double::from_word(i).over(self.rate)
    }

    /// The angle whose cosine shapes the attack at a sample.
    pub fn swell_angle(&self, i: u64) -> (a: Double)
        ensures
            a == self.swell(i),
    {
        (Double { bits: PI }).times(crate::timeline::clamp(self.seconds(i).over(self.attack)))
    }

    /// The exponent of the decay at a sample.
    pub fn ring_exponent(&self, i: u64) -> (a: Double)
        ensures
            a == self.ring(i),
    {
        let after: Double = self.seconds(i).minus(self.attack);
        let down: Double = if after.is_nan() {
            after
        } else {
            after.neg()
        };
        down.over(self.tau)
    }

    /// The envelope at a sample, given the cosine of its swell and the
    /// exponential of its ring.
    pub fn at(&self, i: u64, cos: Double, exp: Double) -> (v: Double)
        requires
            i < self.total_n,
        ensures
            v == self.level(i, cos, exp),
    {
        let one: Double = Double::from_word(1);
        let attack: Double = if self.attack.le(Double::from_word(0)) {
            one
        } else {
            (Double { bits: HALF }).times(one.minus(cos))
        };
        let decay: Double = if self.attack.le(self.seconds(i)) {
            exp
        } else {
            one
        };
        let left: u64 = self.total_n - 1 - i;
        let fade: Double = if left < self.fade_n {
            let denom: u64 = if self.fade_n < 2 {
                1
            } else {
                self.fade_n - 1
            };
            crate::timeline::clamp(Double::from_word(left).over(Double::from_word(denom)))
        } else {
            one
        };
        attack.times(decay).times(fade)
    }
}

/// The angle whose sine a partial contributes at a time.
pub open spec fn angle_of(part: Partial, t: Double) -> Double {
    Double::whole(2).product(Double { bits: PI }).product(part.freq).product(t)
}

pub fn sine_angle(part: &Partial, e: &Envelope, i: u64) -> (a: Double)
    ensures
        a == angle_of(*part, e.time(i)),
{
    Double::from_word(2).times(Double { bits: PI }).times(part.freq).times(e.seconds(i))
}

/// The weighted sum of the partials' sines.
pub open spec fn chord(parts: Seq<Partial>, sines: Seq<Double>) -> Double
    decreases parts.len(),
{
    if parts.len() == 0 {
        Double::whole(0)
    } else {
        chord(parts.drop_last(), sines).sum(
            parts.last().weight.product(sines[parts.len() - 1]),
        )
    }
}

/// One raw sample: the envelope times the weighted sum of the sines.
#[verifier::opaque]
pub open spec fn raw_sample(
    e: Envelope,
    i: u64,
    cos: Double,
    exp: Double,
    parts: Seq<Partial>,
    sines: Seq<Double>,
) -> Double {
    e.level(i, cos, exp).product(chord(parts, sines))
}

/// One raw sample: the envelope times the weighted sum of the sines.
pub fn sample(e: &Envelope, i: u64, cos: Double, exp: Double, parts: &Vec<Partial>, sines: &Vec<Double>) -> (v:
    Double)
    requires
        i < e.total_n,
        sines@.len() == parts@.len(),
    ensures
        v == raw_sample(*e, i, cos, exp, parts@, sines@),
{
    reveal(raw_sample);
    let mut s: Double = Double::from_word(0);
    let mut k: usize = 0;
    assert(parts@.take(0) =~= Seq::<Partial>::empty());
    while k < parts.len()
        invariant
            k <= parts@.len(),
            sines@.len() == parts@.len(),
            s == chord(parts@.take(k as int), sines@),
        decreases parts.len() - k,
    {
        assert(parts@.take(k + 1).drop_last() =~= parts@.take(k as int));
        s = s.plus(parts[k].weight.times(sines[k]));
        k = k + 1;
    }
    assert(parts@.take(k as int) =~= parts@);
    e.at(i, cos, exp).times(s)
}

/// A number without its sign.
pub open spec fn absolute(d: Double) -> Double {
    if d.negative() && !d.nan() {
        d.negation()
    } else {
        d
    }
}

/// The largest sample without its sign, zero at the least.
pub open spec fn peak_of(raw: Seq<Double>) -> Double
    decreases raw.len(),
{
    if raw.len() == 0 {
        Double::whole(0)
    } else {
        let before = peak_of(raw.drop_last());
        if before.below(absolute(raw.last())) {
            absolute(raw.last())
        } else {
            before
        }
    }
}

/// The factor that brings the peak to the gain; zero for silence.
pub open spec fn scale_of(raw: Seq<Double>, gain: Double) -> Double {
    if Double::whole(0).below(peak_of(raw)) {
        gain.quotient(peak_of(raw))
    } else {
        Double::whole(0)
    }
}

/// Samples with peak amplitude `gain`, held to full scale.
pub fn normalise(raw: &Vec<Double>, gain: Double) -> (out: Vec<Double>)
    ensures
        out@.len() == raw@.len(),
        forall|i: int|
            0 <= i < raw@.len() ==> #[trigger] out@[i] == crate::sound::full_scale(
                raw@[i].product(scale_of(raw@, gain)),
            ),
{
    let mut peak: Double = Double::from_word(0);
    let mut i: usize = 0;
    assert(raw@.take(0) =~= Seq::<Double>::empty());
    while i < raw.len()
        invariant
            i <= raw@.len(),
            peak == peak_of(raw@.take(i as int)),
        decreases raw.len() - i,
    {
        let v: Double = raw[i];
        let a: Double = if !v.is_nan() && v.is_negative() {
            v.neg()
        } else {
            v
        };
        assert(raw@.take(i + 1).drop_last() =~= raw@.take(i as int));
        if peak.lt(a) {
            peak = a;
        }
        i = i + 1;
    }
    assert(raw@.take(i as int) =~= raw@);
    let scale: Double = if Double::from_word(0).lt(peak) {
        gain.over(peak)
    } else {
        Double::from_word(0)
    };
    let mut out: Vec<Double> = Vec::new();
    let mut i: usize = 0;
    while i < raw.len()
        invariant
            i <= raw@.len(),
            out@.len() == i,
            scale == scale_of(raw@, gain),
            forall|k: int|
                0 <= k < i ==> #[trigger] out@[k] == crate::sound::full_scale(
                    raw@[k].product(scale),
                ),
        decreases raw.len() - i,
    {
        out.push(crate::sound::hold(raw[i].times(scale)));
        i = i + 1;
    }
    out
}

/// The raw samples of a blip, given the cosines, the exponentials and the sines
/// at each of them.
pub open spec fn raw_of(
    p: Params,
    cosines: Seq<Double>,
    exponentials: Seq<Double>,
    sines: Seq<Vec<Double>>,
) -> Seq<Double> {
    let e = envelope_of(p);
    Seq::new(
        e.total_n as nat,
        |i: int|
            raw_sample(e, i as u64, cosines[i], exponentials[i], heard_among(p, 5), sines[i]@),
    )
}

/// Render float samples with peak amplitude `gain` before quantisation. At each
/// sample of the envelope the caller has evaluated the cosine of its swell, the
/// exponential of its ring and the sine of every partial's angle.
pub fn render_f64(
    p: &Params,
    cosines: &Vec<Double>,
    exponentials: &Vec<Double>,
    sines: &Vec<Vec<Double>>,
) -> (out: Vec<Double>)
    requires
        cosines@.len() == envelope_of(*p).total_n,
        exponentials@.len() == envelope_of(*p).total_n,
        sines@.len() == envelope_of(*p).total_n,
        forall|i: int|
            0 <= i < sines@.len() ==> (#[trigger] sines@[i])@.len() == heard_among(*p, 5).len(),
    ensures
        ({
            let raw = raw_of(*p, cosines@, exponentials@, sines@);
            &&& out@.len() == raw.len()
            &&& forall|i: int|
                0 <= i < raw.len() ==> #[trigger] out@[i] == crate::sound::full_scale(
                    raw[i].product(scale_of(raw, p.gain)),
                )
        }),
{
    let parts: Vec<Partial> = partials(p);
    let env: Envelope = Envelope::new(p);
    let ghost all = raw_of(*p, cosines@, exponentials@, sines@);
    let mut raw: Vec<Double> = Vec::new();
    let n: usize = cosines.len();
    let mut i: usize = 0;
    while i < n
        invariant
            i <= n,
            n == env.total_n,
            env == envelope_of(*p),
            parts@ == heard_among(*p, 5),
            cosines@.len() == env.total_n,
            exponentials@.len() == env.total_n,
            sines@.len() == env.total_n,
            forall|i: int|
                0 <= i < sines@.len() ==> (#[trigger] sines@[i])@.len() == heard_among(
                    *p,
                    5,
                ).len(),
            all == raw_of(*p, cosines@, exponentials@, sines@),
            raw@ == all.take(i as int),
        decreases n - i,
    {
        let v: Double = sample(&env, i as u64, cosines[i], exponentials[i], &parts, &sines[i]);
        raw.push(v);
        assert(all.take(i + 1) =~= all.take(i as int).push(v));
        i = i + 1;
    }
    assert(all.take(i as int) =~= all);
    normalise(&raw, p.gain)
}

/// No normalised sample passes full scale.
pub proof fn lemma_full_scale(v: Double)
    ensures
        crate::sound::full_scale(v).nan() == v.nan(),
        !v.nan() ==> -(crate::double::one() as int) <= crate::sound::full_scale(v).value()
            <= crate::double::one(),
{
    crate::sound::lemma_levels();
}

/// The blip of a valid sound has samples, and lasts no longer than five
/// seconds.
pub proof fn lemma_blip_has_samples(cfg: Sound)
    requires
        crate::config::sound_fault(cfg) is None,
    ensures
        0 < envelope_of(params_of(cfg)).total_n <= 240_000,
{
    let p = params_of(cfg);
    let w = crate::double::one() as int;
    let s = crate::rounding::STEP as int;
    let thousand = Double::whole(1000);
    let rate = Double::whole(48_000);
    crate::sound::lemma_levels();
    crate::order::lemma_whole(10);
    crate::order::lemma_whole(1000);
    crate::order::lemma_whole(3000);
    crate::order::lemma_whole(4);
    crate::order::lemma_whole(48_000);
    crate::order::lemma_whole(240_000);
    crate::rounding::lemma_two_to_values();
    crate::rounding::lemma_two_to_mono(127, 1074);
    crate::rounding::lemma_two_to_mono(1092, 1200);
    crate::rounding::lemma_two_to_add(18, 1074);
    assert(crate::rounding::two_to(18) == 262_144) by {
        reveal_with_fuel(crate::rounding::two_to, 19);
    }
    // Attack and decay.
    let d = p.decay_ms;
    assert(10 * w <= d.value() <= 3000 * w);
    crate::order::lemma_value_bound(Double::whole(3000));
    crate::bounds::lemma_sign(d);
    crate::order::lemma_zero(thousand);
    let a1 = crate::bounds::lemma_part(Double::whole(1), thousand, 1000);
    let d1 = crate::bounds::lemma_part(d, thousand, 1000);
    let attack = p.attack_ms.quotient(thousand);
    let decay = d.quotient(thousand);
    assert(w <= 200 * d1 && d1 <= 3 * w + w / 2 && 2 * a1 <= w) by (nonlinear_arith)
        requires
            s * (d1 * 1000 - d.value()) <= d.value(),
            s * (d.value() - d1 * 1000) <= d.value(),
            s * (a1 * 1000 - w) <= w,
            10 * w <= d.value() <= 3000 * w,
            s == 0x10_0000_0000_0000,
            w >= 0x8000_0000_0000_0000_0000_0000_0000_0000,
    ;
    // The body and its fade.
    let body = attack.sum(decay);
    crate::bounds::lemma_plus(attack, decay, 0, 4);
    crate::order::lemma_sum_covers(attack, decay);
    let longest = Double { bits: FADE };
    crate::order::lemma_fraction(longest);
    let quarter = body.quotient(Double::whole(4));
    crate::order::lemma_quotient_mono(body, body, Double::whole(4));
    let fade = longest.smaller(quarter);
    assert(!fade.nan() && 0 <= fade.value() <= w);
    crate::order::lemma_value_bound(Double::whole(1));
    crate::bounds::lemma_sign(fade);
    let whole = body.sum(fade);
    crate::bounds::lemma_plus(body, fade, 0, 5);
    crate::order::lemma_sum_grows(body, fade);
    // In samples.
    let v = whole.value() as nat;
    let x = whole.product(rate);
    let num = v * (48_000 * w) as nat;
    assert(num == crate::double::size(whole.value()) * crate::double::size(rate.value()));
    crate::order::lemma_value_bound(whole);
    crate::bounds::lemma_sign(whole);
    crate::order::lemma_zero(whole);
    assert(num <= (240_000 * w) * w && num >= s * w && num <= crate::rounding::two_to(1200) * w)
        by (nonlinear_arith)
        requires
            num == v * (48_000 * w),
            w <= 200 * v,
            v <= 5 * w,
            w >= 0x8000_0000_0000_0000_0000_0000_0000_0000,
            crate::rounding::two_to(1200) >= 262_144 * w,
            s == 0x10_0000_0000_0000,
    {
        assert(num <= (48_000 * w) * (5 * w));
        assert(200 * num >= w * (48_000 * w));
    }
    crate::order::lemma_product_bound(whole, rate, Double::whole(240_000).magnitude());
    crate::bounds::lemma_near_relative(num, w as nat);
    let m = crate::rounding::nearest(num, w as nat);
    crate::order::lemma_of(false, m);
    assert(x.value() == crate::rounding::units(m));
    assert(x.value() >= w) by (nonlinear_arith)
        requires
            s * (num - x.value() * w) <= num,
            num == v * (48_000 * w),
            w <= 200 * v,
            s == 0x10_0000_0000_0000,
            w > 0,
    ;
    crate::sound::lemma_round_bound(x, 240_000);
    let q = (2 * x.value() + w) / (2 * w);
    assert(q >= 1) by (nonlinear_arith)
        requires
            q == (2 * x.value() + w) / (2 * w),
            x.value() >= w,
            w > 0,
    ;
}

} // verus!
