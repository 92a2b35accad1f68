//! The sound of a blip, in plain numbers: how loud, how long, and of what.
use crate::double::Double;
use crate::near::close;
use crate::synth::{
    Envelope, Params, Partial, BASE_WEIGHT, BRIGHTNESS, DETUNE, FADE, FIRST_WEIGHT, LN_1000, PI,
    SECOND_WEIGHT, THIRD_RATIO,
};
use vstd::prelude::*;

verus! {

/// What one step is worth on the scale of seconds and amplitudes: some 10^-12.
pub open spec fn fine() -> int {
    crate::rounding::two_to(1034) as int
}

/// The scale of seconds and amplitudes, beside that of samples.
pub(crate) proof fn lemma_fine()
    ensures
        fine() > 0,
        crate::double::one() == 0x100_0000_0000 * fine(),
        crate::rounding::two_to(1054) == 0x10_0000 * fine(),
        crate::double::one() == 0x10_0000 * crate::rounding::two_to(1054),
        (2 * crate::rounding::STEP) * fine() == 0x2000 * crate::double::one(),
        2 * crate::rounding::STEP == 0x20_0000_0000_0000,
{
    crate::exits::lemma_pixels();
    crate::rounding::lemma_two_to_pos(1034);
    crate::rounding::lemma_two_to_values();
    assert(crate::rounding::two_to(10) == 0x400) by {
        reveal_with_fuel(crate::rounding::two_to, 11);
    }
    crate::rounding::lemma_two_to_add(10, 10);
    crate::rounding::lemma_two_to_add(20, 1034);
}

/// A sum on the scale of seconds and amplitudes.
pub(crate) proof fn lemma_fine_sum(a: Double, b: Double)
    requires
        a.finite(),
        b.finite(),
        crate::double::size(a.value() + b.value()) <= 0x2000 * crate::double::one(),
    ensures
        a.sum(b).finite(),
        close(a.sum(b).value(), a.value() + b.value(), fine()),
{
    lemma_fine();
    crate::near::lemma_sum_close(a, b, 1034);
}

/// A difference on the scale of seconds and amplitudes.
pub(crate) proof fn lemma_fine_difference(a: Double, b: Double)
    requires
        a.finite(),
        b.finite(),
        crate::double::size(a.value() - b.value()) <= 0x2000 * crate::double::one(),
    ensures
        a.difference(b).finite(),
        close(a.difference(b).value(), a.value() - b.value(), fine()),
{
    lemma_fine();
    crate::near::lemma_difference_close(a, b, 1034);
}

/// A product on the scale of seconds and amplitudes.
pub(crate) proof fn lemma_fine_product(a: Double, b: Double)
    requires
        a.finite(),
        b.finite(),
        crate::double::size(a.value()) * crate::double::size(b.value()) <= (0x2000
            * crate::double::one()) * crate::double::one(),
    ensures
        a.product(b).finite(),
        a.product(b).negative() == (a.negative() != b.negative()),
        close(
            a.product(b).value() * crate::double::one(),
            a.value() * b.value(),
            fine() * crate::double::one(),
        ),
{
    let w = crate::double::one() as int;
    let e = fine();
    let step = crate::rounding::STEP as int;
    lemma_fine();
    assert((0x2000 * w) * w == (2 * step) * (e * w)) by (nonlinear_arith)
        requires
            (2 * step) * e == 0x2000 * w,
    ;
    crate::near::lemma_product_close(a, b, 1034);
}

/// A quotient on the scale of seconds and amplitudes.
proof fn lemma_fine_quotient(a: Double, b: Double)
    requires
        a.finite(),
        b.finite(),
        b.value() != 0,
        crate::double::size(a.value()) <= 0x2000 * crate::double::size(b.value()),
    ensures
        a.quotient(b).finite(),
        a.quotient(b).negative() == (a.negative() != b.negative()),
        close(
            a.quotient(b).value() * b.value(),
            a.value() * crate::double::one(),
            fine() * crate::double::size(b.value()),
        ),
{
    let w = crate::double::one() as int;
    let e = fine();
    let step = crate::rounding::STEP as int;
    let (x, y) = (crate::double::size(a.value()) as int, crate::double::size(b.value()) as int);
    lemma_fine();
    assert(x * w <= (2 * step) * (e * y)) by (nonlinear_arith)
        requires
            x <= 0x2000 * y,
            (2 * step) * e == 0x2000 * w,
            w > 0,
    {
        assert(x * w <= (0x2000 * y) * w);
        assert((2 * step) * (e * y) == ((2 * step) * e) * y);
        assert((0x2000 * w) * y == (0x2000 * y) * w);
    }
    crate::near::lemma_quotient_close(a, b, 1034);
}

/// A number divided by a whole one, on the scale of seconds and amplitudes.
pub(crate) proof fn lemma_fine_part(d: Double, n: nat)
    requires
        d.finite(),
        0 < n <= 0x20_0000_0000_0000,
        crate::double::size(d.value()) <= 0x2000 * (n * crate::double::one()),
    ensures
        d.quotient(Double::whole(n)).finite(),
        d.quotient(Double::whole(n)).negative() == d.negative(),
        close(n * d.quotient(Double::whole(n)).value(), d.value(), n * fine()),
{
    let w = crate::double::one() as int;
    let e = fine();
    lemma_fine();
    crate::order::lemma_whole(n);
    let x = crate::double::size(d.value()) as int;
    assert(n * w > 0 && x <= 0x2000 * (n * w)) by (nonlinear_arith)
        requires
            x <= 0x2000 * (n * w),
            n > 0,
            w > 0,
    ;
    lemma_fine_quotient(d, Double::whole(n));
    let q = d.quotient(Double::whole(n)).value();
    assert(close(n * q, d.value(), n * e)) by (nonlinear_arith)
        requires
            -(e * (n * w)) <= q * (n * w) - d.value() * w <= e * (n * w),
            w > 0,
    {
        assert(q * (n * w) - d.value() * w == (n * q - d.value()) * w);
        assert(e * (n * w) == (n * e) * w);
    }
}

/// A number without its sign is as large as it was.
proof fn lemma_absolute(d: Double)
    requires
        !d.nan(),
    ensures
        !crate::synth::absolute(d).nan(),
        crate::synth::absolute(d).value() == crate::double::size(d.value()),
        crate::synth::absolute(d).finite() == d.finite(),
{
    crate::order::lemma_zero(d);
    crate::order::lemma_negation(d);
}

/// The peak of some samples: none is larger, either way, and one is as large; of
/// no samples, or of silence, it is nothing.
pub proof fn lemma_peak(raw: Seq<Double>)
    requires
        forall|i: int| 0 <= i < raw.len() ==> !(#[trigger] raw[i]).nan(),
    ensures
        ({
            let p = crate::synth::peak_of(raw);
            &&& !p.nan()
            &&& p.value() >= 0
            &&& forall|i: int|
                0 <= i < raw.len() ==> crate::double::size((#[trigger] raw[i]).value())
                    <= p.value()
            &&& p.value() == 0 || exists|i: int|
                0 <= i < raw.len() && crate::double::size((#[trigger] raw[i]).value()) == p.value()
            &&& (forall|i: int| 0 <= i < raw.len() ==> (#[trigger] raw[i]).finite()) ==> p.finite()
        }),
    decreases raw.len(),
{
    crate::order::lemma_whole(0);
    assert(0 * crate::double::one() == 0);
    if raw.len() > 0 {
        let rest = raw.drop_last();
        assert forall|i: int| 0 <= i < rest.len() implies !(#[trigger] rest[i]).nan() by {
            assert(rest[i] == raw[i]);
        }
        lemma_peak(rest);
        lemma_absolute(raw.last());
        let (a, b) = (crate::synth::peak_of(rest), crate::synth::peak_of(raw));
        assert forall|i: int| 0 <= i < raw.len() implies crate::double::size(
            (#[trigger] raw[i]).value(),
        ) <= b.value() by {
            if i < rest.len() {
                assert(rest[i] == raw[i]);
            }
        }
        if a.below(crate::synth::absolute(raw.last())) {
            assert(raw[raw.len() - 1] == raw.last());
        } else if a.value() != 0 {
            let k = choose|i: int|
                0 <= i < rest.len() && crate::double::size((#[trigger] rest[i]).value())
                    == a.value();
            assert(raw[k] == rest[k]);
        }
        if forall|i: int| 0 <= i < raw.len() ==> (#[trigger] raw[i]).finite() {
            assert forall|i: int| 0 <= i < rest.len() implies (#[trigger] rest[i]).finite() by {
                assert(rest[i] == raw[i]);
            }
            assert(raw[raw.len() - 1] == raw.last());
        }
    }
}

/// Normalised samples are to the gain what the raw ones are to their peak, so the
/// loudest has the gain for its amplitude; and silence stays silent.
pub proof fn lemma_normalised(raw: Seq<Double>, gain: Double, i: int)
    requires
        0 <= i < raw.len(),
        forall|i: int| 0 <= i < raw.len() ==> (#[trigger] raw[i]).finite(),
        gain.finite(),
        0 <= gain.value() <= crate::double::one(),
        ({
            let p = crate::synth::peak_of(raw).value();
            p == 0 || crate::double::one() <= 0x400 * p && p <= 0x400 * crate::double::one()
        }),
    ensures
        ({
            let p = crate::synth::peak_of(raw).value();
            let v = crate::sound::full_scale(
                raw[i].product(crate::synth::scale_of(raw, gain)),
            );
            &&& !v.nan()
            &&& if p == 0 {
                v.value() == 0
            } else {
                close(v.value() * p, raw[i].value() * gain.value(), 0x401 * (fine() * p))
            }
        }),
{
    let w = crate::double::one() as int;
    let e = fine();
    lemma_fine();
    lemma_peak(raw);
    crate::sound::lemma_levels();
    crate::timeline::lemma_small();
    crate::order::lemma_whole(0);
    assert(0 * w == 0);
    let peak = crate::synth::peak_of(raw);
    let (p, r, n) = (peak.value(), raw[i].value(), gain.value());
    let s = crate::synth::scale_of(raw, gain);
    let a = crate::double::size(r) as int;
    if p == 0 {
        assert(a * 0 == 0);
        lemma_fine_product(raw[i], s);
        lemma_nothing(raw[i], s);
    } else {
        lemma_fine_quotient(gain, peak);
        let sv = s.value();
        crate::order::lemma_zero(s);
        crate::order::lemma_zero(gain);
        crate::order::lemma_zero(peak);
        assert(sv >= 0) by {
            lemma_sign_of_share(gain, peak);
        }
        assert(a * sv <= (0x2000 * w) * w) by (nonlinear_arith)
            requires
                0 <= a <= p,
                sv * p - n * w <= e * p,
                0 <= n <= w,
                p <= 0x400 * w,
                w == 0x100_0000_0000 * e,
                e > 0,
                sv >= 0,
        {
            assert(a * sv <= p * sv);
            assert(n * w <= w * w);
            assert(e * p <= e * (0x400 * w));
            assert(e * (0x400 * w) <= w * w);
        }
        lemma_fine_product(raw[i], s);
        let x = raw[i].product(s).value();
        let (off, t) = (x * w - r * sv, sv * p - n * w);
        lemma_either_way(off, p, e * w, p);
        lemma_either_way(r, t, 0x400 * w, e * p);
        assert(off * p == (x * p) * w - r * (sv * p)) by (nonlinear_arith)
            requires
                off == x * w - r * sv,
        ;
        assert(r * t == r * (sv * p) - (r * n) * w) by (nonlinear_arith)
            requires
                t == sv * p - n * w,
        ;
        assert((0x400 * w) * (e * p) == 0x400 * ((e * p) * w) && (e * w) * p == (e * p) * w)
            by (nonlinear_arith);
        assert((0x401 * (e * p)) * w == 0x401 * ((e * p) * w)) by (nonlinear_arith);
        lemma_cancelled(x * p, r * n, 0x401 * (e * p), w);
        // Held to full scale it is nearer still.
        assert(-(w * p) <= r * n <= w * p) by (nonlinear_arith)
            requires
                -p <= r <= p,
                0 <= n <= w,
                p > 0,
        {
            lemma_either_way(r, n, p, w);
        }
        assert(x > w ==> x * p > w * p) by (nonlinear_arith)
            requires
                p > 0,
        ;
        assert(x < -w ==> x * p < -(w * p)) by (nonlinear_arith)
            requires
                p > 0,
        ;
        assert((-w) * p == -(w * p)) by (nonlinear_arith);
    }
}

/// A product is no larger than the bounds' product.
pub(crate) proof fn lemma_either_way(a: int, b: int, x: int, y: int)
    requires
        -x <= a <= x,
        -y <= b <= y,
    ensures
        -(x * y) <= a * b <= x * y,
{
    assert(-(x * y) <= a * b <= x * y) by (nonlinear_arith)
        requires
            -x <= a <= x,
            -y <= b <= y,
    {
        assert((x - a) * (y + b) >= 0);
        assert((x + a) * (y - b) >= 0);
        assert((x - a) * (y - b) >= 0);
        assert((x + a) * (y + b) >= 0);
        assert((x - a) * (y + b) + (x + a) * (y - b) == 2 * (x * y) - 2 * (a * b));
        assert((x - a) * (y - b) + (x + a) * (y + b) == 2 * (x * y) + 2 * (a * b));
    }
}

/// What holds at a scale holds without it.
pub(crate) proof fn lemma_cancelled(a: int, b: int, e: int, w: int)
    requires
        close(a * w, b * w, e * w),
        w > 0,
    ensures
        close(a, b, e),
{
    assert(close(a, b, e)) by (nonlinear_arith)
        requires
            -(e * w) <= a * w - b * w <= e * w,
            w > 0,
    {
        assert((a - b) * w == a * w - b * w);
    }
}

/// Nothing times a number is nothing.
proof fn lemma_nothing(a: Double, b: Double)
    requires
        a.finite(),
        b.finite(),
        a.value() == 0 || b.value() == 0,
    ensures
        a.product(b).value() == 0,
{
    let w = crate::double::one();
    crate::rounding::lemma_two_to_pos(1074);
    crate::order::lemma_nearest_zero();
    assert(crate::double::size(a.value()) * crate::double::size(b.value()) == 0)
        by (nonlinear_arith)
        requires
            crate::double::size(a.value()) == 0 || crate::double::size(b.value()) == 0,
    ;
    assert(0 * w == 0);
    crate::rounding::lemma_nearest_exact(0, w);
    crate::order::lemma_of(a.negative() != b.negative(), 0);
}

/// A share of what is not negative is not negative.
proof fn lemma_sign_of_share(a: Double, b: Double)
    requires
        a.finite(),
        b.finite(),
        a.value() >= 0,
        b.value() > 0,
        a.quotient(b).finite(),
        a.quotient(b).negative() == (a.negative() != b.negative()),
    ensures
        a.quotient(b).value() >= 0,
{
    let w = crate::double::one();
    let y = crate::double::size(b.value());
    crate::order::lemma_zero(a);
    crate::order::lemma_zero(b);
    crate::order::lemma_zero(a.quotient(b));
    if a.negative() {
        assert(a.value() == 0);
        crate::order::lemma_nearest_zero();
        assert(0 * w == 0 && 0 * y == 0);
        crate::rounding::lemma_nearest_exact(0, y);
        crate::order::lemma_of(true, 0);
    }
}

/// A constant beside the fraction that it stands for.
proof fn lemma_decimal(bits: u64, k: nat, n: nat, t: nat, num: nat, den: nat)
    requires
        bits == k * crate::rounding::STEP + n,
        crate::rounding::STEP <= n < 2 * crate::rounding::STEP,
        k <= 2044,
        k + t == 1074,
        -den <= den * n - num * crate::rounding::two_to(t) <= den,
    ensures
        (Double { bits }).finite(),
        !(Double { bits }).negative(),
        close(
            den * (Double { bits }).value(),
            num * crate::double::one() as int,
            den * crate::rounding::two_to(k) as int,
        ),
{
    let u = crate::rounding::two_to(k) as int;
    let v = crate::rounding::two_to(t) as int;
    crate::near::lemma_bits(bits, k, n);
    crate::rounding::lemma_two_to_add(t, k);
    crate::rounding::lemma_two_to_pos(k);
    assert(close(den * (n * u), num * (v * u), den * u)) by (nonlinear_arith)
        requires
            -den <= den * n - num * v <= den,
            u > 0,
    {
        assert((den * n - num * v) * u == den * (n * u) - num * (v * u));
    }
}

/// The powers of two under the constants.
proof fn lemma_scales()
    ensures
        crate::rounding::two_to(50) == 0x4_0000_0000_0000,
        crate::rounding::two_to(51) == 0x8_0000_0000_0000,
        crate::rounding::two_to(53) == 0x20_0000_0000_0000,
        crate::rounding::two_to(54) == 0x40_0000_0000_0000,
        crate::rounding::two_to(56) == 0x100_0000_0000_0000,
        crate::rounding::two_to(60) == 0x1000_0000_0000_0000,
        crate::rounding::two_to(1024) == 2 * crate::rounding::two_to(1023),
        crate::rounding::two_to(1023) == 4 * crate::rounding::two_to(1021),
        crate::rounding::two_to(1021) == 2 * crate::rounding::two_to(1020),
        crate::rounding::two_to(1020) == 4 * crate::rounding::two_to(1018),
        crate::rounding::two_to(1018) == 16 * crate::rounding::two_to(1014),
        fine() == 0x400 * crate::rounding::two_to(1024),
        crate::rounding::two_to(1014) > 0,
{
    assert(crate::rounding::two_to(2) == 4 && crate::rounding::two_to(4) == 16
        && crate::rounding::two_to(10) == 0x400) by {
        reveal_with_fuel(crate::rounding::two_to, 11);
    }
    crate::rounding::lemma_two_to_values();
    crate::rounding::lemma_two_to_add(2, 50);
    crate::rounding::lemma_two_to_add(1, 51);
    crate::rounding::lemma_two_to_add(1, 53);
    crate::rounding::lemma_two_to_add(4, 52);
    crate::rounding::lemma_two_to_add(4, 56);
    crate::rounding::lemma_two_to_add(10, 1024);
    crate::rounding::lemma_two_to_add(1, 1023);
    crate::rounding::lemma_two_to_add(2, 1021);
    crate::rounding::lemma_two_to_add(1, 1020);
    crate::rounding::lemma_two_to_add(2, 1018);
    crate::rounding::lemma_two_to_add(4, 1014);
    crate::rounding::lemma_two_to_pos(1014);
}

/// The constants of a blip: half a turn, the logarithm of a thousand, the
/// longest fade of 5 ms, the overtone's weight, the spread, and the cluster's
/// ratio and weights.
pub proof fn lemma_constants()
    ensures
        ({
            let w = crate::double::one() as int;
            let e = fine();
            &&& close(1_000_000_000_000_000 * (Double { bits: PI }).value(), 3_141_592_653_589_793
                * w, w)
            &&& close(
                1_000_000_000_000_000 * (Double { bits: LN_1000 }).value(),
                6_907_755_278_982_137 * w,
                w,
            )
            &&& close(1000 * (Double { bits: FADE }).value(), 5 * w, e)
            &&& close(100 * (Double { bits: BRIGHTNESS }).value(), 35 * w, e)
            &&& close(100 * (Double { bits: DETUNE }).value(), 9 * w, e)
            &&& close(100 * (Double { bits: THIRD_RATIO }).value(), 233 * w, e)
            &&& close(100 * (Double { bits: BASE_WEIGHT }).value(), 70 * w, e)
            &&& close(100 * (Double { bits: FIRST_WEIGHT }).value(), 63 * w, e)
            &&& close(100 * (Double { bits: SECOND_WEIGHT }).value(), 86 * w, e)
            &&& (Double { bits: PI }).finite()
            &&& (Double { bits: LN_1000 }).finite()
            &&& (Double { bits: FADE }).finite()
            &&& (Double { bits: THIRD_RATIO }).finite()
        }),
{
    lemma_fine();
    lemma_scales();
    lemma_decimal(PI, 1023, 0x19_21fb_5444_2d18, 51, 3_141_592_653_589_793, 1_000_000_000_000_000);
    lemma_decimal(
        LN_1000,
        1024,
        0x1b_a18a_998f_ffa0,
        50,
        6_907_755_278_982_137,
        1_000_000_000_000_000,
    );
    lemma_decimal(FADE, 1014, 0x14_7ae1_47ae_147b, 60, 5, 1000);
    lemma_decimal(BRIGHTNESS, 1020, 0x16_6666_6666_6666, 54, 35, 100);
    lemma_decimal(DETUNE, 1018, 0x17_0a3d_70a3_d70a, 56, 9, 100);
    lemma_decimal(THIRD_RATIO, 1023, 0x12_a3d7_0a3d_70a4, 51, 233, 100);
    lemma_decimal(BASE_WEIGHT, 1021, 0x16_6666_6666_6666, 53, 70, 100);
    lemma_decimal(FIRST_WEIGHT, 1021, 0x14_28f5_c28f_5c29, 53, 63, 100);
    lemma_decimal(SECOND_WEIGHT, 1021, 0x1b_851e_b851_eb85, 53, 86, 100);
}

/// The partials of a blip are, in their order, those of the five candidates that
/// are heard.
pub proof fn lemma_heard(p: Params)
    ensures
        crate::synth::heard_among(p, 5) == Seq::new(5, |i: int| crate::synth::candidate(p, i))
            .filter(|part: Partial| crate::synth::heard(p, part)),
{
    lemma_heard_among(p, 5);
}

proof fn lemma_heard_among(p: Params, n: nat)
    ensures
        crate::synth::heard_among(p, n) == Seq::new(n, |i: int| crate::synth::candidate(p, i))
            .filter(|part: Partial| crate::synth::heard(p, part)),
    decreases n,
{
    reveal(Seq::filter);
    let all = Seq::new(n, |i: int| crate::synth::candidate(p, i));
    if n > 0 {
        let m = (n - 1) as nat;
        lemma_heard_among(p, m);
        assert(all.drop_last() =~= Seq::new(m, |i: int| crate::synth::candidate(p, i)));
    }
}

/// A partial is heard where it has a weight and a frequency above nothing and
/// below half the sample rate.
pub proof fn lemma_audible(p: Params, part: Partial)
    requires
        !part.freq.nan(),
    ensures
        ({
            let w = crate::double::one() as int;
            let g = crate::rounding::two_to(1054) as int;
            let heard = crate::synth::heard(p, part);
            let some = part.freq.value() > 0 && !part.weight.nan() && part.weight.value() > 0;
            &&& some && 2 * part.freq.value() < p.rate * w - 2 * g ==> heard
            &&& heard ==> some && 2 * part.freq.value() < p.rate * w + 2 * g
        }),
{
    let w = crate::double::one() as int;
    crate::exits::lemma_pixels();
    crate::timeline::lemma_small();
    crate::order::lemma_whole(0);
    crate::order::lemma_whole(p.rate as nat);
    assert(0 <= p.rate * w <= 0x1_0000_0000 * w) by (nonlinear_arith)
        requires
            0 <= p.rate <= 0xffff_ffff,
            w > 0,
    ;
    crate::drawing::lemma_over(Double::whole(p.rate as nat), Double::whole(2), 2, 0x1_0000_0000);
}

/// The frequencies of a blip: the fundamental, three below it by the spread and
/// its multiples, and the octave.
pub proof fn lemma_frequencies(p: Params, i: int)
    requires
        0 <= i < 5,
        p.freq.finite(),
        p.detune.finite(),
        0 <= p.freq.value() <= 0x10_0000 * crate::double::one(),
        0 <= p.detune.value() <= crate::double::one(),
    ensures
        ({
            let w = crate::double::one() as int;
            let g = crate::rounding::two_to(1054) as int;
            let f = crate::synth::candidate(p, i).freq;
            let below: int = if i == 0 {
                0
            } else if i == 1 {
                100
            } else if i == 2 {
                200
            } else {
                233
            };
            &&& f.finite()
            &&& i < 4 ==> close(
                100 * (f.value() * w),
                p.freq.value() * (100 * w - below * p.detune.value()),
                1000 * (g * w),
            )
            &&& i == 4 ==> close(f.value(), 2 * p.freq.value(), g)
            &&& i < 4 ==> close(
                100 * crate::synth::candidate(p, i).weight.value(),
                if i == 0 {
                    70 * w
                } else if i == 1 {
                    63 * w
                } else if i == 2 {
                    86 * w
                } else {
                    100 * w
                },
                fine(),
            )
            &&& i == 4 ==> crate::synth::candidate(p, i).weight == p.brightness
        }),
{
    let w = crate::double::one() as int;
    let g = crate::rounding::two_to(1054) as int;
    let e = fine();
    let (fv, dv) = (p.freq.value(), p.detune.value());
    lemma_fine();
    lemma_constants();
    crate::exits::lemma_pixels();
    crate::order::lemma_whole(0);
    crate::order::lemma_whole(1);
    if i == 4 {
        crate::sizes::lemma_by_whole(p.freq, 2);
    } else {
        let k = crate::synth::cluster(i).0;
        let kv = k.value();
        let below: int = if i == 0 {
            0
        } else if i == 1 {
            100
        } else if i == 2 {
            200
        } else {
            233
        };
        assert(0 * w == 0);
        assert(close(100 * kv, below * w, e));
        assert(0 <= kv <= 3 * w);
        assert(kv * dv <= (3 * w) * w && kv * dv >= 0) by (nonlinear_arith)
            requires
                0 <= kv <= 3 * w,
                0 <= dv <= w,
        {
            assert(kv * dv <= (3 * w) * dv);
        }
        assert((3 * w) * w <= (0x2000 * w) * w) by (nonlinear_arith)
            requires
                w > 0,
        ;
        lemma_fine_product(k, p.detune);
        let m = k.product(p.detune);
        let mv = m.value();
        // A hundred times the part to go.
        let off = 100 * kv - below * w;
        lemma_either_way(off, dv, e, w);
        assert(off * dv == 100 * (kv * dv) - (below * dv) * w) by (nonlinear_arith)
            requires
                off == 100 * kv - below * w,
        ;
        lemma_cancelled_hundred(mv, kv * dv, below * dv, e, w);
        assert(-e <= mv && mv <= 4 * w) by (nonlinear_arith)
            requires
                -(e * w) <= mv * w - kv * dv <= e * w,
                0 <= kv * dv <= (3 * w) * w,
                w == 0x100_0000_0000 * e,
                e > 0,
        {
            assert(mv * w <= (3 * w + e) * w);
            assert(mv * w >= (-e) * w);
        }
        lemma_fine_difference(Double::whole(1), m);
        let ratio = Double::whole(1).difference(m);
        let rv = ratio.value();
        let goal = 100 * w - below * dv;
        assert(close(100 * rv, goal, 201 * e));
        let x = crate::double::size(rv) as int;
        assert(fv * x <= (0x2_0000_0000 * w) * w) by (nonlinear_arith)
            requires
                0 <= fv <= 0x10_0000 * w,
                0 <= x <= 8 * w,
                w > 0,
        {
            assert(fv * x <= (0x10_0000 * w) * x);
            assert((0x10_0000 * w) * x <= (0x10_0000 * w) * (8 * w));
        }
        crate::drawing::lemma_times(p.freq, ratio);
        let f = p.freq.product(ratio).value();
        lemma_either_way(fv, 100 * rv - goal, 0x10_0000 * w, 201 * e);
        assert(fv * (100 * rv - goal) == 100 * (fv * rv) - fv * goal) by (nonlinear_arith);
        assert((0x10_0000 * w) * (201 * e) == 201 * (g * w)) by (nonlinear_arith)
            requires
                g == 0x10_0000 * e,
        ;
    }
}

/// A hundred times a product, beside its exact value.
proof fn lemma_cancelled_hundred(m: int, x: int, b: int, e: int, w: int)
    requires
        w > 0,
        e >= 0,
        close(m * w, x, e * w),
        close(100 * x, b * w, e * w),
    ensures
        close(100 * m, b, 101 * e),
{
    assert((100 * m) * w == 100 * (m * w) && (101 * e) * w == 101 * (e * w)) by (nonlinear_arith);
    lemma_cancelled(100 * m, b, 101 * e, w);
}

/// The smaller of two.
spec fn least(a: int, b: int) -> int {
    if a <= b {
        a
    } else {
        b
    }
}

/// The fade of a blip in seconds: 5 ms, or a quarter of the body if that is
/// less.
proof fn lemma_fade(p: Params)
    requires
        p.attack_ms.finite(),
        p.decay_ms.finite(),
        0 <= p.attack_ms.value() <= 0x20_0000 * crate::double::one(),
        0 <= p.decay_ms.value() <= 0x20_0000 * crate::double::one(),
    ensures
        ({
            let w = crate::double::one() as int;
            let e = fine();
            let ms = p.attack_ms.value() + p.decay_ms.value();
            let attack = p.attack_ms.quotient(Double::whole(1000));
            let decay = p.decay_ms.quotient(Double::whole(1000));
            let body = attack.sum(decay);
            let fade = (Double { bits: FADE }).smaller(body.quotient(Double::whole(4)));
            &&& attack.finite()
            &&& decay.finite()
            &&& body.finite()
            &&& fade.finite()
            &&& close(1000 * attack.value(), p.attack_ms.value(), 1000 * e)
            &&& close(1000 * decay.value(), p.decay_ms.value(), 1000 * e)
            &&& close(1000 * body.value(), ms, 3000 * e)
            &&& close(4000 * fade.value(), least(20 * w, ms), 7000 * e)
        }),
{
    let w = crate::double::one() as int;
    let e = fine();
    lemma_fine();
    lemma_constants();
    lemma_fine_part(p.attack_ms, 1000);
    lemma_fine_part(p.decay_ms, 1000);
    let attack = p.attack_ms.quotient(Double::whole(1000));
    let decay = p.decay_ms.quotient(Double::whole(1000));
    lemma_fine_sum(attack, decay);
    let body = attack.sum(decay);
    lemma_fine_part(body, 4);
    let quarter = body.quotient(Double::whole(4));
    assert(close(4 * quarter.value(), body.value(), 4 * e));
    assert(close(1000 * body.value(), p.attack_ms.value() + p.decay_ms.value(), 3000 * e));
}

/// A count of samples: seconds times the rate, to the nearest.
proof fn lemma_samples(d: Double, rate: u32, x: int, k: int)
    requires
        d.finite(),
        rate <= 0x4_0000,
        close(4000 * d.value(), x, k * fine()),
        0 <= k <= 0x8000,
        0 <= x <= 0x180_0000 * crate::double::one(),
    ensures
        ({
            let w = crate::double::one() as int;
            let g = crate::rounding::two_to(1054) as int;
            let n = d.product(Double::whole(rate as nat)).round_word();
            &&& 0 <= n <= 0x8000_0000
            &&& close(8000 * (n * w), 2 * (rate * x), 4000 * w + 0x8000 * g)
        }),
{
    let w = crate::double::one() as int;
    let g = crate::rounding::two_to(1054) as int;
    let e = fine();
    let v = d.value();
    lemma_fine();
    let s = crate::double::size(v) as int;
    assert(k * e <= 0x8000 * e) by (nonlinear_arith)
        requires
            k <= 0x8000,
            e > 0,
    ;
    assert(s * rate <= 0x2_0000_0000 * w) by (nonlinear_arith)
        requires
            0 <= s <= 0x1900 * w,
            0 <= rate <= 0x4_0000,
            w > 0,
    {
        assert(s * rate <= (0x1900 * w) * rate);
        assert((0x1900 * w) * rate <= (0x1900 * w) * 0x4_0000);
    }
    crate::sizes::lemma_by_whole(d, rate as nat);
    let y = d.product(Double::whole(rate as nat));
    let r = rate as int;
    lemma_either_way(r, 4000 * v - x, 0x4_0000, 0x8000 * e);
    assert(r * (4000 * v - x) == 4000 * (r * v) - r * x) by (nonlinear_arith);
    assert(4 * (0x4_0000 * (0x8000 * e)) == 0x8000 * g);
    assert(close(4000 * y.value(), r * x, 0x3000 * g));
    assert(r * x >= 0 && r * x <= 0x4_0000 * (0x180_0000 * w)) by (nonlinear_arith)
        requires
            0 <= r <= 0x4_0000,
            0 <= x <= 0x180_0000 * w,
            w > 0,
    {
        assert(r * x <= 0x4_0000 * x);
    }
    crate::sizes::lemma_nearest_whole(y, 0x8000_0000);
    let n = y.round_word();
    if y.value() < 0 {
        assert(0 * w == 0);
    }
}

/// How long a blip is: its attack, its decay and its fade, in samples. The fade
/// has a sample at the least, and is no longer than the whole.
pub proof fn lemma_lengths(p: Params)
    requires
        p.attack_ms.finite(),
        p.decay_ms.finite(),
        0 <= p.attack_ms.value() <= 0x20_0000 * crate::double::one(),
        0 <= p.decay_ms.value() <= 0x20_0000 * crate::double::one(),
        p.rate <= 0x4_0000,
    ensures
        ({
            let w = crate::double::one() as int;
            let slack = 4000 * w + 0x8000 * crate::rounding::two_to(1054);
            let env = crate::synth::envelope_of(p);
            let ms = p.attack_ms.value() + p.decay_ms.value();
            let fade = if ms <= 20 * w {
                ms
            } else {
                20 * w
            };
            let (n, m) = (env.total_n as int, env.fade_n as int);
            &&& close(8000 * (n * w), 2 * (p.rate * (4 * ms + fade)), slack)
            &&& m >= 1
            &&& m <= n || m == 1
            &&& m == 1 || 8000 * (m * w) <= 2 * (p.rate * fade) + slack
            &&& m == n || n == 0 || 8000 * (m * w) >= 2 * (p.rate * fade) - slack
        }),
{
    let w = crate::double::one() as int;
    let ms = p.attack_ms.value() + p.decay_ms.value();
    let least = if ms <= 20 * w {
        ms
    } else {
        20 * w
    };
    let attack = p.attack_ms.quotient(Double::whole(1000));
    let decay = p.decay_ms.quotient(Double::whole(1000));
    let body = attack.sum(decay);
    let fade = (Double { bits: FADE }).smaller(body.quotient(Double::whole(4)));
    let x = body.sum(fade).product(Double::whole(p.rate as nat)).round_word();
    let y = fade.product(Double::whole(p.rate as nat)).round_word();
    assert(0 <= x <= 0x8000_0000 && 0 <= y <= 0x8000_0000 && close(
        8000 * (x * w),
        2 * (p.rate * (4 * ms + least)),
        4000 * w + 0x8000 * crate::rounding::two_to(1054),
    ) && close(
        8000 * (y * w),
        2 * (p.rate * least),
        4000 * w + 0x8000 * crate::rounding::two_to(1054),
    )) by {
        lemma_fine();
        lemma_fade(p);
        lemma_fine_sum(body, fade);
        lemma_samples(body.sum(fade), p.rate, 4 * ms + least, 23_000);
        lemma_samples(fade, p.rate, least, 7000);
    }
    let env = crate::synth::envelope_of(p);
    assert(env.total_n == x);
    let m = env.fade_n as int;
    assert(m == if y < 1 {
        1
    } else if y > x {
        if x < 1 {
            1
        } else {
            x
        }
    } else {
        y
    });
    crate::rounding::lemma_two_to_pos(1074);
    assert(y < 1 ==> y * w <= m * w) by (nonlinear_arith)
        requires
            y < 1 ==> y <= m,
            w > 0,
    ;
    assert(y > x && x >= 1 ==> m * w <= y * w) by (nonlinear_arith)
        requires
            y > x && x >= 1 ==> m <= y,
            w > 0,
    ;
}

/// The times of a blip: the attack in seconds, and a decay that falls to a
/// thousandth over its time.
pub proof fn lemma_envelope_times(p: Params)
    requires
        p.attack_ms.finite(),
        p.decay_ms.finite(),
        0 <= p.attack_ms.value() <= 0x20_0000 * crate::double::one(),
        0 <= p.decay_ms.value() <= 0x20_0000 * crate::double::one(),
    ensures
        ({
            let w = crate::double::one() as int;
            let env = crate::synth::envelope_of(p);
            let ln = (Double { bits: LN_1000 }).value();
            &&& env.rate == Double::whole(p.rate as nat)
            &&& env.attack.finite()
            &&& close(1000 * env.attack.value(), p.attack_ms.value(), 1000 * fine())
            &&& env.tau.finite()
            &&& close(1000 * (env.tau.value() * ln), p.decay_ms.value() * w, 2000 * (fine() * ln))
        }),
{
    let w = crate::double::one() as int;
    let e = fine();
    lemma_fine();
    lemma_constants();
    lemma_fade(p);
    let decay = p.decay_ms.quotient(Double::whole(1000));
    let l = Double { bits: LN_1000 };
    lemma_fine_quotient(decay, l);
    let (d, ln) = (decay.value(), l.value());
    assert(1000 * (d * w) - p.decay_ms.value() * w == (1000 * d - p.decay_ms.value()) * w)
        by (nonlinear_arith);
    lemma_either_way(1000 * d - p.decay_ms.value(), w, 1000 * e, w);
    assert((1000 * e) * w <= 1000 * (e * ln)) by (nonlinear_arith)
        requires
            w <= ln,
            e > 0,
    ;
}

/// The time of a sample is its number over the rate.
pub proof fn lemma_time(env: Envelope, i: u64, rate: nat)
    requires
        env.rate == Double::whole(rate),
        0 < rate <= 0xffff_ffff,
        i <= 0x2000 * rate,
        i <= 0x1_0000_0000,
    ensures
        env.time(i).finite(),
        env.time(i).value() >= 0,
        close(rate * env.time(i).value(), i * crate::double::one(), rate * fine()),
{
    let w = crate::double::one() as int;
    lemma_fine();
    crate::order::lemma_whole(i as nat);
    assert(i * w >= 0 && i * w <= 0x2000 * (rate * w)) by (nonlinear_arith)
        requires
            i <= 0x2000 * rate,
            w > 0,
    ;
    lemma_fine_part(Double::whole(i as nat), rate);
    crate::order::lemma_zero(env.time(i));
}

/// What the fade leaves: all before it starts, nothing of the last sample, and
/// between as much as is left of the fade.
pub proof fn lemma_tail(env: Envelope, i: u64)
    requires
        i < env.total_n,
        1 <= env.fade_n <= env.total_n,
        env.total_n <= 0x1_0000_0000,
    ensures
        ({
            let w = crate::double::one() as int;
            let v = env.tail(i);
            let left = env.total_n - 1 - i;
            let whole = env.fade_n - 1;
            &&& v.finite()
            &&& 0 <= v.value() <= w
            &&& left >= env.fade_n ==> v.value() == w
            &&& left <= whole && whole > 0 ==> close(whole * v.value(), left * w, whole * fine())
            &&& left == 0 ==> v.value() == 0
        }),
{
    let w = crate::double::one() as int;
    let left = (env.total_n - 1 - i) as nat;
    lemma_fine();
    crate::timeline::lemma_small();
    crate::order::lemma_whole(0);
    crate::order::lemma_whole(1);
    if i + env.fade_n >= env.total_n {
        let denom: nat = if env.fade_n < 2 {
            1
        } else {
            (env.fade_n - 1) as nat
        };
        crate::order::lemma_whole(left);
        crate::order::lemma_whole(denom);
        assert(0 <= left * w <= denom * w && denom * w <= 0x2000 * (denom * w) && denom * w > 0)
            by (nonlinear_arith)
            requires
                left <= denom,
                denom > 0,
                w > 0,
        ;
        lemma_fine_part(Double::whole(left), denom);
        let q = Double::whole(left).quotient(Double::whole(denom));
        crate::order::lemma_zero(q);
        assert(q.value() >= 0);
        let v = q.value();
        if left == 0 {
            let y = crate::double::size(Double::whole(denom).value());
            crate::order::lemma_nearest_zero();
            crate::order::lemma_zero(Double::whole(0));
            assert(0 * w == 0 && 0 * y == 0);
            crate::rounding::lemma_nearest_exact(0, y);
            crate::order::lemma_of(false, 0);
        }
        if v > w {
            assert(denom * w <= denom * v) by (nonlinear_arith)
                requires
                    v > w,
            ;
        }
    }
}

/// What each partial gives to a sample: its weight times its sine.
pub open spec fn shares(parts: Seq<Partial>, sines: Seq<Double>) -> Seq<int> {
    Seq::new(parts.len(), |i: int| parts[i].weight.value() * sines[i].value())
}

/// A chord is the sum of its partials' sines, each with its weight.
pub proof fn lemma_chord(parts: Seq<Partial>, sines: Seq<Double>)
    requires
        parts.len() <= 0x400,
        sines.len() >= parts.len(),
        forall|i: int|
            0 <= i < parts.len() ==> (#[trigger] parts[i]).weight.finite() && 0
                <= parts[i].weight.value() <= crate::double::one(),
        forall|i: int|
            0 <= i < parts.len() ==> (#[trigger] sines[i]).finite() && -(
            crate::double::one() as int) <= sines[i].value() <= crate::double::one(),
    ensures
        ({
            let w = crate::double::one() as int;
            let sum = shares(parts, sines).fold_left(0, |a: int, b: int| a + b);
            let c = crate::synth::chord(parts, sines);
            &&& c.finite()
            &&& close(c.value() * w, sum, (2 * parts.len()) * (fine() * w))
            &&& close(sum, 0, parts.len() * (w * w))
        }),
    decreases parts.len(),
{
    reveal(Seq::fold_left);
    let w = crate::double::one() as int;
    let e = fine();
    let n = parts.len() as int;
    let add = |a: int, b: int| a + b;
    lemma_fine();
    crate::order::lemma_whole(0);
    assert(0 * w == 0 && 0 * (e * w) == 0 && 0 * (w * w) == 0);
    if n > 0 {
        let rest = parts.drop_last();
        assert forall|i: int| 0 <= i < rest.len() implies (#[trigger] rest[i]).weight.finite() && 0
            <= rest[i].weight.value() <= w by {
            assert(rest[i] == parts[i]);
        }
        lemma_chord(rest, sines);
        assert(shares(parts, sines).drop_last() =~= shares(rest, sines));
        let before = crate::synth::chord(rest, sines);
        let (k, s) = (parts[n - 1].weight, sines[n - 1]);
        assert(k == parts.last().weight);
        let (kv, sv) = (k.value(), s.value());
        let x = crate::double::size(sv) as int;
        lemma_either_way(kv, sv, w, w);
        lemma_either_way(kv, x, w, w);
        assert(w * w <= (0x2000 * w) * w) by (nonlinear_arith)
            requires
                w > 0,
        ;
        lemma_fine_product(k, s);
        let t = k.product(s);
        let sum = shares(rest, sines).fold_left(0, add);
        let (b, tv) = (before.value(), t.value());
        let m = n - 1;
        assert((2 * m) * (e * w) <= 0x800 * (e * w) && m * (w * w) <= 0x400 * (w * w)
            && (2 * n) * (e * w) == (2 * m) * (e * w) + 2 * (e * w) && n * (w * w) == m * (w * w)
            + w * w) by (nonlinear_arith)
            requires
                0 <= m <= 0x400,
                n == m + 1,
                e > 0,
                w > 0,
        ;
        assert(close(b, 0, 0x500 * w) && close(tv, 0, 2 * w)) by (nonlinear_arith)
            requires
                -(0x400 * (w * w) + 0x800 * (e * w)) <= b * w <= 0x400 * (w * w) + 0x800 * (e * w),
                -(w * w + e * w) <= tv * w <= w * w + e * w,
                w == 0x100_0000_0000 * e,
                e > 0,
        {
            assert(0x400 * (w * w) + 0x800 * (e * w) == (0x400 * w + 0x800 * e) * w);
            assert(w * w + e * w == (w + e) * w);
        }
        lemma_fine_sum(before, t);
        let c = before.sum(t).value();
        lemma_either_way(c - b - tv, w, e, w);
        assert((c - b - tv) * w == c * w - b * w - tv * w) by (nonlinear_arith);
        assert(crate::synth::chord(parts, sines) == before.sum(t));
        assert(shares(parts, sines).last() == kv * sv);
    }
}

/// The envelope at a sample: half of what the cosine is below one, times the
/// exponential once the attack is over, times what the fade leaves.
pub proof fn lemma_level(env: Envelope, i: u64, cos: Double, exp: Double)
    requires
        env.attack.finite(),
        env.time(i).finite(),
        cos.finite(),
        exp.finite(),
        -(crate::double::one() as int) <= cos.value() <= crate::double::one(),
        0 <= exp.value() <= crate::double::one(),
        env.tail(i).finite(),
        0 <= env.tail(i).value() <= crate::double::one(),
    ensures
        ({
            let w = crate::double::one() as int;
            let rise = if env.attack.value() <= 0 {
                2 * w
            } else {
                w - cos.value()
            };
            let fall = if env.attack.value() <= env.time(i).value() {
                exp.value()
            } else {
                w
            };
            let v = env.level(i, cos, exp);
            &&& v.finite()
            &&& close(
                2 * ((v.value() * w) * w),
                (rise * fall) * env.tail(i).value(),
                7 * ((fine() * w) * w),
            )
        }),
{
    let w = crate::double::one() as int;
    let e = fine();
    lemma_fine();
    crate::timeline::lemma_small();
    crate::order::lemma_whole(0);
    crate::order::lemma_whole(1);
    crate::sizes::lemma_half();
    let half = Double { bits: crate::synth::HALF };
    let one = Double::whole(1);
    let rise = if env.attack.value() <= 0 {
        2 * w
    } else {
        w - cos.value()
    };
    assert((4 * w) * w <= (0x2000 * w) * w) by (nonlinear_arith)
        requires
            w > 0,
    ;
    let a = if env.attack.at_most(Double::whole(0)) {
        one
    } else {
        half.product(one.difference(cos))
    };
    assert(a.finite() && close(2 * a.value(), rise, 3 * e)) by {
        if env.attack.value() > 0 {
            lemma_fine_difference(one, cos);
            let left = one.difference(cos);
            let h = half.value();
            let (l, x) = (left.value(), crate::double::size(left.value()) as int);
            lemma_either_way(h, x, w, 4 * w);
            assert(w * (4 * w) == (4 * w) * w) by (nonlinear_arith);
            lemma_fine_product(half, left);
            let v = half.product(left).value();
            assert((2 * v) * w == 2 * (v * w) && l * w == 2 * (h * l) && (2 * e) * w == 2 * (e * w))
                by (nonlinear_arith)
                requires
                    2 * h == w,
            ;
            lemma_cancelled(2 * v, l, 2 * e, w);
        }
    }
    let d = if env.attack.at_most(env.time(i)) {
        exp
    } else {
        one
    };
    let fall = d.value();
    let t = env.tail(i);
    let (av, tv) = (a.value(), t.value());
    let ax = crate::double::size(av) as int;
    lemma_either_way(ax, fall, 4 * w, w);
    lemma_fine_product(a, d);
    let b = a.product(d);
    let bv = b.value();
    let bx = crate::double::size(bv) as int;
    lemma_either_way(av, fall, 2 * w, w);
    assert(close(bv, 0, 4 * w)) by (nonlinear_arith)
        requires
            -(e * w) <= bv * w - av * fall <= e * w,
            -((2 * w) * w) <= av * fall <= (2 * w) * w,
            w == 0x100_0000_0000 * e,
            e > 0,
    {
        assert(bv * w <= (2 * w + e) * w);
        assert(bv * w >= (-(2 * w) - e) * w);
    }
    lemma_either_way(bx, tv, 4 * w, w);
    lemma_fine_product(b, t);
    let v = b.product(t).value();
    // One step after the other.
    let (o1, o2, o3) = (v * w - bv * tv, bv * w - av * fall, 2 * av - rise);
    lemma_either_way(o1, w, e * w, w);
    lemma_either_way(o2, tv, e * w, w);
    lemma_either_way(fall, tv, w, w);
    lemma_either_way(o3, fall * tv, 3 * e, w * w);
    assert(o1 * w == (v * w) * w - (bv * tv) * w) by (nonlinear_arith)
        requires
            o1 == v * w - bv * tv,
    ;
    assert(o2 * tv == (bv * tv) * w - av * (fall * tv)) by (nonlinear_arith)
        requires
            o2 == bv * w - av * fall,
    ;
    assert(o3 * (fall * tv) == 2 * (av * (fall * tv)) - (rise * fall) * tv) by (nonlinear_arith)
        requires
            o3 == 2 * av - rise,
    ;
    assert((3 * e) * (w * w) == 3 * ((e * w) * w)) by (nonlinear_arith);
    assert(env.level(i, cos, exp) == b.product(t));
}

/// The angle of the attack's cosine: as much of half a turn as the time is of
/// the attack, and half a turn from its end on.
pub proof fn lemma_swell(env: Envelope, i: u64)
    requires
        env.attack.finite(),
        env.time(i).finite(),
        env.attack.value() > 0,
        0 <= env.time(i).value() <= 0x2000 * env.attack.value(),
    ensures
        ({
            let e = fine();
            let (t, a) = (env.time(i).value(), env.attack.value());
            let v = env.swell(i).value();
            let pi = (Double { bits: PI }).value();
            let reached = if t <= a {
                t
            } else {
                a
            };
            &&& env.swell(i).finite()
            &&& close(v * a, pi * reached, 5 * (e * a))
        }),
{
    let w = crate::double::one() as int;
    let e = fine();
    let pi = Double { bits: PI };
    let (time, attack) = (env.time(i), env.attack);
    let (t, a, pv) = (time.value(), attack.value(), pi.value());
    lemma_fine();
    lemma_constants();
    crate::timeline::lemma_small();
    crate::order::lemma_whole(0);
    crate::order::lemma_whole(1);
    lemma_fine_quotient(time, attack);
    let q = time.quotient(attack);
    lemma_sign_of_share(time, attack);
    let c = crate::timeline::clamped(q);
    let (qv, cv) = (q.value(), c.value());
    let reached = if t <= a {
        t
    } else {
        a
    };
    assert(0 <= cv <= w && (cv == qv || (cv == w && qv > w)));
    assert(close(cv * a, reached * w, e * a)) by (nonlinear_arith)
        requires
            -(e * a) <= qv * a - t * w <= e * a,
            0 <= cv <= w,
            cv == qv || (cv == w && qv > w),
            reached == t && t <= a || reached == a && t > a,
            a > 0,
            w > 0,
            e > 0,
    {
        assert(cv * a <= w * a);
        assert(qv > w ==> qv * a >= w * a);
        assert(t <= a ==> t * w <= a * w);
        assert(t > a ==> t * w >= a * w);
        assert(w * a == a * w);
    }
    lemma_either_way(pv, cv, 4 * w, w);
    assert((4 * w) * w <= (0x2000 * w) * w) by (nonlinear_arith)
        requires
            w > 0,
    ;
    lemma_fine_product(pi, c);
    let v = pi.product(c).value();
    let (o1, o2) = (v * w - pv * cv, cv * a - reached * w);
    lemma_either_way(o1, a, e * w, a);
    lemma_either_way(pv, o2, 4 * w, e * a);
    assert(o1 * a == (v * a) * w - pv * (cv * a)) by (nonlinear_arith)
        requires
            o1 == v * w - pv * cv,
    ;
    assert(pv * o2 == pv * (cv * a) - (pv * reached) * w) by (nonlinear_arith)
        requires
            o2 == cv * a - reached * w,
    ;
    assert((4 * w) * (e * a) == 4 * ((e * a) * w) && (e * w) * a == (e * a) * w && (5 * (e * a)) * w
        == 5 * ((e * a) * w)) by (nonlinear_arith);
    lemma_cancelled(v * a, pv * reached, 5 * (e * a), w);
}

/// The exponent of the decay: how far the time is past the attack, over the time
/// constant, downwards.
pub proof fn lemma_ring(env: Envelope, i: u64)
    requires
        env.attack.finite(),
        env.time(i).finite(),
        env.tau.finite(),
        env.tau.value() > 0,
        fine() <= env.tau.value(),
        crate::double::size(env.time(i).value() - env.attack.value()) <= 0x1fff * env.tau.value(),
        crate::double::size(env.time(i).value() - env.attack.value()) <= 0x2000
            * crate::double::one(),
    ensures
        ({
            let w = crate::double::one() as int;
            let e = fine();
            let (t, a, k) = (env.time(i).value(), env.attack.value(), env.tau.value());
            &&& env.ring(i).finite()
            &&& close(env.ring(i).value() * k, (a - t) * w, e * w + e * k)
        }),
{
    let w = crate::double::one() as int;
    let e = fine();
    lemma_fine();
    lemma_fine_difference(env.time(i), env.attack);
    let after = env.time(i).difference(env.attack);
    crate::order::lemma_negation(after);
    let down = after.negation();
    lemma_fine_quotient(down, env.tau);
    let (t, a, d) = (env.time(i).value(), env.attack.value(), down.value());
    lemma_either_way(d - (a - t), w, e, w);
    assert((d - (a - t)) * w == d * w - (a - t) * w) by (nonlinear_arith);
}

/// The angle of a partial's sine: a whole turn for each period of its frequency.
pub proof fn lemma_angle(part: Partial, t: Double)
    requires
        part.freq.finite(),
        t.finite(),
        0 <= part.freq.value() <= 0x1_0000 * crate::double::one(),
        0 <= t.value() <= 0x20 * crate::double::one(),
    ensures
        ({
            let w = crate::double::one() as int;
            let g = crate::rounding::two_to(1054) as int;
            let pi = (Double { bits: PI }).value();
            let v = crate::synth::angle_of(part, t);
            &&& v.finite()
            &&& close(
                (v.value() * w) * w,
                ((2 * pi) * part.freq.value()) * t.value(),
                40 * ((g * w) * w),
            )
        }),
{
    let w = crate::double::one() as int;
    let g = crate::rounding::two_to(1054) as int;
    let e = fine();
    let pi = Double { bits: PI };
    let two = Double::whole(2);
    let (pv, fv, tv) = (pi.value(), part.freq.value(), t.value());
    lemma_fine();
    lemma_constants();
    crate::exits::lemma_pixels();
    assert(crate::double::size(two.value()) * crate::double::size(pv) <= (0x2000 * w) * w)
        by (nonlinear_arith)
        requires
            crate::double::size(two.value()) == 2 * w,
            crate::double::size(pv) <= 4 * w,
            w > 0,
    {
        assert((2 * w) * crate::double::size(pv) <= (2 * w) * (4 * w));
    }
    lemma_fine_product(two, pi);
    let turn = two.product(pi);
    let uv = turn.value();
    assert((2 * w) * pv == (2 * pv) * w) by (nonlinear_arith);
    lemma_cancelled(uv, 2 * pv, e, w);
    lemma_either_way(uv, fv, 8 * w, 0x1_0000 * w);
    assert((8 * w) * (0x1_0000 * w) <= (0x2_0000_0000 * w) * w) by (nonlinear_arith)
        requires
            w > 0,
    ;
    crate::drawing::lemma_times(turn, part.freq);
    let x = turn.product(part.freq);
    let xv = x.value();
    assert(close(xv, 0, 0x9_0000 * w)) by (nonlinear_arith)
        requires
            -(g * w) <= xv * w - uv * fv <= g * w,
            -((8 * w) * (0x1_0000 * w)) <= uv * fv <= (8 * w) * (0x1_0000 * w),
            w == 0x10_0000 * g,
            g > 0,
    {
        assert((8 * w) * (0x1_0000 * w) == (0x8_0000 * w) * w);
        assert(xv * w <= (0x8_0000 * w + g) * w);
        assert(xv * w >= (-(0x8_0000 * w) - g) * w);
    }
    let xs = crate::double::size(xv) as int;
    lemma_either_way(xs, tv, 0x9_0000 * w, 0x20 * w);
    assert((0x9_0000 * w) * (0x20 * w) <= (0x2_0000_0000 * w) * w) by (nonlinear_arith)
        requires
            w > 0,
    ;
    crate::drawing::lemma_times(x, t);
    let v = x.product(t).value();
    let (o1, o2, o3) = (v * w - xv * tv, xv * w - uv * fv, uv - 2 * pv);
    lemma_either_way(o1, w, g * w, w);
    lemma_either_way(o2, tv, g * w, 0x20 * w);
    lemma_either_way(fv, tv, 0x1_0000 * w, 0x20 * w);
    lemma_either_way(o3, fv * tv, e, (0x1_0000 * w) * (0x20 * w));
    assert(o1 * w == (v * w) * w - (xv * tv) * w) by (nonlinear_arith)
        requires
            o1 == v * w - xv * tv,
    ;
    assert(o2 * tv == (xv * tv) * w - (uv * fv) * tv) by (nonlinear_arith)
        requires
            o2 == xv * w - uv * fv,
    ;
    assert(o3 * (fv * tv) == (uv * fv) * tv - ((2 * pv) * fv) * tv) by (nonlinear_arith)
        requires
            o3 == uv - 2 * pv,
    ;
    assert((g * w) * (0x20 * w) == 0x20 * ((g * w) * w) && e * ((0x1_0000 * w) * (0x20 * w)) == 2
        * ((g * w) * w)) by (nonlinear_arith)
        requires
            g == 0x10_0000 * e,
    {
        assert(e * ((0x1_0000 * w) * (0x20 * w)) == (0x20_0000 * e) * (w * w));
        assert((2 * g) * (w * w) == 2 * ((g * w) * w));
    }
}

/// A raw sample is the envelope there times the chord there.
pub proof fn lemma_raw(
    p: Params,
    cosines: Seq<Double>,
    exponentials: Seq<Double>,
    sines: Seq<Vec<Double>>,
    i: int,
)
    requires
        0 <= i < crate::synth::envelope_of(p).total_n,
        ({
            let w = crate::double::one() as int;
            let v = crate::synth::envelope_of(p).level(i as u64, cosines[i], exponentials[i]);
            let c = crate::synth::chord(crate::synth::heard_among(p, 5), sines[i]@);
            v.finite() && c.finite() && close(v.value(), 0, 2 * w) && close(c.value(), 0, 8 * w)
        }),
    ensures
        ({
            let w = crate::double::one() as int;
            let raw = crate::synth::raw_of(p, cosines, exponentials, sines);
            let v = crate::synth::envelope_of(p).level(i as u64, cosines[i], exponentials[i]);
            let c = crate::synth::chord(crate::synth::heard_among(p, 5), sines[i]@);
            &&& raw.len() == crate::synth::envelope_of(p).total_n
            &&& raw[i].finite()
            &&& close(raw[i].value() * w, v.value() * c.value(), fine() * w)
        }),
{
    reveal(crate::synth::raw_sample);
    let w = crate::double::one() as int;
    let v = crate::synth::envelope_of(p).level(i as u64, cosines[i], exponentials[i]);
    let c = crate::synth::chord(crate::synth::heard_among(p, 5), sines[i]@);
    let (x, y) = (crate::double::size(v.value()) as int, crate::double::size(c.value()) as int);
    lemma_fine();
    lemma_either_way(x, y, 2 * w, 8 * w);
    assert((2 * w) * (8 * w) <= (0x2000 * w) * w) by (nonlinear_arith)
        requires
            w > 0,
    ;
    lemma_fine_product(v, c);
}

/// A typewriter's blip has the frequency, the decay and the gain that were asked
/// for, an attack of a millisecond, a weight of 0.35 for the octave, a spread of
/// 0.09, and 48,000 samples to the second.
pub proof fn lemma_blip(cfg: crate::config::Sound)
    ensures
        ({
            let w = crate::double::one() as int;
            let p = crate::synth::params_of(cfg);
            &&& p.freq == cfg.freq
            &&& p.decay_ms == cfg.decay_ms
            &&& p.gain == cfg.gain
            &&& p.attack_ms.value() == w
            &&& close(100 * p.brightness.value(), 35 * w, fine())
            &&& close(100 * p.detune.value(), 9 * w, fine())
            &&& p.rate == 48_000
        }),
{
    crate::order::lemma_whole(1);
    lemma_constants();
}

} // verus!
