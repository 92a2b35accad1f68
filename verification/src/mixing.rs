//! What a track holds: every blip at its moment, added up sample by sample.
use crate::config::Sound;
use crate::double::Double;
use crate::near::close;
use crate::sound::MAX_START;
use vstd::prelude::*;

verus! {

/// The onsets that are mixed are those between the start and two minutes, all
/// of them and in their order.
pub proof fn lemma_kept_onsets(onsets: Seq<Double>)
    ensures
        crate::sound::kept(onsets) == onsets.filter(
            |t: Double| t.finite() && 0 <= t.value() <= 120 * crate::double::one(),
        ),
    decreases onsets.len(),
{
    reveal(Seq::filter);
    crate::sound::lemma_levels();
    crate::order::lemma_whole(120);
    if onsets.len() > 0 {
        lemma_kept_onsets(onsets.drop_last());
    } else {
        assert(onsets =~= Seq::<Double>::empty());
    }
}

/// A blip starts at the sample nearest to its onset, at 48000 samples a second.
pub proof fn lemma_start_near(t: Double)
    requires
        t.finite(),
        0 <= t.value() <= 120 * crate::double::one(),
    ensures
        crate::sound::start_of(t) >= 0,
        close(
            2 * (crate::sound::start_of(t) * crate::double::one()),
            2 * (48_000 * t.value()),
            crate::double::one() as int + 2 * crate::rounding::two_to(1044),
        ),
{
    let w = crate::double::one() as int;
    let g = crate::rounding::two_to(1044) as int;
    let r = Double::whole(48_000);
    let x = t.product(r);
    crate::sound::lemma_levels();
    crate::order::lemma_whole(120);
    crate::order::lemma_whole(48_000);
    crate::sound::lemma_scaled(t);
    lemma_grid();
    let step = crate::rounding::STEP as int;
    assert(t.value() * (48_000 * w) <= (2 * step) * (g * w)) by (nonlinear_arith)
        requires
            0 <= t.value() <= 120 * w,
            0x80_0000 * w <= (2 * step) * g,
            w > 0,
    {
        assert(t.value() * (48_000 * w) <= (120 * w) * (48_000 * w));
        assert((0x80_0000 * w) * w <= ((2 * step) * g) * w);
    }
    crate::near::lemma_product_close(t, r, 1044);
    let v = x.value();
    assert(close(v, 48_000 * t.value(), g)) by (nonlinear_arith)
        requires
            -(g * w) <= v * w - t.value() * (48_000 * w) <= g * w,
            w > 0,
    ;
    lemma_round(x);
}

/// Rounding to the nearest whole number is off by half at the most.
proof fn lemma_round(x: Double)
    requires
        !x.nan(),
        0 <= x.value() <= 0x1_0000_0000 * crate::double::one(),
    ensures
        0 <= x.round_word(),
        close(
            2 * (x.round_word() * crate::double::one()),
            2 * x.value(),
            crate::double::one() as int,
        ),
{
    let w = crate::double::one() as int;
    let v = x.value();
    crate::rounding::lemma_two_to_pos(1074);
    crate::sound::lemma_round_bound(x, 0x1_0000_0000);
    if v > 0 {
        let q = (2 * v + w) / (2 * w);
        assert(-w <= 2 * (q * w) - 2 * v <= w && 0 <= q <= 0x1_0000_0000) by (nonlinear_arith)
            requires
                q == (2 * v + w) / (2 * w),
                0 < v <= 0x1_0000_0000 * w,
                w > 0,
        ;
    }
}

/// The scale of a sample.
pub(crate) proof fn lemma_grid()
    ensures
        crate::double::one() > 0,
        0x80_0000 * crate::double::one() == (2 * crate::rounding::STEP)
            * crate::rounding::two_to(1044),
        crate::double::one() == 0x4000_0000 * crate::rounding::two_to(1044),
        crate::rounding::two_to(1044) > 0,
{
    reveal_with_fuel(crate::rounding::two_to, 16);
    crate::rounding::lemma_two_to_values();
    crate::rounding::lemma_two_to_pos(1044);
    crate::rounding::lemma_two_to_pos(1074);
    crate::rounding::lemma_two_to_add(53, 1044);
    crate::rounding::lemma_two_to_add(15, 15);
    crate::rounding::lemma_two_to_add(11, 12);
    crate::rounding::lemma_two_to_add(30, 1044);
    crate::rounding::lemma_two_to_add(23, 1074);
}

/// A sample is played at the level nearest to its own, 32767 being full scale;
/// what is louder is played at full scale, and what is not a number is silent.
pub proof fn lemma_level_of_a_sample(v: Double)
    ensures
        ({
            let w = crate::double::one() as int;
            let q = crate::sound::quantised(v);
            &&& v.nan() ==> q == 0
            &&& !v.nan() && v.value() >= w ==> q == 32767
            &&& !v.nan() && v.value() <= -w ==> q == -32767
            &&& !v.nan() && -w <= v.value() <= w ==> close(
                2 * (q * w),
                2 * (32767 * v.value()),
                w + 2 * crate::rounding::two_to(1044),
            )
        }),
{
    let w = crate::double::one() as int;
    let g = crate::rounding::two_to(1044) as int;
    let top = Double::whole(32767);
    let c = crate::sound::full_scale(v);
    let x = c.product(top);
    crate::sound::lemma_levels();
    lemma_grid();
    crate::order::lemma_whole(32767);
    if v.nan() {
        assert(x == Double::not_a_number());
        assert(x.round_word() == 0);
    } else {
        crate::sound::lemma_not_nan(v);
        assert(-w <= c.value() <= w);
        crate::order::lemma_value_bound(Double::whole(1));
        crate::bounds::lemma_sign(c);
        let step = crate::rounding::STEP as int;
        let a = crate::double::size(c.value()) as int;
        assert(a * (32767 * w) <= (2 * step) * (g * w)) by (nonlinear_arith)
            requires
                0 <= a <= w,
                0x80_0000 * w <= (2 * step) * g,
                w > 0,
        {
            assert(a * (32767 * w) <= w * (32767 * w));
            assert((0x80_0000 * w) * w <= ((2 * step) * g) * w);
        }
        crate::near::lemma_product_close(c, top, 1044);
        let y = x.value();
        let cv = c.value();
        assert(close(y, 32767 * cv, g)) by (nonlinear_arith)
            requires
                -(g * w) <= y * w - cv * (32767 * w) <= g * w,
                w > 0,
        ;
        crate::order::lemma_negation(x);
        let z = if x.negative() {
            x.negation()
        } else {
            x
        };
        crate::order::lemma_zero(x);
        assert(32767 * cv <= 32767 * w && -(32767 * w) <= 32767 * cv) by (nonlinear_arith)
            requires
                -w <= cv <= w,
        ;
        lemma_round(z);
        let q = crate::sound::quantised(v);
        let n = z.round_word();
        assert((-n) * w == -(n * w)) by (nonlinear_arith);
        assert(close(2 * (q * w), 2 * y, w));
        if v.value() >= w || v.value() <= -w {
            assert(q == 32767 || q == -32767) by (nonlinear_arith)
                requires
                    -(w + 2 * g) <= 2 * (q * w) - 2 * (32767 * cv) <= w + 2 * g,
                    cv == w || cv == -w,
                    w == 0x4000_0000 * g,
                    g > 0,
            ;
            crate::sound::lemma_quantised(v);
            assert(cv == w ==> q == 32767) by (nonlinear_arith)
                requires
                    -(w + 2 * g) <= 2 * (q * w) - 2 * (32767 * cv) <= w + 2 * g,
                    q == 32767 || q == -32767,
                    w == 0x4000_0000 * g,
                    g > 0,
            ;
            assert(cv == -w ==> q == -32767) by (nonlinear_arith)
                requires
                    -(w + 2 * g) <= 2 * (q * w) - 2 * (32767 * cv) <= w + 2 * g,
                    q == 32767 || q == -32767,
                    w == 0x4000_0000 * g,
                    g > 0,
            ;
        }
    }
}

/// What a blip that starts at an onset adds to a sample.
pub open spec fn part_of(blip: Seq<Double>, t: Double, j: int) -> int {
    let i = j - crate::sound::start_of(t);
    if 0 <= i < blip.len() {
        blip[i].value()
    } else {
        0
    }
}

/// The sum of what all of them add.
pub open spec fn parts_at(onsets: Seq<Double>, blip: Seq<Double>, j: int) -> int {
    onsets.map_values(|t: Double| part_of(blip, t, j)).fold_left(0, |a: int, b: int| a + b)
}

/// Before it is played, a sample is the sum of what every onset adds to it,
/// wherever the onsets are, up to a rounding for each of them.
proof fn lemma_mixed(onsets: Seq<Double>, blip: Seq<Double>, j: int)
    requires
        onsets.len() <= 0x10_0000,
        forall|i: int|
            0 <= i < blip.len() ==> (#[trigger] blip[i]).finite() && -crate::double::one()
                <= blip[i].value() <= crate::double::one(),
    ensures
        crate::sound::mixed(onsets, blip, j).finite(),
        close(
            crate::sound::mixed(onsets, blip, j).value(),
            parts_at(onsets, blip, j),
            (onsets.len() * crate::rounding::two_to(1044)) as int,
        ),
        -(onsets.len() * crate::double::one()) <= parts_at(onsets, blip, j) <= onsets.len()
            * crate::double::one(),
    decreases onsets.len(),
{
    let w = crate::double::one() as int;
    let g = crate::rounding::two_to(1044) as int;
    let f = |t: Double| part_of(blip, t, j);
    let add = |a: int, b: int| a + b;
    let all = onsets.map_values(f);
    crate::sound::lemma_levels();
    lemma_grid();
    if onsets.len() > 0 {
        let rest = onsets.drop_last();
        let t = onsets.last();
        let n = rest.len() as int;
        lemma_mixed(rest, blip, j);
        assert(all.drop_last() =~= rest.map_values(f));
        assert(all.last() == part_of(blip, t, j));
        let before = crate::sound::mixed(rest, blip, j);
        let i = j - crate::sound::start_of(t);
        assert((n + 1) * g == n * g + g && (n + 1) * w == n * w + w) by (nonlinear_arith);
        assert(n * w + n * g + w <= 0x80_0000 * w) by (nonlinear_arith)
            requires
                0 <= n < 0x10_0000,
                g <= w,
                w > 0,
        ;
        if 0 <= i < blip.len() {
            let b = blip[i];
            crate::near::lemma_sum_close(before, b, 1044);
        }
    } else {
        assert(all =~= Seq::<int>::empty());
        assert(0 * w == 0 && 0 * g == 0);
    }
}

/// Every onset is heard. Each sample of a track is the level of the sum of what
/// all the onsets that can be mixed add to it: the sample of the blip that falls
/// there, for each whose blip covers it.
pub proof fn lemma_every_onset_is_heard(cfg: Sound, blip: Seq<Double>, onsets: Seq<Double>, j: int)
    requires
        cfg.enabled,
        crate::sound::kept(onsets).len() <= 0x10_0000,
        forall|i: int|
            0 <= i < blip.len() ==> (#[trigger] blip[i]).finite() && -crate::double::one()
                <= blip[i].value() <= crate::double::one(),
        0 <= j < crate::sound::track_of(cfg, blip, onsets).len(),
    ensures
        ({
            let w = crate::double::one() as int;
            let n = crate::sound::kept(onsets).len() as int;
            let sum = parts_at(crate::sound::kept(onsets), blip, j);
            let s = crate::sound::track_of(cfg, blip, onsets)[j];
            let slack = 32767 * (n * crate::rounding::two_to(1044));
            &&& sum >= w + slack ==> s == 32767
            &&& sum <= -w - slack ==> s == -32767
            &&& -w <= sum <= w ==> close(
                2 * (s * w),
                2 * (32767 * sum),
                w + 2 * (slack + 40_000 * crate::rounding::two_to(1044)),
            )
        }),
{
    let w = crate::double::one() as int;
    let g = crate::rounding::two_to(1044) as int;
    let all = crate::sound::kept(onsets);
    let n = all.len() as int;
    let m = crate::sound::mixed(all, blip, j);
    let sum = parts_at(all, blip, j);
    lemma_grid();
    lemma_mixed(all, blip, j);
    lemma_level_of_a_sample(m);
    let s = crate::sound::quantised(m);
    let e = n * g;
    assert(0 <= e && e <= 32767 * e) by (nonlinear_arith)
        requires
            e == n * g,
            n >= 0,
            g > 0,
    ;
    if -w <= sum <= w {
        if m.value() > w {
            assert(2 * (s * w) == 2 * (32767 * w)) by (nonlinear_arith)
                requires
                    s == 32767,
            ;
        } else if m.value() < -w {
            assert(2 * (s * w) == -(2 * (32767 * w))) by (nonlinear_arith)
                requires
                    s == -32767,
            ;
        }
    }
}

/// A single blip in the middle of nothing: from the sample nearest to its onset
/// on, the track is the blip at its level, and it is silent before and after.
pub proof fn lemma_single_blip(cfg: Sound, blip: Seq<Double>, t: Double, j: int)
    requires
        cfg.enabled,
        blip.len() > 0,
        t.finite(),
        0 <= t.value() <= 120 * crate::double::one(),
        j >= 0,
    ensures
        ({
            let w = crate::double::one() as int;
            let track = crate::sound::track_of(cfg, blip, seq![t]);
            let i = j - crate::sound::start_of(t);
            &&& track.len() >= crate::sound::start_of(t) + blip.len()
            &&& 0 <= i < blip.len() && !blip[i].nan() && -w <= blip[i].value() <= w ==> close(
                2 * (track[j] * w),
                2 * (32767 * blip[i].value()),
                w + 2 * crate::rounding::two_to(1044),
            )
            &&& j < track.len() && !(0 <= i < blip.len()) ==> track[j] == 0
        }),
{
    let w = crate::double::one() as int;
    let zero = Double::whole(0);
    let onsets = seq![t];
    let none = Seq::<Double>::empty();
    crate::sound::lemma_levels();
    lemma_grid();
    crate::order::lemma_whole(120);
    assert(onsets.drop_last() =~= none);
    assert(crate::sound::kept(none) =~= none);
    assert(crate::sound::kept(onsets) =~= onsets);
    assert(crate::sound::latest(none) == zero);
    let last = crate::sound::latest(onsets);
    assert(last.value() == t.value());
    crate::sound::lemma_latest(onsets);
    crate::sound::lemma_start(t, last);
    let i = j - crate::sound::start_of(t);
    assert(crate::sound::mixed(none, blip, j) == zero);
    if 0 <= i < blip.len() {
        let b = blip[i];
        let s = zero.sum(b);
        if !b.nan() && -w <= b.value() <= w {
            crate::order::lemma_value_bound(Double::whole(1));
            crate::bounds::lemma_sign(b);
            crate::order::lemma_sum(zero, b);
            crate::order::lemma_rounded_exact(b);
            lemma_level_of_a_sample(s);
        }
    } else {
        lemma_level_of_a_sample(zero);
        let q = crate::sound::quantised(zero);
        assert(q == 0) by (nonlinear_arith)
            requires
                -(w + 2 * crate::rounding::two_to(1044)) <= 2 * (q * w) <= w + 2
                    * crate::rounding::two_to(1044),
                w == 0x4000_0000 * crate::rounding::two_to(1044),
                w > 0,
        ;
    }
}

/// A track lasts until the latest onset that can be mixed, and the blip after
/// it.
pub proof fn lemma_track_lasts(cfg: Sound, blip: Seq<Double>, onsets: Seq<Double>, k: int)
    requires
        cfg.enabled,
        blip.len() > 0,
        0 <= k < crate::sound::kept(onsets).len(),
        forall|i: int|
            0 <= i < crate::sound::kept(onsets).len() ==> (#[trigger] crate::sound::kept(
                onsets,
            )[i]).value() <= crate::sound::kept(onsets)[k].value(),
    ensures
        ({
            let w = crate::double::one() as int;
            let before = crate::sound::track_of(cfg, blip, onsets).len() - blip.len();
            let at = 48_000 * crate::sound::kept(onsets)[k].value();
            let g = crate::rounding::two_to(1044);
            &&& before * w >= at - g
            &&& (before - 1) * w < at + g
        }),
{
    let w = crate::double::one() as int;
    let g = crate::rounding::two_to(1044) as int;
    let all = crate::sound::kept(onsets);
    let last = crate::sound::latest(all);
    let r = Double::whole(48_000);
    crate::sound::lemma_levels();
    lemma_grid();
    crate::order::lemma_whole(120);
    crate::order::lemma_whole(48_000);
    crate::sound::lemma_kept(onsets);
    crate::sound::lemma_latest(all);
    lemma_latest_is_one(all);
    assert(crate::sound::usable(all[k]));
    assert(last.value() == all[k].value());
    crate::sound::lemma_scaled(last);
    let step = crate::rounding::STEP as int;
    let t = last.value();
    assert(t * (48_000 * w) <= (2 * step) * (g * w)) by (nonlinear_arith)
        requires
            0 <= t <= 120 * w,
            0x80_0000 * w <= (2 * step) * g,
            w > 0,
    {
        assert(t * (48_000 * w) <= (120 * w) * (48_000 * w));
        assert((0x80_0000 * w) * w <= ((2 * step) * g) * w);
    }
    crate::near::lemma_product_close(last, r, 1044);
    let x = last.product(r);
    let v = x.value();
    assert(close(v, 48_000 * t, g)) by (nonlinear_arith)
        requires
            -(g * w) <= v * w - t * (48_000 * w) <= g * w,
            w > 0,
    ;
    let c = x.ceil_word();
    assert(v <= c * w && (c - 1) * w < v || c == 0 && v == 0) by {
        if v > 0 {
            let q = (v + w - 1) / w;
            assert(v <= q * w && (q - 1) * w < v && 0 <= q <= MAX_START) by (nonlinear_arith)
                requires
                    q == (v + w - 1) / w,
                    0 < v <= MAX_START * w,
                    w > 0,
            ;
            assert(c == q);
        }
    }
    assert(crate::sound::track_of(cfg, blip, onsets).len() == c + blip.len());
    assert(0 * w == 0 && (0 - 1) * w == -w) by (nonlinear_arith);
}

proof fn lemma_latest_is_one(onsets: Seq<Double>)
    requires
        forall|i: int| 0 <= i < onsets.len() ==> crate::sound::usable(#[trigger] onsets[i]),
        onsets.len() > 0,
    ensures
        exists|i: int|
            0 <= i < onsets.len() && (#[trigger] onsets[i]).value() == crate::sound::latest(
                onsets,
            ).value(),
    decreases onsets.len(),
{
    let rest = onsets.drop_last();
    let n = onsets.len() - 1;
    crate::sound::lemma_levels();
    crate::order::lemma_whole(120);
    assert(crate::sound::usable(onsets[n]));
    assert forall|i: int| 0 <= i < rest.len() implies crate::sound::usable(#[trigger] rest[i]) by {
        assert(crate::sound::usable(onsets[i]));
    }
    if rest.len() > 0 {
        lemma_latest_is_one(rest);
        let i = choose|i: int|
            0 <= i < rest.len() && (#[trigger] rest[i]).value() == crate::sound::latest(
                rest,
            ).value();
        assert(onsets[i] == rest[i]);
        assert(onsets[i].value() == crate::sound::latest(rest).value());
    } else {
        assert(crate::sound::latest(rest) == Double::whole(0));
    }
    assert(crate::sound::latest(onsets) == crate::sound::latest(rest).larger(onsets[n]));
}

/// A track is played as two bytes a sample, the lower one first.
pub proof fn lemma_bytes_of_a_track(pcm: Seq<i16>, i: int)
    requires
        0 <= i < pcm.len(),
    ensures
        ({
            let bytes = crate::sound::track_bytes(pcm);
            let n = bytes[2 * i] + 256 * bytes[2 * i + 1];
            &&& bytes.len() == 2 * pcm.len()
            &&& pcm[i] == if n < 0x8000 {
                n
            } else {
                n - 0x1_0000
            }
        }),
    decreases pcm.len(),
{
    let rest = pcm.drop_last();
    lemma_bytes_len(rest);
    let before = crate::sound::track_bytes(rest);
    let bytes = crate::sound::track_bytes(pcm);
    if i < rest.len() {
        lemma_bytes_of_a_track(rest, i);
        assert(bytes[2 * i] == before[2 * i]);
        assert(bytes[2 * i + 1] == before[2 * i + 1]);
    } else {
        let b = crate::sound::sample_bytes(pcm[i]);
        assert(bytes[2 * i] == b[0]);
        assert(bytes[2 * i + 1] == b[1]);
    }
}

proof fn lemma_bytes_len(pcm: Seq<i16>)
    ensures
        crate::sound::track_bytes(pcm).len() == 2 * pcm.len(),
    decreases pcm.len(),
{
    if pcm.len() > 0 {
        lemma_bytes_len(pcm.drop_last());
    }
}

} // verus!
