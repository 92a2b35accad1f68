//! The typewriter's sound.
use std::f64::consts::PI;

use wayhud::config::Sound;
use wayhud::double::Double;
use wayhud::sound::{hold, to_bytes, typewriter_track, Generation, MAX_TRACK_S, RATE};
use wayhud::synth::{
    blip_params, partials, render_f64, sine_angle, Envelope, Params, LN_1000,
};

fn d(x: f64) -> Double {
    Double::from_bits(x.to_bits())
}

fn f(x: Double) -> f64 {
    f64::from_bits(x.to_bits())
}

fn doubles(v: &[f64]) -> Vec<Double> {
    v.iter().map(|&x| d(x)).collect()
}

fn cfg() -> Sound {
    Sound::default()
}

/// Render a blip, evaluating what the library leaves to its caller.
fn render(p: &Params) -> Vec<Double> {
    let parts = partials(p);
    let env = Envelope::new(p);
    let cosines = (0..env.total_n)
        .map(|i| d(f(env.swell_angle(i)).cos()))
        .collect();
    let exponentials = (0..env.total_n)
        .map(|i| d(f(env.ring_exponent(i)).exp()))
        .collect();
    let sines = (0..env.total_n)
        .map(|i| {
            parts
                .iter()
                .map(|part| d(f(sine_angle(part, &env, i)).sin()))
                .collect()
        })
        .collect();
    render_f64(p, &cosines, &exponentials, &sines)
}

fn track(c: &Sound, onsets: &[f64]) -> Vec<i16> {
    typewriter_track(c, &render(&blip_params(c)), &doubles(onsets))
}

/// The same blip in machine doubles, written out plainly.
fn reference(p: &Params) -> Vec<f64> {
    let (freq, detune, rate) = (f(p.freq), f(p.detune), f64::from(p.rate));
    let mut parts = Vec::new();
    for (mul, weight) in [(0.0, 0.7), (1.0, 0.63), (2.0, 0.86), (2.33, 1.0)] {
        parts.push((freq * (1.0 - mul * detune), weight));
    }
    parts.push((freq * 2.0, f(p.brightness)));
    parts.retain(|&(hz, w)| hz > 0.0 && hz < rate / 2.0 && w > 0.0);
    let attack = f(p.attack_ms) / 1000.0;
    let decay = f(p.decay_ms) / 1000.0;
    let body = attack + decay;
    let fade = 0.005f64.min(body / 4.0);
    let tau = decay / 1000.0f64.ln();
    let n = ((body + fade) * rate).round() as usize;
    let fade_n = ((fade * rate).round() as usize).clamp(1, n.max(1));
    let mut raw = vec![0.0f64; n];
    let mut peak = 0.0f64;
    for (i, slot) in raw.iter_mut().enumerate() {
        let t = i as f64 / rate;
        let a = if attack <= 0.0 {
            1.0
        } else {
            0.5 * (1.0 - (PI * (t / attack).clamp(0.0, 1.0)).cos())
        };
        let e = if t >= attack {
            (-(t - attack) / tau).exp()
        } else {
            1.0
        };
        let o = if i + fade_n >= n {
            (((n - 1 - i) as f64) / ((fade_n - 1).max(1) as f64)).clamp(0.0, 1.0)
        } else {
            1.0
        };
        let mut s = 0.0;
        for (hz, w) in &parts {
            s += w * (2.0 * PI * hz * t).sin();
        }
        *slot = a * e * o * s;
        if slot.abs() > peak {
            peak = slot.abs();
        }
    }
    let scale = if peak > 0.0 { f(p.gain) / peak } else { 0.0 };
    raw.iter().map(|v| (v * scale).clamp(-1.0, 1.0)).collect()
}

#[test]
fn disabled_or_empty_produces_silence_cheaply() {
    let mut c = cfg();
    c.enabled = false;
    assert!(track(&c, &[0.1, 0.2]).is_empty());
    assert!(track(&cfg(), &[]).is_empty());
}

#[test]
fn track_spans_the_last_onset_plus_the_blip_tail() {
    let t = track(&cfg(), &[0.0, 1.0]);

    assert!(t.len() > RATE as usize, "track too short: {}", t.len());
    assert!(t.iter().any(|&s| s != 0));
    assert_eq!(
        t.len(),
        RATE as usize + render(&blip_params(&cfg())).len()
    );
}

#[test]
fn overlapping_onsets_stay_inside_full_scale() {
    // Overlapping blips must saturate without i16 wrapping.
    let onsets = vec![0.0_f64; 10];
    let t = track(&cfg(), &onsets);
    assert!(t.iter().all(|&s| s.abs() as i32 <= 32767));
}

#[test]
fn negative_onset_does_not_panic() {
    let t = track(&cfg(), &[-1.0, 0.5]);
    assert!(!t.is_empty());
}

#[test]
fn absurd_onsets_do_not_size_the_buffer() {
    // Reject onsets that would require excessive allocation.
    let t = track(&cfg(), &[1e12]);
    assert!(t.is_empty(), "an out-of-range onset must be dropped");

    let t = track(&cfg(), &[0.1, 1e12]);
    assert!(!t.is_empty());
    assert!(t.len() < (MAX_TRACK_S as usize + 1) * RATE as usize);
}

#[test]
fn non_finite_onsets_are_dropped() {
    assert!(track(&cfg(), &[f64::NAN, f64::INFINITY]).is_empty());
}

#[test]
fn a_blip_is_the_one_that_plain_doubles_give() {
    for (freq, decay, gain) in [(2100.0, 38.0, 0.22), (8000.0, 10.0, 1.0), (100.0, 90.0, 0.5)] {
        let p = blip_params(&Sound {
            freq: d(freq),
            decay_ms: d(decay),
            gain: d(gain),
            ..cfg()
        });
        let got = render(&p);
        let want = reference(&p);
        assert_eq!(got.len(), want.len());
        for (i, (g, w)) in got.iter().zip(&want).enumerate() {
            assert_eq!(f(*g), *w, "sample {i} at {freq} Hz");
        }
    }
    assert_eq!(LN_1000, 1000.0f64.ln().to_bits());
}

#[test]
fn partials_past_half_the_rate_are_not_heard() {
    let mut p = blip_params(&cfg());
    assert_eq!(partials(&p).len(), 5);
    p.freq = d(13_000.0);
    assert_eq!(partials(&p).len(), 4, "the octave is above 24 kHz");
    p.brightness = d(0.0);
    p.freq = d(1000.0);
    assert_eq!(partials(&p).len(), 4, "an octave without weight");
    p.freq = d(0.0);
    assert!(partials(&p).is_empty());
    assert!(render(&p).iter().all(|v| f(*v) == 0.0), "silence");
}

#[test]
fn a_track_is_the_sum_of_its_blips() {
    let blip = doubles(&[0.5, -0.25, 0.75]);
    let at = |n: f64| n / f64::from(RATE);
    // Starts at samples 0, 1 and 3.
    let t = typewriter_track(&cfg(), &blip, &doubles(&[at(0.0), at(1.0), at(3.0)]));
    let want = [0.5, -0.25 + 0.5, 0.75 - 0.25, 0.75 + 0.5, -0.25, 0.75];
    assert_eq!(t.len(), 6);
    for (s, w) in t.iter().zip(want) {
        let w: f64 = w;
        assert_eq!(*s, (w.clamp(-1.0, 1.0) * 32767.0).round() as i16);
    }
    assert_eq!(f(hold(d(-7.0))), -1.0);
    assert_eq!(f(hold(d(0.25))), 0.25);
}

#[test]
fn samples_are_played_in_little_endian_order() {
    let pcm: Vec<i16> = vec![0, 1, -1, i16::MAX, i16::MIN, 0x1234];
    let want: Vec<u8> = pcm.iter().flat_map(|s| s.to_le_bytes()).collect();
    assert_eq!(to_bytes(&pcm), want);
}

#[test]
fn a_bump_abandons_what_was_scheduled() {
    let mut g = Generation::new();
    let issued = g.get();
    assert!(g.wants(issued, true));
    g.bump();
    assert!(!g.wants(issued, true), "the old track must not play");
    assert!(g.wants(issued, false), "one without a delay is not held back");
    assert!(g.wants(g.get(), true));
}

#[test]
fn the_blip_of_a_valid_sound_has_samples() {
    for (decay, samples) in [(10.0, 660), (38.0, 2112), (3000.0, 144_288)] {
        let c = Sound {
            decay_ms: d(decay),
            ..cfg()
        };
        assert_eq!(Envelope::new(&blip_params(&c)).total_n, samples);
    }
}

#[test]
fn a_track_is_empty_only_when_nothing_is_played() {
    let c = Sound {
        decay_ms: d(10.0),
        gain: d(0.0),
        ..cfg()
    };
    let unusable = [f64::NAN, f64::INFINITY, f64::NEG_INFINITY, -0.5, 120.5];
    assert!(track(&c, &unusable).is_empty());
    assert!(track(&c, &[]).is_empty());
    assert_eq!(track(&c, &[-0.0]).len(), 660);
    let off = Sound {
        enabled: false,
        ..c
    };
    assert!(track(&off, &[0.0]).is_empty());
    // What cannot be mixed changes nothing.
    let mut mixed = vec![0.25];
    mixed.extend(unusable);
    mixed.push(0.5);
    let loud = Sound {
        gain: d(0.5),
        ..cfg()
    };
    assert_eq!(track(&loud, &mixed), track(&loud, &[0.25, 0.5]));
    assert_eq!(track(&loud, &mixed).len(), 24_000 + 2112);
}
