//! When everything happens.
use wayhud::config::{Dir, Reveal, Vanish};
use wayhud::double::Double;
use wayhud::timeline::{Phase, Rng, Timeline};

fn d(x: f64) -> Double {
    Double::from_bits(x.to_bits())
}

fn f(x: Double) -> f64 {
    f64::from_bits(x.to_bits())
}

fn all(v: &[Double]) -> Vec<f64> {
    v.iter().map(|&x| f(x)).collect()
}

fn tw(cps: f64) -> Reveal {
    tw_jitter(cps, 0.0)
}

fn tw_jitter(cps: f64, jitter: f64) -> Reveal {
    Reveal::Typewriter {
        cps: d(cps),
        cursor: true,
        jitter: d(jitter),
        scroll: false,
    }
}

/// Fixed seed: jitter must be reproducible in a test.
const SEED: u64 = 0x1234_5678_9abc_def0;

fn timeline(text: &str, reveal: &Reveal, timeout_ms: u64, vanish: &Vanish) -> Timeline {
    Timeline::new(text, reveal, timeout_ms, vanish, SEED)
}

#[test]
fn a_resumed_block_shows_what_was_already_typed_at_once() {
    // Four characters up, two more arriving: the first four are there on
    // the first frame and only the new pair is typed.
    let tl = Timeline::resuming("abcdef", &tw(10.0), 500, &Vanish::Instant, 1, 4);
    assert_eq!(tl.phase_at(d(0.0)), Phase::Reveal { chars: 4 });
    assert_eq!(tl.phase_at(d(100.0)), Phase::Reveal { chars: 5 });
    assert_eq!(tl.phase_at(d(200.0)), Phase::Hold);
    // The reveal is as long as the new part, not the whole block.
    assert!(
        (f(tl.reveal_ms()) - 200.0).abs() < 1e-9,
        "reveal_ms {}",
        f(tl.reveal_ms())
    );
}

#[test]
fn a_resumed_block_does_not_blip_for_what_is_already_up() {
    // A step of zero would fire every earlier character's blip at t0.
    let tl = Timeline::resuming("abcdef", &tw(10.0), 0, &Vanish::Instant, 1, 4);
    let onsets = all(&tl.onsets(1));
    assert_eq!(onsets.len(), 2, "{onsets:?}");
    assert!(onsets.iter().all(|&t| t > 0.0), "{onsets:?}");
}

#[test]
fn resuming_past_the_end_is_a_block_with_nothing_to_type() {
    let tl = Timeline::resuming("abc", &tw(10.0), 500, &Vanish::Instant, 1, 99);
    assert_eq!(tl.phase_at(d(0.0)), Phase::Hold);
    assert!(tl.onsets(1).is_empty());
}

#[test]
fn resuming_from_zero_is_the_plain_constructor() {
    let a = Timeline::new("abcdef", &tw(10.0), 500, &Vanish::Instant, 7);
    let b = Timeline::resuming("abcdef", &tw(10.0), 500, &Vanish::Instant, 7, 0);
    assert_eq!(a.steps(), b.steps());
    assert_eq!(a.onsets(1), b.onsets(1));
}

#[test]
fn hold_starts_after_the_reveal_not_at_t0() {
    // 10 characters at 10 cps: 1000 ms reveal, then 5000 ms hold.
    let tl = timeline("0123456789", &tw(10.0), 5000, &Vanish::Instant);
    assert_eq!(tl.phase_at(d(999.0)), Phase::Reveal { chars: 9 });
    assert_eq!(tl.phase_at(d(1000.0)), Phase::Hold);
    assert_eq!(tl.phase_at(d(5999.0)), Phase::Hold);
    assert_eq!(tl.phase_at(d(6000.0)), Phase::Done);
}

#[test]
fn instant_reveal_skips_straight_to_hold() {
    let tl = timeline("abc", &Reveal::Instant, 100, &Vanish::Instant);
    assert_eq!(tl.phase_at(d(0.0)), Phase::Hold);
    assert_eq!(tl.phase_at(d(100.0)), Phase::Done);
}

#[test]
fn vanish_runs_zero_to_one_then_done() {
    let tl = timeline("ab", &Reveal::Instant, 100, &Vanish::Fade { ms: 200 });
    assert_eq!(tl.phase_at(d(100.0)), Phase::Vanish { p: d(0.0) });
    assert_eq!(tl.phase_at(d(200.0)), Phase::Vanish { p: d(0.5) });
    assert_eq!(tl.phase_at(d(300.0)), Phase::Done);
}

#[test]
fn zero_cps_does_not_divide_by_zero() {
    let tl = timeline("abc", &tw(0.0), 10, &Vanish::Instant);
    assert_eq!(tl.phase_at(d(0.0)), Phase::Hold);
    assert_eq!(tl.phase_at(d(10.0)), Phase::Done);
}

#[test]
fn empty_text_still_terminates() {
    let tl = timeline("", &tw(10.0), 10, &Vanish::Instant);
    assert_eq!(tl.phase_at(d(0.0)), Phase::Hold);
    assert_eq!(tl.phase_at(d(11.0)), Phase::Done);
}

#[test]
fn onsets_skip_whitespace_and_respect_every() {
    let tl = timeline("ab cd", &tw(10.0), 0, &Vanish::Instant);
    // step = 100 ms; chars a,b,' ',c,d at indices 0..4, space dropped.
    let onsets = all(&tl.onsets(1));
    assert_eq!(onsets.len(), 4);
    assert!((onsets[0] - 0.1).abs() < 1e-9);
    assert!((onsets[3] - 0.5).abs() < 1e-9);
    // every=2 keeps indices 0,2,4 -> minus the space at 2 -> 0 and 4.
    assert_eq!(tl.onsets(2).len(), 2);
    // Every zeroth is every one.
    assert_eq!(tl.onsets(0), tl.onsets(1));
}

#[test]
fn untype_blips_run_backwards_and_are_vanish_relative() {
    // Four characters erased at ten a second.
    let tl = timeline("abcd", &tw(10.0), 1000, &Vanish::Untype { ms: 400 });
    // reveal 400 ms + hold 1000 ms.
    assert!((f(tl.vanish_start()) - 1.4).abs() < 1e-9);
    let on = all(&tl.vanish_onsets(1));
    assert_eq!(on.len(), 4);
    // Char 3 (the last) is erased first, char 0 last.
    assert!(on[3] < on[0], "erase order must be reversed: {on:?}");
    // Onsets stay within the vanish duration regardless of hold time.
    assert!(on.iter().all(|&t| t <= 0.4), "not vanish-relative: {on:?}");
}

#[test]
fn a_huge_hold_does_not_inflate_the_vanish_onsets() {
    // A long hold must not add silence to the mixed track.
    let tl = timeline("ab", &tw(10.0), 3_600_000, &Vanish::Untype { ms: 200 });
    assert!(all(&tl.vanish_onsets(1)).iter().all(|&t| t <= 0.2));
}

#[test]
fn an_untype_blip_lands_when_its_character_disappears() {
    // Each blip coincides with removal of its character.
    let tl = timeline("abcdef", &tw(10.0), 0, &Vanish::Untype { ms: 600 });
    let onsets = all(&tl.vanish_onsets(1));
    for (i, t) in onsets.iter().enumerate() {
        let p = t * 1000.0 / 600.0;
        assert_eq!(
            tl.untype_visible(d(p)),
            i,
            "blip {i} at p={p} leaves {} visible",
            tl.untype_visible(d(p))
        );
    }
}

#[test]
fn only_untype_gets_vanish_blips() {
    for v in [
        Vanish::Fade { ms: 400 },
        Vanish::Collapse { ms: 400 },
        Vanish::Wash {
            ms: 400,
            dir: Dir::Up,
        },
        Vanish::Dissolve { ms: 400 },
        Vanish::Instant,
    ] {
        let tl = timeline("abcd", &tw(10.0), 100, &v);
        assert!(tl.vanish_onsets(1).is_empty(), "{v:?} should be silent");
    }
}

/// Gaps between consecutive character moments.
fn gaps(tl: &Timeline) -> Vec<f64> {
    let mut prev = 0.0;
    all(tl.steps())
        .iter()
        .map(|&s| {
            let g = s - prev;
            prev = s;
            g
        })
        .collect()
}

#[test]
fn zero_jitter_is_a_metronome() {
    let tl = timeline("abcdefgh", &tw(10.0), 0, &Vanish::Instant);
    for g in gaps(&tl) {
        assert!((g - 100.0).abs() < 1e-9, "uneven gap {g} with jitter off");
    }
}

#[test]
fn jitter_varies_the_gaps_but_keeps_them_ordered() {
    let tl = timeline("abcdefghij", &tw_jitter(10.0, 0.4), 0, &Vanish::Instant);
    let g = gaps(&tl);
    assert!(
        g.windows(2).any(|w| (w[0] - w[1]).abs() > 1e-6),
        "jitter produced identical gaps: {g:?}"
    );
    // The lookup by bisection requires sorted times.
    assert!(
        all(tl.steps()).windows(2).all(|w| w[0] <= w[1]),
        "steps not ascending"
    );
    // Every gap stays inside 1 +/- jitter of the nominal 100 ms.
    for gap in &g {
        assert!(
            (60.0..=140.0).contains(gap),
            "gap {gap} outside +/-40% of 100 ms"
        );
    }
}

#[test]
fn jitter_is_reproducible_for_a_seed_and_differs_between_seeds() {
    let mk = |seed| {
        Timeline::new("abcdefgh", &tw_jitter(10.0, 0.5), 0, &Vanish::Instant, seed)
            .steps()
            .clone()
    };
    assert_eq!(mk(7), mk(7), "same seed must replay identically");
    assert_ne!(mk(7), mk(8), "different seeds must not coincide");
}

#[test]
fn jitter_does_not_move_the_average_much() {
    // Symmetric jitter: the reveal should still take roughly chars/cps.
    let tl = timeline(
        &"x".repeat(200),
        &tw_jitter(50.0, 0.6),
        0,
        &Vanish::Instant,
    );
    let nominal = 200.0 / 50.0 * 1000.0;
    let actual = tl.phase_at(d(f64::MAX));
    assert_eq!(actual, Phase::Done);
    let total: f64 = all(tl.steps()).last().copied().unwrap();
    assert!(
        (total - nominal).abs() < nominal * 0.15,
        "reveal took {total} ms against a nominal {nominal}"
    );
}

#[test]
fn sound_onsets_are_the_same_moments_as_the_animation() {
    // Jittered audio onsets must match character reveal times.
    let tl = timeline("abcd", &tw_jitter(10.0, 0.5), 0, &Vanish::Instant);
    let onsets = all(&tl.onsets(1));
    let steps = all(tl.steps());
    assert_eq!(onsets.len(), 4);
    for (i, t) in onsets.iter().enumerate() {
        assert!(
            (t * 1000.0 - steps[i]).abs() < 1e-9,
            "blip {i} at {t}s does not match step {}",
            steps[i]
        );
    }
}

#[test]
fn instant_reveal_has_no_onsets() {
    let tl = timeline("abc", &Reveal::Instant, 0, &Vanish::Instant);
    assert!(tl.onsets(1).is_empty());
}

#[test]
fn the_steps_are_computed_as_plain_doubles() {
    // The same arithmetic on machine doubles gives the same bits.
    let (cps, jitter) = (37.0f64, 0.3f64);
    let tl = timeline("hello, world", &tw_jitter(cps, jitter), 0, &Vanish::Instant);
    let mut x = SEED | 1;
    let mut t = 0.0f64;
    for (i, step) in tl.steps().iter().enumerate() {
        x ^= x << 13;
        x ^= x >> 7;
        x ^= x << 17;
        let unit = (x >> 11) as f64 / (1u64 << 53) as f64;
        t += 1000.0 / cps * (1.0 + jitter * (unit * 2.0 - 1.0));
        assert_eq!(step.to_bits(), t.to_bits(), "step {i}");
    }
}

#[test]
fn a_draw_is_never_stuck_at_zero() {
    for seed in [0, 1, SEED, u64::MAX] {
        let mut rng = Rng::new(seed);
        for _ in 0..1000 {
            let u = f(rng.unit());
            assert!((0.0..1.0).contains(&u));
            assert_ne!(rng.state, 0);
        }
    }
}

#[test]
fn time_only_moves_a_message_forward() {
    let rank = |p: Phase| match p {
        Phase::Reveal { .. } => 0,
        Phase::Hold => 1,
        Phase::Vanish { .. } => 2,
        Phase::Done => 3,
    };
    let tl = timeline("some text", &tw_jitter(20.0, 1.0), 300, &Vanish::Untype { ms: 250 });
    let mut last = tl.phase_at(d(0.0));
    for i in 1..2000 {
        let now = tl.phase_at(d(f64::from(i)));
        assert!(rank(last) <= rank(now));
        if let (Phase::Reveal { chars: a }, Phase::Reveal { chars: b }) = (last, now) {
            assert!(a <= b);
        }
        if let (Phase::Vanish { p }, Phase::Vanish { p: q }) = (last, now) {
            assert!(f(p) <= f(q));
            assert!(tl.untype_visible(q) <= tl.untype_visible(p));
        }
        last = now;
    }
    assert_eq!(last, Phase::Done);
    assert_eq!(tl.untype_visible(d(0.0)), 9);
    assert_eq!(tl.untype_visible(d(1.0)), 0);
    assert!(tl.untypes());
}

#[test]
fn the_lifetime_is_the_sum_of_its_parts() {
    let tl = timeline("ab", &tw(10.0), 1000, &Vanish::Fade { ms: 300 });
    assert_eq!(tl.total_ms(), d(1500.0));
    assert_eq!(tl.chars(), 2);
    assert!(tl.fits());
    let edge = timeline("", &Reveal::Instant, 3_600_000, &Vanish::Instant);
    assert!(edge.fits());
    let over = timeline("", &Reveal::Instant, 3_600_000, &Vanish::Fade { ms: 1 });
    assert!(!over.fits());
    let endless = timeline("a", &tw(5e-324), 0, &Vanish::Instant);
    assert!(!endless.fits());
    let lost = timeline("a", &tw(f64::NAN), 0, &Vanish::Instant);
    assert!(!lost.fits());
    assert_eq!(lost.phase_at(d(0.0)), Phase::Done);
}

#[test]
fn a_message_that_fits_is_over_after_the_hour() {
    let tl = timeline("some text", &tw_jitter(0.01, 1.0), 1_500_000, &Vanish::Fade { ms: 900 });
    assert!(tl.fits());
    for t in [3_600_001.0, 3_600_002.5, 1e300, f64::INFINITY] {
        assert_eq!(tl.phase_at(d(t)), Phase::Done);
    }
}

#[test]
fn a_phase_reports_no_more_than_there_is() {
    let tl = timeline("some text", &tw_jitter(20.0, 1.0), 300, &Vanish::Untype { ms: 250 });
    for i in 0..20_000 {
        match tl.phase_at(d(f64::from(i) / 10.0)) {
            Phase::Reveal { chars } => assert!(chars < tl.chars()),
            Phase::Vanish { p } => assert!((0.0..=1.0).contains(&f(p))),
            Phase::Hold | Phase::Done => {}
        }
    }
    assert!(matches!(tl.phase_at(d(f64::INFINITY)), Phase::Done));
}

#[test]
fn a_message_is_over_when_its_total_has_passed() {
    for (cps, jitter, hold, ms) in [
        (20.0, 1.0, 300, 250),
        (0.01, 0.3, 0, 1),
        (37.0, 0.0, u64::MAX, 420),
        (1e-290, 0.5, 7, 3_600_000),
    ] {
        let tl = timeline("some text", &tw_jitter(cps, jitter), hold, &Vanish::Fade { ms });
        let total = f(tl.total_ms());
        let slack = 16.0 * (f64::from_bits(total.to_bits() + 1) - total);
        assert_eq!(tl.phase_at(d(total + slack)), Phase::Done, "cps {cps}");
        assert_ne!(tl.phase_at(d(total - 2.0 * slack)), Phase::Done, "cps {cps}");
    }
    let exact = timeline("ab", &tw(10.0), 1000, &Vanish::Fade { ms: 300 });
    assert_eq!(exact.phase_at(d(1500.0)), Phase::Done);
    assert!(matches!(exact.phase_at(d(1499.75)), Phase::Vanish { .. }));
}

#[test]
fn a_gap_differs_from_the_nominal_one_by_no_more_than_the_jitter() {
    for jitter in [0.0, 0.25, 1.0, 7.0] {
        let bound = f64::min(jitter, 1.0);
        for shown in [0, 3] {
            let reveal = tw_jitter(16.0, jitter);
            let tl = Timeline::resuming("hello, world", &reveal, 0, &Vanish::Instant, SEED, shown);
            let steps = all(tl.steps());
            let mut before = 0.0;
            for &t in &steps[shown..] {
                assert!(before + 62.5 * (1.0 - bound) <= t, "jitter {jitter}");
                assert!(t <= before + 62.5 * (1.0 + bound), "jitter {jitter}");
                before = t;
            }
            if jitter == 0.0 {
                assert_eq!(steps[shown], 62.5);
                assert_eq!(steps[11], 62.5 * (12 - shown) as f64);
            }
        }
    }
}

#[test]
fn a_character_is_there_until_its_blip_and_gone_after_it() {
    for (text, ms) in [("abcdef", 600), ("hello, world", 1), ("seven!!", 3_600_000)] {
        let tl = timeline(text, &tw(10.0), 0, &Vanish::Untype { ms });
        let n = tl.chars();
        for i in 0..n {
            let share = (n - i) as f64 / n as f64;
            assert_eq!(tl.untype_visible(d(share - 1e-9)), i + 1, "{text} {i}");
            assert!(tl.untype_visible(d(f64::min(share + 1e-9, 1.0))) <= i, "{text} {i}");
        }
    }
    // The blips fall at the same shares.
    let tl = timeline("seven!!", &tw(10.0), 0, &Vanish::Untype { ms: 1000 });
    for (i, t) in all(&tl.vanish_onsets(1)).into_iter().enumerate() {
        assert!((t - (7 - i) as f64 / 7.0).abs() < 1e-15, "blip {i} at {t}");
    }
}

#[test]
fn the_end_of_time_comes_after_everything() {
    let rank = |p: Phase| match p {
        Phase::Reveal { .. } => 0,
        Phase::Hold => 1,
        Phase::Vanish { .. } => 2,
        Phase::Done => 3,
    };
    // Typed at a usual speed, for nearly ever, for ever, and at no moment.
    for (cps, jitter) in [(20.0, 0.5), (1e-304, 0.0), (5e-324, 0.5), (5e-324, 1.0)] {
        let tl = timeline("ab", &tw_jitter(cps, jitter), 300, &Vanish::Fade { ms: 250 });
        let times = [f64::NEG_INFINITY, -1.0, 0.0, 50.0, 400.0, 1e9, f64::MAX, f64::INFINITY];
        let ranks: Vec<i32> = times.iter().map(|&t| rank(tl.phase_at(d(t)))).collect();
        assert!(ranks.windows(2).all(|w| w[0] <= w[1]), "{cps}: {ranks:?}");
        assert_eq!(ranks[7], 3);
    }
}

#[test]
fn a_reveal_without_end_is_never_over() {
    let tl = timeline("ab", &tw(5e-324), 300, &Vanish::Fade { ms: 250 });
    assert_eq!(f(tl.total_ms()), f64::INFINITY);
    assert_eq!(tl.phase_at(d(f64::MAX)), Phase::Reveal { chars: 0 });
    assert_eq!(tl.phase_at(d(f64::INFINITY)), Phase::Done);
    // Hold and vanish are lost in the last place of a very long reveal.
    let tl = timeline("a", &tw(1e-304), 300, &Vanish::Fade { ms: 250 });
    let total = f(tl.total_ms());
    assert_eq!(total, 1000.0 / 1e-304);
    assert_eq!(tl.reveal_ms(), tl.total_ms());
    let next = f64::from_bits(total.to_bits() + 1);
    let before = f64::from_bits(total.to_bits() - 1);
    assert_eq!(tl.phase_at(d(next)), Phase::Done);
    assert_eq!(tl.phase_at(d(before)), Phase::Reveal { chars: 0 });
}

#[test]
fn an_infinite_gap_stays_infinite_unless_it_can_be_cut_to_nothing() {
    let tl = timeline("abc", &tw_jitter(5e-324, 0.999), 0, &Vanish::Instant);
    assert!(all(tl.steps()).iter().all(|&t| t == f64::INFINITY));
    // Finite gaps may still add up to more than any number.
    let tl = timeline("abc", &tw(1e-305), 0, &Vanish::Instant);
    let steps = all(tl.steps());
    assert_eq!(steps[0], 1000.0 / 1e-305);
    assert_eq!(steps[2], f64::INFINITY);
}

#[test]
fn untype_blips_share_the_moment_with_their_characters() {
    for (text, ms) in [("abcdef", 600), ("abc", 29), ("hello, world!!", 1), ("a", 3_600_000)] {
        let tl = timeline(text, &tw(10.0), 0, &Vanish::Untype { ms });
        let n = tl.chars();
        let mut last = f64::INFINITY;
        for i in 0..n {
            let t = (n - i) as f64 * (ms as f64 / n as f64 / 1000.0);
            assert!(0.0 < t && t < last);
            assert!(t * 1000.0 <= ms as f64 * (1.0 + 4.0 * f64::EPSILON));
            last = t;
            let p = t * 1000.0 / ms as f64;
            let rest = (1.0 - p) * n as f64;
            let want = if rest <= i as f64 { i } else { i + 1 };
            assert_eq!(tl.untype_visible(d(p)), want, "{text} {i}");
        }
    }
    // Three characters over 29 ms: at its blip the first is still there, since
    // the share rounds to less than the whole.
    let tl = timeline("abc", &tw(10.0), 0, &Vanish::Untype { ms: 29 });
    let p = f(tl.vanish_onsets(1)[0]) * 1000.0 / 29.0;
    assert!(p < 1.0);
    assert_eq!(tl.untype_visible(d(p)), 1);
}

#[test]
fn a_resumed_block_keeps_one_moment_per_character() {
    let tl = Timeline::resuming("ab cd", &tw_jitter(16.0, 0.5), 0, &Vanish::Instant, SEED, 2);
    let steps = all(tl.steps());
    assert_eq!(steps.len(), 5);
    assert_eq!(&steps[..2], &[0.0, 0.0]);
    assert!(steps.windows(2).all(|w| w[0] <= w[1]));
    // The space is silent.
    assert_eq!(
        all(&tl.onsets(1)),
        vec![steps[3] / 1000.0, steps[4] / 1000.0]
    );
}
