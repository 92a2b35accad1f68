//! Styles: defaults and ranges.
use wayhud::config::{
    Dir, Glow, Reveal, Scanlines, Sound, Style, StyleError, Vanish, MAX_BLOCK_PX,
    MAX_LIFETIME_MS, MAX_LINES,
};
use wayhud::double::Double;

fn d(x: f64) -> Double {
    Double::from_bits(x.to_bits())
}

fn typewriter(cps: f64, jitter: f64) -> Style {
    Style {
        reveal: Reveal::Typewriter {
            cps: d(cps),
            cursor: true,
            jitter: d(jitter),
            scroll: false,
        },
        ..Style::default()
    }
}

fn sounding(change: impl Fn(&mut Sound)) -> Style {
    let mut s = Style::default();
    change(&mut s.sound);
    s
}

#[test]
fn the_defaults_are_the_documented_numbers() {
    let s = Style::default();
    assert_eq!(s.font, "Monospace 72");
    assert_eq!(s.color, "#b8bb26");
    assert_eq!(s.outline.as_deref(), Some("#1d2021"));
    assert_eq!(s.margin, 64);
    assert_eq!(s.timeout_ms, 5000);
    assert_eq!(s.vanish, Vanish::Collapse { ms: 420 });
    assert_eq!(
        s.reveal,
        Reveal::Typewriter {
            cps: d(28.0),
            cursor: true,
            jitter: d(0.0),
            scroll: false
        }
    );
    assert_eq!(
        s.sound,
        Sound {
            enabled: true,
            freq: d(2100.0),
            decay_ms: d(38.0),
            gain: d(0.22),
            every: 1
        }
    );
    let g = Glow::default();
    assert_eq!(
        (g.color.as_str(), g.radius, g.alpha),
        ("#b8bb26", d(12.0), d(0.55))
    );
    assert_eq!(
        Scanlines::default(),
        Scanlines {
            period: d(4.0),
            strength: d(0.35),
            duty: d(0.5)
        }
    );
    assert!(s.validate().is_ok());
}

#[test]
fn every_vanish_reports_its_duration() {
    // Every timed variant must contribute its duration to the timeline.
    for (vanish, kind, want) in [
        (Vanish::Instant, "instant", 0),
        (Vanish::Fade { ms: 420 }, "fade", 420),
        (Vanish::Collapse { ms: 420 }, "collapse", 420),
        (
            Vanish::Wash {
                ms: 420,
                dir: Dir::Down,
            },
            "wash",
            420,
        ),
        (Vanish::Untype { ms: 420 }, "untype", 420),
        (Vanish::Dissolve { ms: 420 }, "dissolve", 420),
    ] {
        assert_eq!(vanish.ms(), want, "{kind}");
        assert_eq!(vanish.kind(), kind);
        assert_eq!(vanish.is_untype(), kind == "untype");
    }
}

#[test]
fn jitter_defaults_to_off_and_is_range_checked() {
    assert!(matches!(
        Style::default().reveal,
        Reveal::Typewriter { jitter, .. } if jitter == d(0.0)
    ));
    assert_eq!(
        typewriter(28.0, 1.5).validate(),
        Err(StyleError::Jitter(d(1.5)))
    );
    assert!(typewriter(28.0, 1.0).validate().is_ok());
    assert!(typewriter(28.0, f64::NAN).validate().is_err());
}

#[test]
fn sound_knobs_are_range_checked() {
    // `decay_ms` controls allocation size.
    assert_eq!(
        sounding(|s| s.decay_ms = d(1e9)).validate(),
        Err(StyleError::SoundDecay(d(1e9)))
    );
    assert_eq!(
        sounding(|s| s.freq = d(0.0)).validate(),
        Err(StyleError::SoundFreq(d(0.0)))
    );
    assert_eq!(
        sounding(|s| s.gain = d(40.0)).validate(),
        Err(StyleError::SoundGain(d(40.0)))
    );
    assert!(sounding(|s| {
        s.freq = d(1200.0);
        s.decay_ms = d(60.0);
    })
    .validate()
    .is_ok());
}

#[test]
fn a_non_finite_cps_is_rejected() {
    assert_eq!(
        typewriter(f64::NAN, 0.0).validate(),
        Err(StyleError::CpsNotFinite)
    );
    assert_eq!(
        typewriter(f64::INFINITY, 0.0).validate(),
        Err(StyleError::CpsNotFinite)
    );
}

#[test]
fn a_non_positive_cps_is_rejected_not_silently_instant() {
    for cps in [-5.0, 0.0, -0.0] {
        assert_eq!(
            typewriter(cps, 0.0).validate(),
            Err(StyleError::CpsNotPositive(d(cps))),
            "cps = {cps} should be rejected"
        );
    }
}

#[test]
fn an_absurd_vanish_duration_is_rejected() {
    let s = Style {
        vanish: Vanish::Fade {
            ms: 99999999999999,
        },
        ..Style::default()
    };
    assert_eq!(s.validate(), Err(StyleError::VanishMs(99999999999999)));
}

#[test]
fn config_cannot_smuggle_an_absurd_timeout_past_the_cli_check() {
    // The lifetime limit also applies to config values.
    let s = |ms| Style {
        timeout_ms: ms,
        ..Style::default()
    };
    assert!(s(31536000000).validate().is_err());
    assert!(s(3600000).validate().is_ok());
    assert_eq!(MAX_LIFETIME_MS, 3_600_000);
}

#[test]
fn scanline_ranges_are_checked() {
    let s = |period, strength, duty| {
        Style {
            scanlines: Some(Scanlines {
                period: d(period),
                strength: d(strength),
                duty: d(duty),
            }),
            ..Style::default()
        }
        .validate()
    };
    assert_eq!(s(1.0, 0.35, 0.5), Err(StyleError::ScanlinePeriod(d(1.0))));
    assert_eq!(s(999.0, 0.35, 0.5), Err(StyleError::ScanlinePeriod(d(999.0))));
    assert_eq!(s(4.0, 2.0, 0.5), Err(StyleError::ScanlineStrength(d(2.0))));
    assert_eq!(s(4.0, 0.35, 1.0), Err(StyleError::ScanlineDuty(d(1.0))));
    assert!(s(2.0, 1.0, 0.0).is_ok());
    assert!(s(128.0, 0.0, 0.99).is_ok());
}

#[test]
fn config_range_checks_cover_width_and_sound() {
    let s = Style {
        outline_width: Some(d(-1.0)),
        ..Style::default()
    };
    assert_eq!(s.validate(), Err(StyleError::OutlineWidth(d(-1.0))));
    assert_eq!(
        sounding(|s| s.every = 0).validate(),
        Err(StyleError::SoundEvery(0))
    );
    for (w, fine) in [(0, false), (1, true), (MAX_BLOCK_PX, true), (MAX_BLOCK_PX + 1, false)] {
        let s = Style {
            width: Some(w),
            ..Style::default()
        };
        assert_eq!(s.validate().is_ok(), fine, "width {w}");
    }
    for (n, fine) in [(0, false), (1, true), (MAX_LINES, true), (MAX_LINES + 1, false)] {
        let s = Style {
            lines: Some(n),
            ..Style::default()
        };
        assert_eq!(s.validate().is_ok(), fine, "lines {n}");
    }
    let glowing = |radius, alpha| {
        Style {
            glow: Some(Glow {
                color: "#fff".into(),
                radius: d(radius),
                alpha: d(alpha),
            }),
            ..Style::default()
        }
        .validate()
    };
    assert_eq!(glowing(129.0, 0.5), Err(StyleError::GlowRadius(d(129.0))));
    assert_eq!(glowing(1.0, -0.5), Err(StyleError::GlowAlpha(d(-0.5))));
    assert!(glowing(128.0, 1.0).is_ok());
}

#[test]
fn the_first_fault_is_the_one_reported() {
    let s = Style {
        timeout_ms: MAX_LIFETIME_MS + 1,
        outline_width: Some(d(-1.0)),
        ..Style::default()
    };
    assert_eq!(s.validate(), Err(StyleError::Timeout(3_600_001)));
}

#[test]
fn faults_read_as_one_line() {
    let told = |e: StyleError| {
        let shown = e
            .refused()
            .map(|n| f64::from_bits(n.to_bits()).to_string())
            .unwrap_or_default();
        e.message(&shown)
    };
    for (e, want) in [
        (
            StyleError::Timeout(3_600_001),
            "timeout_ms is 3600001 but the maximum is 3600000",
        ),
        (
            StyleError::OutlineWidth(d(-1.5)),
            "outline_width must be between 0 and 128, got -1.5",
        ),
        (
            StyleError::Jitter(d(1.5)),
            "reveal.jitter must be between 0 and 1, got 1.5",
        ),
        (
            StyleError::CpsNotFinite,
            "reveal.cps must be a finite number",
        ),
        (
            StyleError::CpsNotPositive(d(-5.0)),
            "reveal.cps must be positive, got -5",
        ),
        (
            StyleError::VanishMs(3_600_001),
            "vanish ms is 3600001 but the maximum is 3600000",
        ),
        (
            StyleError::GlowRadius(d(999.0)),
            "glow.radius must be between 0 and 128, got 999",
        ),
        (
            StyleError::GlowAlpha(d(4.0)),
            "glow.alpha must be between 0 and 1, got 4",
        ),
        (
            StyleError::Width(-7),
            "width must be between 1 and 16384, got -7",
        ),
        (
            StyleError::Width(i32::MIN),
            "width must be between 1 and 16384, got -2147483648",
        ),
        (
            StyleError::Lines(999),
            "lines must be between 1 and 256, got 999",
        ),
        (
            StyleError::ScanlinePeriod(d(1.0)),
            "scanlines.period must be between 2 and 128, got 1",
        ),
        (
            StyleError::ScanlineStrength(d(2.0)),
            "scanlines.strength must be between 0 and 1, got 2",
        ),
        (
            StyleError::ScanlineDuty(d(1.0)),
            "scanlines.duty must be at least 0 and below 1, got 1",
        ),
        (
            StyleError::SoundEvery(0),
            "sound.every must be at least 1, got 0",
        ),
        (
            StyleError::SoundFreq(d(99999.0)),
            "sound.freq must be between 100 and 8000 Hz, got 99999",
        ),
        (
            StyleError::SoundDecay(d(1e9)),
            "sound.decay_ms must be between 10 and 3000, got 1000000000",
        ),
        (
            StyleError::SoundGain(d(40.0)),
            "sound.gain must be between 0 and 1, got 40",
        ),
    ] {
        assert_eq!(told(e), want);
    }
}

#[test]
fn the_bounds_of_every_range_belong_to_it() {
    let low = Style {
        timeout_ms: 0,
        vanish: Vanish::Instant,
        outline_width: Some(d(0.0)),
        glow: Some(Glow {
            radius: d(0.0),
            alpha: d(0.0),
            ..Glow::default()
        }),
        width: Some(1),
        lines: Some(1),
        scanlines: Some(Scanlines {
            period: d(2.0),
            strength: d(0.0),
            duty: d(0.0),
        }),
        sound: Sound {
            enabled: true,
            freq: d(100.0),
            decay_ms: d(10.0),
            gain: d(0.0),
            every: 1,
        },
        ..typewriter(5e-324, 0.0)
    };
    assert_eq!(low.validate(), Ok(()));
    let high = Style {
        timeout_ms: MAX_LIFETIME_MS,
        vanish: Vanish::Fade { ms: MAX_LIFETIME_MS },
        outline_width: Some(d(128.0)),
        glow: Some(Glow {
            radius: d(128.0),
            alpha: d(1.0),
            ..Glow::default()
        }),
        width: Some(MAX_BLOCK_PX),
        lines: Some(MAX_LINES),
        scanlines: Some(Scanlines {
            period: d(128.0),
            strength: d(1.0),
            duty: d(0.999),
        }),
        sound: Sound {
            enabled: true,
            freq: d(8000.0),
            decay_ms: d(3000.0),
            gain: d(1.0),
            every: 9,
        },
        ..typewriter(f64::MAX, 1.0)
    };
    assert_eq!(high.validate(), Ok(()));
    // One step outside is outside.
    let above = |x: f64| d(f64::from_bits(x.to_bits() + 1));
    let below = |x: f64| d(f64::from_bits(x.to_bits() - 1));
    for (freq, decay_ms, gain) in [
        (below(100.0), d(10.0), d(0.0)),
        (above(8000.0), d(10.0), d(0.0)),
        (d(100.0), below(10.0), d(0.0)),
        (d(100.0), above(3000.0), d(0.0)),
        (d(100.0), d(10.0), d(-5e-324)),
        (d(100.0), d(10.0), above(1.0)),
    ] {
        let s = sounding(|s| {
            s.freq = freq;
            s.decay_ms = decay_ms;
            s.gain = gain;
        });
        assert!(s.validate().is_err(), "{freq:?} {decay_ms:?} {gain:?}");
    }
}
