//! The command line over a preset.
use wayhud::config::{
    Dir, Glow, HAlign, LineAlign, Reveal, Scanlines, Sound, Style, VAlign, Vanish,
    DEFAULT_VANISH_MS,
};
use wayhud::double::Double;
use wayhud::error::Error;
use wayhud::overrides::{apply_overrides, Overrides};

fn d(x: f64) -> Double {
    Double::from_bits(x.to_bits())
}

/// One option of the command line. Numbers arrive parsed.
fn option(flag: &str, value: &str) -> Overrides {
    let mut o = Overrides::default();
    let text = Some(value.to_string());
    match flag {
        "--font" => o.font = text,
        "--color" => o.color = text,
        "--outline" => o.outline = text,
        "--glow" => o.glow = text,
        "--scanlines" => o.scanlines = text,
        "--timeout" => o.timeout = Some(d(value.parse().unwrap())),
        "--position" => o.position = text,
        "--margin" => o.margin = Some(value.parse().unwrap()),
        "--width" => o.width = Some(value.parse().unwrap()),
        "--lines" => o.lines = Some(value.parse().unwrap()),
        "--line-align" => o.line_align = text,
        "--reveal" => o.reveal = text,
        "--vanish" => o.vanish = text,
        "--sound" => o.sound = text,
        _ => panic!("no such option: {flag}"),
    }
    o
}

fn over(mut style: Style, flag: &str, value: &str) -> Result<Style, Error> {
    apply_overrides(&mut style, &option(flag, value))?;
    Ok(style)
}

/// Apply one option to a fresh default style.
fn with(flag: &str, value: &str) -> Result<Style, Error> {
    over(Style::default(), flag, value)
}

fn refusal(flag: &str, value: &str) -> String {
    with(flag, value).unwrap_err().message().to_string()
}

#[test]
fn a_position_word_still_names_both_axes() {
    let pos = |spec| {
        let s = with("--position", spec).unwrap();
        (s.halign, s.valign)
    };
    assert_eq!(pos("center"), (HAlign::Center, VAlign::Center));
    assert_eq!(pos("top-left"), (HAlign::Left, VAlign::Top));
    assert_eq!(pos("left-top"), (HAlign::Left, VAlign::Top));
    // A bare position sets both axes.
    assert_eq!(pos("bottom"), (HAlign::Center, VAlign::Bottom));
}

#[test]
fn a_position_can_also_be_written_field_by_field() {
    let pos = |spec| {
        let s = with("--position", spec).unwrap();
        (s.halign, s.valign)
    };
    assert_eq!(
        pos("halign=left,valign=bottom"),
        (HAlign::Left, VAlign::Bottom)
    );

    assert_eq!(pos("valign=top"), (HAlign::Center, VAlign::Top));
    // Named fields can override the bare position.
    assert_eq!(pos("bottom,halign=right"), (HAlign::Right, VAlign::Bottom));
}

#[test]
fn a_dropped_spelling_is_answered_with_the_one_that_works() {
    // Suggest center for the obsolete centre alias.
    let err = refusal("--position", "centre");
    assert!(err.contains(r#"spelled "center""#), "{err}");
}

#[test]
fn a_direction_off_a_wash_is_handed_the_spec_that_works() {
    // Reject dir without wash and suggest the required kind.
    let err = refusal("--vanish", "fade,dir=up");
    assert!(err.contains("wash,dir=up"), "{err}");
    // Preserve the requested direction in the suggestion.
    let err = refusal("--vanish", "fade,dir=down");
    assert!(err.contains("wash,dir=down"), "{err}");
    assert_eq!(
        err,
        "--vanish: dir only applies to wash, not to fade; say --vanish 'wash,dir=down' to \
         switch the effect too"
    );
}

#[test]
fn a_bad_position_is_rejected_not_ignored() {
    for spec in ["diagonal", "halign=top", "valign=left", "halign=sideways"] {
        assert!(with("--position", spec).is_err(), "{spec:?} was accepted");
    }
    assert_eq!(
        refusal("--position", "top-diagonal"),
        "--position: bad component \"diagonal\" (want center, top, bottom, left or right)"
    );
    assert_eq!(
        refusal("--position", "halign=top"),
        "bad halign \"top\" (want left, center or right)"
    );
    assert_eq!(
        refusal("--position", "valign=left"),
        "bad valign \"left\" (want top, center or bottom)"
    );
}

#[test]
fn outline_takes_a_colour_a_width_or_both() {
    let s = with("--outline", "#123456").unwrap();
    assert_eq!(s.outline.as_deref(), Some("#123456"));

    assert_eq!(s.outline_width, None);

    let s = with("--outline", "#123456,width=3.5").unwrap();
    assert_eq!(s.outline.as_deref(), Some("#123456"));
    assert_eq!(s.outline_width, Some(d(3.5)));

    let s = with("--outline", "width=2").unwrap();
    assert_eq!(s.outline.as_deref(), Style::default().outline.as_deref());
    assert_eq!(s.outline_width, Some(d(2.0)));
}

#[test]
fn outline_none_switches_the_stroke_off_and_takes_no_width() {
    let s = with("--outline", "none").unwrap();
    assert!(s.outline.is_none());

    assert!(with("--outline", "none,width=5").is_err());
}

#[test]
fn an_outline_width_carries_across_a_colour_change() {
    let s = Style {
        outline_width: Some(d(7.0)),
        ..Style::default()
    };
    let s = over(s, "--outline", "#abcdef").unwrap();
    assert_eq!(
        s.outline_width,
        Some(d(7.0)),
        "geometry must survive a recolour"
    );
}

#[test]
fn glow_reaches_every_one_of_its_three_fields() {
    let s = with("--glow", "#b8bb26,radius=9,alpha=0.4").unwrap();
    let g = s.glow.expect("glow");
    assert_eq!(g.color, "#b8bb26");
    assert_eq!(g.radius, d(9.0));
    assert_eq!(g.alpha, d(0.4));
}

#[test]
fn glow_fields_not_mentioned_come_from_the_preset() {
    let s = Style {
        glow: Some(Glow {
            color: "#ff0000".into(),
            radius: d(20.0),
            alpha: d(0.9),
        }),
        ..Style::default()
    };
    let s = over(s, "--glow", "alpha=0.2").unwrap();
    let g = s.glow.expect("glow");
    assert_eq!(g.color, "#ff0000");
    assert_eq!(g.radius, d(20.0));
    assert_eq!(g.alpha, d(0.2));
}

#[test]
fn glow_none_switches_off_an_inherited_halo() {
    let s = Style {
        glow: Some(Glow::default()),
        ..Style::default()
    };
    let s = over(s, "--glow", "none").unwrap();
    assert!(s.glow.is_none());
    assert!(with("--glow", "none,radius=4").is_err());
}

#[test]
fn a_glow_field_over_a_preset_with_no_halo_turns_one_on() {
    // A radius-only spec enables glow with its default colour.
    let s = with("--glow", "radius=6").unwrap();
    let g = s.glow.expect("glow");
    assert_eq!(g.radius, d(6.0));
    assert_eq!(g.color, Glow::default().color);
}

#[test]
fn scanlines_reach_every_one_of_their_three_fields() {
    let s = with("--scanlines", "6,strength=0.5,duty=0.25").unwrap();
    let sl = s.scanlines.expect("scanlines");
    assert_eq!(sl.period, d(6.0));
    assert_eq!(sl.strength, d(0.5));
    assert_eq!(sl.duty, d(0.25));
}

#[test]
fn scanline_fields_not_mentioned_come_from_the_preset() {
    let s = Style {
        scanlines: Some(Scanlines {
            period: d(10.0),
            strength: d(0.9),
            duty: d(0.3),
        }),
        ..Style::default()
    };
    let s = over(s, "--scanlines", "strength=0.2").unwrap();
    let sl = s.scanlines.expect("scanlines");
    assert_eq!(sl.period, d(10.0));
    assert_eq!(sl.duty, d(0.3));
    assert_eq!(sl.strength, d(0.2));
}

#[test]
fn scanlines_none_switches_off_an_inherited_raster() {
    let s = Style {
        scanlines: Some(Scanlines::default()),
        ..Style::default()
    };
    let s = over(s, "--scanlines", "none").unwrap();
    assert!(s.scanlines.is_none());
    assert!(with("--scanlines", "none,strength=0.4").is_err());
}

#[test]
fn a_scanline_field_over_a_preset_with_none_turns_them_on() {
    let s = with("--scanlines", "strength=0.5").unwrap();
    let sl = s.scanlines.expect("scanlines");
    assert_eq!(sl.strength, d(0.5));
    assert_eq!(sl.period, Scanlines::default().period);
}

#[test]
fn a_scanline_period_that_is_not_a_number_is_refused_as_one() {
    // The only flag whose bare value is a number rather than a word, so a
    // typo must come back about the period and not about an unknown kind.
    let e = refusal("--scanlines", "wide");
    assert!(e.contains("period"), "{e}");
    assert_eq!(
        e,
        "--scanlines: bad value \"wide\" for period (invalid float literal)"
    );
    // And a misspelt field still lists the ones that exist.
    let e = refusal("--scanlines", "4,thickness=0.5");
    assert!(e.contains("strength"), "{e}");
}

#[test]
fn reveal_reaches_every_typewriter_field() {
    let s = with(
        "--reveal",
        "typewriter,cps=50,cursor=false,jitter=0.3,scroll=true",
    )
    .unwrap();
    match s.reveal {
        Reveal::Typewriter {
            cps,
            cursor,
            jitter,
            scroll,
        } => {
            assert_eq!(cps, d(50.0));
            assert!(!cursor, "cursor had no flag at all before this");
            assert_eq!(jitter, d(0.3));
            assert!(scroll);
        }
        Reveal::Instant => panic!("expected a typewriter"),
    }
}

#[test]
fn reveal_fields_not_mentioned_come_from_the_preset() {
    let s = Style {
        reveal: Reveal::Typewriter {
            cps: d(12.0),
            cursor: false,
            jitter: d(0.4),
            scroll: true,
        },
        ..Style::default()
    };
    let s = over(s, "--reveal", "cps=44").unwrap();
    assert!(
        matches!(
            s.reveal,
            Reveal::Typewriter { cps, cursor: false, jitter, scroll: true }
                if cps == d(44.0) && jitter == d(0.4)
        ),
        "only the speed was asked about: {:?}",
        s.reveal
    );
}

#[test]
fn scroll_is_a_field_now_so_it_switches_both_ways() {
    // Scroll must be overridable in both directions.
    let s = Style {
        reveal: Reveal::Typewriter {
            cps: d(28.0),
            cursor: true,
            jitter: d(0.0),
            scroll: true,
        },
        ..Style::default()
    };
    let s = over(s, "--reveal", "scroll=false").unwrap();
    assert!(matches!(s.reveal, Reveal::Typewriter { scroll: false, .. }));
}

#[test]
fn reveal_instant_takes_no_typewriter_fields() {
    assert!(matches!(
        with("--reveal", "instant").unwrap().reveal,
        Reveal::Instant
    ));
    for spec in [
        "instant,cps=20",
        "instant,scroll=true",
        "kind=instant,jitter=0.2",
    ] {
        assert!(with("--reveal", spec).is_err(), "{spec:?} was accepted");
    }
    assert_eq!(
        refusal("--reveal", "slow"),
        "--reveal: unknown kind \"slow\" (want instant or typewriter)"
    );
}

#[test]
fn a_typewriter_field_over_an_instant_preset_says_so() {
    // Require an explicit kind when enabling typing from instant.
    let instant = || Style {
        reveal: Reveal::Instant,
        ..Style::default()
    };
    let err = over(instant(), "--reveal", "cps=30").unwrap_err();
    assert!(err.message().contains("typewriter"), "{}", err.message());

    let s = over(instant(), "--reveal", "typewriter,cps=30").unwrap();
    assert!(matches!(s.reveal, Reveal::Typewriter { cps, .. } if cps == d(30.0)));
    // What is left out comes from the built-in typewriter.
    let s = over(instant(), "--reveal", "typewriter").unwrap();
    assert_eq!(s.reveal, Style::default().reveal);
}

#[test]
fn vanish_keeps_the_configured_duration_unless_told_otherwise() {
    let s = Style {
        vanish: Vanish::Fade { ms: 900 },
        ..Style::default()
    };
    let s = over(s, "--vanish", "wash,dir=up").unwrap();
    assert_eq!(
        s.vanish,
        Vanish::Wash {
            ms: 900,
            dir: Dir::Up
        }
    );

    assert_eq!(
        with("--vanish", "fade,ms=250").unwrap().vanish,
        Vanish::Fade { ms: 250 }
    );
}

#[test]
fn a_vanish_duration_alone_keeps_the_effect() {
    let s = Style {
        vanish: Vanish::Dissolve { ms: 400 },
        ..Style::default()
    };
    let s = over(s, "--vanish", "ms=800").unwrap();
    assert_eq!(s.vanish, Vanish::Dissolve { ms: 800 });
}

#[test]
fn wash_direction_is_a_field_rather_than_part_of_the_name() {
    assert_eq!(
        with("--vanish", "wash,dir=up,ms=700").unwrap().vanish,
        Vanish::Wash {
            ms: 700,
            dir: Dir::Up
        }
    );

    assert!(with("--vanish", "fade,dir=up").is_err());
    assert!(with("--vanish", "wash,dir=sideways").is_err());
    assert_eq!(
        refusal("--vanish", "wash,dir=sideways"),
        "--vanish: bad dir \"sideways\" (want up or down)"
    );
}

#[test]
fn a_wash_keeps_its_direction_when_only_the_duration_changes() {
    let s = Style {
        vanish: Vanish::Wash {
            ms: 300,
            dir: Dir::Up,
        },
        ..Style::default()
    };
    let s = over(s, "--vanish", "ms=600").unwrap();
    assert_eq!(
        s.vanish,
        Vanish::Wash {
            ms: 600,
            dir: Dir::Up
        }
    );
}

#[test]
fn instant_vanish_takes_no_duration_and_survives_the_fallback() {
    assert_eq!(with("--vanish", "instant").unwrap().vanish, Vanish::Instant);
    // Report that instant takes no duration before parsing ms.
    let err = refusal("--vanish", "instant,ms=99999999");
    assert!(err.contains("takes no other fields"), "{err}");

    // Switching from instant uses the built-in effect duration.
    let s = Style {
        vanish: Vanish::Instant,
        ..Style::default()
    };
    let s = over(s, "--vanish", "fade").unwrap();
    assert_eq!(
        s.vanish,
        Vanish::Fade {
            ms: DEFAULT_VANISH_MS
        }
    );
}

#[test]
fn an_unknown_vanish_kind_is_rejected_not_ignored() {
    assert!(with("--vanish", "sparkle").is_err());
    // Reject obsolete aliases.
    for old in ["wash-up", "wash-down", "crt", "none"] {
        assert!(with("--vanish", old).is_err(), "{old:?} should be gone");
    }
}

#[test]
fn sound_reaches_the_four_knobs_that_had_no_flag() {
    let s = with("--sound", "freq=1800,decay_ms=60,gain=0.3,every=4").unwrap();
    assert_eq!(s.sound.freq, d(1800.0));
    assert_eq!(s.sound.decay_ms, d(60.0));
    assert_eq!(s.sound.gain, d(0.3));
    assert_eq!(s.sound.every, 4);

    assert!(s.sound.enabled);
}

#[test]
fn sound_switches_both_ways_and_keeps_the_knobs() {
    let s = with("--sound", "off").unwrap();
    assert!(!s.sound.enabled);
    assert_eq!(
        s.sound.freq,
        Sound::default().freq,
        "off must not reset the tone"
    );

    let s = Style {
        sound: Sound {
            enabled: false,
            ..Sound::default()
        },
        ..Style::default()
    };
    let s = over(s, "--sound", "on").unwrap();
    assert!(
        s.sound.enabled,
        "a preset that silenced itself must be overridable"
    );

    assert!(with("--sound", "maybe").is_err());
    assert_eq!(refusal("--sound", "maybe"), "--sound: \"maybe\" is not on or off");
    assert!(!with("--sound", "enabled=false").unwrap().sound.enabled);
}

#[test]
fn margin_and_line_align_have_flags_at_last() {
    assert_eq!(with("--margin", "7").unwrap().margin, 7);
    assert_eq!(
        with("--line-align", "center").unwrap().line_align,
        LineAlign::Center
    );
    assert!(with("--line-align", "middle").is_err());
    assert_eq!(
        refusal("--line-align", "middle"),
        "bad --line-align \"middle\" (want left, center or right)"
    );
}

#[test]
fn an_unknown_field_is_refused_by_every_grouped_flag() {
    // Reject unknown fields for every spec flag.
    for (flag, spec) in [
        ("--outline", "#111,thickness=3"),
        ("--glow", "#111,size=3"),
        ("--position", "halign=left,align=top"),
        ("--reveal", "typewriter,speed=50"),
        ("--vanish", "fade,duration=200"),
        ("--sound", "on,volume=0.5"),
    ] {
        let err = refusal(flag, spec);
        assert!(err.contains("unknown field"), "{flag} {spec}: {err}");
    }
}

#[test]
fn the_command_line_is_held_to_the_same_ranges_as_the_config() {
    // Validate ranges after applying CLI overrides.
    for (flag, spec) in [
        ("--outline", "#111,width=999"),
        ("--glow", "#111,radius=999"),
        ("--glow", "#111,alpha=4"),
        ("--reveal", "typewriter,cps=-5"),
        ("--reveal", "typewriter,jitter=3"),
        ("--sound", "freq=99999"),
        ("--sound", "decay_ms=1e9"),
        ("--sound", "gain=40"),
        ("--sound", "every=0"),
        ("--width", "0"),
        ("--width", "99999"),
        ("--lines", "0"),
        ("--lines", "9999"),
        ("--scanlines", "1"),
        ("--scanlines", "4,strength=1.5"),
        ("--scanlines", "4,duty=1"),
    ] {
        let style = with(flag, spec).expect("parsing should accept it");
        assert!(
            style.validate().is_err(),
            "{flag} {spec:?} passed validation"
        );
    }
}

#[test]
fn every_style_field_is_reachable_from_the_command_line() {
    let text = |s: &str| Some(s.to_string());
    let cli = Overrides {
        font: text("Sans 40"),
        color: text("#010101"),
        outline: text("#020202,width=3"),
        glow: text("#030303,radius=9,alpha=0.4"),
        scanlines: text("6,strength=0.5,duty=0.25"),
        width: Some(640),
        lines: Some(9),
        position: text("top-right"),
        margin: Some(7),
        line_align: text("center"),
        timeout: Some(d(2.0)),
        reveal: text("typewriter,cps=11,cursor=false,jitter=0.25,scroll=true"),
        vanish: text("wash,ms=333,dir=up"),
        sound: text("off,freq=1234,decay_ms=56,gain=0.7,every=3"),
    };
    let mut s = Style::default();
    apply_overrides(&mut s, &cli).unwrap();
    s.validate().expect("the spec above must be a legal style");

    // Every field by name: one that is added has to be listed here.
    let Style {
        font,
        color,
        outline,
        outline_width,
        halign,
        valign,
        margin,
        width,
        lines,
        line_align,
        glow,
        scanlines,
        timeout_ms,
        reveal,
        vanish,
        sound,
    } = s;
    assert_eq!(font, "Sans 40");
    assert_eq!(color, "#010101");
    assert_eq!(outline.as_deref(), Some("#020202"));
    assert_eq!(outline_width, Some(d(3.0)));
    assert_eq!(halign, HAlign::Right);
    assert_eq!(valign, VAlign::Top);
    assert_eq!(margin, 7);
    assert_eq!(width, Some(640));
    assert_eq!(lines, Some(9));
    assert_eq!(line_align, LineAlign::Center);
    let g = glow.expect("glow");
    assert_eq!(
        (g.color.as_str(), g.radius, g.alpha),
        ("#030303", d(9.0), d(0.4))
    );
    let sl = scanlines.expect("scanlines");
    assert_eq!(
        (sl.period, sl.strength, sl.duty),
        (d(6.0), d(0.5), d(0.25))
    );
    assert_eq!(timeout_ms, 2000);
    assert!(
        matches!(
            reveal,
            Reveal::Typewriter { cps, cursor: false, jitter, scroll: true }
                if cps == d(11.0) && jitter == d(0.25)
        ),
        "{reveal:?}"
    );
    assert_eq!(
        vanish,
        Vanish::Wash {
            ms: 333,
            dir: Dir::Up
        }
    );
    assert_eq!(
        (
            sound.enabled,
            sound.freq,
            sound.decay_ms,
            sound.gain,
            sound.every
        ),
        (false, d(1234.0), d(56.0), d(0.7), 3)
    );
}

#[test]
fn absurd_timeouts_are_rejected_at_the_edge() {
    // Large timeouts must fail before audio allocation.
    assert!(with("--timeout", "1e9").is_err());
    let s = with("--timeout", "3600").unwrap();
    assert_eq!(s.timeout_ms, 3_600_000);
    assert_eq!(with("--timeout", "0.0015").unwrap().timeout_ms, 1);
}

#[test]
fn negative_timeout_is_rejected() {
    assert!(with("--timeout", "-3").is_err());
    assert!(with("--timeout", "nan").is_err());
    assert_eq!(
        refusal("--timeout", "-3"),
        "--timeout must be between 0 and 3600 seconds"
    );
}

#[test]
fn no_options_leave_the_style_alone() {
    let mut s = Style::default();
    apply_overrides(&mut s, &Overrides::default()).unwrap();
    assert_eq!(format!("{s:?}"), format!("{:?}", Style::default()));
}

#[test]
fn a_refused_option_leaves_what_came_before_it_applied() {
    let mut s = Style::default();
    let mut cli = option("--vanish", "sparkle");
    cli.font = Some("Sans 9".into());
    cli.sound = Some("off".into());
    assert!(apply_overrides(&mut s, &cli).is_err());
    assert_eq!(s.font, "Sans 9");
    assert!(s.sound.enabled, "nothing after the refusal is applied");
}

#[test]
fn a_duration_of_zero_is_kept_unless_the_preset_is_instant() {
    let base = |vanish| Style {
        vanish,
        ..Style::default()
    };
    let fade = || base(Vanish::Fade { ms: 0 });
    assert!(fade().validate().is_ok());
    let s = over(fade(), "--vanish", "collapse").unwrap();
    assert_eq!(s.vanish, Vanish::Collapse { ms: 0 });
    let s = over(fade(), "--vanish", "kind=fade").unwrap();
    assert_eq!(s.vanish, Vanish::Fade { ms: 0 });
    let s = over(base(Vanish::Instant), "--vanish", "collapse").unwrap();
    assert_eq!(s.vanish, Vanish::Collapse { ms: 420 });
}
