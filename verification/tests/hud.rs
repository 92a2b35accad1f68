//! What is drawn.
use wayhud::config::{Dir, Glow, HAlign, Reveal, Scanlines, Style, Vanish};
use wayhud::double::Double;
use wayhud::hud::{
    block_life, block_size, blur_passes, blur_radius, byte_at, caret_width, caret_x, content_size,
    dissolve_grid, effect, font_points, gap, gap_tops, halo_size, live_size, live_width, mask_scale, mask_size, outline_width, pad,
    scroll_offset, scrolls, show_caret, shrunk_width, survives, text_budget, tinted, vanish_share, visible_chars,
    visible_glow, visible_outline, visible_scanlines, wash_edge, wrap_width, Frame, Pad,
};
use wayhud::timeline::{Phase, Timeline};

fn d(x: f64) -> Double {
    Double::from_bits(x.to_bits())
}

fn f(x: Double) -> f64 {
    f64::from_bits(x.to_bits())
}

fn typewriter(cursor: bool, scroll: bool) -> Reveal {
    Reveal::Typewriter {
        cps: d(20.0),
        cursor,
        jitter: d(0.0),
        scroll,
    }
}

const UNTYPE: Vanish = Vanish::Untype { ms: 300 };
const FADE: Vanish = Vanish::Fade { ms: 300 };

#[test]
fn outline_scales_with_the_font_unless_pinned() {
    let w = |points: i32| f(outline_width(font_points(points * 1024, false), None));
    assert!((w(72) - 72.0 / 14.0).abs() < 1e-9);
    assert!(w(24) < w(48));

    let pinned = outline_width(font_points(24 * 1024, false), Some(d(9.0)));
    assert_eq!(pinned, d(9.0));
    // An absolute size is in device units.
    assert_eq!(font_points(96 * 1024, true), d(72.0));
}

#[test]
fn outline_width_survives_a_font_with_no_size() {
    // A size-free font description must still produce a visible stroke.
    let w = f(outline_width(font_points(0, false), None));
    assert!(w > 0.0, "got {w}");
    assert_eq!(outline_width(d(1.0), None), d(0.5), "never thinner than half");
}

#[test]
fn negative_configured_width_is_clamped_not_passed_to_cairo() {
    let w = outline_width(font_points(20 * 1024, false), Some(d(-3.0)));
    assert_eq!(f(w), 0.0);
}

#[test]
fn untype_gets_a_caret_even_after_an_instant_reveal() {
    let v = Phase::Vanish { p: d(0.5) };
    assert!(show_caret(&Reveal::Instant, &UNTYPE, v, d(0.0)));
    // Instant reveal needs no caret before untyping.
    assert!(!show_caret(&Reveal::Instant, &UNTYPE, Phase::Hold, d(0.0)));
}

#[test]
fn other_vanishes_drop_the_caret() {
    let tw = typewriter(true, false);
    assert!(!show_caret(&tw, &FADE, Phase::Vanish { p: d(0.5) }, d(0.0)));
    assert!(!show_caret(&tw, &UNTYPE, Phase::Done, d(0.0)));
}

#[test]
fn cursor_false_disables_it_everywhere() {
    for phase in [
        Phase::Reveal { chars: 1 },
        Phase::Hold,
        Phase::Vanish { p: d(0.5) },
    ] {
        assert!(!show_caret(&typewriter(false, false), &UNTYPE, phase, d(0.0)));
    }
}

#[test]
fn hold_blinks_rather_than_staying_lit() {
    let tw = typewriter(true, false);
    assert!(show_caret(&tw, &FADE, Phase::Hold, d(0.0)));
    assert!(!show_caret(&tw, &FADE, Phase::Hold, d(600.0)));
    assert!(show_caret(&tw, &FADE, Phase::Hold, d(1100.0)));
    assert!(show_caret(&tw, &FADE, Phase::Reveal { chars: 0 }, d(600.0)));
}

#[test]
fn no_caret_means_no_caret_padding() {
    let style = Style {
        reveal: Reveal::Instant,
        ..Style::default()
    };
    let stroke = outline_width(d(72.0), None);
    let p = pad(&style, stroke, d(60.2));
    assert!(f(p.x) < 30.0, "instant reveal should not reserve caret room");
    let typed = pad(&Style::default(), stroke, d(60.2));
    assert_eq!(f(typed.x), f(p.x) + 61.0);
    assert_eq!(typed.y, p.y, "the caret adds nothing down");
}

#[test]
fn outline_none_switches_the_stroke_off() {
    let style = |o: Option<&str>| Style {
        outline: o.map(str::to_string),
        ..Style::default()
    };
    assert!(visible_outline(&style(Some("none"))).is_none());
    assert!(visible_outline(&style(None)).is_none());
    assert_eq!(visible_outline(&style(Some("#fff"))), Some("#fff"));
}

#[test]
fn padding_grows_with_the_glow_radius() {
    // Surface padding must contain the halo.
    let style = |glow| Style {
        reveal: Reveal::Instant,
        glow,
        ..Style::default()
    };
    let bare = pad(&style(None), d(5.0), d(0.0));
    let lit = pad(
        &style(Some(Glow {
            radius: d(20.0),
            ..Glow::default()
        })),
        d(5.0),
        d(0.0),
    );
    let reach = f(blur_passes(d(20.0)).1);
    assert!(
        f(lit.x) >= f(bare.x) + reach && f(lit.y) >= f(bare.y) + reach,
        "pad {lit:?} does not cover a {reach}px halo over {bare:?}"
    );
    assert_eq!(bare, Pad { x: d(13.0), y: d(13.0) });
}

#[test]
fn scanlines_do_not_change_the_surface_size() {
    // The raster is painted inside the padding, so unlike the glow it must
    // not widen it; a message would otherwise move away from its edge.
    let striped = Style {
        scanlines: Some(Scanlines::default()),
        ..Style::default()
    };
    assert_eq!(
        pad(&Style::default(), d(5.0), d(30.0)),
        pad(&striped, d(5.0), d(30.0))
    );
}

#[test]
fn a_zero_strength_raster_is_no_raster_at_all() {
    // How a preset takes back scanlines inherited from [style.default].
    let style = |strength| Style {
        scanlines: Some(Scanlines {
            strength: d(strength),
            ..Scanlines::default()
        }),
        ..Style::default()
    };
    assert!(visible_scanlines(&style(0.0)).is_none());
    assert!(visible_scanlines(&style(0.1)).is_some());
    assert!(visible_scanlines(&Style::default()).is_none());
}

#[test]
fn a_zero_radius_glow_is_no_glow_at_all() {
    // Zero radius disables inherited glow.
    let style = Style {
        glow: Some(Glow {
            radius: d(0.0),
            ..Glow::default()
        }),
        ..Style::default()
    };
    assert!(visible_glow(&style).is_none());
    assert_eq!(
        pad(&style, d(5.0), d(30.0)),
        pad(&Style::default(), d(5.0), d(30.0))
    );
}

#[test]
fn the_blur_promises_no_more_than_the_reach_asked_for() {
    for reach in [0.0, 1.0, 3.9, 4.0, 9.0, 24.0, 48.0, 128.0] {
        let (pass, actual) = blur_passes(d(reach));
        let want = ((reach - 1.0) / 3.0f64).floor().max(0.0);
        assert_eq!(pass, want as u64);
        assert!(f(actual) <= reach.max(0.0), "reach {reach}");
        assert_eq!(f(actual), if want < 1.0 { 0.0 } else { want * 3.0 + 1.0 });
    }
    assert_eq!(blur_passes(d(f64::NAN)), (0, d(0.0)));
}

#[test]
fn dissolve_blocks_are_stable_and_in_range() {
    // Block lifetimes must remain stable across frames.
    for (x, y) in [(0, 0), (3, 7), (41, 2)] {
        let a = block_life(x, y);
        assert_eq!(a, block_life(x, y));
        assert!((0.0..1.0).contains(&f(a)), "{} out of range", f(a));
        assert!(survives(x, y, d(0.0)));
        assert!(!survives(x, y, d(1.0)));
    }
    // Neighbouring blocks must have different lifetimes.
    assert_ne!(block_life(5, 5), block_life(6, 5));
    // The hash, computed plainly.
    let mut h = 3u32.wrapping_mul(73_856_093) ^ 7u32.wrapping_mul(19_349_663);
    h ^= h >> 13;
    h = h.wrapping_mul(0x5bd1_e995);
    h ^= h >> 15;
    assert_eq!(block_life(3, 7), d(f64::from(h % 10_000) / 10_000.0));
}

#[test]
fn only_a_scrolling_preset_moves_the_block() {
    assert!(
        !scrolls(&typewriter(true, false)),
        "a plain typewriter must fill the box downwards"
    );
    assert!(!scrolls(&Reveal::Instant));
    assert!(scrolls(&typewriter(true, true)));
    // The last line sits where it always did, earlier ones are pushed down.
    assert_eq!(scroll_offset(120, d(80.0), d(40.0)), d(0.0));
    assert_eq!(scroll_offset(120, d(0.0), d(40.0)), d(80.0));
    assert_eq!(scroll_offset(120, d(81.0), d(40.0)), d(0.0));
}

#[test]
fn only_anchored_axes_give_their_margin_away() {
    assert_eq!(text_budget(1920, HAlign::Center, 64, d(20.0)), 1880);
    assert_eq!(text_budget(1920, HAlign::Left, 64, d(20.0)), 1816);
    assert_eq!(text_budget(1920, HAlign::Right, 64, d(20.25)), 1816);
    assert_eq!(text_budget(10, HAlign::Left, 64, d(20.0)), 1);
    assert_eq!(text_budget(i32::MAX, HAlign::Left, i32::MIN, d(0.0)), i32::MAX);
}

#[test]
fn a_pinned_block_keeps_its_size() {
    let style = Style {
        width: Some(640),
        lines: Some(3),
        ..Style::default()
    };
    assert_eq!(block_size(&style, 200, 50, 40), (640, 120));
    assert_eq!(block_size(&Style::default(), 200, 50, 40), (200, 50));
    assert_eq!(wrap_width(Some(640), 1800), 640);
    assert_eq!(wrap_width(None, 1800), 1800);
    assert_eq!(content_size(200, d(20.25)), 240);
    assert_eq!(mask_size(200, d(20.25), d(2.0)), 481);
    assert_eq!(live_size(d(10.0), d(5.5), d(3.0), d(1.0), 100), 19);
    assert_eq!(live_size(d(10.0), d(5.5), d(3.0), d(2.0), 30), 30);
    assert_eq!(live_size(d(-10.0), d(5.5), d(3.0), d(2.0), 30), 1);
}

#[test]
fn the_caret_stands_before_the_next_character() {
    let text = "aä€𝄞";
    for (n, want) in [(0, 0), (1, 1), (2, 3), (3, 6), (4, 10), (9, 10)] {
        assert_eq!(byte_at(text, n), want);
    }
    assert_eq!(caret_x(2048, 512), d(2.0));
    // A right-to-left run reports a negative width with x at the right edge.
    assert_eq!(caret_x(2048, -512), d(1.5));
    assert_eq!(caret_width(d(30.0), d(80.0)), d(30.0));
    assert_eq!(caret_width(d(0.0), d(80.0)), d(40.0));
}

#[test]
fn the_visible_count_follows_the_phase() {
    let tl = |vanish: &Vanish| Timeline::new("abcd", &typewriter(true, false), 100, vanish, 1);
    for (phase, plain, untyped) in [
        (Phase::Reveal { chars: 2 }, 2, 2),
        (Phase::Hold, 4, 4),
        (Phase::Vanish { p: d(0.5) }, 4, 2),
        (Phase::Done, 4, 4),
    ] {
        assert_eq!(visible_chars(&tl(&FADE), phase), plain);
        assert_eq!(visible_chars(&tl(&UNTYPE), phase), untyped);
    }
    assert_eq!(vanish_share(Phase::Hold), Some(d(0.0)));
    assert_eq!(vanish_share(Phase::Vanish { p: d(0.25) }), Some(d(0.25)));
    assert_eq!(vanish_share(Phase::Done), None);
}

#[test]
fn effects_stand_where_their_share_puts_them() {
    let plain = effect(&Vanish::Instant, d(0.5));
    assert_eq!((f(plain.alpha), f(plain.whiten), f(plain.stretch)), (1.0, 0.0, 1.0));
    assert_eq!(effect(&FADE, d(0.0)), plain);
    assert_eq!(f(effect(&FADE, d(0.3)).alpha), 1.0 - 0.3);
    let c = effect(&Vanish::Collapse { ms: 1 }, d(0.9));
    assert_eq!(f(c.alpha), (1.0 - 0.9) / 0.15);
    assert_eq!(f(c.whiten), 0.9 * 0.8);
    assert_eq!(f(c.stretch), 1.0 + 0.06 * 0.9);
    assert_eq!(c.squash, Some(d(1.0 - 0.9)));
    assert_eq!(f(effect(&Vanish::Collapse { ms: 1 }, d(0.84)).alpha), 1.0);
    let wash = Vanish::Wash { ms: 1, dir: Dir::Up };
    assert!(effect(&wash, d(0.1)).masked);
    assert!(!effect(&wash, d(0.0)).masked);
    assert!(effect(&Vanish::Dissolve { ms: 1 }, d(0.1)).masked);
    assert!(!effect(&UNTYPE, d(0.1)).masked);
}

#[test]
fn a_wash_starts_off_the_text_and_ends_past_it() {
    let th = 100.0;
    let soft = 35.0;
    let (a, b) = wash_edge(d(th), d(0.0), Dir::Down);
    assert_eq!((f(a), f(b)), (-soft, 0.0));
    let (a, _) = wash_edge(d(th), d(1.0), Dir::Down);
    assert_eq!(f(a), th + soft);
    let (a, b) = wash_edge(d(th), d(0.0), Dir::Up);
    assert_eq!((f(a), f(b)), (th, th + soft));
    let (_, b) = wash_edge(d(th), d(1.0), Dir::Up);
    assert_eq!(f(b), -soft);
    let (a, b) = wash_edge(d(4.0), d(0.0), Dir::Down);
    assert_eq!(f(b) - f(a), 8.0, "never sharper than eight pixels");
}

#[test]
fn a_dissolve_covers_the_whole_mask() {
    let (block, cols, rows) = dissolve_grid(100, 50, d(90.0));
    assert_eq!((f(block), cols, rows), (10.0, 10, 5));
    assert_eq!(dissolve_grid(100, 50, d(9.0)), (d(6.0), 17, 9));
    assert_eq!(dissolve_grid(100, 50, d(9000.0)), (d(40.0), 3, 2));
}

#[test]
fn gaps_repeat_with_the_period_down_to_the_bottom() {
    let tops: Vec<f64> = gap_tops(10, d(2.5)).iter().map(|&y| f(y)).collect();
    assert_eq!(tops, [0.0, 2.5, 5.0, 7.5]);
    assert!(gap_tops(0, d(4.0)).is_empty());
    assert!(gap_tops(-3, d(4.0)).is_empty());
    assert_eq!(gap_tops(8, d(4.0)).len(), 2);
}

#[test]
fn a_frame_is_drawn_only_when_it_looks_different() {
    let reveal = typewriter(true, false);
    let tl = Timeline::new("ab", &reveal, 100, &FADE, 1);
    let mut frame = Frame::new();
    let first = frame.tick(1_000_000, &tl, &reveal, &FADE);
    assert!(first.first && first.redraw && !first.close);
    assert_eq!(frame.phase, Phase::Reveal { chars: 0 });
    // The clock starts with the first frame: a millisecond later nothing has
    // changed.
    let second = frame.tick(1_001_000, &tl, &reveal, &FADE);
    assert!(!second.first && !second.redraw && !second.close);
    let third = frame.tick(1_050_000, &tl, &reveal, &FADE);
    assert!(third.redraw);
    assert_eq!(frame.phase, Phase::Reveal { chars: 1 });
    let last = frame.tick(9_000_000, &tl, &reveal, &FADE);
    assert!(last.redraw && last.close);
    assert_eq!(frame.phase, Phase::Done);
}

#[test]
fn no_more_is_visible_than_there_is() {
    let reveal = typewriter(true, false);
    let tl = Timeline::new("abcdef", &reveal, 100, &UNTYPE, 1);
    for t in 0..900 {
        let phase = tl.phase_at(d(f64::from(t)));
        assert!(visible_chars(&tl, phase) <= 6, "at {t}");
    }
}

#[test]
fn masks_hold_the_ink_and_its_halo() {
    // On the first line only the typed part is live; below it, all of it.
    assert_eq!(live_width(d(10.0), d(5.5), d(0.0), d(3.0), d(1.0), 100), 19);
    assert_eq!(live_width(d(10.0), d(5.5), d(40.0), d(3.0), d(1.0), 100), 100);
    assert_eq!(blur_radius(3, d(1.5)), 5);
    assert_eq!(blur_radius(0, d(2.0)), 1);
    assert_eq!(halo_size(d(18.0), d(10.25)), 39);
    assert_eq!(mask_scale(480, 200, d(20.0)), Some(d(2.0)));
    assert_eq!(mask_scale(0, 200, d(20.0)), None);
    assert_eq!(mask_scale(480, 0, d(0.0)), None);
    assert_eq!(f(tinted(d(0.25), d(0.8))), 0.25 * (1.0 - 0.8) + 0.8);
    let (height, passed) = gap(&Scanlines::default());
    assert_eq!((f(height), f(passed)), (2.0, 1.0 - 0.35));
    assert_eq!(shrunk_width(None, 120), Some(120));
    assert_eq!(shrunk_width(None, 0), None);
    assert_eq!(shrunk_width(Some(640), 120), None);
}

#[test]
fn a_larger_glow_never_takes_less_padding() {
    let padding = |radius| {
        let style = Style {
            glow: Some(Glow {
                radius: d(radius),
                ..Glow::default()
            }),
            ..Style::default()
        };
        pad(&style, d(3.0), d(12.0))
    };
    let radii = [0.0, 5e-324, 0.4, 1.0, 7.9, 8.0, 8.1, 20.0, 127.5, 128.0, 1e300, f64::INFINITY];
    for pair in radii.windows(2) {
        let (a, b) = (padding(pair[0]), padding(pair[1]));
        assert!(f(a.x) <= f(b.x) && f(a.y) <= f(b.y), "{pair:?}: {a:?}, {b:?}");
    }
}
