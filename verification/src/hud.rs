//! What is drawn, frame by frame: which characters are visible, where the
//! effects stand, how large the surface is. Drawing itself is the caller's.
use crate::config::{Dir, Glow, HAlign, Reveal, Scanlines, Style, Vanish};
use crate::double::Double;
use crate::timeline::{Phase, Timeline};
use vstd::prelude::*;

verus! {

/// Units per point in font and layout sizes.
pub const PANGO_SCALE: i32 = 1024;

/// The bit patterns of 0.06, 0.8, 0.85, 0.15 and 0.35.
pub const BLOOM: u64 = 0x3fae_b851_eb85_1eb8;

pub const WHITEN: u64 = 0x3fe9_9999_9999_999a;

pub const BLINK_OUT: u64 = 0x3feb_3333_3333_3333;

pub const BLINK_SPAN: u64 = 0x3fc3_3333_3333_3333;

pub const SOFTNESS: u64 = 0x3fd6_6666_6666_6666;

/// The bit pattern of 0.5.
pub const HALF: u64 = 0x3fe0_0000_0000_0000;

/// The outline that is drawn. `none` disables an inherited one; TOML has no
/// null value.
pub open spec fn drawn_outline(outline: Option<Seq<char>>) -> Option<Seq<char>> {
    if outline == Some("none"@) {
        None
    } else {
        outline
    }
}

pub fn visible_outline(style: &Style) -> (r: Option<&str>)
    ensures
        crate::spec::text_of(r) == drawn_outline(style@.outline),
{
    match &style.outline {
        Some(c) => if crate::text::same(c.as_str(), "none") {
            None
        } else {
            Some(c.as_str())
        },
        None => None,
    }
}

/// The glow that is drawn. A radius of zero is no glow.
pub open spec fn drawn_glow(glow: Option<crate::config::GlowView>) -> Option<
    crate::config::GlowView,
> {
    match glow {
        Some(g) => if Double::whole(0).below(g.radius) {
            Some(g)
        } else {
            None
        },
        None => None,
    }
}

pub fn visible_glow(style: &Style) -> (r: Option<&Glow>)
    ensures
        match r {
            Some(g) => drawn_glow(style@.glow) == Some(g@),
            None => drawn_glow(style@.glow) is None,
        },
{
    match &style.glow {
        Some(g) => if Double::from_word(0).lt(g.radius) {
            Some(g)
        } else {
            None
        },
        None => None,
    }
}

/// The raster that is drawn. A strength of zero is no raster: it is how a
/// preset switches off one inherited from the base.
pub open spec fn drawn_scanlines(scanlines: Option<Scanlines>) -> Option<Scanlines> {
    match scanlines {
        Some(s) => if Double::whole(0).below(s.strength) {
            Some(s)
        } else {
            None
        },
        None => None,
    }
}

pub fn visible_scanlines(style: &Style) -> (r: Option<Scanlines>)
    ensures
        r == drawn_scanlines(style@.scanlines),
{
    match style.scanlines {
        Some(s) => if Double::from_word(0).lt(s.strength) {
            Some(s)
        } else {
            None
        },
        None => None,
    }
}

/// Whether typing scrolls earlier lines up from the bottom of the block.
pub fn scrolls(reveal: &Reveal) -> (r: bool)
    ensures
        r == (match *reveal {
            Reveal::Typewriter { scroll, .. } => scroll,
            Reveal::Instant => false,
        }),
        r <==> *reveal is Typewriter && reveal->scroll,
{
    match reveal {
        Reveal::Typewriter { scroll, .. } => *scroll,
        Reveal::Instant => false,
    }
}

/// Whether a typewriter draws its caret.
pub open spec fn has_cursor(reveal: Reveal) -> bool {
    match reveal {
        Reveal::Typewriter { cursor, .. } => cursor,
        Reveal::Instant => false,
    }
}

/// The per-pass radius and actual reach of the blur, from the requested reach.
/// Three passes have support through pixel 3p, so 3p + 1 pixels are reserved.
pub open spec fn blur_of(reach: Double) -> (int, Double) {
    let pass = reach.difference(Double::whole(1)).quotient(Double::whole(3)).lowered();
    if pass.nan() || pass.below(Double::whole(1)) {
        (0, Double::whole(0))
    } else {
        (pass.floor_word(), pass.product(Double::whole(3)).sum(Double::whole(1)))
    }
}

pub fn blur_passes(reach: Double) -> (r: (u64, Double))
    ensures
        (r.0 as int, r.1) == blur_of(reach),
{
    let pass: Double = reach.minus(Double::from_word(1)).over(Double::from_word(3)).floor();
    if pass.is_nan() || pass.lt(Double::from_word(1)) {
        return (0, Double::from_word(0));
    }
    (pass.to_word(), pass.times(Double::from_word(3)).plus(Double::from_word(1)))
}

/// Transparent padding in logical pixels, for each axis.
#[derive(Clone, Copy, Debug, PartialEq, Eq, Structural)]
pub struct Pad {
    pub x: Double,
    pub y: Double,
}

/// Padding for the stroke, the glow and the caret beyond the final character.
/// The glow's reach is kept free on both axes; the caret's width only across,
/// as its height fits in the line box.
pub open spec fn pad_of(
    outline_width: Double,
    glow: Option<Double>,
    cursor: bool,
    caret_width: Double,
) -> Pad {
    let stroke = outline_width.larger(Double::whole(0)).raised();
    let halo = match glow {
        Some(radius) => blur_of(radius).1.raised(),
        None => Double::whole(0),
    };
    let caret = if cursor {
        caret_width.raised()
    } else {
        Double::whole(0)
    };
    Pad {
        x: stroke.sum(halo).sum(caret).sum(Double::whole(8)),
        y: stroke.sum(halo).sum(Double::whole(8)),
    }
}

/// The padding of a style, for a stroke and a caret of the given widths.
pub fn pad(style: &Style, outline_width: Double, caret_width: Double) -> (p: Pad)
    ensures
        p == pad_of(
            outline_width,
            match drawn_glow(style@.glow) {
                Some(g) => Some(g.radius),
                None => None,
            },
            has_cursor(style@.reveal),
            caret_width,
        ),
{
    let stroke: Double = outline_width.max(Double::from_word(0)).ceil();
    let halo: Double = match visible_glow(style) {
        Some(g) => blur_passes(g.radius).1.ceil(),
        None => Double::from_word(0),
    };
    let cursor: bool = match style.reveal {
        Reveal::Typewriter { cursor, .. } => cursor,
        Reveal::Instant => false,
    };
    let caret: Double = if cursor {
        caret_width.ceil()
    } else {
        Double::from_word(0)
    };
    Pad {
        x: stroke.plus(halo).plus(caret).plus(Double::from_word(8)),
        y: stroke.plus(halo).plus(Double::from_word(8)),
    }
}

/// Font size in points, zero where the description carries none. An absolute
/// size is in device units rather than points.
pub open spec fn points_of(size: i32, absolute: bool) -> Double {
    let p = Double::integer(size as int).quotient(Double::integer(PANGO_SCALE as int));
    if size <= 0 {
        Double::whole(0)
    } else if absolute {
        p.product(Double::whole(72)).quotient(Double::whole(96))
    } else {
        p
    }
}

pub fn font_points(size: i32, absolute: bool) -> (p: Double)
    ensures
        p == points_of(size, absolute),
{
    if size <= 0 {
        return Double::from_word(0);
    }
    let p: Double = Double::from_int(size as i64).over(Double::from_int(PANGO_SCALE as i64));
    if absolute {
        p.times(Double::from_word(72)).over(Double::from_word(96))
    } else {
        p
    }
}

/// Stroke width in logical pixels: the configured one, else font size / 14 to
/// scale with the glyphs, with a fallback where the font has no size.
pub open spec fn stroke_of(points: Double, configured: Option<Double>) -> Double {
    match configured {
        Some(w) => w.larger(Double::whole(0)),
        None => if points.at_most(Double::whole(0)) {
            Double::whole(1)
        } else {
            points.quotient(Double::whole(14)).larger(Double { bits: HALF })
        },
    }
}

pub fn outline_width(points: Double, configured: Option<Double>) -> (w: Double)
    ensures
        w == stroke_of(points, configured),
{
    if let Some(w) = configured {
        return w.max(Double::from_word(0));
    }
    if points.le(Double::from_word(0)) {
        Double::from_word(1)
    } else {
        points.over(Double::from_word(14)).max(Double { bits: HALF })
    }
}

/// The caret's width.
pub open spec fn caret_wide(advance: Double, line: Double) -> Double {
    if Double::whole(0).below(advance) {
        advance
    } else {
        line.product(Double { bits: HALF })
    }
}

/// The caret's width: the advance of a wide glyph, or half the line where it
/// has none.
pub fn caret_width(advance: Double, line: Double) -> (w: Double)
    ensures
        w == caret_wide(advance, line),
        w == if Double::whole(0).below(advance) {
            advance
        } else {
            line.product(Double { bits: HALF })
        },
{
    if Double::from_word(0).lt(advance) {
        advance
    } else {
        line.times(Double { bits: HALF })
    }
}

/// How wide the text may be on a monitor, in logical pixels. Only an anchored
/// axis gives its margin away.
pub open spec fn budget_of(monitor: i32, halign: HAlign, margin: i32, pad_x: Double) -> int {
    let room = monitor - (if halign == HAlign::Center {
        0
    } else {
        margin as int
    }) - pad_x.product(Double::whole(2)).trunc_int();
    if room < 1 {
        1
    } else {
        Double::held(room)
    }
}

pub fn text_budget(monitor: i32, halign: HAlign, margin: i32, pad_x: Double) -> (w: i32)
    ensures
        w == budget_of(monitor, halign, margin, pad_x),
        w >= 1,
{
    let margin: i64 = if halign == HAlign::Center {
        0
    } else {
        margin as i64
    };
    let room: i64 = monitor as i64 - margin - pad_x.times(Double::from_word(2)).to_i32() as i64;
    if room < 1 {
        1
    } else if room > 0x7fff_ffff {
        i32::MAX
    } else {
        room as i32
    }
}

/// The width the text wraps to: the pinned one, or what the monitor allows.
pub fn wrap_width(width: Option<i32>, budget: i32) -> (w: i32)
    ensures
        w == match width {
            Some(p) => p,
            None => budget,
        },
        width is Some ==> width == Some(w),
        width is None ==> w == budget,
{
    match width {
        Some(p) => p,
        None => budget,
    }
}

/// The block's own size.
pub open spec fn block_of(
    width: Option<i32>,
    lines: Option<usize>,
    text_w: i32,
    text_h: i32,
    line_h: i32,
) -> (int, int) {
    (
        match width {
            Some(w) => w as int,
            None => text_w as int,
        },
        match lines {
            Some(n) => Double::held(n * line_h),
            None => text_h as int,
        },
    )
}

/// The block's own size in logical pixels, without padding: the pinned width
/// or the measured one, and the reserved lines or the measured height.
pub fn block_size(style: &Style, text_w: i32, text_h: i32, line_h: i32) -> (r: (i32, i32))
    ensures
        (r.0 as int, r.1 as int) == block_of(style@.width, style@.lines, text_w, text_h, line_h),
        r.0 == match style@.width {
            Some(w) => w,
            None => text_w,
        },
        r.1 == match style@.lines {
            Some(n) => Double::held(n * line_h),
            None => text_h as int,
        },
{
    let w: i32 = match style.width {
        Some(w) => w,
        None => text_w,
    };
    let h: i32 = match style.lines {
        Some(n) => {
            proof {
                assert(n * line_h <= 0xffff_ffff_ffff_ffff * 0x7fff_ffff) by (nonlinear_arith)
                    requires
                        0 <= n <= 0xffff_ffff_ffff_ffff,
                        line_h <= 0x7fff_ffff,
                ;
                assert(n * line_h >= 0xffff_ffff_ffff_ffff * -0x8000_0000) by (nonlinear_arith)
                    requires
                        0 <= n <= 0xffff_ffff_ffff_ffff,
                        line_h >= -0x8000_0000,
                ;
            }
            let h: i128 = n as i128 * line_h as i128;
            if h > 0x7fff_ffff {
                i32::MAX
            } else if h < -0x8000_0000 {
                i32::MIN
            } else {
                h as i32
            }
        },
        None => text_h,
    };
    (w, h)
}

/// The surface's size along one axis.
pub open spec fn content_of(block: i32, pad: Double) -> int {
    Double::held(block + pad.product(Double::whole(2)).trunc_int())
}

/// The surface's size along one axis: the block and the padding around it.
pub fn content_size(block: i32, pad: Double) -> (n: i32)
    ensures
        n == content_of(block, pad),
        n == Double::held(block + pad.product(Double::whole(2)).trunc_int()),
{
    let n: i64 = block as i64 + pad.times(Double::from_word(2)).to_i32() as i64;
    if n > 0x7fff_ffff {
        i32::MAX
    } else if n < -0x8000_0000 {
        i32::MIN
    } else {
        n as i32
    }
}

/// The size of a mask along one axis, in device pixels.
pub open spec fn mask_of(text: i32, pad: Double, scale: Double) -> int {
    Double::integer(text as int).sum(pad.product(Double::whole(2))).product(scale).ceil_int()
}

pub fn mask_size(text: i32, pad: Double, scale: Double) -> (n: i32)
    ensures
        n == mask_of(text, pad, scale),
{
    Double::from_int(text as i64).plus(pad.times(Double::from_word(2))).times(scale).to_i32_up()
}

/// The part of a mask that holds ink and its halo, up to a position.
pub open spec fn live_of(pad: Double, at: Double, reach: Double, scale: Double, full: i32) -> int {
    let n = pad.sum(at).sum(reach).product(scale).ceil_int();
    if n < 1 {
        1
    } else if n > full {
        full as int
    } else {
        n
    }
}

pub fn live_size(pad: Double, at: Double, reach: Double, scale: Double, full: i32) -> (n: i32)
    requires
        full >= 1,
    ensures
        n == live_of(pad, at, reach, scale, full),
        1 <= n <= full,
{
    let n: i32 = pad.plus(at).plus(reach).times(scale).to_i32_up();
    if n < 1 {
        1
    } else if n > full {
        full
    } else {
        n
    }
}

/// The part of a mask that holds ink and its halo across, for a caret at a
/// position. Completed lines use the full width, even when the current line is
/// shorter.
pub fn live_width(
    pad: Double,
    caret: Double,
    line_top: Double,
    reach: Double,
    scale: Double,
    full: i32,
) -> (n: i32)
    requires
        full >= 1,
    ensures
        n == if Double::whole(0).below(line_top) {
            full as int
        } else {
            live_of(pad, caret, reach, scale, full)
        },
        1 <= n <= full,
{
    if Double::from_word(0).lt(line_top) {
        full
    } else {
        live_size(pad, caret, reach, scale, full)
    }
}

/// The radius of one pass of the blur in device pixels.
pub open spec fn radius_of(pass: u64, scale: Double) -> int {
    let n = Double::whole(pass as nat).product(scale).round_word();
    if n < 1 {
        1
    } else {
        n
    }
}

/// The radius of one pass of the blur in device pixels, one at the least.
pub fn blur_radius(pass: u64, scale: Double) -> (r: u64)
    ensures
        r == radius_of(pass, scale),
        r == ({
            let n = Double::whole(pass as nat).product(scale).round_word();
            if n < 1 {
                1
            } else {
                n
            }
        }),
{
    let n: u64 = Double::from_word(pass).times(scale).to_word_nearest();
    if n < 1 {
        1
    } else {
        n
    }
}

/// The size along one axis of a caret with the halo around it.
pub open spec fn halo_of(size: Double, reach: Double) -> int {
    size.sum(reach.product(Double::whole(2))).ceil_int()
}

/// The size along one axis of a caret with the halo around it.
pub fn halo_size(size: Double, reach: Double) -> (n: i32)
    ensures
        n == halo_of(size, reach),
        n == size.sum(reach.product(Double::whole(2))).ceil_int(),
{
    size.plus(reach.times(Double::from_word(2))).to_i32_up()
}

/// How many mask pixels there are to a logical one.
pub open spec fn scale_between(mask: i32, text: i32, pad: Double) -> Double {
    Double::integer(mask as int).quotient(
        Double::integer(text as int).sum(pad.product(Double::whole(2))),
    )
}

/// How many mask pixels there are to a logical one; `None` where there is
/// nothing to scale to.
pub fn mask_scale(mask: i32, text: i32, pad: Double) -> (r: Option<Double>)
    ensures
        match r {
            Some(s) => s == scale_between(mask, text, pad) && s.finite() && s.value() > 0,
            None => {
                let s = scale_between(mask, text, pad);
                s.nan() || s.infinite() || s.value() <= 0
            },
        },
        r == ({
            let s = Double::integer(mask as int).quotient(
                Double::integer(text as int).sum(pad.product(Double::whole(2))),
            );
            if s.finite() && Double::whole(0).below(s) {
                Some(s)
            } else {
                None
            }
        }),
{
    let s: Double = Double::from_int(mask as i64).over(
        Double::from_int(text as i64).plus(pad.times(Double::from_word(2))),
    );
    proof {
        crate::order::lemma_whole(0);
    }
    if s.is_finite() && Double::from_word(0).lt(s) {
        Some(s)
    } else {
        None
    }
}

/// A colour channel, washed towards white.
pub open spec fn tint_of(channel: Double, whiten: Double) -> Double {
    channel.product(Double::whole(1).difference(whiten)).sum(whiten)
}

/// A colour channel, washed towards white.
pub fn tinted(channel: Double, whiten: Double) -> (v: Double)
    ensures
        v == tint_of(channel, whiten),
        v == channel.product(Double::whole(1).difference(whiten)).sum(whiten),
{
    channel.times(Double::from_word(1).minus(whiten)).plus(whiten)
}

/// The height of a raster's gap, and how much of what is under it passes.
pub open spec fn gap_of(scanlines: Scanlines) -> (Double, Double) {
    (scanlines.period.product(scanlines.duty), Double::whole(1).difference(scanlines.strength))
}

/// The height of a raster's gap, and how much of what is under it passes.
pub fn gap(scanlines: &Scanlines) -> (r: (Double, Double))
    ensures
        r == gap_of(*scanlines),
        r == (
            scanlines.period.product(scanlines.duty),
            Double::whole(1).difference(scanlines.strength),
        ),
{
    (scanlines.period.times(scanlines.duty), Double::from_word(1).minus(scanlines.strength))
}

/// The width that a layout shrinks to: that of its text, so that lines are
/// aligned within the surface. A pinned width is kept.
pub fn shrunk_width(pinned: Option<i32>, text: i32) -> (w: Option<i32>)
    ensures
        w == if pinned is None && text > 0 {
            Some(text)
        } else {
            None
        },
        w is Some <==> pinned is None && text >= 1,
        w is Some ==> w == Some(text),
{
    if pinned.is_none() && text > 0 {
        Some(text)
    } else {
        None
    }
}

/// How far the text is moved down for its current line to be the last.
pub open spec fn scroll_of(text_h: i32, caret_y: Double, caret_h: Double) -> Double {
    Double::integer(text_h as int).difference(caret_y.sum(caret_h)).larger(Double::whole(0))
}

/// Vertical offset that places the current line at the bottom of the fixed
/// text block. Rounding errors are clamped so the final line has none.
pub fn scroll_offset(text_h: i32, caret_y: Double, caret_h: Double) -> (dy: Double)
    ensures
        dy == scroll_of(text_h, caret_y, caret_h),
        dy == Double::integer(text_h as int).difference(caret_y.sum(caret_h)).larger(
            Double::whole(0),
        ),
{
    Double::from_int(text_h as i64).minus(caret_y.plus(caret_h)).max(Double::from_word(0))
}

/// The left edge of a caret's box.
pub open spec fn caret_at(x: i32, width: i32) -> Double {
    Double::integer(x as int).sum(
        Double::integer(
            if width < 0 {
                width as int
            } else {
                0
            },
        ),
    ).quotient(Double::integer(PANGO_SCALE as int))
}

/// Where a caret stands across, from the box the layout reports. A
/// right-to-left run reports a negative width with x at the right edge.
pub fn caret_x(x: i32, width: i32) -> (at: Double)
    ensures
        at == caret_at(x, width),
        at == Double::integer(x as int).sum(
            Double::integer(
                if width < 0 {
                    width as int
                } else {
                    0
                },
            ),
        ).quotient(Double::integer(PANGO_SCALE as int)),
{
    let back: i64 = if width < 0 {
        width as i64
    } else {
        0
    };
    Double::from_int(x as i64).plus(Double::from_int(back)).over(
        Double::from_int(PANGO_SCALE as i64),
    )
}

/// How many bytes the first characters of a text take.
pub open spec fn byte_offset(text: Seq<char>, n: nat) -> nat {
    vstd::utf8::encode_utf8(
        text.take(
            if n < text.len() {
                n as int
            } else {
                text.len() as int
            },
        ),
    ).len()
}

/// Where the character after the visible ones starts, in bytes.
pub fn byte_at(text: &str, visible: usize) -> (b: usize)
    ensures
        b == byte_offset(text@, visible as nat),
{
    let cs: Vec<char> = crate::text::chars_of(text);
    let n: usize = if visible < cs.len() {
        visible
    } else {
        cs.len()
    };
    let mut head: String = String::new();
    let mut i: usize = 0;
    while i < n
        invariant
            i <= n <= cs@.len(),
            cs@ == text@,
            head@ == text@.take(i as int),
        decreases n - i,
    {
        head.push(cs[i]);
        i = i + 1;
        assert(head@ =~= text@.take(i as int));
    }
    head.as_str().as_bytes().len()
}

/// Visible count shared by the glyph drawing and the glow mask.
pub open spec fn visible_of(tl: crate::timeline::TimelineView, phase: Phase) -> int {
    match phase {
        Phase::Reveal { chars } => chars as int,
        Phase::Hold => tl.chars as int,
        Phase::Vanish { p } => if tl.untype {
            tl.left(p)
        } else {
            tl.chars as int
        },
        Phase::Done => tl.chars as int,
    }
}

pub fn visible_chars(timeline: &Timeline, phase: Phase) -> (n: usize)
    ensures
        n == visible_of(timeline@, phase),
{
    match phase {
        Phase::Reveal { chars } => chars,
        Phase::Hold => timeline.chars(),
        Phase::Vanish { p } => if timeline.untypes() {
            timeline.untype_visible(p)
        } else {
            timeline.chars()
        },
        Phase::Done => timeline.chars(),
    }
}

/// Whether the caret is drawn. An explicit `cursor = false` wins everywhere;
/// during the hold it blinks; an untype has one even after an instant reveal.
pub open spec fn caret_on(reveal: Reveal, vanish: Vanish, phase: Phase, t_ms: Double) -> bool {
    match reveal {
        Reveal::Typewriter { cursor, .. } => cursor && match phase {
            Phase::Reveal { .. } => true,
            Phase::Hold => t_ms.quotient(Double::whole(530)).floor_word() % 2 == 0,
            Phase::Vanish { .. } => vanish is Untype,
            Phase::Done => false,
        },
        Reveal::Instant => phase is Vanish && vanish is Untype,
    }
}

pub fn show_caret(reveal: &Reveal, vanish: &Vanish, phase: Phase, t_ms: Double) -> (r: bool)
    ensures
        r == caret_on(*reveal, *vanish, phase, t_ms),
{
    let typing: bool = match reveal {
        Reveal::Typewriter { cursor, .. } => {
            if !*cursor {
                return false;
            }
            true
        },
        Reveal::Instant => false,
    };
    match phase {
        Phase::Reveal { .. } => typing,
        Phase::Hold => typing && t_ms.over(Double::from_word(530)).to_word() % 2 == 0,
        Phase::Vanish { .. } => vanish.is_untype(),
        Phase::Done => false,
    }
}

/// A hash of a block's position.
pub open spec fn block_hash(bx: i32, by: i32) -> u32 {
    let a = (bx as u32).wrapping_mul(73_856_093) ^ (by as u32).wrapping_mul(19_349_663);
    let b = a ^ (a >> 13);
    let c = b.wrapping_mul(0x5bd1_e995);
    c ^ (c >> 15)
}

/// How long a block lasts while the text dissolves, from 0 up to 1: fixed for
/// each position.
pub open spec fn life_of(bx: i32, by: i32) -> Double {
    Double::whole((block_hash(bx, by) % 10_000) as nat).quotient(Double::whole(10_000))
}

/// Deterministic 0.0..1.0 per block position.
pub fn block_life(bx: i32, by: i32) -> (life: Double)
    ensures
        life == life_of(bx, by),
{
    let a: u32 = (bx as u32).wrapping_mul(73_856_093) ^ (by as u32).wrapping_mul(19_349_663);
    let b: u32 = a ^ (a >> 13);
    let c: u32 = b.wrapping_mul(0x5bd1_e995);
    let h: u32 = c ^ (c >> 15);
    Double::from_word((h % 10_000) as u64).over(Double::from_word(10_000))
}

/// Every block lasts at least to the start, and none to the end.
pub proof fn lemma_block_life(bx: i32, by: i32)
    ensures
        !life_of(bx, by).nan(),
        0 <= life_of(bx, by).value() < crate::double::one(),
{
    let n = (block_hash(bx, by) % 10_000) as nat;
    let w = crate::double::one();
    crate::rounding::lemma_two_to_pos(1074);
    crate::order::lemma_whole(n);
    crate::order::lemma_whole(10_000);
    crate::order::lemma_whole(1);
    let a = Double::whole(n);
    let b = Double::whole(10_000);
    let one = Double::whole(1);
    crate::order::lemma_zero(b);
    assert(10_000 * w > 0) by (nonlinear_arith)
        requires
            w > 0,
    ;
    assert(n * w >= 0) by (nonlinear_arith);
    // One step below 1.0 is already above every share of ten thousand.
    let m = (one.magnitude() - 1) as nat;
    lemma_below_one(m, one.magnitude());
    assert((n * w) * w <= crate::rounding::units(m) * (10_000 * w)) by (nonlinear_arith)
        requires
            n <= 9_999,
            10_000 * crate::rounding::units(m) >= 9_999 * w,
            w > 0,
    ;
    crate::order::lemma_quotient_bound(a, b, m);
    crate::rounding::lemma_units_mono(m, one.magnitude());
}

proof fn lemma_below_one(m: nat, one: nat)
    requires
        crate::rounding::units(one) == crate::double::one(),
        m + 1 == one,
        one <= crate::rounding::INF,
    ensures
        10_000 * crate::rounding::units(m) >= 9_999 * crate::double::one(),
        crate::rounding::units(m) < crate::double::one(),
{
    let w = crate::double::one();
    let k = crate::rounding::exponent(m);
    let n = crate::rounding::significand(m);
    let p = crate::rounding::two_to(k);
    crate::rounding::lemma_units_step(m);
    crate::rounding::lemma_parts(m);
    crate::rounding::lemma_two_to_pos(k);
    crate::rounding::lemma_two_to_values();
    crate::rounding::lemma_two_to_pos(1074);
    assert(n >= 10_000) by {
        if n < 10_000 {
            // Then the exponent is zero and the worth far below 1.0.
            assert(k == 0);
            assert(n * 1 == n);
            crate::rounding::lemma_two_to_mono(64, 1074);
        }
    }
    assert(10_000 * (n * p) >= 9_999 * (n * p + p)) by (nonlinear_arith)
        requires
            n >= 10_000,
            p > 0,
    ;
}

/// Whether a block is still there when a share of the dissolve has passed.
pub open spec fn stands(bx: i32, by: i32, p: Double) -> bool {
    p.at_most(life_of(bx, by))
}

/// Whether a block is still there when a share of the dissolve has passed.
pub fn survives(bx: i32, by: i32, p: Double) -> (r: bool)
    ensures
        r == p.at_most(life_of(bx, by)),
        r == stands(bx, by, p),
{
    p.le(block_life(bx, by))
}

/// The size of the blocks, and how many there are across and down, for a mask
/// of the given size over text of the given height.
pub open spec fn grid_of(w: i32, h: i32, text_h: Double) -> (Double, int, int) {
    let ninth = text_h.quotient(Double::whole(9));
    let block = if ninth.below(Double::whole(6)) {
        Double::whole(6)
    } else if Double::whole(40).below(ninth) {
        Double::whole(40)
    } else {
        ninth
    };
    (
        block,
        Double::integer(w as int).quotient(block).ceil_int(),
        Double::integer(h as int).quotient(block).ceil_int(),
    )
}

pub fn dissolve_grid(w: i32, h: i32, text_h: Double) -> (r: (Double, i32, i32))
    ensures
        (r.0, r.1 as int, r.2 as int) == grid_of(w, h, text_h),
{
    let ninth: Double = text_h.over(Double::from_word(9));
    let block: Double = if ninth.lt(Double::from_word(6)) {
        Double::from_word(6)
    } else if Double::from_word(40).lt(ninth) {
        Double::from_word(40)
    } else {
        ninth
    };
    let cols: i32 = Double::from_int(w as i64).over(block).to_i32_up();
    let rows: i32 = Double::from_int(h as i64).over(block).to_i32_up();
    (block, cols, rows)
}

/// The soft edge of a wash, top and bottom. It starts fully off the text and
/// ends fully past it.
pub open spec fn edge_of(text_h: Double, p: Double, dir: Dir) -> (Double, Double) {
    let soft = text_h.product(Double { bits: SOFTNESS }).larger(Double::whole(8));
    let span = text_h.sum(soft.product(Double::whole(2)));
    match dir {
        Dir::Down => {
            let front = negated(soft).sum(p.product(span));
            (front, front.sum(soft))
        },
        Dir::Up => {
            let front = text_h.sum(soft).difference(p.product(span));
            (front.difference(soft), front)
        },
    }
}

/// A number with the other sign; what is not a number stays so.
pub open spec fn negated(d: Double) -> Double {
    if d.nan() {
        d
    } else {
        d.negation()
    }
}

pub fn wash_edge(text_h: Double, p: Double, dir: Dir) -> (r: (Double, Double))
    ensures
        r == edge_of(text_h, p, dir),
{
    let soft: Double = text_h.times(Double { bits: SOFTNESS }).max(Double::from_word(8));
    let span: Double = text_h.plus(soft.times(Double::from_word(2)));
    match dir {
        Dir::Down => {
            let back: Double = if soft.is_nan() {
                soft
            } else {
                soft.neg()
            };
            let front: Double = back.plus(p.times(span));
            (front, front.plus(soft))
        },
        Dir::Up => {
            let front: Double = text_h.plus(soft).minus(p.times(span));
            (front.minus(soft), front)
        },
    }
}

/// What a vanish does to a whole frame. `squash` is the share of the height
/// that is left before it is shaped, for the one effect that changes it.
#[derive(Clone, Copy, Debug, PartialEq, Eq, Structural)]
pub struct Effect {
    pub alpha: Double,
    pub whiten: Double,
    pub stretch: Double,
    pub squash: Option<Double>,
    /// Whether the picture is grouped and masked after it is painted.
    pub masked: bool,
}

/// What an effect does when a share of it has passed. CRT power-off: squash
/// toward the middle line, bloom slightly wider, wash to white, then blink out
/// over the last 15%.
pub open spec fn effect_of(vanish: Vanish, p: Double) -> Effect {
    let plain = Effect {
        alpha: Double::whole(1),
        whiten: Double::whole(0),
        stretch: Double::whole(1),
        squash: None,
        masked: false,
    };
    let left = Double::whole(1).difference(p);
    if !Double::whole(0).below(p) {
        plain
    } else {
        match vanish {
            Vanish::Instant => plain,
            Vanish::Untype { .. } => plain,
            Vanish::Fade { .. } => Effect { alpha: left, ..plain },
            Vanish::Collapse { .. } => Effect {
                alpha: if p.below(Double { bits: BLINK_OUT }) {
                    Double::whole(1)
                } else {
                    left.quotient(Double { bits: BLINK_SPAN })
                },
                whiten: p.product(Double { bits: WHITEN }),
                stretch: Double::whole(1).sum((Double { bits: BLOOM }).product(p)),
                squash: Some(left),
                masked: false,
            },
            Vanish::Wash { .. } => Effect { masked: true, ..plain },
            Vanish::Dissolve { .. } => Effect { masked: true, ..plain },
        }
    }
}

pub fn effect(vanish: &Vanish, p: Double) -> (e: Effect)
    ensures
        e == effect_of(*vanish, p),
{
    let one: Double = Double::from_word(1);
    let zero: Double = Double::from_word(0);
    let plain: Effect = Effect { alpha: one, whiten: zero, stretch: one, squash: None, masked: false };
    if !zero.lt(p) {
        return plain;
    }
    let left: Double = one.minus(p);
    match vanish {
        Vanish::Instant => plain,
        Vanish::Untype { .. } => plain,
        Vanish::Fade { .. } => Effect { alpha: left, ..plain },
        Vanish::Collapse { .. } => {
            let alpha: Double = if p.lt(Double { bits: BLINK_OUT }) {
                one
            } else {
                left.over(Double { bits: BLINK_SPAN })
            };
            Effect {
                alpha,
                whiten: p.times(Double { bits: WHITEN }),
                stretch: one.plus((Double { bits: BLOOM }).times(p)),
                squash: Some(left),
                masked: false,
            }
        },
        Vanish::Wash { .. } => Effect { masked: true, ..plain },
        Vanish::Dissolve { .. } => Effect { masked: true, ..plain },
    }
}

/// The share of the vanish that has passed in a phase.
pub fn vanish_share(phase: Phase) -> (p: Option<Double>)
    ensures
        p == match phase {
            Phase::Reveal { .. } => Some(Double::whole(0)),
            Phase::Hold => Some(Double::whole(0)),
            Phase::Vanish { p } => Some(p),
            Phase::Done => None,
        },
        p is None <==> phase is Done,
        phase is Vanish ==> p == Some(phase->p),
        phase is Reveal || phase is Hold ==> p is Some && p->0.value() == 0,
{
    proof {
        crate::order::lemma_whole(0);
    }
    match phase {
        Phase::Reveal { .. } => Some(Double::from_word(0)),
        Phase::Hold => Some(Double::from_word(0)),
        Phase::Vanish { p } => Some(p),
        Phase::Done => None,
    }
}

/// The tops of a raster's gaps over a height: every period from the top.
pub open spec fn gap_top(period: Double, k: nat) -> Double
    decreases k,
{
    if k == 0 {
        Double::whole(0)
    } else {
        gap_top(period, (k - 1) as nat).sum(period)
    }
}

/// A gap lies at least as many pixels down as there are gaps above it.
proof fn lemma_gap_top(period: Double, k: nat)
    requires
        Double::whole(2).at_most(period),
        period.finite(),
        k < 0x8000_0000,
    ensures
        !gap_top(period, k).nan(),
        gap_top(period, k).value() >= k * crate::double::one(),
        gap_top(period, k).infinite() || gap_top(period, k).finite(),
    decreases k,
{
    let w = crate::double::one();
    crate::rounding::lemma_two_to_pos(1074);
    crate::order::lemma_whole(0);
    crate::order::lemma_whole(2);
    crate::order::lemma_whole(k);
    assert(2 * w >= 0);
    if k > 0 {
        let y = gap_top(period, (k - 1) as nat);
        lemma_gap_top(period, (k - 1) as nat);
        assert((k - 1) * w + w == k * w) by (nonlinear_arith);
        assert((k - 1) * w >= 0) by (nonlinear_arith)
            requires
                k >= 1,
        ;
        if y.finite() {
            crate::order::lemma_sum(y, period);
            crate::order::lemma_rounded_exact(Double::whole(k));
            crate::order::lemma_rounded_mono(k * w as int, y.value() + period.value());
        } else {
            crate::order::lemma_value_bound(Double::whole(k));
            crate::rounding::lemma_units_mono(0, crate::rounding::INF as nat);
            crate::order::lemma_zero(Double::whole(0));
            assert(!y.negative());
        }
    } else {
        assert(0 * w == 0);
    }
}

/// The tops of a raster's gaps over a height, in device pixels.
pub fn gap_tops(h: i32, period: Double) -> (tops: Vec<Double>)
    requires
        Double::whole(2).at_most(period),
        period.finite(),
    ensures
        forall|k: int|
            0 <= k < tops@.len() ==> #[trigger] tops@[k] == gap_top(period, k as nat)
                && tops@[k].below(Double::integer(h as int)),
        !gap_top(period, tops@.len()).below(Double::integer(h as int)),
{
    let end: Double = Double::from_int(h as i64);
    let mut tops: Vec<Double> = Vec::new();
    let mut y: Double = Double::from_word(0);
    let ghost mut k: nat = 0;
    while y.lt(end)
        invariant
            Double::whole(2).at_most(period),
            period.finite(),
            end == Double::integer(h as int),
            k == tops@.len(),
            y == gap_top(period, k),
            k <= h || k == 0,
            forall|k: int|
                0 <= k < tops@.len() ==> #[trigger] tops@[k] == gap_top(period, k as nat)
                    && tops@[k].below(Double::integer(h as int)),
        decreases h - k,
    {
        proof {
            lemma_gap_top(period, k);
            lemma_height(h);
            let w = crate::double::one() as int;
            crate::rounding::lemma_two_to_pos(1074);
            assert(k < h) by (nonlinear_arith)
                requires
                    k * w <= y.value(),
                    y.value() < h * w,
                    w > 0,
            ;
        }
        tops.push(y);
        y = y.plus(period);
        proof {
            k = k + 1;
        }
    }
    tops
}

pub proof fn lemma_height(h: i32)
    ensures
        Double::integer(h as int).value() == h * crate::double::one(),
        !Double::integer(h as int).nan(),
{
    let w = crate::double::one();
    let n = crate::double::size(h as int);
    crate::order::lemma_whole(n);
    crate::order::lemma_of(h < 0, crate::rounding::nearest(n * w, 1));
    crate::order::lemma_of(false, crate::rounding::nearest(n * w, 1));
    assert(h < 0 ==> -(n * w) == h * w) by (nonlinear_arith)
        requires
            h < 0 ==> n == -h,
    ;
}

/// What a window remembers between frames.
#[derive(Clone, Copy, Debug, PartialEq, Eq, Structural)]
pub struct Frame {
    /// The first frame's time, in microseconds.
    pub t0: Option<i64>,
    pub phase: Phase,
    pub blink: bool,
}

/// What a frame asks for.
#[derive(Clone, Copy, Debug, PartialEq, Eq, Structural)]
pub struct Tick {
    /// Whether this is the first frame, at which the audio starts.
    pub first: bool,
    pub redraw: bool,
    pub close: bool,
}

/// Two phases that look the same.
pub open spec fn same_phase(a: Phase, b: Phase) -> bool {
    match (a, b) {
        (Phase::Vanish { p }, Phase::Vanish { p: q }) => p.at_most(q) && q.at_most(p),
        _ => a == b,
    }
}

fn looks_same(a: &Phase, b: &Phase) -> (r: bool)
    ensures
        r == same_phase(*a, *b),
{
    match (a, b) {
        (Phase::Vanish { p }, Phase::Vanish { p: q }) => p.le(*q) && q.le(*p),
        _ => *a == *b,
    }
}

/// Milliseconds between two times in microseconds.
pub open spec fn elapsed_ms(t0: i64, now: i64) -> Double {
    let us = if now - t0 > i64::MAX {
        i64::MAX as int
    } else if now - t0 < i64::MIN {
        i64::MIN as int
    } else {
        now - t0
    };
    Double::integer(us).quotient(Double::whole(1000))
}

/// The frame after a frame, and what it asks for.
pub open spec fn ticked(
    frame: Frame,
    now: i64,
    tl: crate::timeline::TimelineView,
    reveal: Reveal,
    vanish: Vanish,
) -> (Frame, Tick) {
    let t0 = match frame.t0 {
        Some(t) => t,
        None => now,
    };
    let t_ms = elapsed_ms(t0, now);
    let phase = tl.phase(t_ms);
    let blink = caret_on(reveal, vanish, phase, t_ms);
    (
        Frame { t0: Some(t0), phase, blink },
        Tick {
            first: frame.t0 is None,
            redraw: !same_phase(phase, frame.phase) || blink != frame.blink,
            close: phase is Done,
        },
    )
}

impl Frame {
    /// Before the first frame.
    pub fn new() -> (f: Frame)
        ensures
            f.t0 is None,
            f.phase == (Phase::Reveal { chars: 0 }),
            !f.blink,
    {
        Frame { t0: None, phase: Phase::Reveal { chars: 0 }, blink: false }
    }

    /// Move to the frame at a time. The clock starts with the first frame; a
    /// frame that looks like the last one is not drawn again; when the message
    /// is done its window closes.
    pub fn tick(&mut self, now: i64, timeline: &Timeline, reveal: &Reveal, vanish: &Vanish) -> (r:
        Tick)
        ensures
            (*final(self), r) == ticked(*old(self), now, timeline@, *reveal, *vanish),
            ({
                let t0 = match old(self).t0 {
                    Some(t) => t,
                    None => now,
                };
                let t_ms = elapsed_ms(t0, now);
                let phase = timeline@.phase(t_ms);
                let blink = caret_on(*reveal, *vanish, phase, t_ms);
                &&& *final(self) == (Frame { t0: Some(t0), phase, blink })
                &&& r.first == (old(self).t0 is None)
                &&& r.redraw == (!same_phase(phase, old(self).phase) || blink != old(self).blink)
                &&& r.close == (phase is Done)
            }),
    {
        let first: bool = self.t0.is_none();
        let t0: i64 = match self.t0 {
            Some(t) => t,
            None => now,
        };
        let us: i128 = now as i128 - t0 as i128;
        let us: i64 = if us > i64::MAX as i128 {
            i64::MAX
        } else if us < i64::MIN as i128 {
            i64::MIN
        } else {
            us as i64
        };
        let t_ms: Double = Double::from_int(us).over(Double::from_word(1000));
        let phase: Phase = timeline.phase_at(t_ms);
        let blink: bool = show_caret(reveal, vanish, phase, t_ms);
        let redraw: bool = !looks_same(&phase, &self.phase) || blink != self.blink;
        self.t0 = Some(t0);
        self.phase = phase;
        self.blink = blink;
        let close: bool = matches!(phase, Phase::Done);
        Tick { first, redraw, close }
    }
}

/// The blur's reach is a number, and not negative.
proof fn lemma_reach(reach: Double)
    ensures
        !blur_of(reach).1.nan(),
        blur_of(reach).1.value() >= 0,
{
    let pass = reach.difference(Double::whole(1)).quotient(Double::whole(3)).lowered();
    let w = crate::double::one();
    crate::rounding::lemma_two_to_pos(1074);
    crate::order::lemma_whole(0);
    crate::order::lemma_whole(1);
    crate::order::lemma_whole(3);
    crate::order::lemma_zero(Double::whole(3));
    crate::order::lemma_of(false, crate::rounding::INF as nat);
    crate::order::lemma_of(true, crate::rounding::INF as nat);
    if !(pass.nan() || pass.below(Double::whole(1))) {
        let thrice = pass.product(Double::whole(3));
        crate::order::lemma_of(
            pass.negative(),
            crate::rounding::nearest(
                crate::double::size(pass.value()) * crate::double::size(Double::whole(3).value()),
                w,
            ),
        );
        crate::order::lemma_zero(pass);
        assert(!thrice.nan());
        crate::order::lemma_product_sign(pass, Double::whole(3));
        crate::order::lemma_sum_grows(thrice, Double::whole(1));
    }
}

/// The padding holds what is painted around the glyphs: the stroke and the
/// halo on both axes, and the caret across.
pub proof fn lemma_pad_holds(
    outline_width: Double,
    glow: Option<Double>,
    cursor: bool,
    caret_width: Double,
)
    requires
        !outline_width.nan(),
        cursor ==> !caret_width.nan(),
    ensures
        ({
            let p = pad_of(outline_width, glow, cursor, caret_width);
            &&& outline_width.at_most(p.x) && outline_width.at_most(p.y)
            &&& glow matches Some(r) ==> blur_of(r).1.at_most(p.x) && blur_of(r).1.at_most(p.y)
            &&& cursor ==> caret_width.at_most(p.x)
        }),
{
    let zero = Double::whole(0);
    let eight = Double::whole(8);
    crate::rounding::lemma_two_to_pos(1074);
    crate::order::lemma_whole(0);
    crate::order::lemma_whole(8);
    let wide = outline_width.larger(zero);
    let stroke = wide.raised();
    crate::bounds::lemma_raised(wide);
    let halo = match glow {
        Some(r) => blur_of(r).1.raised(),
        None => zero,
    };
    match glow {
        Some(r) => {
            lemma_reach(r);
            crate::bounds::lemma_raised(blur_of(r).1);
        },
        None => {},
    }
    let caret = if cursor {
        caret_width.raised()
    } else {
        zero
    };
    if cursor {
        crate::bounds::lemma_raised(caret_width);
    }
    let a = stroke.sum(halo);
    crate::order::lemma_sum_grows(stroke, halo);
    crate::order::lemma_sum_covers(stroke, halo);
    let b = a.sum(caret);
    crate::order::lemma_sum_grows(a, caret);
    crate::order::lemma_sum_covers(a, caret);
    crate::order::lemma_sum_grows(b, eight);
    crate::order::lemma_sum_grows(a, eight);
}

/// A larger reach asked for never gives a smaller one.
proof fn lemma_reach_mono(a: Double, b: Double)
    requires
        a.at_most(b),
    ensures
        blur_of(a).1.at_most(blur_of(b).1),
{
    let w = crate::double::one() as int;
    let one = Double::whole(1);
    let three = Double::whole(3);
    crate::rounding::lemma_two_to_pos(1074);
    crate::order::lemma_whole(0);
    crate::order::lemma_whole(1);
    crate::order::lemma_whole(3);
    crate::order::lemma_zero(three);
    crate::order::lemma_zero(a);
    crate::order::lemma_zero(b);
    lemma_reach(a);
    lemma_reach(b);
    let d = a.difference(one);
    let e = b.difference(one);
    let p = d.quotient(three).lowered();
    let q = e.quotient(three).lowered();
    crate::order::lemma_negation(one);
    if p.nan() || p.below(one) {
    } else if b.infinite() && !b.negative() {
        assert(e == b);
        crate::order::lemma_of(false, crate::rounding::INF as nat);
        crate::order::lemma_whole(0x20_0000_0000_0000);
        crate::order::lemma_value_bound(Double::whole(0x20_0000_0000_0000));
        assert(q == b);
        assert(blur_of(b).1 == b);
        crate::order::lemma_value_bound(blur_of(a).1);
    } else {
        crate::order::lemma_value_bound(a);
        crate::order::lemma_value_bound(b);
        crate::rounding::lemma_units_mono(0, crate::rounding::INF as nat);
        assert(a.finite()) by {
            if a.infinite() {
                assert(d == a);
                assert(a.negative());
                crate::order::lemma_of(true, crate::rounding::INF as nat);
                assert(d.quotient(three).value() < 0);
                assert(p == Double::whole(0));
            }
        }
        assert(b.finite());
        crate::order::lemma_sum(a, one.negation());
        crate::order::lemma_sum(b, one.negation());
        crate::order::lemma_rounded_mono(a.value() - w, b.value() - w);
        crate::order::lemma_rounded_exact(b);
        crate::order::lemma_rounded_mono(b.value() - w, b.value());
        lemma_not_below(a, d, p);
        crate::bounds::lemma_sign(e);
        crate::bounds::lemma_sign(d);
        crate::order::lemma_quotient_mono(d, e, three);
        crate::bounds::lemma_lowered_mono(d.quotient(three), e.quotient(three));
        if p.finite() && q.finite() {
            crate::order::lemma_zero(p);
            crate::order::lemma_zero(q);
            crate::order::lemma_product_mono(p, q, three);
            let x = p.product(three);
            let y = q.product(three);
            crate::order::lemma_sum_grows(x, one);
            crate::order::lemma_sum_grows(y, one);
            crate::order::lemma_sum_mono(x, y, one);
        } else {
            assert(q.infinite()) by {
                crate::order::lemma_value_bound(q);
                crate::order::lemma_value_bound(p);
            }
            crate::order::lemma_of(false, crate::rounding::INF as nat);
            crate::order::lemma_zero(q);
            assert(!q.negative());
            crate::order::lemma_value_bound(blur_of(a).1);
        }
    }
}

/// A reach whose blur has a pass is one pixel at the least.
proof fn lemma_not_below(a: Double, d: Double, p: Double)
    requires
        a.finite(),
        d == a.difference(Double::whole(1)),
        p == d.quotient(Double::whole(3)).lowered(),
        !p.nan(),
        !p.below(Double::whole(1)),
    ensures
        a.value() >= crate::double::one(),
        d.value() >= 0,
{
    let w = crate::double::one() as int;
    let three = Double::whole(3);
    crate::rounding::lemma_two_to_pos(1074);
    crate::order::lemma_whole(0);
    crate::order::lemma_whole(1);
    crate::order::lemma_whole(3);
    crate::order::lemma_zero(three);
    crate::order::lemma_negation(Double::whole(1));
    crate::order::lemma_sum(a, Double::whole(1).negation());
    crate::order::lemma_zero(d);
    crate::order::lemma_whole(0x20_0000_0000_0000);
    if a.value() < w {
        let x = crate::double::size(d.value());
        let q = d.quotient(three);
        let m = crate::rounding::nearest(x * (w as nat), (3 * w) as nat);
        crate::order::lemma_rounded_mono(a.value() - w, 0);
        assert(d.value() <= 0);
        crate::order::lemma_of(d.negative(), m);
        crate::order::lemma_of(d.negative(), crate::rounding::INF as nat);
        assert(q.value() <= 0) by {
            if d.value() == 0 {
                assert(x * w == 0) by (nonlinear_arith)
                    requires
                        x == 0,
                ;
                crate::order::lemma_nearest_zero_over((3 * w) as nat);
            }
        }
        assert(p == Double::whole(0));
        assert(false);
    }
    crate::order::lemma_rounded_mono(0, a.value() - w);
}

/// A wider halo never gives less padding.
proof fn lemma_halo_widens(outline_width: Double, a: Double, b: Double, caret: Double)
    requires
        !outline_width.nan(),
        a.at_most(b),
        0 <= a.value(),
        !caret.nan(),
        0 <= caret.value(),
    ensures
        ({
            let stroke = outline_width.larger(Double::whole(0)).raised();
            let eight = Double::whole(8);
            &&& stroke.sum(a).sum(caret).sum(eight).at_most(stroke.sum(b).sum(caret).sum(eight))
            &&& stroke.sum(a).sum(eight).at_most(stroke.sum(b).sum(eight))
        }),
{
    let eight = Double::whole(8);
    crate::rounding::lemma_two_to_pos(1074);
    crate::order::lemma_whole(0);
    crate::order::lemma_whole(8);
    let wide = outline_width.larger(Double::whole(0));
    let stroke = wide.raised();
    crate::bounds::lemma_raised(wide);
    let x = stroke.sum(a);
    let y = stroke.sum(b);
    crate::order::lemma_sum_grows(stroke, a);
    crate::order::lemma_sum_grows(stroke, b);
    crate::order::lemma_sum_covers(stroke, b);
    if stroke.finite() && a.finite() && b.finite() {
        crate::order::lemma_sum(stroke, a);
        crate::order::lemma_sum(stroke, b);
        crate::order::lemma_rounded_mono(
            stroke.value() + a.value(),
            stroke.value() + b.value(),
        );
    } else {
        crate::order::lemma_value_bound(x);
        crate::order::lemma_value_bound(y);
        crate::order::lemma_value_bound(a);
        crate::order::lemma_value_bound(b);
    }
    assert(x.at_most(y));
    crate::order::lemma_sum_grows(x, caret);
    crate::order::lemma_sum_grows(y, caret);
    crate::order::lemma_sum_mono(x, y, caret);
    crate::order::lemma_sum_grows(x.sum(caret), eight);
    crate::order::lemma_sum_grows(y.sum(caret), eight);
    crate::order::lemma_sum_mono(x.sum(caret), y.sum(caret), eight);
    crate::order::lemma_sum_grows(x, eight);
    crate::order::lemma_sum_grows(y, eight);
    crate::order::lemma_sum_mono(x, y, eight);
}

/// A larger glow radius never gives less padding, and a halo never less than
/// none.
pub proof fn lemma_glow_widens_the_padding(
    outline_width: Double,
    radius: Double,
    larger: Double,
    cursor: bool,
    caret_width: Double,
)
    requires
        !outline_width.nan(),
        cursor ==> !caret_width.nan(),
        radius.at_most(larger),
    ensures
        ({
            let bare = pad_of(outline_width, None, cursor, caret_width);
            let lit = pad_of(outline_width, Some(radius), cursor, caret_width);
            let wide = pad_of(outline_width, Some(larger), cursor, caret_width);
            &&& bare.x.at_most(lit.x) && bare.y.at_most(lit.y)
            &&& lit.x.at_most(wide.x) && lit.y.at_most(wide.y)
        }),
{
    let zero = Double::whole(0);
    crate::rounding::lemma_two_to_pos(1074);
    crate::order::lemma_whole(0);
    lemma_reach(radius);
    lemma_reach(larger);
    lemma_reach_mono(radius, larger);
    crate::bounds::lemma_raised(blur_of(radius).1);
    crate::bounds::lemma_raised_mono(blur_of(radius).1, blur_of(larger).1);
    if cursor {
        crate::bounds::lemma_raised(caret_width);
    }
    let caret = if cursor {
        caret_width.raised()
    } else {
        zero
    };
    let a = blur_of(radius).1.raised();
    let b = blur_of(larger).1.raised();
    lemma_halo_widens(outline_width, zero, a, caret);
    lemma_halo_widens(outline_width, a, b, caret);
}

/// No more characters are visible than the message has, at any time.
pub proof fn lemma_visible(tl: crate::timeline::TimelineView, t_ms: Double)
    requires
        tl.wf(),
        tl.chars <= usize::MAX,
    ensures
        0 <= visible_of(tl, tl.phase(t_ms)) <= tl.chars,
{
    crate::timeline::lemma_reached_bound(tl.steps, t_ms);
    crate::rounding::lemma_two_to_pos(1074);
    if let Phase::Vanish { p } = tl.phase(t_ms) {
        let d = Double::whole(1).difference(p).product(Double::whole(tl.chars));
        let w = crate::double::one() as int;
        if !d.nan() && d.value() > 0 {
            vstd::arithmetic::div_mod::lemma_div_pos_is_pos(d.value() + w - 1, w);
        }
    }
}

/// The softness of an edge over a text of whole height: at least eight pixels,
/// and no more than the text or that.
proof fn lemma_soft(h: nat)
    requires
        h <= i32::MAX,
    ensures
        ({
            let soft = Double::whole(h).product(Double { bits: SOFTNESS }).larger(Double::whole(8));
            &&& soft.finite()
            &&& !soft.negative()
            &&& 8 * crate::double::one() <= soft.value() <= 0x2_0000_0000 * crate::double::one()
        }),
{
    let w = crate::double::one();
    let text = Double::whole(h);
    let share = Double { bits: SOFTNESS };
    crate::rounding::lemma_two_to_pos(1074);
    crate::order::lemma_whole(h);
    crate::order::lemma_whole(8);
    crate::order::lemma_fraction(share);
    assert(crate::double::size(text.value()) * crate::double::size(share.value())
        <= crate::rounding::units(text.magnitude()) * w) by (nonlinear_arith)
        requires
            crate::double::size(text.value()) == crate::rounding::units(text.magnitude()),
            crate::double::size(share.value()) <= w,
    ;
    crate::order::lemma_product_bound(text, share, text.magnitude());
    assert(h * w <= 0x2_0000_0000 * w) by (nonlinear_arith)
        requires
            h <= 0x2_0000_0000,
    ;
    assert(8 * w <= 0x2_0000_0000 * w) by (nonlinear_arith);
}

/// The softness of an edge over a text of whole height, and how far the edge
/// travels, between whole numbers.
proof fn lemma_span(h: nat, soft: Double, span: Double) -> (s: int)
    requires
        h <= i32::MAX,
        soft == Double::whole(h).product(Double { bits: SOFTNESS }).larger(Double::whole(8)),
        span == Double::whole(h).sum(soft.product(Double::whole(2))),
    ensures
        8 <= s <= 0x2_0000_0000,
        soft.finite(),
        s * crate::double::one() <= soft.value() <= (s + 1) * crate::double::one(),
        span.finite(),
        !span.negative(),
        (h + 2 * s) * crate::double::one() <= span.value() <= (h + 2 * s + 2)
            * crate::double::one(),
{
    let w = crate::double::one() as int;
    crate::rounding::lemma_two_to_pos(1074);
    crate::order::lemma_whole(h);
    lemma_soft(h);
    let s = crate::bounds::lemma_whole_part(soft) as int;
    let twice = soft.product(Double::whole(2));
    crate::bounds::lemma_twice(soft, s as nat);
    assert(h * w + 2 * s * w == (h + 2 * s) * w) by (nonlinear_arith);
    assert(h * w + 2 * (s + 1) * w == (h + 2 * s + 2) * w) by (nonlinear_arith);
    crate::bounds::lemma_plus(Double::whole(h), twice, h + 2 * s, h + 2 * s + 2);
    assert((h + 2 * s) * w > 0) by (nonlinear_arith)
        requires
            h + 2 * s > 0,
            w > 0,
    ;
    s
}

/// A wash that goes down starts no lower than the top of a text of whole
/// height, and ends below it.
proof fn lemma_wash_down(h: nat)
    requires
        h <= i32::MAX,
    ensures
        edge_of(Double::whole(h), Double::whole(0), Dir::Down).1.value() == 0,
        edge_of(Double::whole(h), Double::whole(1), Dir::Down).0.value() >= h
            * crate::double::one(),
{
    let w = crate::double::one() as int;
    let soft = Double::whole(h).product(Double { bits: SOFTNESS }).larger(Double::whole(8));
    let span = Double::whole(h).sum(soft.product(Double::whole(2)));
    let s = lemma_span(h, soft, span);
    crate::bounds::lemma_share(span);
    crate::rounding::lemma_two_to_pos(1074);
    crate::order::lemma_negation(soft);
    assert(-(s * w) == (-s) * w && -((s + 1) * w) == (-s - 1) * w) by (nonlinear_arith);
    let none = Double::whole(0).product(span);
    let start = soft.negation().sum(none);
    crate::bounds::lemma_plus(soft.negation(), none, -s - 1, -s);
    crate::order::lemma_sum(soft.negation(), none);
    crate::order::lemma_rounded_exact(soft.negation());
    crate::order::lemma_sum(start, soft);
    crate::order::lemma_rounded_mono(0, 0);
    let all = Double::whole(1).product(span);
    assert((h + 2 * s) * w - (s + 1) * w >= h * w) by (nonlinear_arith)
        requires
            s >= 8,
            w > 0,
    ;
    assert((h + 2 * s + 2) * w - s * w == (h + s + 2) * w) by (nonlinear_arith);
    crate::bounds::lemma_plus(soft.negation(), all, h as int, h + s + 2);
}

/// A wash that goes up starts no more than a pixel above the bottom of a text
/// of whole height, and ends above its top.
proof fn lemma_wash_up(h: nat)
    requires
        h <= i32::MAX,
    ensures
        edge_of(Double::whole(h), Double::whole(0), Dir::Up).0.value() >= (h - 1)
            * crate::double::one(),
        edge_of(Double::whole(h), Double::whole(1), Dir::Up).1.value() <= 0,
{
    let w = crate::double::one() as int;
    let text = Double::whole(h);
    let soft = text.product(Double { bits: SOFTNESS }).larger(Double::whole(8));
    let span = text.sum(soft.product(Double::whole(2)));
    let s = lemma_span(h, soft, span);
    crate::bounds::lemma_share(span);
    crate::rounding::lemma_two_to_pos(1074);
    crate::order::lemma_whole(h);
    assert(h * w + s * w == (h + s) * w && h * w + (s + 1) * w == (h + s + 1) * w)
        by (nonlinear_arith);
    let below = text.sum(soft);
    crate::bounds::lemma_plus(text, soft, h + s, h + s + 1);
    let none = Double::whole(0).product(span);
    let all = Double::whole(1).product(span);
    let front = below.difference(none);
    crate::bounds::lemma_minus(below, none, h + s, h + s + 1);
    assert((h + s) * w - (s + 1) * w == (h - 1) * w && (h + s + 1) * w - s * w == (h + 1) * w)
        by (nonlinear_arith);
    crate::bounds::lemma_minus(front, soft, h - 1, (h + 1) as int);
    assert((h + s + 1) * w - (h + 2 * s) * w <= 0 && (h + s) * w - (h + 2 * s + 2) * w == (-s - 2)
        * w && 0 * w == 0) by (nonlinear_arith)
        requires
            s >= 8,
            w > 0,
    ;
    crate::bounds::lemma_minus(below, all, -s - 2, 0);
}

/// A wash covers the whole text, here of whole height. Going down, its edge
/// starts no lower than the top of the text and ends below it; going up, it
/// starts no more than a pixel above the bottom and ends above the top.
pub proof fn lemma_wash_covers(h: nat)
    requires
        h <= i32::MAX,
    ensures
        ({
            let text = Double::whole(h);
            let zero = Double::whole(0);
            let one = Double::whole(1);
            &&& edge_of(text, zero, Dir::Down).1.value() == 0
            &&& edge_of(text, one, Dir::Down).0.value() >= h * crate::double::one()
            &&& edge_of(text, zero, Dir::Up).0.value() >= (h - 1) * crate::double::one()
            &&& edge_of(text, one, Dir::Up).1.value() <= 0
        }),
{
    lemma_wash_down(h);
    lemma_wash_up(h);
}

/// The room reserved for a halo is never more than the reach that was asked
/// for.
pub proof fn lemma_reach_as_asked(reach: Double)
    requires
        !reach.nan(),
        0 <= reach.value() < 0x20_0000_0000_0000 * crate::double::one(),
    ensures
        blur_of(reach).1.at_most(reach),
{
    let w = crate::double::one() as int;
    let one = Double::whole(1);
    let three = Double::whole(3);
    crate::rounding::lemma_two_to_pos(1074);
    crate::order::lemma_whole(0);
    crate::order::lemma_whole(1);
    crate::order::lemma_whole(3);
    crate::bounds::lemma_rounded_int(0x20_0000_0000_0000);
    crate::bounds::lemma_sign(reach);
    let d = reach.difference(one);
    let q = d.quotient(three);
    let pass = q.lowered();
    if pass.nan() || pass.below(one) {
        assert(blur_of(reach).1 == Double::whole(0));
    } else {
        lemma_third_of(reach, d, q);
        let p = q.floor_word();
        assert(pass == Double::whole(p as nat));
        crate::order::lemma_whole(p as nat);
        assert(1 <= p) by (nonlinear_arith)
            requires
                p * w >= w,
                w > 0,
        ;
        crate::bounds::lemma_third(reach, crate::rounding::exponent(reach.magnitude()), p as nat);
        assert(3 * p < 0x20_0000_0000_0000) by (nonlinear_arith)
            requires
                3 * p * w < 0x20_0000_0000_0000 * w,
                w > 0,
        ;
        // Three times a whole number, and one more, are exact.
        let triple = (3 * p) as nat;
        crate::order::lemma_whole(triple);
        assert((p * w) * (3 * w) == (3 * p * w) * w) by (nonlinear_arith);
        crate::rounding::lemma_nearest_exact(Double::whole(triple).magnitude(), w as nat);
        crate::order::lemma_of(false, Double::whole(triple).magnitude());
        let thrice = pass.product(three);
        assert(thrice.value() == 3 * p * w && thrice.finite());
        assert(3 * p * w + w == (3 * p + 1) * w) by (nonlinear_arith);
        crate::bounds::lemma_plus(thrice, one, 3 * p + 1, 3 * p + 1);
    }
}

/// What a third of a number less one is, where it comes to one or more.
proof fn lemma_third_of(reach: Double, d: Double, q: Double)
    requires
        reach.finite(),
        0 <= reach.value() < 0x20_0000_0000_0000 * crate::double::one(),
        d == reach.difference(Double::whole(1)),
        q == d.quotient(Double::whole(3)),
        !(q.lowered().nan() || q.lowered().below(Double::whole(1))),
    ensures
        q.lowered() == Double::whole(q.floor_word() as nat),
        1 <= q.floor_word() <= 0x20_0000_0000_0000,
        reach.value() >= crate::double::one(),
        crate::rounding::nearest(
            ((reach.value() - crate::double::one()) * crate::double::one()) as nat,
            3 * crate::double::one(),
        ) >= Double::whole(q.floor_word() as nat).magnitude(),
{
    let w = crate::double::one() as int;
    let one = Double::whole(1);
    let three = Double::whole(3);
    crate::rounding::lemma_two_to_pos(1074);
    crate::order::lemma_whole(0);
    crate::order::lemma_whole(1);
    crate::order::lemma_whole(3);
    crate::order::lemma_zero(three);
    crate::order::lemma_negation(one);
    crate::order::lemma_sum(reach, one.negation());
    crate::order::lemma_zero(d);
    crate::order::lemma_zero(q);
    crate::bounds::lemma_minus(reach, one, -1, 0x20_0000_0000_0000);
    let a = crate::double::size(d.value());
    let m = crate::rounding::nearest(a * w as nat, (3 * w) as nat);
    crate::order::lemma_of(d.negative(), m);
    assert(q == Double::of(d.negative(), m));
    if reach.value() < w {
        crate::order::lemma_rounded_mono(reach.value() - w, 0);
        assert(d.value() <= 0);
        assert(q.value() <= 0) by {
            if d.value() == 0 {
                assert(a * w == 0) by (nonlinear_arith)
                    requires
                        a == 0,
                ;
                crate::order::lemma_nearest_zero_over((3 * w) as nat);
            }
        }
        assert(q.lowered() == Double::whole(0));
        assert(false);
    }
    let k = crate::bounds::lemma_less_one(reach);
    assert(d.value() == reach.value() - w);
    assert(d.value() > 0) by {
        if d.value() == 0 {
            assert(a * w == 0) by (nonlinear_arith)
                requires
                    a == 0,
            ;
            crate::order::lemma_nearest_zero_over((3 * w) as nat);
            assert(q.lowered() == Double::whole(0));
        }
    }
    assert(!d.negative());
    // The quotient is no larger than the number.
    crate::order::lemma_whole(0x20_0000_0000_0000);
    let top = Double::whole(0x20_0000_0000_0000);
    assert(a * w <= (0x20_0000_0000_0000 * w) * (3 * w)) by (nonlinear_arith)
        requires
            a <= 0x20_0000_0000_0000 * w,
            w > 0,
    ;
    crate::order::lemma_quotient_bound(d, three, top.magnitude());
    let p = q.value() / w;
    assert(p * w <= q.value() && 0 <= p <= 0x20_0000_0000_0000) by (nonlinear_arith)
        requires
            p == q.value() / w,
            0 <= q.value() <= 0x20_0000_0000_0000 * w,
            w > 0,
    ;
    assert(q.floor_word() == p) by {
        if q.value() == 0 {
            assert(p == 0) by (nonlinear_arith)
                requires
                    p == q.value() / w,
                    q.value() == 0,
                    w > 0,
            ;
        }
    }
    assert(q.lowered() == Double::whole(p as nat));
    crate::order::lemma_whole(p as nat);
    assert(p >= 1) by (nonlinear_arith)
        requires
            p * w >= w,
            w > 0,
    ;
    crate::rounding::lemma_units_mono(m, Double::whole(p as nat).magnitude());
}

} // verus!
