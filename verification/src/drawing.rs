//! How large things are and where they stand, in plain numbers.
use crate::config::{GlowView, HAlign, Reveal, Scanlines, Vanish};
use crate::double::Double;
use crate::hud::Frame;
use crate::near::close;
use crate::timeline::{Phase, TimelineView};
use vstd::prelude::*;

verus! {

/// A product of positions and scales.
pub(crate) proof fn lemma_times(a: Double, b: Double)
    requires
        a.finite(),
        b.finite(),
        crate::double::size(a.value()) * crate::double::size(b.value()) <= (0x2_0000_0000
            * crate::double::one()) * crate::double::one(),
    ensures
        a.product(b).finite(),
        close(
            a.product(b).value() * crate::double::one(),
            a.value() * b.value(),
            (crate::rounding::two_to(1054) * crate::double::one()) as int,
        ),
{
    let w = crate::double::one() as int;
    let g = crate::rounding::two_to(1054) as int;
    let step = crate::rounding::STEP as int;
    crate::exits::lemma_pixels();
    assert((0x2_0000_0000 * w) * w == (2 * step) * (g * w)) by (nonlinear_arith)
        requires
            0x2_0000_0000 * w == (2 * step) * g,
    ;
    crate::near::lemma_product_close(a, b, 1054);
}

/// What is drawn of an outline, a halo and a raster: what the style has, unless
/// it switches it off.
pub proof fn lemma_drawn(
    outline: Option<Seq<char>>,
    glow: Option<GlowView>,
    scanlines: Option<Scanlines>,
)
    ensures
        match crate::hud::drawn_outline(outline) {
            Some(c) => outline == Some(c) && c != "none"@,
            None => outline is None || outline == Some("none"@),
        },
        match crate::hud::drawn_glow(glow) {
            Some(g) => glow == Some(g) && !g.radius.nan() && g.radius.value() > 0,
            None => glow is None || glow->0.radius.nan() || glow->0.radius.value() <= 0,
        },
        match crate::hud::drawn_scanlines(scanlines) {
            Some(s) => scanlines == Some(s) && !s.strength.nan() && s.strength.value() > 0,
            None => scanlines is None || scanlines->0.strength.nan()
                || scanlines->0.strength.value() <= 0,
        },
{
    crate::timeline::lemma_small();
}

/// The next whole pixel.
proof fn lemma_raised_snug(d: Double) -> (c: nat)
    requires
        !d.nan(),
        0 <= d.value() <= 0x4000_0000 * crate::double::one(),
    ensures
        c <= 0x4000_0000,
        d.raised() == Double::whole(c),
        d.raised().finite(),
        d.raised().value() == c * crate::double::one(),
        d.value() <= c * crate::double::one() < d.value() + crate::double::one(),
{
    let w = crate::double::one() as int;
    crate::rounding::lemma_two_to_pos(1074);
    crate::order::lemma_whole(0x20_0000_0000_0000);
    crate::bounds::lemma_ceil(d, 0x4000_0000);
    let c = d.ceil_word() as nat;
    crate::order::lemma_whole(c);
    assert(c > 0 ==> (c - 1) * w + w == c * w) by (nonlinear_arith);
    if c == 0 {
        assert(0 * w == 0);
    }
    c
}

/// Whole numbers of pixels add up exactly.
proof fn lemma_whole_sum(a: nat, b: nat)
    requires
        a + b <= 0x20_0000_0000_0000,
    ensures
        Double::whole(a).sum(Double::whole(b)).finite(),
        Double::whole(a).sum(Double::whole(b)).value() == (a + b) * crate::double::one(),
{
    let w = crate::double::one() as int;
    crate::order::lemma_whole(a);
    crate::order::lemma_whole(b);
    crate::order::lemma_sum(Double::whole(a), Double::whole(b));
    assert(a * w + b * w == (a + b) * w) by (nonlinear_arith);
    crate::bounds::lemma_rounded_int((a + b) as int);
    crate::bounds::lemma_sign(Double::whole(a).sum(Double::whole(b)));
}

/// A sum of a whole number of pixels and one more.
proof fn lemma_more(d: Double, a: nat, b: nat)
    requires
        d.finite(),
        d.value() == a * crate::double::one(),
        a + b <= 0x20_0000_0000_0000,
    ensures
        d.sum(Double::whole(b)).finite(),
        d.sum(Double::whole(b)).value() == (a + b) * crate::double::one(),
{
    let w = crate::double::one() as int;
    crate::order::lemma_whole(b);
    crate::order::lemma_sum(d, Double::whole(b));
    assert(a * w + b * w == (a + b) * w) by (nonlinear_arith);
    crate::bounds::lemma_rounded_int((a + b) as int);
    crate::bounds::lemma_sign(d.sum(Double::whole(b)));
}

/// The padding is as wide as the stroke, the halo and the caret together and
/// eight pixels more, each up to its next whole pixel; and as high as without
/// the caret.
pub proof fn lemma_pad_is_snug(
    outline_width: Double,
    glow: Option<Double>,
    cursor: bool,
    caret_width: Double,
)
    requires
        !outline_width.nan(),
        outline_width.value() <= 0x4000_0000 * crate::double::one(),
        glow matches Some(r) ==> !crate::hud::blur_of(r).1.nan() && 0 <= crate::hud::blur_of(
            r,
        ).1.value() <= 0x4000_0000 * crate::double::one(),
        !caret_width.nan(),
        0 <= caret_width.value() <= 0x4000_0000 * crate::double::one(),
    ensures
        ({
            let w = crate::double::one() as int;
            let p = crate::hud::pad_of(outline_width, glow, cursor, caret_width);
            let stroke = if outline_width.value() > 0 {
                outline_width.value()
            } else {
                0
            };
            let halo = match glow {
                Some(r) => crate::hud::blur_of(r).1.value(),
                None => 0,
            };
            let caret = if cursor {
                caret_width.value()
            } else {
                0
            };
            &&& stroke + halo + 8 * w <= p.y.value() < stroke + halo + 10 * w
            &&& stroke + halo + caret + 8 * w <= p.x.value() < stroke + halo + caret + 11 * w
        }),
{
    let w = crate::double::one() as int;
    let zero = Double::whole(0);
    crate::timeline::lemma_small();
    crate::order::lemma_whole(0);
    let wide = outline_width.larger(zero);
    let a = lemma_raised_snug(wide);
    let b: nat = match glow {
        Some(r) => lemma_raised_snug(crate::hud::blur_of(r).1),
        None => 0,
    };
    let c: nat = if cursor {
        lemma_raised_snug(caret_width)
    } else {
        0
    };
    assert(0 * w == 0);
    lemma_whole_sum(a, b);
    let s = Double::whole(a).sum(Double::whole(b));
    lemma_more(s, a + b, c);
    lemma_more(s.sum(Double::whole(c)), a + b + c, 8);
    lemma_more(s, a + b, 8);
    assert((a + b) * w == a * w + b * w && (a + b + c) * w == a * w + b * w + c * w && (a + b + 8)
        * w == a * w + b * w + 8 * w && (a + b + c + 8) * w == a * w + b * w + c * w + 8 * w)
        by (nonlinear_arith);
}

/// The blur of a halo: three passes of a whole radius, as large as fit the reach
/// with a pixel to spare. What is too small for a pass of one pixel is none.
pub proof fn lemma_blur(reach: Double)
    requires
        reach.finite(),
        0 <= reach.value() <= 0x4000_0000 * crate::double::one(),
    ensures
        ({
            let w = crate::double::one() as int;
            let (pass, r) = crate::hud::blur_of(reach);
            &&& pass >= 0
            &&& if pass == 0 {
                r.value() == 0 && reach.value() < 4 * w
            } else {
                &&& r.value() == (3 * pass + 1) * w
                &&& (3 * pass + 1) * w <= reach.value() + w / 1000
                &&& reach.value() <= (3 * pass + 4) * w + w / 1000
            }
        }),
{
    let w = crate::double::one() as int;
    let g = crate::rounding::two_to(1054) as int;
    let step = crate::rounding::STEP as int;
    let (one, three) = (Double::whole(1), Double::whole(3));
    crate::exits::lemma_pixels();
    crate::timeline::lemma_small();
    crate::order::lemma_whole(3);
    crate::order::lemma_whole(0);
    crate::order::lemma_whole(0x20_0000_0000_0000);
    let d = reach.difference(one);
    crate::near::lemma_difference_close(reach, one, 1054);
    let n = crate::double::size(d.value()) as int;
    assert(3 * w != 0 && n * w <= (2 * step) * (g * (3 * w))) by (nonlinear_arith)
        requires
            0 <= n <= 0x4000_0001 * w,
            0x2_0000_0000 * w == (2 * step) * g,
            w > 0,
    {
        assert(n * w <= (0x2_0000_0000 * w) * w);
        assert(((2 * step) * g) * w <= (2 * step) * (g * (3 * w)));
    }
    crate::near::lemma_quotient_close(d, three, 1054);
    let q = d.quotient(three);
    let (dv, qv) = (d.value(), q.value());
    assert(close(3 * qv, dv, 3 * g)) by (nonlinear_arith)
        requires
            -(g * (3 * w)) <= qv * (3 * w) - dv * w <= g * (3 * w),
            w > 0,
    {
        assert((3 * qv - dv) * w == qv * (3 * w) - dv * w);
        assert(g * (3 * w) == (3 * g) * w);
    }
    let pass = q.lowered();
    let k = qv / w;
    assert(qv > 0 ==> k * w <= qv < (k + 1) * w && 0 <= k <= 0x4000_0000) by (nonlinear_arith)
        requires
            k == qv / w,
            qv <= 0x4000_0000 * w,
            w > 0,
    ;
    let f = q.floor_word();
    assert(pass == Double::whole(f as nat));
    crate::order::lemma_whole(f as nat);
    assert(reach.value() >= 4 * w ==> f >= 1) by {
        if reach.value() >= 4 * w {
            crate::order::lemma_negation(one);
            crate::order::lemma_sum(reach, one.negation());
            crate::bounds::lemma_rounded_int(3);
            crate::order::lemma_rounded_mono(3 * w, reach.value() - w);
            assert(dv >= 3 * w);
            crate::order::lemma_quotient_mono(three, d, three);
            lemma_itself(three);
            assert(qv >= w);
            assert(k >= 1) by (nonlinear_arith)
                requires
                    qv < (k + 1) * w,
                    qv >= w,
                    w > 0,
            ;
        }
    }
    if f >= 1 {
        assert((f * w) / w == f) by (nonlinear_arith)
            requires
                w > 0,
        ;
        assert(f * w <= 0x4000_0000 * w && f * w >= w) by (nonlinear_arith)
            requires
                1 <= f <= 0x4000_0000,
                w > 0,
        ;
        lemma_triple(f as nat);
        lemma_more(pass.product(three), (3 * f) as nat, 1);
        assert((3 * f) * w == 3 * (f * w) && (3 * f + 1) * w == 3 * (f * w) + w && (3 * f + 4) * w
            == 3 * (f * w) + 4 * w && (f + 1) * w == f * w + w) by (nonlinear_arith);
    } else {
        assert(f * w < w) by (nonlinear_arith)
            requires
                f <= 0,
                w > 0,
        ;
    }
}

/// A number over itself is one.
proof fn lemma_itself(d: Double)
    requires
        d.finite(),
        !d.negative(),
        d.value() > 0,
    ensures
        d.quotient(d).value() == crate::double::one(),
{
    let w = crate::double::one();
    let u = crate::rounding::units(d.magnitude());
    crate::timeline::lemma_small();
    crate::order::lemma_zero(d);
    assert(u * w == w * u) by (nonlinear_arith);
    crate::rounding::lemma_nearest_exact(Double::whole(1).magnitude(), u);
    crate::order::lemma_of(false, Double::whole(1).magnitude());
}

/// Three times a whole number.
proof fn lemma_triple(n: nat)
    requires
        3 * n <= 0x20_0000_0000_0000,
    ensures
        Double::whole(n).product(Double::whole(3)).finite(),
        Double::whole(n).product(Double::whole(3)).value() == (3 * n) * crate::double::one(),
{
    let w = crate::double::one();
    crate::order::lemma_whole(n);
    crate::order::lemma_whole(3);
    crate::order::lemma_whole(3 * n);
    crate::rounding::lemma_two_to_pos(1074);
    let m = Double::whole(3 * n).magnitude();
    assert((n * w) * (3 * w) == ((3 * n) * w) * w && n * w >= 0) by (nonlinear_arith);
    crate::rounding::lemma_nearest_exact(m, w);
    crate::order::lemma_of(false, m);
}

/// Twice a whole number, cut to an integer.
proof fn lemma_both_sides(pad: Double, n: nat)
    requires
        pad.finite(),
        pad.value() == n * crate::double::one(),
        n <= 0x3fff_ffff,
    ensures
        pad.product(Double::whole(2)).trunc_int() == 2 * n,
{
    let w = crate::double::one() as int;
    crate::exits::lemma_pixels();
    crate::order::lemma_zero(pad);
    crate::order::lemma_whole(2 * n);
    let m = Double::whole(2 * n).magnitude();
    assert((n * w) * (2 * w) == ((2 * n) * w) * w && n * w >= 0) by (nonlinear_arith)
        requires
            w > 0,
    ;
    crate::rounding::lemma_nearest_exact(m, w as nat);
    let x = pad.product(Double::whole(2));
    crate::order::lemma_of(x.negative(), m);
    crate::order::lemma_of(pad.negative() != Double::whole(2).negative(), m);
    assert(x.value() == (2 * n) * w) by {
        if pad.negative() {
            assert(n == 0) by (nonlinear_arith)
                requires
                    n * w <= 0,
                    w > 0,
            ;
            assert(0 * w == 0);
        }
    }
    assert(((2 * n) * w) / w == 2 * n) by (nonlinear_arith)
        requires
            w > 0,
    ;
    assert((2 * n) * w >= 0) by (nonlinear_arith)
        requires
            w > 0,
    ;
}

/// The surface is the block with the padding on both sides. A text may be as
/// wide as the monitor without the padding, and without the margin where it is
/// anchored to a side; and a pixel at the least.
pub proof fn lemma_room(
    monitor: i32,
    halign: HAlign,
    margin: i32,
    block: i32,
    pad: Double,
    n: nat,
)
    requires
        pad.finite(),
        pad.value() == n * crate::double::one(),
        n <= 0xffff,
        0 <= monitor <= 0x3fff_ffff,
        0 <= margin <= 0x3fff_ffff,
        0 <= block <= 0x3fff_ffff,
    ensures
        ({
            let room = monitor - 2 * n - if halign is Center {
                0
            } else {
                margin as int
            };
            &&& crate::hud::content_of(block, pad) == block + 2 * n
            &&& crate::hud::budget_of(monitor, halign, margin, pad) == if room >= 1 {
                room
            } else {
                1
            }
        }),
{
    lemma_both_sides(pad, n);
}

/// A block is as wide as it is pinned and as high as the lines reserved for it,
/// and else as large as its text.
pub proof fn lemma_block(
    width: Option<i32>,
    lines: Option<usize>,
    text_w: i32,
    text_h: i32,
    line_h: i32,
)
    requires
        lines matches Some(n) ==> n <= 256,
        0 <= line_h <= 0x7f_ffff,
    ensures
        ({
            let (w, h) = crate::hud::block_of(width, lines, text_w, text_h, line_h);
            &&& w == match width {
                Some(p) => p as int,
                None => text_w as int,
            }
            &&& h == match lines {
                Some(n) => n * line_h,
                None => text_h as int,
            }
        }),
{
    if let Some(n) = lines {
        assert(0 <= n * line_h <= 256 * 0x7f_ffff) by (nonlinear_arith)
            requires
                0 <= n <= 256,
                0 <= line_h <= 0x7f_ffff,
        ;
    }
}

/// A colour is washed towards white by the share: itself at none of it, white at
/// all of it, and between in proportion.
pub proof fn lemma_tint(channel: Double, whiten: Double)
    requires
        channel.finite(),
        whiten.finite(),
        0 <= channel.value() <= crate::double::one(),
        0 <= whiten.value() <= crate::double::one(),
    ensures
        ({
            let w = crate::double::one() as int;
            let f = crate::rounding::two_to(1021) as int;
            let (c, a) = (channel.value(), whiten.value());
            let v = crate::hud::tint_of(channel, whiten).value();
            close(v * w, c * (w - a) + a * w, 6 * (f * w))
        }),
{
    let w = crate::double::one() as int;
    let f = crate::rounding::two_to(1021) as int;
    let one = Double::whole(1);
    let (c, a) = (channel.value(), whiten.value());
    crate::exits::lemma_shares();
    crate::timeline::lemma_remaining(whiten);
    crate::near::lemma_difference_close(one, whiten, 1021);
    let left = one.difference(whiten);
    crate::exits::lemma_share_of(channel, left);
    let x = channel.product(left);
    crate::rounding::lemma_two_to_add(2, 1021);
    crate::rounding::lemma_two_to_values();
    let step = crate::rounding::STEP as int;
    assert((2 * step) * (4 * f) == 4 * w) by (nonlinear_arith)
        requires
            (2 * step) * f == w,
    ;
    crate::near::lemma_sum_close(x, whiten, 1023);
    let (l, xv, v) = (left.value(), x.value(), x.sum(whiten).value());
    assert(close(v * w, c * (w - a) + a * w, 6 * (f * w))) by (nonlinear_arith)
        requires
            -(4 * f) <= v - (xv + a) <= 4 * f,
            -(f * w) <= xv * w - c * l <= f * w,
            -f <= l - (w - a) <= f,
            0 <= c <= w,
            f > 0,
    {
        assert((v - (xv + a)) * w == v * w - xv * w - a * w);
        assert(-(4 * f) * w <= (v - (xv + a)) * w <= (4 * f) * w);
        assert(c * l - c * (w - a) == c * (l - (w - a)));
        assert(-(w * f) <= c * (l - (w - a)) <= w * f);
    }
}

/// The gaps of a raster: as high as the period times the duty, and passing what
/// the strength leaves.
pub proof fn lemma_gap(s: Scanlines)
    requires
        s.period.finite(),
        s.duty.finite(),
        s.strength.finite(),
        0 <= s.period.value() <= 0x1_0000 * crate::double::one(),
        0 <= s.duty.value() <= crate::double::one(),
        0 <= s.strength.value() <= crate::double::one(),
    ensures
        ({
            let w = crate::double::one() as int;
            let (high, passes) = crate::hud::gap_of(s);
            &&& close(
                high.value() * w,
                s.period.value() * s.duty.value(),
                crate::rounding::two_to(1054) * w,
            )
            &&& close(
                passes.value(),
                w - s.strength.value(),
                crate::rounding::two_to(1021) as int,
            )
        }),
{
    let w = crate::double::one() as int;
    crate::exits::lemma_shares();
    let (x, y) = (s.period.value(), s.duty.value());
    assert(x * y <= (0x2_0000_0000 * w) * w) by (nonlinear_arith)
        requires
            0 <= x <= 0x1_0000 * w,
            0 <= y <= w,
            w > 0,
    {
        assert(x * y <= (0x1_0000 * w) * w);
    }
    lemma_times(s.period, s.duty);
    crate::near::lemma_difference_close(Double::whole(1), s.strength, 1021);
}

/// The gaps of a raster come one period after the other, from the top.
pub proof fn lemma_gaps_in_step(period: Double, k: nat)
    requires
        period.finite(),
        0 <= period.value() <= 0x400 * crate::double::one(),
        k <= 0x10_0000,
    ensures
        crate::hud::gap_top(period, k).finite(),
        close(
            crate::hud::gap_top(period, k).value(),
            k * period.value(),
            k * crate::rounding::two_to(1054) as int,
        ),
    decreases k,
{
    let w = crate::double::one() as int;
    let g = crate::rounding::two_to(1054) as int;
    let p = period.value();
    crate::exits::lemma_pixels();
    crate::order::lemma_whole(0);
    assert(0 * w == 0 && 0 * p == 0 && 0 * g == 0);
    if k > 0 {
        let j = (k - 1) as nat;
        lemma_gaps_in_step(period, j);
        assert(k * p == j * p + p && k * g == j * g + g) by (nonlinear_arith)
            requires
                k == j + 1,
        ;
        assert(0 <= j * p <= 0x4000_0000 * w && 0 <= j * g <= w) by (nonlinear_arith)
            requires
                0 <= j <= 0x10_0000,
                0 <= p <= 0x400 * w,
                w == 0x10_0000 * g,
                g > 0,
        ;
        crate::near::lemma_sum_close(crate::hud::gap_top(period, j), period, 1054);
    }
}

/// The text is moved down by what is missing below its current line, and never
/// up.
pub proof fn lemma_scroll(text_h: i32, caret_y: Double, caret_h: Double)
    requires
        caret_y.finite(),
        caret_h.finite(),
        -(0x4000_0000 * crate::double::one()) <= caret_y.value() <= 0x4000_0000
            * crate::double::one(),
        0 <= caret_h.value() <= 0x4000_0000 * crate::double::one(),
    ensures
        ({
            let w = crate::double::one() as int;
            let g = crate::rounding::two_to(1054) as int;
            let dy = crate::hud::scroll_of(text_h, caret_y, caret_h).value();
            let missing = text_h * w - (caret_y.value() + caret_h.value());
            &&& dy >= 0
            &&& missing >= 2 * g ==> close(dy, missing, 2 * g)
            &&& missing < -(2 * g) ==> dy == 0
            &&& close(
                dy,
                if missing > 0 {
                    missing
                } else {
                    0
                },
                2 * g,
            )
        }),
{
    let w = crate::double::one() as int;
    let h = Double::integer(text_h as int);
    crate::exits::lemma_pixels();
    crate::order::lemma_whole(0);
    assert(0 * w == 0);
    lemma_integer(text_h as int);
    assert(-(0x8000_0000 * w) <= text_h * w <= 0x8000_0000 * w) by (nonlinear_arith)
        requires
            -0x8000_0000 <= text_h <= 0x7fff_ffff,
            w > 0,
    ;
    crate::near::lemma_sum_close(caret_y, caret_h, 1054);
    crate::near::lemma_difference_close(h, caret_y.sum(caret_h), 1054);
}

/// The double of an integer.
pub(crate) proof fn lemma_integer(n: int)
    requires
        -0x20_0000_0000_0000 <= n <= 0x20_0000_0000_0000,
    ensures
        Double::integer(n).finite(),
        Double::integer(n).value() == n * crate::double::one(),
{
    let w = crate::double::one();
    let m = crate::double::size(n);
    crate::order::lemma_whole(m);
    crate::order::lemma_of(n < 0, crate::rounding::nearest(m * w, 1));
    crate::order::lemma_of(false, crate::rounding::nearest(m * w, 1));
    assert(n < 0 ==> -(m * w) == n * w) by (nonlinear_arith)
        requires
            n < 0 ==> m == -n,
    ;
}

/// A caret stands at the left edge of its box, in pixels of 1024 units.
pub proof fn lemma_caret_left(x: i32, width: i32)
    ensures
        ({
            let w = crate::double::one() as int;
            let left = if width < 0 {
                x + width
            } else {
                x as int
            };
            close(
                1024 * crate::hud::caret_at(x, width).value(),
                left * w,
                1024 * crate::rounding::two_to(1054) as int,
            )
        }),
{
    let w = crate::double::one() as int;
    let g = crate::rounding::two_to(1054) as int;
    let back: int = if width < 0 {
        width as int
    } else {
        0
    };
    crate::exits::lemma_pixels();
    lemma_integer(x as int);
    lemma_integer(back);
    lemma_integer(1024);
    let (a, b, k) = (Double::integer(x as int), Double::integer(back), Double::integer(1024));
    let left = x + back;
    assert(x * w + back * w == left * w) by (nonlinear_arith)
        requires
            left == x + back,
    ;
    crate::order::lemma_sum(a, b);
    crate::bounds::lemma_rounded_int(left);
    let s = a.sum(b);
    crate::bounds::lemma_sign(s);
    assert(-(0x1_0000_0000 * w) <= left * w <= 0x1_0000_0000 * w) by (nonlinear_arith)
        requires
            -0x1_0000_0000 <= left <= 0x1_0000_0000,
            w > 0,
    ;
    lemma_over(s, k, 1024, 0x1_0000_0000);
}

/// A number divided by a whole one.
pub(crate) proof fn lemma_over(d: Double, by: Double, n: nat, limit: nat)
    requires
        d.finite(),
        by.finite(),
        n > 0,
        by.value() == n * crate::double::one(),
        crate::double::size(d.value()) <= limit * crate::double::one(),
        limit <= 0x2_0000_0000 * n,
    ensures
        d.quotient(by).finite(),
        close(
            n * d.quotient(by).value(),
            d.value(),
            n * crate::rounding::two_to(1054) as int,
        ),
{
    let w = crate::double::one() as int;
    let g = crate::rounding::two_to(1054) as int;
    let step = crate::rounding::STEP as int;
    let x = crate::double::size(d.value()) as int;
    crate::exits::lemma_pixels();
    assert(n * w > 0 && x * w <= (2 * step) * (g * (n * w))) by (nonlinear_arith)
        requires
            0 <= x <= limit * w,
            limit <= 0x2_0000_0000 * n,
            0x2_0000_0000 * w == (2 * step) * g,
            w > 0,
            n > 0,
    {
        assert(x <= (0x2_0000_0000 * n) * w);
        assert(x * w <= ((0x2_0000_0000 * n) * w) * w);
        assert(((0x2_0000_0000 * n) * w) * w == (0x2_0000_0000 * w) * (n * w));
        assert(((2 * step) * g) * (n * w) == (2 * step) * (g * (n * w)));
    }
    crate::near::lemma_quotient_close(d, by, 1054);
    let q = d.quotient(by).value();
    assert(close(n * q, d.value(), n * g)) by (nonlinear_arith)
        requires
            -(g * (n * w)) <= q * (n * w) - d.value() * w <= g * (n * w),
            w > 0,
    {
        assert(q * (n * w) - d.value() * w == (n * q - d.value()) * w);
        assert(g * (n * w) == (n * g) * w);
    }
}

/// The clock of a window counts milliseconds from its first frame.
pub proof fn lemma_clock(t0: i64, now: i64)
    requires
        -0x200_0000_0000 <= now - t0 <= 0x200_0000_0000,
    ensures
        close(
            1000 * crate::hud::elapsed_ms(t0, now).value(),
            (now - t0) * crate::double::one(),
            1000 * crate::rounding::two_to(1054) as int,
        ),
{
    let w = crate::double::one() as int;
    let us = now - t0;
    crate::exits::lemma_pixels();
    lemma_integer(us);
    crate::order::lemma_whole(1000);
    let d = Double::integer(us);
    assert(-(0x200_0000_0000 * w) <= us * w <= 0x200_0000_0000 * w) by (nonlinear_arith)
        requires
            -0x200_0000_0000 <= us <= 0x200_0000_0000,
            w > 0,
    ;
    lemma_over(d, Double::whole(1000), 1000, 0x200_0000_0000);
}

/// A window's frames: the clock starts with the first of them and is not set
/// again; a frame is drawn again where its phase is another or its caret
/// changes; the window closes when the message is over.
pub proof fn lemma_frames(
    frame: Frame,
    now: i64,
    tl: TimelineView,
    reveal: Reveal,
    vanish: Vanish,
)
    ensures
        ({
            let (next, tick) = crate::hud::ticked(frame, now, tl, reveal, vanish);
            let t = crate::hud::elapsed_ms(next.t0->0, now);
            &&& next.t0 is Some
            &&& tick.first <==> frame.t0 is None
            &&& next.t0 == if frame.t0 is Some {
                frame.t0
            } else {
                Some(now)
            }
            &&& next.phase == tl.phase(t)
            &&& next.blink == crate::hud::caret_on(reveal, vanish, next.phase, t)
            &&& tick.close <==> next.phase is Done
            &&& next.blink != frame.blink ==> tick.redraw
            &&& next.blink == frame.blink ==> (tick.redraw <==> match (next.phase, frame.phase) {
                (Phase::Reveal { chars: a }, Phase::Reveal { chars: b }) => a != b,
                (Phase::Hold, Phase::Hold) => false,
                (Phase::Vanish { p: a }, Phase::Vanish { p: b }) => a.nan() || b.nan() || a.value()
                    != b.value(),
                (Phase::Done, Phase::Done) => false,
                _ => true,
            })
        }),
{
}

/// What is visible: the characters typed so far, then all of them; while they
/// are untyped, those that are left.
pub proof fn lemma_visible_chars(tl: TimelineView, phase: Phase)
    ensures
        ({
            let n = crate::hud::visible_of(tl, phase);
            match phase {
                Phase::Reveal { chars } => n == chars,
                Phase::Vanish { p } => n == if tl.untype {
                    tl.left(p)
                } else {
                    tl.chars as int
                },
                _ => n == tl.chars,
            }
        }),
{
}

/// Whether the caret is there: never where the typewriter has none; always while
/// it types, and while it untypes whatever typed it; by turns of 530 ms while the
/// message is held; and not when it is over.
pub proof fn lemma_caret(reveal: Reveal, vanish: Vanish, phase: Phase, t: Double, n: nat)
    requires
        t.finite(),
        n <= 0x100_0000,
        (530 * n) * crate::double::one() <= t.value() <= (530 * n + 529) * crate::double::one(),
    ensures
        ({
            let on = crate::hud::caret_on(reveal, vanish, phase, t);
            let typed = reveal is Typewriter;
            &&& typed && !reveal->cursor ==> !on
            &&& !(typed && !reveal->cursor) ==> match phase {
                Phase::Reveal { .. } => on == typed,
                Phase::Hold => on == (typed && n % 2 == 0),
                Phase::Vanish { .. } => on == (vanish is Untype),
                Phase::Done => !on,
            }
        }),
{
    let w = crate::double::one() as int;
    let g = crate::rounding::two_to(1054) as int;
    let k = Double::whole(530);
    crate::exits::lemma_pixels();
    crate::order::lemma_whole(530);
    assert(0 <= (530 * n) * w && (530 * n + 529) * w <= 0x2_1c00_0000 * w) by (nonlinear_arith)
        requires
            n <= 0x100_0000,
            w > 0,
    ;
    lemma_over(t, k, 530, 0x2_1c00_0000);
    let q = t.quotient(k);
    let (x, v) = (t.value(), q.value());
    // Not below the whole number of turns.
    crate::order::lemma_whole(n);
    crate::order::lemma_whole(530 * n);
    crate::order::lemma_quotient_mono(Double::whole(530 * n), t, k);
    lemma_turns(n);
    assert(v < (n + 1) * w) by (nonlinear_arith)
        requires
            530 * v <= x + 530 * g,
            x <= (530 * n + 529) * w,
            w == 0x10_0000 * g,
            g > 0,
    ;
    let f = q.floor_word();
    let m = v / w;
    assert(v > 0 ==> m == n) by (nonlinear_arith)
        requires
            m == v / w,
            n * w <= v < (n + 1) * w,
            w > 0,
    ;
    if v <= 0 {
        assert(n == 0) by (nonlinear_arith)
            requires
                n * w <= v,
                v <= 0,
                w > 0,
        ;
    }
}

/// A whole number of turns, divided by a turn.
proof fn lemma_turns(n: nat)
    requires
        n <= 0x100_0000,
    ensures
        Double::whole(530 * n).quotient(Double::whole(530)).value() == n * crate::double::one(),
{
    let w = crate::double::one();
    crate::order::lemma_whole(n);
    crate::order::lemma_whole(530 * n);
    crate::order::lemma_whole(530);
    crate::rounding::lemma_two_to_pos(1074);
    let m = Double::whole(n).magnitude();
    assert(((530 * n) * w) * w == (n * w) * (530 * w) && (530 * n) * w >= 0 && n * w >= 0 && 530 * w
        > 0) by (nonlinear_arith)
        requires
            w > 0,
    ;
    crate::order::lemma_zero(Double::whole(530));
    crate::rounding::lemma_nearest_exact(m, 530 * w);
    crate::order::lemma_of(false, m);
}

} // verus!
