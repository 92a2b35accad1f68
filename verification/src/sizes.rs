//! The sizes of fonts, strokes, carets and masks, in plain numbers.
use crate::double::Double;
use crate::near::close;
use crate::synth::HALF;
use vstd::prelude::*;

verus! {

/// A number some times over.
pub(crate) proof fn lemma_by_whole(d: Double, n: nat)
    requires
        d.finite(),
        n <= 0x10_0000,
        crate::double::size(d.value()) * n <= 0x2_0000_0000 * crate::double::one(),
    ensures
        d.product(Double::whole(n)).finite(),
        close(
            d.product(Double::whole(n)).value(),
            n * d.value(),
            crate::rounding::two_to(1054) as int,
        ),
{
    let w = crate::double::one() as int;
    let g = crate::rounding::two_to(1054) as int;
    let x = crate::double::size(d.value()) as int;
    crate::exits::lemma_pixels();
    crate::order::lemma_whole(n);
    assert(x * (n * w) <= (0x2_0000_0000 * w) * w && n * w >= 0) by (nonlinear_arith)
        requires
            x * n <= 0x2_0000_0000 * w,
            w > 0,
    {
        assert(x * (n * w) == (x * n) * w);
    }
    crate::drawing::lemma_times(d, Double::whole(n));
    let (v, y) = (d.value(), d.product(Double::whole(n)).value());
    assert(close(y, n * v, g)) by (nonlinear_arith)
        requires
            -(g * w) <= y * w - v * (n * w) <= g * w,
            w > 0,
    {
        assert(v * (n * w) == (n * v) * w);
        assert((y - n * v) * w == y * w - (n * v) * w);
    }
}

/// A sum of positions.
pub(crate) proof fn lemma_together(a: Double, b: Double)
    requires
        a.finite(),
        b.finite(),
        crate::double::size(a.value() + b.value()) <= 0x2_0000_0000 * crate::double::one(),
    ensures
        a.sum(b).finite(),
        close(
            a.sum(b).value(),
            a.value() + b.value(),
            crate::rounding::two_to(1054) as int,
        ),
{
    crate::exits::lemma_pixels();
    crate::near::lemma_sum_close(a, b, 1054);
}

/// One half.
pub(crate) proof fn lemma_half()
    ensures
        (Double { bits: HALF }).finite(),
        !(Double { bits: HALF }).negative(),
        2 * (Double { bits: HALF }).value() == crate::double::one(),
{
    crate::near::lemma_bits(HALF, 1021, crate::rounding::STEP as nat);
    crate::rounding::lemma_two_to_values();
    crate::rounding::lemma_two_to_add(52, 1021);
    crate::rounding::lemma_two_to_add(1, 1073);
}

/// A font's size: 1024 units to a point, and 96 to the inch of 72 points where
/// they are device units. A description without a size has none.
pub proof fn lemma_points(size: i32, absolute: bool)
    ensures
        ({
            let w = crate::double::one() as int;
            let g = crate::rounding::two_to(1054) as int;
            let p = crate::hud::points_of(size, absolute);
            &&& p.finite()
            &&& size <= 0 ==> p.value() == 0
            &&& size > 0 && !absolute ==> close(1024 * p.value(), size * w, 1024 * g)
            &&& size > 0 && absolute ==> close(
                98_304 * p.value(),
                72 * (size * w),
                0x4_0000 * g,
            )
        }),
{
    let w = crate::double::one() as int;
    let g = crate::rounding::two_to(1054) as int;
    crate::exits::lemma_pixels();
    crate::order::lemma_whole(0);
    assert(0 * w == 0);
    if size > 0 {
        crate::drawing::lemma_integer(size as int);
        crate::drawing::lemma_integer(1024);
        let d = Double::integer(size as int);
        assert(0 <= size * w <= 0x8000_0000 * w) by (nonlinear_arith)
            requires
                0 <= size <= 0x7fff_ffff,
                w > 0,
        ;
        crate::drawing::lemma_over(d, Double::integer(1024), 1024, 0x8000_0000);
        let p = d.quotient(Double::integer(1024));
        assert(close(1024 * p.value(), size * w, 1024 * g));
        if absolute {
            lemma_by_whole(p, 72);
            crate::order::lemma_whole(96);
            crate::drawing::lemma_over(
                p.product(Double::whole(72)),
                Double::whole(96),
                96,
                0x2_0000_0000,
            );
            let (a, b) = (p.value(), p.product(Double::whole(72)).value());
            let c = p.product(Double::whole(72)).quotient(Double::whole(96)).value();
            assert(close(b, 72 * a, g));
            assert(close(96 * c, b, 96 * g));
        }
    }
}

/// The stroke is as wide as it was asked for, and never less than nothing; and
/// else a fourteenth of the font's points, half a pixel at the least, and one
/// pixel where the font has no size.
pub proof fn lemma_stroke(points: Double, configured: Option<Double>)
    requires
        points.finite(),
        points.value() <= 0x1_0000_0000 * crate::double::one(),
    ensures
        ({
            let w = crate::double::one() as int;
            let g = crate::rounding::two_to(1054) as int;
            let v = crate::hud::stroke_of(points, configured);
            match configured {
                Some(c) => !c.nan() ==> v.value() == if c.value() > 0 {
                    c.value()
                } else {
                    0
                },
                None => if points.value() <= 0 {
                    v.value() == w
                } else {
                    &&& 2 * v.value() >= w
                    &&& 14 * v.value() >= points.value() - 14 * g
                    &&& 2 * v.value() == w || 14 * v.value() <= points.value() + 14 * g
                },
            }
        }),
{
    crate::exits::lemma_pixels();
    crate::timeline::lemma_small();
    crate::order::lemma_whole(0);
    crate::order::lemma_whole(14);
    lemma_half();
    if configured is None && points.value() > 0 {
        crate::drawing::lemma_over(points, Double::whole(14), 14, 0x1_0000_0000);
    }
}

/// A caret is as wide as a wide glyph, and half as wide as the line is high
/// where there is none.
pub proof fn lemma_caret_wide(advance: Double, line: Double)
    requires
        line.finite(),
        crate::double::size(line.value()) <= 0x1_0000_0000 * crate::double::one(),
    ensures
        ({
            let v = crate::hud::caret_wide(advance, line);
            &&& !advance.nan() && advance.value() > 0 ==> v == advance
            &&& advance.nan() || advance.value() <= 0 ==> close(
                2 * v.value(),
                line.value(),
                2 * crate::rounding::two_to(1054) as int,
            )
        }),
{
    let w = crate::double::one() as int;
    let g = crate::rounding::two_to(1054) as int;
    crate::exits::lemma_pixels();
    crate::timeline::lemma_small();
    lemma_half();
    let half = Double { bits: HALF };
    let h = half.value();
    let x = crate::double::size(line.value()) as int;
    assert(x * h <= (0x2_0000_0000 * w) * w) by (nonlinear_arith)
        requires
            0 <= x <= 0x1_0000_0000 * w,
            2 * h == w,
            w > 0,
    {
        assert(x * h <= (0x1_0000_0000 * w) * h);
    }
    crate::drawing::lemma_times(line, half);
    let (l, v) = (line.value(), line.product(half).value());
    assert(close(2 * v, l, 2 * g)) by (nonlinear_arith)
        requires
            -(g * w) <= v * w - l * h <= g * w,
            2 * h == w,
            w > 0,
    {
        assert((2 * v - l) * w == 2 * (v * w - l * h));
        assert(2 * (g * w) == (2 * g) * w);
    }
}

/// The integer that covers a number: not below it, and less than one above.
proof fn lemma_covers(d: Double)
    requires
        !d.nan(),
        -(0x4000_0000 * crate::double::one()) <= d.value() <= 0x4000_0000 * crate::double::one(),
    ensures
        d.value() <= d.ceil_int() * crate::double::one() < d.value() + crate::double::one(),
        -0x4000_0000 <= d.ceil_int() <= 0x4000_0000,
{
    let w = crate::double::one() as int;
    let v = d.value();
    crate::rounding::lemma_two_to_pos(1074);
    if v <= 0 {
        let m = crate::double::size(v) as int;
        let q = m / w;
        assert(q * w <= m < (q + 1) * w && 0 <= q <= 0x4000_0000) by (nonlinear_arith)
            requires
                q == m / w,
                0 <= m <= 0x4000_0000 * w,
                w > 0,
        ;
        assert((-q) * w == -(q * w) && (q + 1) * w == q * w + w) by (nonlinear_arith);
    } else {
        let q = (v + w - 1) / w;
        assert(v <= q * w < v + w && 0 <= q <= 0x4000_0000) by (nonlinear_arith)
            requires
                q == (v + w - 1) / w,
                0 < v <= 0x4000_0000 * w,
                w > 0,
        ;
    }
}

/// A length in device pixels: what `n` pixels come to, held against a logical
/// length and a scale.
pub open spec fn covers(n: int, length: int, scale: int) -> bool {
    let w = crate::double::one() as int;
    let slack = 512 * (crate::rounding::two_to(1054) * w);
    length * scale - slack <= (n * w) * w <= length * scale + w * w + slack
}

/// A length times a scale, up to the next integer.
proof fn lemma_scaled_up(d: Double, length: int, scale: Double)
    requires
        d.finite(),
        scale.finite(),
        close(d.value(), length, 4 * crate::rounding::two_to(1054) as int),
        0 <= length <= 0x80_0000 * crate::double::one(),
        0 <= scale.value() <= 0x40 * crate::double::one(),
    ensures
        covers(d.product(scale).ceil_int(), length, scale.value()),
        -0x4000_0000 <= d.product(scale).ceil_int() <= 0x4000_0000,
{
    let w = crate::double::one() as int;
    let g = crate::rounding::two_to(1054) as int;
    let (v, s) = (d.value(), scale.value());
    let x = crate::double::size(v) as int;
    crate::exits::lemma_pixels();
    assert(0 <= x * s <= (0x2100_0000 * w) * w && x * s <= (0x2_0000_0000 * w) * w)
        by (nonlinear_arith)
        requires
            0 <= x <= 0x80_0001 * w,
            0 <= s <= 0x40 * w,
            w > 0,
    {
        assert(x * s <= (0x80_0001 * w) * s);
        assert((0x80_0001 * w) * s <= (0x80_0001 * w) * (0x40 * w));
        assert((0x80_0001 * w) * (0x40 * w) == (0x2000_0040 * w) * w);
    }
    crate::drawing::lemma_times(d, scale);
    let p = d.product(scale).value();
    assert(v * s == x * s || v * s == -(x * s)) by (nonlinear_arith)
        requires
            v == x || v == -x,
    ;
    assert(-(0x4000_0000 * w) <= p <= 0x4000_0000 * w) by (nonlinear_arith)
        requires
            -(g * w) <= p * w - v * s <= g * w,
            -((0x2100_0000 * w) * w) <= v * s <= (0x2100_0000 * w) * w,
            w == 0x10_0000 * g,
            g > 0,
    {
        assert(p * w <= (0x2100_0000 * w + g) * w);
        assert(p * w >= (-(0x2100_0000 * w) - g) * w);
    }
    lemma_covers(d.product(scale));
    let n = d.product(scale).ceil_int();
    assert(length * s - 512 * (g * w) <= (n * w) * w <= length * s + w * w + 512 * (g * w))
        by (nonlinear_arith)
        requires
            p <= n * w < p + w,
            -(g * w) <= p * w - v * s <= g * w,
            -(4 * g) <= v - length <= 4 * g,
            0 <= s <= 0x40 * w,
            w > 0,
            g > 0,
    {
        assert(p * w <= (n * w) * w <= (p + w) * w);
        assert((p + w) * w == p * w + w * w);
        assert(v * s - length * s == (v - length) * s);
        assert(-(4 * g) * s <= (v - length) * s <= (4 * g) * s);
        assert((4 * g) * s <= (4 * g) * (0x40 * w));
        assert((4 * g) * (0x40 * w) == 256 * (g * w));
    }
}

/// A text with the padding on both sides.
proof fn lemma_padded(text: i32, pad: Double)
    requires
        pad.finite(),
        0 <= text <= 0x40_0000,
        0 <= pad.value() <= 0x20_0000 * crate::double::one(),
    ensures
        ({
            let d = Double::integer(text as int).sum(pad.product(Double::whole(2)));
            let length = text * crate::double::one() + 2 * pad.value();
            &&& d.finite()
            &&& close(d.value(), length, 2 * crate::rounding::two_to(1054) as int)
            &&& 0 <= length <= 0x80_0000 * crate::double::one()
        }),
{
    let w = crate::double::one() as int;
    crate::exits::lemma_pixels();
    crate::drawing::lemma_integer(text as int);
    assert(0 <= text * w <= 0x40_0000 * w) by (nonlinear_arith)
        requires
            0 <= text <= 0x40_0000,
            w > 0,
    ;
    lemma_by_whole(pad, 2);
    lemma_together(Double::integer(text as int), pad.product(Double::whole(2)));
}

/// A mask covers the text with the padding on both sides, at its scale.
pub proof fn lemma_mask(text: i32, pad: Double, scale: Double)
    requires
        pad.finite(),
        scale.finite(),
        0 <= text <= 0x40_0000,
        0 <= pad.value() <= 0x20_0000 * crate::double::one(),
        0 <= scale.value() <= 0x40 * crate::double::one(),
    ensures
        covers(
            crate::hud::mask_of(text, pad, scale),
            text * crate::double::one() + 2 * pad.value(),
            scale.value(),
        ),
{
    let d = Double::integer(text as int).sum(pad.product(Double::whole(2)));
    crate::exits::lemma_pixels();
    lemma_padded(text, pad);
    lemma_scaled_up(d, text * crate::double::one() + 2 * pad.value(), scale);
}

/// The part of a mask that is live covers the padding, the way to the position
/// and the reach after it, unless the mask ends before; it is never empty.
pub proof fn lemma_live(pad: Double, at: Double, reach: Double, scale: Double, full: i32)
    requires
        pad.finite(),
        at.finite(),
        reach.finite(),
        scale.finite(),
        0 <= pad.value() <= 0x20_0000 * crate::double::one(),
        0 <= at.value() <= 0x20_0000 * crate::double::one(),
        0 <= reach.value() <= 0x20_0000 * crate::double::one(),
        0 <= scale.value() <= 0x40 * crate::double::one(),
        full >= 1,
    ensures
        ({
            let w = crate::double::one() as int;
            let slack = 512 * (crate::rounding::two_to(1054) * w);
            let n = crate::hud::live_of(pad, at, reach, scale, full);
            let length = pad.value() + at.value() + reach.value();
            &&& 1 <= n <= full
            &&& n == full || (n * w) * w >= length * scale.value() - slack
            &&& n == 1 || (n * w) * w <= length * scale.value() + w * w + slack
        }),
{
    let w = crate::double::one() as int;
    let d = pad.sum(at).sum(reach);
    let length = pad.value() + at.value() + reach.value();
    crate::exits::lemma_pixels();
    lemma_together(pad, at);
    lemma_together(pad.sum(at), reach);
    lemma_scaled_up(d, length, scale);
    let n = d.product(scale).ceil_int();
    assert(n < 1 ==> (n * w) * w <= (1 * w) * w) by (nonlinear_arith)
        requires
            w > 0,
    ;
    assert(n > full ==> (full * w) * w <= (n * w) * w) by (nonlinear_arith)
        requires
            w > 0,
    ;
}

/// A caret's halo covers the caret and the reach on both sides of it.
pub proof fn lemma_halo(size: Double, reach: Double)
    requires
        size.finite(),
        reach.finite(),
        0 <= size.value() <= 0x1000_0000 * crate::double::one(),
        0 <= reach.value() <= 0x1000_0000 * crate::double::one(),
    ensures
        ({
            let w = crate::double::one() as int;
            let g = crate::rounding::two_to(1054) as int;
            let n = crate::hud::halo_of(size, reach);
            let length = size.value() + 2 * reach.value();
            length - 2 * g <= n * w <= length + w + 2 * g
        }),
{
    crate::exits::lemma_pixels();
    lemma_by_whole(reach, 2);
    lemma_together(size, reach.product(Double::whole(2)));
    lemma_covers(size.sum(reach.product(Double::whole(2))));
}

/// A pass of the blur in device pixels is the whole number nearest to the pass
/// at the scale, and one at the least.
pub proof fn lemma_radius(pass: u64, scale: Double)
    requires
        scale.finite(),
        pass <= 0x10_0000,
        0 <= scale.value() <= 0x40 * crate::double::one(),
    ensures
        ({
            let w = crate::double::one() as int;
            let g = crate::rounding::two_to(1054) as int;
            let r = crate::hud::radius_of(pass, scale);
            let exact = pass * scale.value();
            &&& r >= 1
            &&& 2 * (r * w) >= 2 * exact - w - 2 * g
            &&& r == 1 || 2 * (r * w) <= 2 * exact + w + 2 * g
        }),
{
    let w = crate::double::one() as int;
    let g = crate::rounding::two_to(1054) as int;
    let s = scale.value();
    let p = Double::whole(pass as nat);
    crate::exits::lemma_pixels();
    crate::order::lemma_whole(pass as nat);
    assert(pass * w >= 0 && (pass * w) * s <= (0x400_0000 * w) * w && (pass * w) * s >= 0)
        by (nonlinear_arith)
        requires
            0 <= pass <= 0x10_0000,
            0 <= s <= 0x40 * w,
            w > 0,
    {
        assert(pass * w <= 0x10_0000 * w);
        assert((pass * w) * s <= (0x10_0000 * w) * s);
        assert((0x10_0000 * w) * s <= (0x10_0000 * w) * (0x40 * w));
        assert((0x10_0000 * w) * (0x40 * w) == (0x400_0000 * w) * w);
    }
    assert((0x400_0000 * w) * w <= (0x2_0000_0000 * w) * w) by (nonlinear_arith)
        requires
            w > 0,
    ;
    crate::drawing::lemma_times(p, scale);
    let x = p.product(scale);
    let v = x.value();
    assert(close(v, pass * s, g) && v <= 0x500_0000 * w) by (nonlinear_arith)
        requires
            -(g * w) <= v * w - (pass * w) * s <= g * w,
            (pass * w) * s <= (0x400_0000 * w) * w,
            w == 0x10_0000 * g,
            g > 0,
    {
        assert((v - pass * s) * w == v * w - (pass * w) * s);
        assert(v * w <= (0x400_0000 * w + g) * w);
    }
    lemma_nearest_whole(x, 0x500_0000);
    let n = x.round_word();
    if n < 1 {
        assert(n == 0);
        assert(0 * w == 0);
    }
    assert(1 * w == w);
}

/// The whole number nearest to a number that is not negative.
pub(crate) proof fn lemma_nearest_whole(d: Double, limit: nat)
    requires
        !d.nan(),
        d.value() <= limit * crate::double::one(),
        limit <= 0x20_0000_0000_0000,
    ensures
        0 <= d.round_word() <= limit,
        d.value() <= 0 ==> d.round_word() == 0,
        d.value() >= 0 ==> close(
            2 * (d.round_word() * crate::double::one()),
            2 * d.value(),
            crate::double::one() as int,
        ),
{
    let w = crate::double::one() as int;
    let v = d.value();
    crate::rounding::lemma_two_to_pos(1074);
    crate::sound::lemma_round_bound(d, limit);
    if v > 0 {
        let q = (2 * v + w) / (2 * w);
        assert(-w <= 2 * (q * w) - 2 * v <= w && q >= 0 && q <= limit) by (nonlinear_arith)
            requires
                q == (2 * v + w) / (2 * w),
                0 < v <= limit * w,
                w > 0,
        {
            let m = 2 * v + w;
            assert(q * (2 * w) <= m < (q + 1) * (2 * w));
        }
    } else {
        assert(0 * w == 0);
    }
}

/// A mask's scale times the padded text is the mask.
pub proof fn lemma_mask_scale(mask: i32, text: i32, pad: Double)
    requires
        pad.finite(),
        0 <= mask <= 0x4000_0000,
        1 <= text <= 0x40_0000,
        0 <= pad.value() <= 0x20_0000 * crate::double::one(),
    ensures
        ({
            let w = crate::double::one() as int;
            let g = crate::rounding::two_to(1054) as int;
            let s = crate::hud::scale_between(mask, text, pad);
            let length = text * w + 2 * pad.value();
            &&& s.finite()
            &&& close(s.value() * length, (mask * w) * w, 2 * (s.value() * g) + 2 * (g * length))
        }),
{
    let w = crate::double::one() as int;
    let g = crate::rounding::two_to(1054) as int;
    let step = crate::rounding::STEP as int;
    let d = Double::integer(text as int).sum(pad.product(Double::whole(2)));
    let m = Double::integer(mask as int);
    let length = text * w + 2 * pad.value();
    crate::exits::lemma_pixels();
    crate::drawing::lemma_integer(mask as int);
    lemma_padded(text, pad);
    let (x, v) = (m.value(), d.value());
    assert(text * w >= w && 0 <= mask * w <= 0x4000_0000 * w) by (nonlinear_arith)
        requires
            text >= 1,
            0 <= mask <= 0x4000_0000,
            w > 0,
    ;
    assert(x * w <= (2 * step) * (g * v)) by (nonlinear_arith)
        requires
            0 <= x <= 0x4000_0000 * w,
            2 * v >= w,
            0x2_0000_0000 * w == (2 * step) * g,
            w > 0,
    {
        assert(x * w <= (0x4000_0000 * w) * w);
        assert((0x4000_0000 * w) * w <= (0x2_0000_0000 * w) * v);
        assert((2 * step) * (g * v) == ((2 * step) * g) * v);
    }
    crate::near::lemma_quotient_close(m, d, 1054);
    let s = m.quotient(d).value();
    crate::order::lemma_zero(m);
    crate::order::lemma_zero(d);
    assert(s >= 0) by {
        assert(!m.negative());
        assert(!d.negative());
    }
    assert(close(s * length, x * w, 2 * (s * g) + 2 * (g * length))) by (nonlinear_arith)
        requires
            -(g * v) <= s * v - x * w <= g * v,
            -(2 * g) <= v - length <= 2 * g,
            s >= 0,
            g > 0,
            2 * length >= w,
            w == 0x10_0000 * g,
    {
        assert(s * v - s * length == s * (v - length));
        assert(-(s * (2 * g)) <= s * (v - length) <= s * (2 * g));
        assert(s * (2 * g) == 2 * (s * g));
        assert(v <= 2 * length);
        assert(g * v <= g * (2 * length));
        assert(g * (2 * length) == 2 * (g * length));
    }
}

/// A text's bytes are those of its first characters and then those of the rest:
/// the byte after the visible characters is where the rest starts.
pub proof fn lemma_bytes_split(text: Seq<char>, n: nat)
    requires
        n <= text.len(),
    ensures
        vstd::utf8::encode_utf8(text) == vstd::utf8::encode_utf8(text.take(n as int))
            + vstd::utf8::encode_utf8(text.skip(n as int)),
        crate::hud::byte_offset(text, n) <= vstd::utf8::encode_utf8(text).len(),
        vstd::utf8::encode_utf8(text).skip(crate::hud::byte_offset(text, n) as int)
            == vstd::utf8::encode_utf8(text.skip(n as int)),
        crate::hud::byte_offset(text, text.len()) == vstd::utf8::encode_utf8(text).len(),
    decreases n,
{
    let all = vstd::utf8::encode_utf8(text);
    let rest = vstd::utf8::encode_utf8(text.skip(n as int));
    assert(text.take(text.len() as int) =~= text);
    if n == 0 {
        assert(text.take(0) =~= Seq::<char>::empty());
        assert(text.skip(0) =~= text);
        assert(all =~= vstd::utf8::encode_utf8(text.take(0)) + rest);
    } else {
        let tail = text.drop_first();
        let m = (n - 1) as nat;
        lemma_bytes_split(tail, m);
        assert(text.take(n as int).drop_first() =~= tail.take(m as int));
        assert(tail.skip(m as int) =~= text.skip(n as int));
        assert(text.take(n as int)[0] == text[0]);
        assert(all =~= vstd::utf8::encode_utf8(text.take(n as int)) + rest);
    }
    assert(all.skip(crate::hud::byte_offset(text, n) as int) =~= rest);
}

/// A text has no more visible characters than characters.
pub proof fn lemma_bytes_end(text: Seq<char>, n: nat)
    requires
        n >= text.len(),
    ensures
        crate::hud::byte_offset(text, n) == vstd::utf8::encode_utf8(text).len(),
{
    assert(text.take(text.len() as int) =~= text);
}

} // verus!
