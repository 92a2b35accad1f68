//! How a message leaves, in plain numbers: where the edge of a wash is, how far
//! a fade or a collapse has come, and which blocks are left of a dissolve.
use crate::config::{Dir, Vanish};
use crate::double::Double;
use crate::hud::{BLINK_OUT, BLINK_SPAN, BLOOM, SOFTNESS, WHITEN};
use crate::near::close;
use vstd::prelude::*;

verus! {

/// The softness of an edge and the way it goes, as they are computed.
spec fn soft(h: Double) -> Double {
    h.product(Double { bits: SOFTNESS }).larger(Double::whole(8))
}

spec fn span(h: Double) -> Double {
    h.sum(soft(h).product(Double::whole(2)))
}

/// The scale of positions.
pub(crate) proof fn lemma_pixels()
    ensures
        crate::double::one() > 0,
        crate::rounding::two_to(1054) > 0,
        0x2_0000_0000 * crate::double::one() == (2 * crate::rounding::STEP)
            * crate::rounding::two_to(1054),
        crate::double::one() == 0x10_0000 * crate::rounding::two_to(1054),
        crate::rounding::two_to(1054) == 0x4_0000_0000 * crate::rounding::two_to(1020),
        crate::double::one() == 0x40_0000_0000_0000 * crate::rounding::two_to(1020),
        Double::whole(8).finite(),
        Double::whole(8).value() == 8 * crate::double::one(),
        Double::whole(2).finite(),
        Double::whole(2).value() == 2 * crate::double::one(),
{
    reveal_with_fuel(crate::rounding::two_to, 18);
    crate::rounding::lemma_two_to_values();
    crate::rounding::lemma_two_to_pos(1054);
    crate::rounding::lemma_two_to_pos(1074);
    crate::rounding::lemma_two_to_add(53, 1054);
    crate::rounding::lemma_two_to_add(16, 17);
    crate::rounding::lemma_two_to_add(17, 17);
    crate::rounding::lemma_two_to_add(10, 10);
    crate::rounding::lemma_two_to_add(1, 53);
    crate::rounding::lemma_two_to_add(33, 1074);
    crate::rounding::lemma_two_to_add(20, 1054);
    crate::rounding::lemma_two_to_add(34, 1020);
    crate::rounding::lemma_two_to_add(54, 1020);
    crate::order::lemma_whole(8);
    crate::order::lemma_whole(2);
}

/// The softness is 0.35 of the height, eight pixels at the least, and the way
/// is the height and the softness on both sides of it.
proof fn lemma_soft_span(h: Double)
    requires
        h.finite(),
        0 <= h.value() <= 0x8000_0000 * crate::double::one(),
    ensures
        ({
            let w = crate::double::one() as int;
            let g = crate::rounding::two_to(1054) as int;
            let s = soft(h).value();
            &&& soft(h).finite()
            &&& span(h).finite()
            &&& 8 * w <= s <= 0x4000_0000 * w
            &&& close(
                20 * s,
                if 7 * h.value() < 160 * w {
                    160 * w
                } else {
                    7 * h.value()
                },
                21 * g,
            )
            &&& close(span(h).value(), h.value() + 2 * s, 2 * g)
        }),
{
    let w = crate::double::one() as int;
    let g = crate::rounding::two_to(1054) as int;
    let u = crate::rounding::two_to(1020) as int;
    let step = crate::rounding::STEP as int;
    let c = Double { bits: SOFTNESS };
    let hv = h.value();
    lemma_pixels();
    crate::near::lemma_bits(SOFTNESS, 1020, 0x16_6666_6666_6666);
    let cv = c.value();
    assert(20 * cv == 7 * w - 8 * u);
    assert(hv * cv <= (2 * step) * (g * w)) by (nonlinear_arith)
        requires
            0 <= hv <= 0x8000_0000 * w,
            0 <= cv <= w,
            0x2_0000_0000 * w == (2 * step) * g,
            w > 0,
    {
        assert(hv * cv <= (0x8000_0000 * w) * w);
        assert((0x2_0000_0000 * w) * w == ((2 * step) * g) * w);
    }
    crate::near::lemma_product_close(h, c, 1054);
    let x = h.product(c).value();
    assert(close(20 * x, 7 * hv, 21 * g)) by (nonlinear_arith)
        requires
            -(g * w) <= x * w - hv * cv <= g * w,
            20 * cv == 7 * w - 8 * u,
            0 <= hv <= 0x8000_0000 * w,
            g == 0x4_0000_0000 * u,
            u >= 0,
            w > 0,
    {
        assert(20 * (hv * cv) == 7 * (hv * w) - 8 * (hv * u));
        assert(0 <= hv * u <= (0x8000_0000 * w) * u);
        assert(8 * ((0x8000_0000 * w) * u) == g * w);
        assert((20 * x - 7 * hv) * w == 20 * (x * w) - 7 * (hv * w));
        assert(-(21 * g) * w <= (20 * x - 7 * hv) * w <= (21 * g) * w);
    }
    let s = soft(h).value();
    let two = Double::whole(2);
    assert(s * (2 * w) <= (2 * step) * (g * w)) by (nonlinear_arith)
        requires
            0 <= s <= 0x4000_0000 * w,
            0x2_0000_0000 * w == (2 * step) * g,
            w > 0,
    {
        assert(s * (2 * w) <= (0x4000_0000 * w) * (2 * w));
        assert((0x2_0000_0000 * w) * w == ((2 * step) * g) * w);
    }
    crate::near::lemma_product_close(soft(h), two, 1054);
    let d = soft(h).product(two);
    assert(close(d.value(), 2 * s, g)) by (nonlinear_arith)
        requires
            -(g * w) <= d.value() * w - s * (2 * w) <= g * w,
            w > 0,
    ;
    crate::near::lemma_sum_close(h, d, 1054);
}

/// Where the edge of a wash is, by the softness and the way.
proof fn lemma_edge(h: Double, p: Double, dir: Dir)
    requires
        h.finite(),
        0 <= h.value() <= 0x8000_0000 * crate::double::one(),
        p.finite(),
        0 <= p.value() <= crate::double::one(),
    ensures
        ({
            let w = crate::double::one() as int;
            let g = crate::rounding::two_to(1054) as int;
            let (top, bottom) = crate::hud::edge_of(h, p, dir);
            let s = soft(h).value();
            let gone = p.value() * (h.value() + 2 * s);
            &&& top.finite() && bottom.finite()
            &&& close(bottom.value() - top.value(), s, g)
            &&& match dir {
                Dir::Down => close(top.value() * w, gone - s * w, 4 * (g * w)),
                Dir::Up => close(bottom.value() * w, (h.value() + s) * w - gone, 5 * (g * w)),
            }
        }),
{
    let w = crate::double::one() as int;
    let g = crate::rounding::two_to(1054) as int;
    let step = crate::rounding::STEP as int;
    let a = soft(h);
    let b = span(h);
    let x = p.product(b);
    lemma_pixels();
    lemma_soft_span(h);
    let (pv, hv, s, bv) = (p.value(), h.value(), a.value(), b.value());
    assert(0 <= bv <= 0x1_8000_0000 * w);
    assert(pv * bv <= (2 * step) * (g * w) && 0 <= pv * bv) by (nonlinear_arith)
        requires
            0 <= pv <= w,
            0 <= bv <= 0x1_8000_0000 * w,
            0x2_0000_0000 * w == (2 * step) * g,
            w > 0,
    {
        assert(pv * bv <= w * (0x1_8000_0000 * w));
        assert((0x2_0000_0000 * w) * w == ((2 * step) * g) * w);
    }
    crate::near::lemma_product_close(p, b, 1054);
    let xv = x.value();
    let gone = pv * (hv + 2 * s);
    assert(close(xv * w, gone, 3 * (g * w))) by (nonlinear_arith)
        requires
            -(g * w) <= xv * w - pv * bv <= g * w,
            -(2 * g) <= bv - (hv + 2 * s) <= 2 * g,
            0 <= pv <= w,
            gone == pv * (hv + 2 * s),
            g > 0,
    {
        assert(pv * bv - gone == pv * (bv - (hv + 2 * s)));
        assert(-(w * (2 * g)) <= pv * (bv - (hv + 2 * s)) <= w * (2 * g));
        assert(w * (2 * g) == 2 * (g * w));
    }
    assert(-(w + w) <= xv <= 0x1_8000_0001 * w) by (nonlinear_arith)
        requires
            -(g * w) <= xv * w - pv * bv <= g * w,
            0 <= pv <= w,
            0 <= bv <= 0x1_8000_0000 * w,
            0 < g <= w,
    {
        assert(0 <= pv * bv <= w * (0x1_8000_0000 * w));
        assert(g * w <= w * w);
    }
    match dir {
        Dir::Down => {
            let back = crate::hud::negated(a);
            crate::order::lemma_negation(a);
            crate::near::lemma_sum_close(back, x, 1054);
            let front = back.sum(x);
            crate::near::lemma_sum_close(front, a, 1054);
            let fv = front.value();
            assert(close(fv * w, gone - s * w, 4 * (g * w))) by (nonlinear_arith)
                requires
                    -g <= fv - (xv - s) <= g,
                    -(3 * (g * w)) <= xv * w - gone <= 3 * (g * w),
                    w > 0,
            {
                assert((fv - (xv - s)) * w == fv * w - xv * w + s * w);
                assert(-g * w <= (fv - (xv - s)) * w <= g * w);
            }
        },
        Dir::Up => {
            crate::near::lemma_sum_close(h, a, 1054);
            let all = h.sum(a);
            crate::near::lemma_difference_close(all, x, 1054);
            let front = all.difference(x);
            crate::near::lemma_difference_close(front, a, 1054);
            let fv = front.value();
            let av = all.value();
            assert(close(fv * w, (hv + s) * w - gone, 5 * (g * w))) by (nonlinear_arith)
                requires
                    -g <= fv - (av - xv) <= g,
                    -g <= av - (hv + s) <= g,
                    -(3 * (g * w)) <= xv * w - gone <= 3 * (g * w),
                    w > 0,
            {
                assert((fv - (av - xv)) * w == fv * w - av * w + xv * w);
                assert(-g * w <= (fv - (av - xv)) * w <= g * w);
                assert((av - (hv + s)) * w == av * w - (hv + s) * w);
                assert(-g * w <= (av - (hv + s)) * w <= g * w);
            }
        },
    }
}

/// The edge of a wash moves in proportion to the share that has passed. It is
/// 0.35 of the text's height wide, eight pixels at the least. Going down, its
/// top starts one width above the text and has gone the share of the height and
/// twice the width; going up, its bottom starts one width below the text and has
/// gone as far the other way. All of it to 2^-16 of a pixel.
pub proof fn lemma_wash_in_proportion(h: Double, p: Double, dir: Dir)
    requires
        h.finite(),
        0 <= h.value() <= 0x8000_0000 * crate::double::one(),
        p.finite(),
        0 <= p.value() <= crate::double::one(),
    ensures
        ({
            let w = crate::double::one() as int;
            let g = crate::rounding::two_to(1054) as int;
            let (top, bottom) = crate::hud::edge_of(h, p, dir);
            let wide = bottom.value() - top.value();
            let gone = p.value() * (h.value() + 2 * wide);
            &&& w == 0x10_0000 * g
            &&& top.finite() && bottom.finite()
            &&& close(
                20 * wide,
                if 7 * h.value() < 160 * w {
                    160 * w
                } else {
                    7 * h.value()
                },
                41 * g,
            )
            &&& match dir {
                Dir::Down => close(top.value() * w, gone - wide * w, 16 * (g * w)),
                Dir::Up => close(bottom.value() * w, (h.value() + wide) * w - gone, 16 * (g * w)),
            }
        }),
{
    let w = crate::double::one() as int;
    let g = crate::rounding::two_to(1054) as int;
    let (top, bottom) = crate::hud::edge_of(h, p, dir);
    let wide = bottom.value() - top.value();
    let s = soft(h).value();
    let (pv, hv) = (p.value(), h.value());
    lemma_pixels();
    lemma_soft_span(h);
    lemma_edge(h, p, dir);
    assert(close(pv * (hv + 2 * wide), pv * (hv + 2 * s), 2 * (g * w)) && close(
        wide * w,
        s * w,
        g * w,
    ) && close((hv + wide) * w, (hv + s) * w, g * w)) by (nonlinear_arith)
        requires
            -g <= wide - s <= g,
            0 <= pv <= w,
            g > 0,
    {
        assert(pv * (hv + 2 * wide) - pv * (hv + 2 * s) == pv * (2 * (wide - s)));
        assert(-(w * (2 * g)) <= pv * (2 * (wide - s)) <= w * (2 * g));
        assert(w * (2 * g) == 2 * (g * w));
        assert(wide * w - s * w == (wide - s) * w);
        assert(-g * w <= (wide - s) * w <= g * w);
        assert((hv + wide) * w - (hv + s) * w == (wide - s) * w);
    }
}

/// A wash never stands still: over any 4096th of it the edge moves on.
pub proof fn lemma_wash_moves(h: Double, p: Double, q: Double, dir: Dir)
    requires
        h.finite(),
        0 <= h.value() <= 0x8000_0000 * crate::double::one(),
        p.finite(),
        q.finite(),
        0 <= p.value() <= q.value() <= crate::double::one(),
        4096 * (q.value() - p.value()) >= crate::double::one(),
    ensures
        match dir {
            Dir::Down => crate::hud::edge_of(h, p, dir).0.value() < crate::hud::edge_of(
                h,
                q,
                dir,
            ).0.value(),
            Dir::Up => crate::hud::edge_of(h, p, dir).1.value() > crate::hud::edge_of(
                h,
                q,
                dir,
            ).1.value(),
        },
{
    let w = crate::double::one() as int;
    let g = crate::rounding::two_to(1054) as int;
    let s = soft(h).value();
    let (pv, qv, hv) = (p.value(), q.value(), h.value());
    lemma_pixels();
    lemma_soft_span(h);
    lemma_edge(h, p, dir);
    lemma_edge(h, q, dir);
    let n = hv + 2 * s;
    assert(qv * n - pv * n > 10 * (g * w)) by (nonlinear_arith)
        requires
            4096 * (qv - pv) >= w,
            n >= 16 * w,
            w == 0x10_0000 * g,
            g > 0,
    {
        assert(4096 * ((qv - pv) * n) >= w * n);
        assert(w * n >= w * (16 * w));
        assert(w * (16 * w) == w * (16 * (0x10_0000 * g)));
        assert(qv * n - pv * n == (qv - pv) * n);
    }
    let (a, b) = (crate::hud::edge_of(h, p, dir), crate::hud::edge_of(h, q, dir));
    let (x, y) = match dir {
        Dir::Down => (a.0.value(), b.0.value()),
        Dir::Up => (b.1.value(), a.1.value()),
    };
    assert(x < y) by (nonlinear_arith)
        requires
            y * w - x * w > 0,
            w > 0,
    ;
}

/// The scale of shares, and the constants of a collapse.
pub(crate) proof fn lemma_shares()
    ensures
        ({
            let w = crate::double::one() as int;
            let f = crate::rounding::two_to(1021) as int;
            let u = crate::rounding::two_to(1017) as int;
            &&& f > 0
            &&& u > 0
            &&& f == 16 * u
            &&& w == 0x20_0000_0000_0000 * f
            &&& 2 * crate::rounding::STEP == 0x20_0000_0000_0000
            &&& Double::whole(0).value() == 0
            &&& !Double::whole(0).nan()
            &&& Double::whole(1).finite()
            &&& Double::whole(1).value() == w
            &&& (Double { bits: WHITEN }).finite()
            &&& 5 * (Double { bits: WHITEN }).value() == 4 * w + 2 * f
            &&& (Double { bits: BLOOM }).finite()
            &&& 50 * (Double { bits: BLOOM }).value() == 3 * w - 16 * u
            &&& (Double { bits: BLINK_OUT }).finite()
            &&& 20 * (Double { bits: BLINK_OUT }).value() == 17 * w - 4 * f
            &&& (Double { bits: BLINK_SPAN }).finite()
            &&& 20 * (Double { bits: BLINK_SPAN }).value() == 3 * w - f
        }),
{
    reveal_with_fuel(crate::rounding::two_to, 6);
    crate::timeline::lemma_small();
    crate::rounding::lemma_two_to_values();
    crate::rounding::lemma_two_to_pos(1017);
    crate::rounding::lemma_two_to_add(53, 1021);
    crate::rounding::lemma_two_to_add(2, 1019);
    crate::rounding::lemma_two_to_add(4, 1017);
    let f = crate::rounding::two_to(1021);
    let v = crate::rounding::two_to(1019);
    let u = crate::rounding::two_to(1017);
    assert(f == 4 * v && f == 16 * u);
    assert(crate::double::one() == 0x20_0000_0000_0000 * f);
    crate::near::lemma_bits(WHITEN, 1021, 0x19_9999_9999_999a);
    crate::near::lemma_bits(BLOOM, 1017, 0x1e_b851_eb85_1eb8);
    crate::near::lemma_bits(BLINK_OUT, 1021, 0x1b_3333_3333_3333);
    crate::near::lemma_bits(BLINK_SPAN, 1019, 0x13_3333_3333_3333);
}

/// A share times a number below one.
pub(crate) proof fn lemma_share_of(p: Double, c: Double)
    requires
        p.finite(),
        c.finite(),
        0 <= p.value() <= crate::double::one(),
        0 <= c.value() <= crate::double::one(),
    ensures
        p.product(c).finite(),
        close(
            p.product(c).value() * crate::double::one(),
            p.value() * c.value(),
            (crate::rounding::two_to(1021) * crate::double::one()) as int,
        ),
        -crate::rounding::two_to(1021) <= p.product(c).value() <= 2 * crate::double::one(),
{
    let w = crate::double::one() as int;
    let f = crate::rounding::two_to(1021) as int;
    let step = crate::rounding::STEP as int;
    let (x, y) = (p.value(), c.value());
    lemma_shares();
    assert(0 <= x * y <= (2 * step) * (f * w)) by (nonlinear_arith)
        requires
            0 <= x <= w,
            0 <= y <= w,
            w == 0x20_0000_0000_0000 * f,
            2 * step == 0x20_0000_0000_0000,
    {
        assert(x * y <= w * w);
        assert(w * w == (2 * step) * (f * w));
    }
    crate::near::lemma_product_close(p, c, 1021);
    assert(0 <= x * y <= w * w) by (nonlinear_arith)
        requires
            0 <= x <= w,
            0 <= y <= w,
    ;
    let z = p.product(c).value();
    assert(-f <= z <= 2 * w) by (nonlinear_arith)
        requires
            -(f * w) <= z * w - x * y <= f * w,
            0 <= x * y <= w * w,
            0 < f <= w,
    {
        assert(z * w >= -f * w);
        assert(z * w <= (2 * w) * w);
    }
}

/// What an exit does to a frame when a share of it has passed, in shares of one
/// and up to the last places of one. A fade takes the share from the opacity. A
/// collapse takes it from the height, whitens by 0.8 of it and widens by 0.06 of
/// it; it is opaque for 0.85 of its time and then goes in the rest of it. A wash
/// and a dissolve mask the picture. Nothing else changes, and nothing before the
/// start.
pub proof fn lemma_effect_in_proportion(vanish: Vanish, p: Double)
    requires
        p.finite(),
        0 <= p.value() <= crate::double::one(),
    ensures
        ({
            let w = crate::double::one() as int;
            let f = crate::rounding::two_to(1021) as int;
            let e = crate::hud::effect_of(vanish, p);
            let started = p.value() > 0;
            let alpha = e.alpha.value();
            &&& e.masked <==> started && (vanish is Wash || vanish is Dissolve)
            &&& e.squash is Some <==> started && vanish is Collapse
            &&& if started && vanish is Collapse {
                &&& close(e.squash->0.value(), w - p.value(), f)
                &&& close(5 * e.whiten.value(), 4 * p.value(), 7 * f)
                &&& close(50 * (e.stretch.value() - w), 3 * p.value(), 152 * f)
                &&& 20 * p.value() <= 17 * w - 5 * f ==> alpha == w
                &&& 20 * p.value() >= 17 * w ==> close(3 * alpha, 20 * (w - p.value()), 64 * f)
            } else {
                &&& e.whiten.value() == 0
                &&& e.stretch.value() == w
                &&& if started && vanish is Fade {
                    close(alpha, w - p.value(), f)
                } else {
                    alpha == w
                }
            }
        }),
{
    let w = crate::double::one() as int;
    let f = crate::rounding::two_to(1021) as int;
    let u = crate::rounding::two_to(1017) as int;
    let step = crate::rounding::STEP as int;
    let one = Double::whole(1);
    let left = one.difference(p);
    let pv = p.value();
    lemma_shares();
    crate::near::lemma_difference_close(one, p, 1021);
    if pv > 0 && vanish is Collapse {
        let white = Double { bits: WHITEN };
        let bloom = Double { bits: BLOOM };
        lemma_share_of(p, white);
        lemma_share_of(bloom, p);
        let x = p.product(white).value();
        let wv = white.value();
        assert(close(5 * x, 4 * pv, 7 * f)) by (nonlinear_arith)
            requires
                -(f * w) <= x * w - pv * wv <= f * w,
                5 * wv == 4 * w + 2 * f,
                0 <= pv <= w,
                f > 0,
                w > 0,
        {
            assert(5 * (pv * wv) == 4 * (pv * w) + 2 * (pv * f));
            assert(0 <= pv * f <= w * f);
            assert((5 * x - 4 * pv) * w == 5 * (x * w) - 4 * (pv * w));
            assert(-(7 * f) * w <= (5 * x - 4 * pv) * w <= (7 * f) * w);
        }
        let y = bloom.product(p).value();
        let bv = bloom.value();
        assert(close(50 * y, 3 * pv, 51 * f)) by (nonlinear_arith)
            requires
                -(f * w) <= y * w - bv * pv <= f * w,
                50 * bv == 3 * w - 16 * u,
                f == 16 * u,
                0 <= pv <= w,
                f > 0,
                w > 0,
        {
            assert(50 * (bv * pv) == 3 * (w * pv) - f * pv);
            assert(0 <= f * pv <= f * w);
            assert((50 * y - 3 * pv) * w == 50 * (y * w) - 3 * (w * pv));
            assert(-(51 * f) * w <= (50 * y - 3 * pv) * w <= (51 * f) * w);
        }
        crate::rounding::lemma_two_to_add(1, 1021);
        crate::rounding::lemma_two_to_values();
        crate::near::lemma_sum_close(one, bloom.product(p), 1022);
        if 20 * pv >= 17 * w {
            let rest = Double { bits: BLINK_SPAN };
            let (lv, rv) = (left.value(), rest.value());
            let n = crate::double::size(lv) as int;
            assert(n * w <= (2 * step) * ((2 * f) * rv)) by (nonlinear_arith)
                requires
                    0 <= n,
                    20 * n <= 3 * w + 20 * f,
                    20 * rv == 3 * w - f,
                    w == 0x20_0000_0000_0000 * f,
                    2 * step == 0x20_0000_0000_0000,
                    f > 0,
            {
                assert(n <= 2 * rv);
                assert(n * w <= (2 * rv) * w);
                assert((2 * rv) * w == (2 * step) * ((2 * f) * rv));
            }
            assert(crate::rounding::two_to(1022) == 2 * f);
            crate::near::lemma_quotient_close(left, rest, 1022);
            let a = left.quotient(rest).value();
            assert(close(3 * a, 20 * (w - pv), 64 * f)) by (nonlinear_arith)
                requires
                    -((2 * f) * rv) <= a * rv - lv * w <= (2 * f) * rv,
                    -f <= lv - (w - pv) <= f,
                    20 * rv == 3 * w - f,
                    0 <= n,
                    n <= 2 * rv,
                    lv == n || lv == -n,
                    w >= 100 * f,
                    f > 0,
            {
                assert(20 * (a * rv) == 3 * (a * w) - a * f);
                // The quotient is no more than three.
                assert(a * rv <= (2 * rv) * w + (2 * f) * rv);
                assert(a <= 2 * w + 2 * f);
                assert(a * rv >= -((2 * rv) * w) - (2 * f) * rv);
                assert(a >= -(2 * w) - 2 * f);
                assert(a * f <= (2 * w + 2 * f) * f && a * f >= (-(2 * w) - 2 * f) * f);
                assert((2 * w + 2 * f) * f <= 3 * (w * f)) by {
                    assert(f * f <= w * f);
                    assert(2 * (f * f) * 50 <= w * f);
                }
                assert(20 * ((2 * f) * rv) <= 6 * (w * f)) by {
                    assert(20 * ((2 * f) * rv) == 2 * (f * (3 * w - f)));
                    assert(f * f >= 0);
                }
                assert((3 * a - 20 * lv) * w == 20 * (a * rv - lv * w) + a * f);
                assert(-(9 * f) * w <= (3 * a - 20 * lv) * w <= (9 * f) * w);
            }
        }
    }
}

/// How long a block lasts: as many ten-thousandths as its hash leaves, up to
/// rounding.
pub proof fn lemma_life_by_hash(bx: i32, by: i32)
    ensures
        ({
            let n = (crate::hud::block_hash(bx, by) % 10_000) as int;
            close(
                10_000 * crate::hud::life_of(bx, by).value(),
                n * crate::double::one(),
                (10_000 * crate::rounding::two_to(1021)) as int,
            )
        }),
{
    let n = (crate::hud::block_hash(bx, by) % 10_000) as nat;
    let w = crate::double::one() as int;
    let f = crate::rounding::two_to(1021) as int;
    let step = crate::rounding::STEP as int;
    lemma_shares();
    crate::order::lemma_whole(n);
    crate::order::lemma_whole(10_000);
    let (a, b) = (Double::whole(n), Double::whole(10_000));
    assert(0 <= n * w && 10_000 * w != 0 && (n * w) * w <= (2 * step) * (f * (10_000 * w)))
        by (nonlinear_arith)
        requires
            n < 10_000,
            w == 0x20_0000_0000_0000 * f,
            2 * step == 0x20_0000_0000_0000,
            w > 0,
    {
        assert(n * w <= 10_000 * w);
        assert((n * w) * w <= (10_000 * w) * w);
        assert((10_000 * w) * w == (2 * step) * (f * (10_000 * w)));
    }
    crate::near::lemma_quotient_close(a, b, 1021);
    let q = a.quotient(b).value();
    assert(close(10_000 * q, n * w, 10_000 * f)) by (nonlinear_arith)
        requires
            -(f * (10_000 * w)) <= q * (10_000 * w) - (n * w) * w <= f * (10_000 * w),
            w > 0,
    {
        assert((10_000 * q - n * w) * w == q * (10_000 * w) - (n * w) * w);
        assert(f * (10_000 * w) == (10_000 * f) * w);
    }
}

/// No two blocks of a row have the same hash, nor two of a column: what is left
/// of a text is scattered.
pub proof fn lemma_hashes_differ(ax: i32, ay: i32, bx: i32, by: i32)
    requires
        (ax == bx) != (ay == by),
    ensures
        crate::hud::block_hash(ax, ay) != crate::hud::block_hash(bx, by),
{
    let (x, y, z, t) = (ax as u32, ay as u32, bx as u32, by as u32);
    assert(ax != bx ==> ax as u32 != bx as u32) by (bit_vector);
    assert(ay != by ==> ay as u32 != by as u32) by (bit_vector);
    lemma_odd(x);
    lemma_odd(z);
    lemma_odd(y);
    lemma_odd(t);
    let (x1, y1) = (x.wrapping_mul(73_856_093), y.wrapping_mul(19_349_663));
    let (z1, t1) = (z.wrapping_mul(73_856_093), t.wrapping_mul(19_349_663));
    let (a, b) = (x1 ^ y1, z1 ^ t1);
    assert((x1 == z1) != (y1 == t1) ==> x1 ^ y1 != z1 ^ t1) by (bit_vector);
    assert(a != b ==> a ^ (a >> 13) != b ^ (b >> 13)) by (bit_vector);
    let (c, d) = (a ^ (a >> 13), b ^ (b >> 13));
    lemma_odd(c);
    lemma_odd(d);
    let (e, g) = (c.wrapping_mul(0x5bd1_e995), d.wrapping_mul(0x5bd1_e995));
    assert(e != g ==> e ^ (e >> 15) != g ^ (g >> 15)) by (bit_vector);
}

/// What an odd multiplier makes of a word, another one takes back.
proof fn lemma_odd(x: u32)
    ensures
        x.wrapping_mul(73_856_093).wrapping_mul(0x2b567ff5) == x,
        x.wrapping_mul(19_349_663).wrapping_mul(0xad79db5f) == x,
        x.wrapping_mul(0x5bd1_e995).wrapping_mul(0xe59b19bd) == x,
{
    lemma_undone(x, 73_856_093, 0x2b567ff5);
    lemma_undone(x, 19_349_663, 0xad79db5f);
    lemma_undone(x, 0x5bd1_e995, 0xe59b19bd);
}

proof fn lemma_undone(x: u32, k: u32, i: u32)
    requires
        (k * i) % 0x1_0000_0000 == 1,
    ensures
        x.wrapping_mul(k).wrapping_mul(i) == x,
{
    let m = 0x1_0000_0000int;
    let p = (x * k) % m;
    let q = (x * k) / m;
    let r = (k * i) / m;
    vstd::arithmetic::div_mod::lemma_fundamental_div_mod(x * k, m);
    vstd::arithmetic::div_mod::lemma_fundamental_div_mod(k * i, m);
    assert(p * i == x + m * (x * r - q * i)) by (nonlinear_arith)
        requires
            x * k == m * q + p,
            k * i == m * r + 1,
    {
        assert((x * k) * i == x * (k * i));
        assert((m * q + p) * i == m * (q * i) + p * i);
        assert(x * (m * r + 1) == m * (x * r) + x);
    }
    vstd::arithmetic::div_mod::lemma_mod_multiples_vanish(x * r - q * i, x as int, m);
    vstd::arithmetic::div_mod::lemma_small_mod(x as nat, m as nat);
}

/// A dissolve takes blocks away and never brings one back: all of them stand at
/// its start, none at its end, and each stands until its life is over.
pub proof fn lemma_dissolve(bx: i32, by: i32, p: Double, q: Double)
    requires
        p.at_most(q),
    ensures
        crate::hud::stands(bx, by, q) ==> crate::hud::stands(bx, by, p),
        p.value() <= 0 ==> crate::hud::stands(bx, by, p),
        q.value() >= crate::double::one() ==> !crate::hud::stands(bx, by, q),
        p.value() <= crate::hud::life_of(bx, by).value() ==> crate::hud::stands(bx, by, p),
        q.value() > crate::hud::life_of(bx, by).value() ==> !crate::hud::stands(bx, by, q),
{
    crate::hud::lemma_block_life(bx, by);
}

/// The blocks of a dissolve are a ninth of the text's height, between 6 and 40
/// pixels, and as many as it takes to cover the picture, up to a pixel.
pub proof fn lemma_grid_covers(w: i32, h: i32, text_h: Double)
    requires
        w >= 0,
        h >= 0,
        text_h.finite(),
        0 <= text_h.value() <= 0x8000_0000 * crate::double::one(),
    ensures
        ({
            let o = crate::double::one() as int;
            let g = crate::rounding::two_to(1054) as int;
            let (block, cols, rows) = crate::hud::grid_of(w, h, text_h);
            let b = block.value();
            &&& 6 * o <= b <= 40 * o
            &&& 6 * o <= b - g && b + g <= 40 * o ==> close(9 * b, text_h.value(), 9 * g)
            &&& text_h.value() <= 54 * o - 9 * g ==> b == 6 * o
            &&& text_h.value() >= 360 * o + 9 * g ==> b == 40 * o
            &&& cols * b >= w * o - o
            &&& (cols - 1) * b <= w * o + o
            &&& rows * b >= h * o - o
            &&& (rows - 1) * b <= h * o + o
        }),
{
    let o = crate::double::one() as int;
    let g = crate::rounding::two_to(1054) as int;
    let step = crate::rounding::STEP as int;
    let nine = Double::whole(9);
    let t = text_h.value();
    lemma_pixels();
    crate::order::lemma_whole(9);
    crate::order::lemma_whole(6);
    crate::order::lemma_whole(40);
    assert(9 * o != 0 && t * o <= (2 * step) * (g * (9 * o))) by (nonlinear_arith)
        requires
            0 <= t <= 0x8000_0000 * o,
            0x2_0000_0000 * o == (2 * step) * g,
            o > 0,
    {
        assert(t * o <= (0x8000_0000 * o) * o);
        assert((9 * (0x2_0000_0000 * o)) * o == (2 * step) * (g * (9 * o)));
    }
    crate::near::lemma_quotient_close(text_h, nine, 1054);
    let ninth = text_h.quotient(nine).value();
    assert(close(9 * ninth, t, 9 * g)) by (nonlinear_arith)
        requires
            -(g * (9 * o)) <= ninth * (9 * o) - t * o <= g * (9 * o),
            o > 0,
    {
        assert((9 * ninth - t) * o == ninth * (9 * o) - t * o);
        assert(g * (9 * o) == (9 * g) * o);
    }
    let block = crate::hud::grid_of(w, h, text_h).0;
    lemma_cells(w, block);
    lemma_cells(h, block);
}

/// As many blocks as it takes to cover a length, up to a pixel.
proof fn lemma_cells(n: i32, block: Double)
    requires
        n >= 0,
        block.finite(),
        6 * crate::double::one() <= block.value() <= 40 * crate::double::one(),
    ensures
        ({
            let o = crate::double::one() as int;
            let b = block.value();
            let cells = Double::integer(n as int).quotient(block).ceil_int();
            &&& cells * b >= n * o - o
            &&& (cells - 1) * b <= n * o + o
        }),
{
    let o = crate::double::one() as int;
    let g = crate::rounding::two_to(1054) as int;
    let step = crate::rounding::STEP as int;
    let a = Double::integer(n as int);
    let b = block.value();
    lemma_pixels();
    crate::hud::lemma_height(n);
    crate::order::lemma_whole(n as nat);
    assert(a == Double::whole(n as nat));
    assert(0 <= n * o && (n * o) * o <= (2 * step) * (g * b)) by (nonlinear_arith)
        requires
            0 <= n <= 0x7fff_ffff,
            6 * o <= b,
            0x2_0000_0000 * o == (2 * step) * g,
            o > 0,
            step > 0,
            g > 0,
    {
        assert(n * o <= 0x2_0000_0000 * o);
        assert((n * o) * o <= (0x2_0000_0000 * o) * o);
        assert((2 * step) * (g * b) >= (2 * step) * (g * o));
    }
    crate::near::lemma_quotient_close(a, block, 1054);
    let q = a.quotient(block).value();
    let c = a.quotient(block).ceil_int();
    assert(0 <= n * o && b > 0);
    crate::order::lemma_quotient_mono(a, a, block);
    assert(q >= 0);
    assert(-o <= q && q <= 0x6000_0000 * o) by (nonlinear_arith)
        requires
            -(g * b) <= q * b - (n * o) * o <= g * b,
            0 <= n <= 0x7fff_ffff,
            6 * o <= b,
            o == 0x10_0000 * g,
            g > 0,
    {
        assert((n * o) * o >= 0);
        assert(q * b >= -g * b);
        assert(q >= -g);
        assert((n * o) * o <= (0x7fff_ffff * o) * o);
        assert(q * b <= (0x7fff_ffff * o) * o + g * b);
        assert((0x5000_0000 * o) * b >= (0x5000_0000 * o) * (6 * o));
        assert((0x7fff_ffff * o) * o <= (0x5000_0000 * o) * b) by {
            assert((0x5000_0000 * o) * (6 * o) >= (0x7fff_ffff * o) * o);
        }
        assert(q * b <= (0x5000_0000 * o + g) * b);
    }
    let k = (q + o - 1) / o;
    assert(q <= k * o && (k - 1) * o < q && 0 <= k <= 0x6000_0000) by (nonlinear_arith)
        requires
            k == (q + o - 1) / o,
            0 <= q <= 0x6000_0000 * o,
            o > 0,
    ;
    if q == 0 {
        assert(k == 0) by (nonlinear_arith)
            requires
                k == (o - 1) / o,
                o > 0,
        ;
        assert(0nat / (o as nat) == 0) by (nonlinear_arith)
            requires
                o > 0,
        ;
    }
    assert(c == k);
    assert(c * b >= n * o - o) by (nonlinear_arith)
        requires
            (n * o) * o - g * b <= q * b,
            q <= c * o,
            0 < b <= 40 * o,
            o == 0x10_0000 * g,
            g > 0,
    {
        assert(q * b <= (c * o) * b);
        assert((c * o) * b == (c * b) * o);
        assert(g * b <= g * (40 * o));
        assert(g * (40 * o) <= o * o);
        assert((c * b) * o >= (n * o - o) * o);
    }
    assert((c - 1) * b <= n * o + o) by (nonlinear_arith)
        requires
            q * b <= (n * o) * o + g * b,
            (c - 1) * o <= q,
            0 < b <= 40 * o,
            o == 0x10_0000 * g,
            g > 0,
    {
        assert(((c - 1) * o) * b <= q * b);
        assert(((c - 1) * o) * b == ((c - 1) * b) * o);
        assert(g * b <= g * (40 * o));
        assert(g * (40 * o) <= o * o);
        assert(((c - 1) * b) * o <= (n * o + o) * o);
    }
}

} // verus!
