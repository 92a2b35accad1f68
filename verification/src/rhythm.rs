//! The rhythm of typing and of untyping, in plain numbers.
use crate::double::Double;
use crate::near::close;
use crate::timeline::TimelineView;
use vstd::prelude::*;

verus! {

/// A step of the draw can be undone, so no two states lead to the same one.
pub proof fn lemma_shuffled_back(x: u64)
    ensures
        ({
            let y = crate::timeline::shuffled(x);
            let b = y ^ (y << 17) ^ (y << 34) ^ (y << 51);
            let c = b ^ (b >> 7);
            let d = c ^ (c >> 14);
            let e = d ^ (d >> 28);
            let a = e ^ (e >> 56);
            x == a ^ (a << 13) ^ (a << 26) ^ (a << 39) ^ (a << 52)
        }),
{
    let a = x ^ (x << 13);
    let b = a ^ (a >> 7);
    let y = b ^ (b << 17);
    assert(y ^ (y << 17) ^ (y << 34) ^ (y << 51) == b) by (bit_vector)
        requires
            y == b ^ (b << 17),
    ;
    let c = b ^ (b >> 7);
    let d = c ^ (c >> 14);
    let e = d ^ (d >> 28);
    assert(e ^ (e >> 56) == a) by (bit_vector)
        requires
            b == a ^ (a >> 7),
            c == b ^ (b >> 7),
            d == c ^ (c >> 14),
            e == d ^ (d >> 28),
    ;
    assert(a ^ (a << 13) ^ (a << 26) ^ (a << 39) ^ (a << 52) == x) by (bit_vector)
        requires
            a == x ^ (x << 13),
    ;
}

/// The number drawn is the state as a share of all states.
pub proof fn lemma_drawn_share(x: u64)
    ensures
        crate::timeline::unit_of(x).finite(),
        crate::timeline::unit_of(x).value() >= 0,
        close(
            0x1_0000_0000_0000_0000 * crate::timeline::unit_of(x).value(),
            x * crate::double::one(),
            0x2_0000_0000_0000_0000 * crate::timbre::fine(),
        ),
{
    let w = crate::double::one() as int;
    let e = crate::timbre::fine();
    let n = (x >> 11) as nat;
    crate::timbre::lemma_fine();
    crate::timeline::lemma_unit(x);
    assert(x >> 11 < 0x20_0000_0000_0000 && (x >> 11) * 2048 <= x && x - (x >> 11) * 2048 < 2048)
        by (bit_vector);
    crate::order::lemma_whole(n);
    let d = Double::whole(n);
    assert(0 <= n * w <= 0x2000 * (0x20_0000_0000_0000 * w) && 0 <= x * w - 2048 * (n * w) <= 2048
        * w) by (nonlinear_arith)
        requires
            n < 0x20_0000_0000_0000,
            0 <= x - 2048 * n <= 2048,
            w > 0,
    {
        assert((x - 2048 * n) * w == x * w - 2048 * (n * w));
    }
    crate::timbre::lemma_fine_part(d, 0x20_0000_0000_0000);
}

/// A gap's factor: one, and as much of the jitter more or less as the number
/// drawn lies above or below the middle.
pub proof fn lemma_factor(jitter: Double, u: Double)
    requires
        jitter.finite(),
        u.finite(),
        0 <= jitter.value() <= crate::double::one(),
        0 <= u.value() <= crate::double::one(),
    ensures
        ({
            let w = crate::double::one() as int;
            let f = crate::timeline::gap_factor(jitter, u);
            &&& f.finite()
            &&& close(
                f.value() * w,
                w * w + jitter.value() * (2 * u.value() - w),
                4 * (crate::timbre::fine() * w),
            )
            &&& close(f.value(), 0, 4 * w)
        }),
{
    let w = crate::double::one() as int;
    let e = crate::timbre::fine();
    crate::timbre::lemma_fine();
    crate::timeline::lemma_small();
    let (one, two) = (Double::whole(1), Double::whole(2));
    let (j, uv) = (jitter.value(), u.value());
    crate::timbre::lemma_either_way(uv, 2 * w, w, 2 * w);
    assert(w * (2 * w) <= (0x2000 * w) * w && w * (4 * w) <= (0x2000 * w) * w)
        by (nonlinear_arith)
        requires
            w > 0,
    ;
    crate::timbre::lemma_fine_product(u, two);
    let t = u.product(two);
    let tv = t.value();
    assert(uv * (2 * w) == (2 * uv) * w) by (nonlinear_arith);
    crate::timbre::lemma_cancelled(tv, 2 * uv, e, w);
    crate::timbre::lemma_fine_difference(t, one);
    let s = t.difference(one);
    let sv = s.value();
    let x = crate::double::size(sv) as int;
    crate::timbre::lemma_either_way(j, x, w, 4 * w);
    crate::timbre::lemma_fine_product(jitter, s);
    let p = jitter.product(s);
    let pv = p.value();
    crate::timbre::lemma_either_way(j, sv, w, 2 * w);
    assert(close(pv, 0, 2 * w + e)) by (nonlinear_arith)
        requires
            -(e * w) <= pv * w - j * sv <= e * w,
            -(w * (2 * w)) <= j * sv <= w * (2 * w),
            w == 0x100_0000_0000 * e,
            e > 0,
    {
        assert(w * (2 * w) == (2 * w) * w);
        assert(pv * w <= (2 * w + e) * w);
        assert(pv * w >= (-(2 * w) - e) * w);
    }
    crate::timbre::lemma_fine_sum(one, p);
    let f = one.sum(p).value();
    let off = sv - (2 * uv - w);
    crate::timbre::lemma_either_way(j, off, w, 2 * e);
    assert(j * off == j * sv - j * (2 * uv - w)) by (nonlinear_arith)
        requires
            off == sv - (2 * uv - w),
    ;
    crate::timbre::lemma_either_way(f - w - pv, w, e, w);
    assert((f - w - pv) * w == f * w - w * w - pv * w && w * (2 * e) == 2 * (e * w))
        by (nonlinear_arith);
}

/// A character is typed a gap after the one before it: the nominal gap times its
/// factor.
pub proof fn lemma_next_moment(t: Double, base: Double, jitter: Double, x: u64)
    requires
        t.finite(),
        base.finite(),
        jitter.finite(),
        0 <= t.value() <= 0x1_0000_0000 * crate::double::one(),
        0 <= base.value() <= 0x1000_0000 * crate::double::one(),
        0 <= jitter.value() <= crate::double::one(),
    ensures
        ({
            let w = crate::double::one() as int;
            let g = crate::rounding::two_to(1054) as int;
            let next = crate::timeline::next_typed(t, base, jitter, x);
            let factor = crate::timeline::gap_factor(jitter, crate::timeline::unit_of(x));
            &&& next.finite()
            &&& factor.finite()
            &&& close((next.value() - t.value()) * w, base.value() * factor.value(), 2 * (g * w))
        }),
{
    reveal(crate::timeline::next_typed);
    let w = crate::double::one() as int;
    let g = crate::rounding::two_to(1054) as int;
    crate::exits::lemma_pixels();
    crate::timeline::lemma_unit(x);
    lemma_factor(jitter, crate::timeline::unit_of(x));
    let f = crate::timeline::gap_factor(jitter, crate::timeline::unit_of(x));
    let (b, fv, tv) = (base.value(), f.value(), t.value());
    let y = crate::double::size(fv) as int;
    crate::timbre::lemma_either_way(b, y, 0x1000_0000 * w, 4 * w);
    assert((0x1000_0000 * w) * (4 * w) == (0x4000_0000 * w) * w && (0x4000_0000 * w) * w <= (
    0x2_0000_0000 * w) * w) by (nonlinear_arith)
        requires
            w > 0,
    ;
    crate::drawing::lemma_times(base, f);
    let p = base.product(f);
    let pv = p.value();
    crate::timbre::lemma_either_way(b, fv, 0x1000_0000 * w, 4 * w);
    assert(close(pv, 0, 0x5000_0000 * w)) by (nonlinear_arith)
        requires
            -(g * w) <= pv * w - b * fv <= g * w,
            -((0x4000_0000 * w) * w) <= b * fv <= (0x4000_0000 * w) * w,
            w == 0x10_0000 * g,
            g > 0,
    {
        assert(pv * w <= (0x4000_0000 * w + g) * w);
        assert(pv * w >= (-(0x4000_0000 * w) - g) * w);
    }
    crate::sizes::lemma_together(t, p);
    let n = t.sum(p).value();
    crate::timbre::lemma_either_way(n - tv - pv, w, g, w);
    assert((n - tv - pv) * w == (n - tv) * w - pv * w) by (nonlinear_arith);
}

/// The nominal gap times the characters per second is a second.
pub proof fn lemma_nominal_gap(cps: Double)
    requires
        cps.finite(),
        cps.value() > 0,
        crate::double::one() <= 0x10_0000 * cps.value(),
    ensures
        ({
            let w = crate::double::one() as int;
            let gap = crate::timeline::nominal_gap(cps);
            &&& gap.finite()
            &&& gap.value() >= 0
            &&& close(
                gap.value() * cps.value(),
                (1000 * w) * w,
                crate::rounding::two_to(1054) * cps.value(),
            )
        }),
{
    let w = crate::double::one() as int;
    let g = crate::rounding::two_to(1054) as int;
    let step = crate::rounding::STEP as int;
    let c = cps.value();
    crate::exits::lemma_pixels();
    crate::order::lemma_whole(1000);
    assert((1000 * w) * w <= (2 * step) * (g * c)) by (nonlinear_arith)
        requires
            w <= 0x10_0000 * c,
            0x2_0000_0000 * w == (2 * step) * g,
            w > 0,
    {
        assert((1000 * w) * w <= (1000 * w) * (0x10_0000 * c));
        assert((1000 * w) * (0x10_0000 * c) <= (0x2_0000_0000 * w) * c);
        assert((2 * step) * (g * c) == ((2 * step) * g) * c);
    }
    crate::near::lemma_quotient_close(Double::whole(1000), cps, 1054);
    crate::order::lemma_zero(crate::timeline::nominal_gap(cps));
    crate::order::lemma_zero(cps);
}

/// The first moment of a typed text is one gap after the start, and each other
/// one gap after the one before it, at the pace that was asked for.
pub proof fn lemma_typed_moments(cps: Double, jitter: Double, seed: u64, n: nat)
    ensures
        ({
            let base = crate::timeline::nominal_gap(cps);
            let (t, x) = crate::timeline::typed(base, jitter, seed, n);
            let next = crate::timeline::typed(base, jitter, seed, n + 1);
            &&& next.1 == crate::timeline::shuffled(x)
            &&& next.0 == crate::timeline::next_typed(t, base, jitter, next.1)
            &&& n == 0 ==> t == Double::whole(0) && x % 2 == 1 && seed <= x <= seed + 1
        }),
{
    assert((seed | 1) % 2 == 1 && seed <= (seed | 1) && (seed | 1) - seed <= 1) by (bit_vector);
}

/// A character is erased for every position that sounds, one in `every`: its
/// blip comes when as much of the vanish has passed as the characters from it to
/// the end are of all of them. There is none where nothing is untyped.
pub proof fn lemma_vanish_blips(tl: TimelineView, every: nat, ms: u64, k: int)
    requires
        tl.vanish_ms == Double::whole(ms as nat),
        tl.audible.len() == tl.chars,
        tl.chars <= crate::config::MAX_TEXT_CHARS,
        every > 0,
    ensures
        ({
            let out = tl.vanish_blips(every);
            let at = crate::timeline::blips(tl.audible, every);
            let s = crate::rounding::STEP as int;
            &&& !tl.untype || ms == 0 ==> out.len() == 0
            &&& tl.untype && ms > 0 ==> out.len() == at.len()
            &&& tl.untype && ms > 0 && 0 <= k < at.len() ==> {
                let n = tl.chars as int;
                let share = (n - at[k]) * tl.vanish_ms.value();
                let blip = 1000 * (n * out[k].value());
                &&& at[k] < n
                &&& s * (blip - share) <= 4 * share
                &&& s * (share - blip) <= 4 * share
            }
        }),
{
    let at = crate::timeline::blips(tl.audible, every);
    crate::timeline::lemma_small();
    crate::order::lemma_whole(0);
    crate::timeline::lemma_blip_positions(tl.audible, every);
    if ms == 0 {
        assert(tl.vanish_ms.at_most(Double::whole(0)));
    } else if tl.untype {
        lemma_some_time(ms);
        if tl.chars == 0 {
            assert(at.len() == 0);
        }
        if 0 <= k < at.len() {
            assert(at.contains(at[k]));
            crate::untype::lemma_blip_near(tl, ms, at[k]);
        }
    }
}

/// A count that is not nothing is above it.
proof fn lemma_some_time(ms: u64)
    requires
        ms > 0,
    ensures
        !Double::whole(ms as nat).at_most(Double::whole(0)),
{
    let w = crate::double::one();
    crate::timeline::lemma_small();
    crate::order::lemma_whole(1);
    let n = ms as nat;
    assert(w <= n * w) by (nonlinear_arith)
        requires
            n >= 1,
    ;
    crate::rounding::lemma_nearest_mono(1 * w, n * w, 1);
    crate::rounding::lemma_units_mono(
        crate::rounding::nearest(1 * w, 1),
        crate::rounding::nearest(n * w, 1),
    );
    crate::order::lemma_of(false, crate::rounding::nearest(n * w, 1));
    crate::order::lemma_of(false, crate::rounding::nearest(1 * w, 1));
}

} // verus!
