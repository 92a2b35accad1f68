//! What a timeline promises in plain numbers: how far a message is at a time,
//! and how the parts of its life add up.
use crate::config::{Reveal, Vanish};
use crate::double::Double;
use crate::near::close;
use crate::timeline::TimelineView;
use vstd::prelude::*;

verus! {

/// A number that is not negative and no larger than another has no coarser a
/// last place.
proof fn lemma_finer(a: Double, b: Double)
    requires
        !a.nan(),
        !b.nan(),
        0 <= a.value() <= b.value(),
    ensures
        crate::bounds::last_place(a) <= crate::bounds::last_place(b),
{
    crate::order::lemma_zero(a);
    crate::order::lemma_zero(b);
    crate::rounding::lemma_units_mono(b.magnitude(), a.magnitude());
    crate::bounds::lemma_exponent_mono(a.magnitude(), b.magnitude());
}

/// The difference of a number and a smaller one is off by no more than its
/// last place.
proof fn lemma_taken_near(a: Double, b: Double)
    requires
        a.finite(),
        b.finite(),
        0 <= b.value() <= a.value(),
    ensures
        a.difference(b).finite(),
        0 <= a.difference(b).value() <= a.value(),
        a.difference(b).value() == crate::order::rounded(a.value() - b.value()).value(),
        close(
            a.difference(b).value(),
            a.value() - b.value(),
            crate::bounds::last_place(a.difference(b)) as int,
        ),
{
    let v = a.value() - b.value();
    let d = a.difference(b);
    let r = crate::order::rounded(v);
    crate::bounds::lemma_taken(a, b);
    crate::order::lemma_rounded_mono(v, v);
    crate::order::lemma_value_bound(d);
    crate::bounds::lemma_sign(r);
    crate::near::lemma_rounded_near(v);
    lemma_finer(r, d);
}

/// How far a vanish is. The share that is reported is the time since the end of
/// the hold, divided by the length of the vanish: times that length it is that
/// time again, up to three last places of hold and vanish together.
pub proof fn lemma_share_of_the_vanish(tl: TimelineView, t: Double)
    requires
        tl.wf(),
        tl.forward(),
        tl.reveal_ms.finite(),
        !t.nan(),
        tl.phase(t) is Vanish,
    ensures
        ({
            let p = tl.phase(t)->p;
            let w = crate::double::one() as int;
            let passed = t.value() - tl.reveal_ms.value() - tl.hold_ms.value();
            let slack = 3 * crate::bounds::last_place(tl.hold_ms.sum(tl.vanish_ms));
            &&& p.finite()
            &&& 0 <= p.value() <= w
            &&& close(p.value() * tl.vanish_ms.value(), passed * w, slack * w)
        }),
{
    let (r, h, v) = (tl.reveal_ms, tl.hold_ms, tl.vanish_ms);
    let w = crate::double::one() as int;
    let after = t.difference(r);
    let d = after.difference(h);
    let s = h.sum(v);
    let q = d.quotient(v);
    let one = Double::whole(1);
    crate::timeline::lemma_small();
    crate::timeline::lemma_less(t, r);
    crate::timeline::lemma_after_hold(after, h, v);
    if !t.finite() {
        crate::order::lemma_value_bound(t);
        crate::order::lemma_value_bound(r);
        crate::timeline::lemma_infinite(t);
        crate::timeline::lemma_infinite(after);
        crate::order::lemma_value_bound(v);
        assert(false);
    }
    lemma_taken_near(t, r);
    lemma_taken_near(after, h);
    // What has passed of the rest is no more than the rest.
    crate::order::lemma_sum(h, v);
    if after.value() - h.value() >= v.value() {
        crate::order::lemma_rounded_mono(v.value(), after.value() - h.value());
        crate::order::lemma_rounded_exact(v);
        assert(false);
    }
    crate::order::lemma_rounded_mono(after.value(), h.value() + v.value());
    crate::order::lemma_rounded_mono(v.value(), h.value() + v.value());
    crate::order::lemma_rounded_exact(after);
    crate::order::lemma_rounded_exact(v);
    let l = crate::bounds::last_place(s) as int;
    lemma_finer(after, s);
    lemma_finer(d, after);
    lemma_finer(v, s);
    // The quotient.
    crate::order::lemma_zero(v);
    crate::rounding::lemma_two_to_values();
    crate::rounding::lemma_two_to_add(53, 1021);
    let f = crate::rounding::two_to(1021) as int;
    let step = crate::rounding::STEP as int;
    let (x, y) = (d.value(), v.value());
    assert(x * w <= (2 * step) * (f * y)) by (nonlinear_arith)
        requires
            0 <= x <= y,
            w == (2 * step) * f,
            w > 0,
    {
        assert(x * w <= y * w);
        assert(y * ((2 * step) * f) == (2 * step) * (f * y));
    }
    crate::near::lemma_quotient_close(d, v, 1021);
    assert(x * w <= w * y) by (nonlinear_arith)
        requires
            0 <= x <= y,
            w > 0,
    ;
    crate::order::lemma_quotient_bound(d, v, one.magnitude());
    crate::order::lemma_quotient_mono(d, d, v);
    assert(crate::timeline::clamped(q) == q);
    // One part in 2^53 of the vanish is no more than its last place.
    let m = v.magnitude();
    let n = crate::rounding::significand(m) as int;
    let lv = crate::bounds::last_place(v) as int;
    crate::rounding::lemma_parts(m);
    crate::order::lemma_zero(v);
    assert(f * y <= l * w) by (nonlinear_arith)
        requires
            y == n * lv,
            0 <= n < 2 * step,
            0 <= lv <= l,
            w == (2 * step) * f,
            f > 0,
    {
        assert(n * lv <= (2 * step) * l);
        assert(f * (n * lv) <= f * ((2 * step) * l));
    }
    let passed = t.value() - r.value() - h.value();
    assert(close(x * w, passed * w, 2 * (l * w))) by (nonlinear_arith)
        requires
            -2 * l <= x - passed <= 2 * l,
            w > 0,
    ;
    assert(3 * l * w == 3 * (l * w)) by (nonlinear_arith);
}

/// Which phase it is by the clock: typing until the last character is there,
/// and then holding for the time to hold, up to its last place.
pub proof fn lemma_phase_by_the_clock(tl: TimelineView, t: Double)
    requires
        tl.wf(),
        tl.forward(),
        tl.reveal_ms.finite(),
        !t.nan(),
    ensures
        ({
            let since = t.value() - tl.reveal_ms.value();
            let h = tl.hold_ms.value();
            &&& tl.phase(t) is Reveal <==> since < 0
            &&& tl.phase(t) is Hold ==> 0 <= since < h
            &&& t.finite() && 0 <= since <= h - crate::bounds::last_place(tl.hold_ms)
                ==> tl.phase(t) is Hold
        }),
{
    let (r, h) = (tl.reveal_ms, tl.hold_ms);
    let since = t.value() - r.value();
    crate::timeline::lemma_less(t, r);
    crate::order::lemma_value_bound(t);
    crate::order::lemma_value_bound(r);
    crate::order::lemma_value_bound(h);
    crate::rounding::lemma_two_to_pos(crate::rounding::exponent(h.magnitude()));
    crate::rounding::lemma_units_mono(0, crate::rounding::INF as nat);
    if since >= 0 {
        if t.finite() {
            lemma_taken_near(t, r);
            if since >= h.value() {
                crate::order::lemma_rounded_mono(h.value(), since);
                crate::order::lemma_rounded_exact(h);
            } else if since <= h.value() - crate::bounds::last_place(h) {
                crate::order::lemma_zero(h);
                let m = h.magnitude();
                let last = (m - 1) as nat;
                let before = Double::of(false, last);
                crate::order::lemma_of(false, last);
                crate::rounding::lemma_units_step(last);
                crate::rounding::lemma_units_mono(last, m);
                crate::bounds::lemma_exponent_mono(last, m);
                crate::order::lemma_rounded_mono(since, before.value());
                crate::order::lemma_rounded_exact(before);
            }
        } else {
            crate::timeline::lemma_infinite(t);
        }
    }
}

/// While a message is typed, the characters that are there are those whose
/// moment has come.
pub proof fn lemma_typed_so_far(tl: TimelineView, t: Double, i: int)
    requires
        tl.wf(),
        tl.chars <= usize::MAX,
        tl.phase(t) is Reveal,
        0 <= i < tl.steps.len(),
    ensures
        i < tl.phase(t)->chars <==> tl.steps[i].at_most(t),
{
    crate::timeline::lemma_reached(tl.steps, t, i);
}

/// The parts of a message's life are those it was made with: one moment per
/// typed character and the reveal over with the last; the hold time; and the
/// time of the vanish. Nothing is typed where the reveal is instant or has no
/// speed.
pub proof fn lemma_parts_as_asked(
    text: Seq<char>,
    reveal: Reveal,
    timeout_ms: u64,
    vanish: Vanish,
    seed: u64,
    shown: nat,
)
    ensures
        ({
            let tl = crate::timeline::timeline_of(text, reveal, timeout_ms, vanish, seed, shown);
            let w = crate::double::one();
            let ms = match vanish {
                Vanish::Instant => 0u64,
                Vanish::Fade { ms } => ms,
                Vanish::Collapse { ms } => ms,
                Vanish::Wash { ms, .. } => ms,
                Vanish::Untype { ms } => ms,
                Vanish::Dissolve { ms } => ms,
            };
            &&& tl.chars == text.len()
            &&& timeout_ms <= 0x20_0000_0000_0000 ==> tl.hold_ms.value() == timeout_ms * w
            &&& ms <= 0x20_0000_0000_0000 ==> tl.vanish_ms.value() == ms * w
            &&& tl.untype <==> vanish is Untype
            &&& (match reveal {
                Reveal::Instant => tl.steps.len() == 0,
                Reveal::Typewriter { cps, .. } => if !cps.nan() && cps.value() <= 0 {
                    tl.steps.len() == 0
                } else {
                    tl.steps.len() == text.len()
                },
            })
            &&& if tl.steps.len() > 0 {
                tl.reveal_ms == tl.steps.last()
            } else {
                tl.reveal_ms.value() == 0
            }
        }),
{
    crate::timeline::lemma_small();
    if timeout_ms <= 0x20_0000_0000_0000 {
        crate::order::lemma_whole(timeout_ms as nat);
    }
    if vanish.duration() <= 0x20_0000_0000_0000 {
        crate::order::lemma_whole(vanish.duration() as nat);
    }
}

/// The total is the sum of the parts, and a message fits the maximum lifetime
/// where it is no longer than that: exactly where the exact sum is, up to a
/// millisecond above.
pub proof fn lemma_fits(
    text: Seq<char>,
    reveal: Reveal,
    timeout_ms: u64,
    vanish: Vanish,
    seed: u64,
    shown: nat,
)
    requires
        crate::timeline::timeline_of(
            text,
            reveal,
            timeout_ms,
            vanish,
            seed,
            shown,
        ).reveal_ms.finite(),
    ensures
        ({
            let tl = crate::timeline::timeline_of(text, reveal, timeout_ms, vanish, seed, shown);
            let w = crate::double::one();
            let parts = tl.reveal_ms.value() + tl.hold_ms.value() + tl.vanish_ms.value();
            &&& parts <= 3_600_000 * w ==> tl.fits_lifetime()
            &&& tl.fits_lifetime() ==> parts <= 3_600_001 * w
        }),
{
    let tl = crate::timeline::timeline_of(text, reveal, timeout_ms, vanish, seed, shown);
    let w = crate::double::one() as int;
    let (r, h, v) = (tl.reveal_ms, tl.hold_ms, tl.vanish_ms);
    let parts = r.value() + h.value() + v.value();
    let s = r.sum(h);
    let total = s.sum(v);
    let ms = vanish.duration();
    crate::timeline::lemma_small();
    crate::timeline::lemma_timeline_wf(text, reveal, timeout_ms, vanish, seed, shown);
    crate::order::lemma_whole(3_600_000);
    crate::order::lemma_sum(r, h);
    crate::order::lemma_sum_grows(r, h);
    crate::order::lemma_sum_grows(s, v);
    crate::order::lemma_sum_covers(s, v);
    crate::order::lemma_value_bound(Double::whole(3_600_000));
    if ms <= 3_600_000 {
        crate::order::lemma_whole(ms as nat);
        let room = 3_600_000 - ms;
        assert(room * w + ms * w == 3_600_000 * w && (room + 1) * w + ms * w == 3_600_001 * w)
            by (nonlinear_arith)
            requires
                room == 3_600_000 - ms,
        ;
        crate::bounds::lemma_rounded_int(room);
        crate::bounds::lemma_rounded_int(room + 1);
        if parts <= 3_600_000 * w {
            crate::order::lemma_rounded_mono(r.value() + h.value(), room * w);
            crate::bounds::lemma_sign(s);
            crate::bounds::lemma_plus(s, v, 0, 3_600_000);
        }
        if parts > 3_600_001 * w && tl.fits_lifetime() {
            crate::order::lemma_rounded_mono((room + 1) * w, r.value() + h.value());
            crate::order::lemma_value_bound(s);
            if s.finite() {
                crate::order::lemma_sum(s, v);
                crate::bounds::lemma_rounded_int(3_600_001);
                crate::order::lemma_rounded_mono(3_600_001 * w, s.value() + v.value());
            }
            assert(false);
        }
    } else {
        // The vanish alone is too long.
        crate::order::lemma_whole(3_600_001);
        crate::bounds::lemma_rounded_int(3_600_001);
        assert(3_600_001 * w <= ms * w) by (nonlinear_arith)
            requires
                3_600_001 <= ms,
                w > 0,
        ;
        crate::order::lemma_rounded_mono(3_600_001 * w, ms * w);
        crate::order::lemma_of(false, crate::rounding::nearest((ms * w) as nat, 1));
        assert(v == crate::order::rounded(ms * w));
        assert(v.value() >= 3_600_001 * w);
    }
}

/// The vanish begins when reveal and hold are over, in seconds.
pub proof fn lemma_vanish_start(tl: TimelineView)
    requires
        tl.wf(),
        tl.forward(),
        tl.reveal_ms.finite(),
        tl.reveal_ms.value() + tl.hold_ms.value() <= 0x1_0000_0000 * crate::double::one(),
    ensures
        close(
            1000 * crate::timeline::vanish_start_of(tl).value(),
            tl.reveal_ms.value() + tl.hold_ms.value(),
            (1002 * crate::rounding::two_to(1053)) as int,
        ),
{
    let w = crate::double::one() as int;
    let s = tl.reveal_ms.sum(tl.hold_ms);
    crate::rounding::lemma_two_to_values();
    crate::rounding::lemma_two_to_add(53, 1053);
    crate::rounding::lemma_two_to_add(32, 1074);
    lemma_thirty_two();
    crate::near::lemma_sum_close(tl.reveal_ms, tl.hold_ms, 1053);
    lemma_seconds(s);
}

pub(crate) proof fn lemma_thirty_two()
    ensures
        crate::rounding::two_to(32) == 0x1_0000_0000,
        crate::rounding::two_to(1074) > 0,
        0x1_0000_0000 * crate::double::one() == (2 * crate::rounding::STEP)
            * crate::rounding::two_to(1053),
{
    reveal_with_fuel(crate::rounding::two_to, 17);
    crate::rounding::lemma_two_to_pos(1074);
    crate::rounding::lemma_two_to_values();
    crate::rounding::lemma_two_to_add(16, 16);
    crate::rounding::lemma_two_to_add(53, 1053);
    crate::rounding::lemma_two_to_add(32, 1074);
}

/// Milliseconds as seconds.
pub(crate) proof fn lemma_seconds(d: Double)
    requires
        d.finite(),
        crate::double::size(d.value()) <= 0x1_0000_0000 * crate::double::one()
            + crate::rounding::two_to(1053),
    ensures
        d.quotient(Double::whole(1000)).finite(),
        close(
            1000 * d.quotient(Double::whole(1000)).value(),
            d.value(),
            (1000 * crate::rounding::two_to(1053)) as int,
        ),
{
    let w = crate::double::one() as int;
    let f = crate::rounding::two_to(1053) as int;
    let k = Double::whole(1000);
    let x = crate::double::size(d.value()) as int;
    let step = crate::rounding::STEP as int;
    lemma_thirty_two();
    crate::rounding::lemma_two_to_pos(1053);
    crate::order::lemma_whole(1000);
    assert(1000 * w != 0 && x * w <= (2 * step) * (f * (1000 * w))) by (nonlinear_arith)
        requires
            x <= (2 * step) * f + f,
            step == 0x10_0000_0000_0000,
            w > 0,
            f > 0,
            x >= 0,
    {
        assert(x <= 1000 * ((2 * step) * f));
        assert(x * w <= (1000 * ((2 * step) * f)) * w);
    }
    crate::near::lemma_quotient_close(d, k, 1053);
    let q = d.quotient(k).value();
    assert(close(1000 * q, d.value(), 1000 * f)) by (nonlinear_arith)
        requires
            -(f * (1000 * w)) <= q * (1000 * w) - d.value() * w <= f * (1000 * w),
            w > 0,
    {
        assert(q * (1000 * w) - d.value() * w == (1000 * q - d.value()) * w);
        assert(f * (1000 * w) == (1000 * f) * w);
    }
}

/// The blips of the reveal are the moments of the animation, in seconds: one
/// for every position that sounds, in order, at the moment its character
/// appears.
pub proof fn lemma_reveal_blips(tl: TimelineView, every: nat, k: int)
    requires
        tl.wf(),
        tl.steps.len() > 0,
        tl.reveal_ms.finite(),
        tl.reveal_ms.value() <= 0x1_0000_0000 * crate::double::one(),
        every > 0,
        0 <= k < crate::timeline::blips(tl.audible, every).len(),
        forall|i: int| 0 <= i < tl.steps.len() ==> (#[trigger] tl.steps[i]).value() >= 0,
    ensures
        ({
            let i = crate::timeline::blips(tl.audible, every)[k];
            let out = tl.reveal_blips(every);
            &&& out.len() == crate::timeline::blips(tl.audible, every).len()
            &&& i < tl.steps.len()
            &&& tl.audible[i as int]
            &&& i % every == 0
            &&& close(
                1000 * out[k].value(),
                tl.steps[i as int].value(),
                (1000 * crate::rounding::two_to(1053)) as int,
            )
        }),
{
    let all = crate::timeline::blips(tl.audible, every);
    crate::timeline::lemma_blip_positions(tl.audible, every);
    assert(all.contains(all[k]));
    let i = all[k] as int;
    assert(tl.steps[i].at_most(tl.steps[tl.steps.len() - 1]));
    crate::order::lemma_value_bound(tl.reveal_ms);
    crate::rounding::lemma_units_mono(0, crate::rounding::INF as nat);
    crate::bounds::lemma_sign(tl.steps[i]);
    lemma_seconds(tl.steps[i]);
}

} // verus!
