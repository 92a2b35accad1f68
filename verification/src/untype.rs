//! Untyping: the blip of a character and its disappearance share their moment.
use crate::double::Double;
use crate::timeline::TimelineView;
use vstd::prelude::*;

verus! {

/// What is left of an untype, between whole numbers of characters.
proof fn lemma_left_near(tl: TimelineView, i: nat, p: Double)
    requires
        i < tl.chars <= crate::config::MAX_TEXT_CHARS,
        p.finite(),
        0 <= p.value() <= crate::double::one(),
    ensures
        ({
            let n = tl.chars;
            let w = crate::double::one();
            let slack = crate::rounding::two_to(1039);
            &&& n * p.value() >= (n - i) * w + slack ==> tl.left(p) <= i
            &&& n * p.value() <= (n - i) * w - slack ==> tl.left(p) > i
        }),
{
    let n = tl.chars;
    let w = crate::double::one();
    let c = Double::whole(n);
    let r = Double::whole(1).difference(p);
    let x = r.product(c);
    let slack = crate::rounding::two_to(1039);
    let fine = crate::rounding::two_to(1021);
    let coarse = crate::rounding::two_to(1038);
    let step = crate::rounding::STEP as nat;
    crate::timeline::lemma_small();
    crate::rounding::lemma_two_to_values();
    crate::order::lemma_whole(n);
    crate::timeline::lemma_remaining(p);
    // One less the share.
    let rest = (w - p.value()) as nat;
    crate::rounding::lemma_two_to_add(53, 1021);
    crate::rounding::lemma_two_to_pos(1021);
    assert(fine * 1 == fine && (2 * step) * (fine * 1) == w);
    crate::bounds::lemma_near(rest, 1, 1021);
    crate::order::lemma_of(false, crate::rounding::nearest(rest, 1));
    let a = r.value();
    assert(a - fine <= rest <= a + fine);
    // Times the characters.
    let num = (a * (n * w)) as nat;
    assert(a * (n * w) >= 0) by (nonlinear_arith)
        requires
            a >= 0,
    ;
    assert(131072 * fine == coarse && 2 * coarse == slack) by {
        assert(crate::rounding::two_to(17) == 131072) by {
            reveal_with_fuel(crate::rounding::two_to, 18);
        }
        crate::rounding::lemma_two_to_add(17, 1021);
    }
    assert(num <= (2 * step) * (coarse * w)) by (nonlinear_arith)
        requires
            num == a * (n * w),
            0 <= a <= w,
            n <= 131072,
            coarse == 131072 * fine,
            (2 * step) * fine == w,
    ;
    crate::bounds::lemma_near(num, w, 1038);
    let m = crate::rounding::nearest(num, w);
    crate::order::lemma_of(false, m);
    let v = crate::rounding::units(m);
    assert(n * w >= 0) by (nonlinear_arith);
    assert(x.value() == v);
    assert(v - coarse <= a * n <= v + coarse) by (nonlinear_arith)
        requires
            v * w <= num + coarse * w,
            num <= v * w + coarse * w,
            num == a * (n * w),
            w > 0,
    ;
    let exact = n * rest;
    assert(a * n - n * fine <= exact <= a * n + n * fine) by (nonlinear_arith)
        requires
            a - fine <= rest <= a + fine,
            exact == n * rest,
    ;
    assert(n * fine < coarse) by (nonlinear_arith)
        requires
            n < 131072,
            fine > 0,
            coarse == 131072 * fine,
    ;
    assert(exact == n * w - n * p.value()) by (nonlinear_arith)
        requires
            exact == n * rest,
            rest == w - p.value(),
    ;
    assert((n - i) * w == n * w - i * w) by (nonlinear_arith);
    let q = (v + w - 1) / (w as int);
    if n * p.value() >= (n - i) * w + slack {
        assert(v <= i * w);
        assert(q <= i) by (nonlinear_arith)
            requires
                q == (v + w - 1) / (w as int),
                v <= i * w,
                w > 0,
        ;
    }
    if n * p.value() <= (n - i) * w - slack {
        assert(v > i * w);
        assert(i * w >= 0) by (nonlinear_arith);
        assert(q > i) by (nonlinear_arith)
            requires
                q == (v + w - 1) / (w as int),
                v > i * w,
                w > 0,
        ;
    }
}

/// When an untype erases a character, up to rounding: at the share of the
/// vanish that the characters from it to the end are of all of them.
pub(crate) proof fn lemma_blip_near(tl: TimelineView, ms: u64, i: nat)
    requires
        0 < ms,
        tl.vanish_ms == Double::whole(ms as nat),
        i < tl.chars <= crate::config::MAX_TEXT_CHARS,
    ensures
        ({
            let s = crate::rounding::STEP;
            let b = 1000 * (tl.chars * tl.untype_blip(i).value());
            let v = (tl.chars - i) * tl.vanish_ms.value();
            &&& tl.untype_blip(i).finite()
            &&& !tl.untype_blip(i).negative()
            &&& crate::double::one() <= tl.vanish_ms.value() <= crate::rounding::two_to(1138)
            &&& s * (b - v) <= 4 * v
            &&& s * (v - b) <= 4 * v
        }),
{
    let n = tl.chars;
    let m = (n - i) as nat;
    let w = crate::double::one();
    let s = crate::rounding::STEP as int;
    let limit = crate::rounding::two_to(1200);
    let whole = tl.vanish_ms;
    crate::timeline::lemma_small();
    crate::rounding::lemma_two_to_values();
    crate::rounding::lemma_two_to_mono(127, 1074);
    crate::rounding::lemma_two_to_add(2, 1138);
    crate::rounding::lemma_two_to_mono(1140, 1200);
    assert(crate::rounding::two_to(2) == 4) by {
        reveal_with_fuel(crate::rounding::two_to, 3);
    }
    // The whole of it.
    crate::timeline::lemma_word_value(ms);
    let v = whole.value();
    crate::order::lemma_zero(whole);
    // One character's part of it.
    crate::order::lemma_whole(n);
    crate::order::lemma_zero(Double::whole(n));
    assert(n * w > 0) by (nonlinear_arith)
        requires
            n > 0,
            w > 0,
    ;
    let q = whole.quotient(Double::whole(n));
    let q1 = crate::bounds::lemma_part(whole, Double::whole(n), n);
    assert(2 * (q1 * n) >= v && q1 * n <= 2 * v) by (nonlinear_arith)
        requires
            s * (q1 * n - v) <= v,
            s * (v - q1 * n) <= v,
            s == 0x10_0000_0000_0000,
            v > 0,
    ;
    assert(q1 >= 0x2000_0000_0000_0000_0000_0000_0000 && q1 <= 2 * v) by (nonlinear_arith)
        requires
            2 * (q1 * n) >= v,
            q1 * n <= 2 * v,
            v >= 0x8000_0000_0000_0000_0000_0000_0000_0000,
            1 <= n <= 131072,
    ;
    crate::order::lemma_zero(q);
    // In seconds.
    crate::order::lemma_whole(1000);
    crate::order::lemma_zero(Double::whole(1000));
    let q2 = crate::bounds::lemma_part(q, Double::whole(1000), 1000);
    let step = tl.untype_step();
    assert(2 * (q2 * 1000) >= q1 && q2 * 1000 <= 2 * q1) by (nonlinear_arith)
        requires
            s * (q2 * 1000 - q1) <= q1,
            s * (q1 - q2 * 1000) <= q1,
            s == 0x10_0000_0000_0000,
            q1 > 0,
    ;
    crate::order::lemma_zero(step);
    // As many of them as characters from the end.
    crate::order::lemma_whole(m);
    let num = (m * w) * q2;
    assert(m * q2 >= s && m * q2 <= 4 * v) by (nonlinear_arith)
        requires
            1 <= m <= n,
            q2 * 2000 >= 0x2000_0000_0000_0000_0000_0000_0000,
            q2 * 1000 <= 2 * q1,
            q1 * n <= 2 * v,
            s == 0x10_0000_0000_0000,
            q2 >= 0,
            q1 >= 0,
    ;
    assert(num >= s * w && num <= limit * w) by (nonlinear_arith)
        requires
            num == (m * w) * q2,
            s <= m * q2 <= limit,
            w > 0,
    ;
    crate::bounds::lemma_near_relative(num, w);
    let bm = crate::rounding::nearest(num, w);
    let b = crate::rounding::units(bm);
    assert(m * w >= 0) by (nonlinear_arith);
    crate::order::lemma_of(false, bm);
    assert(tl.untype_blip(i).value() == b);
    assert(s * (b - m * q2) <= m * q2 && s * (m * q2 - b) <= m * q2) by (nonlinear_arith)
        requires
            s * (b * w - num) <= num,
            s * (num - b * w) <= num,
            num == (m * w) * q2,
            w > 0,
    ;
    lemma_three_roundings(n as int, m as int, v, q1 as int, q2 as int, b as int);
}

/// Three roundings of one part in 2^52 each come to no more than four.
proof fn lemma_three_roundings(n: int, m: int, v: int, q1: int, q2: int, b: int)
    requires
        1 <= m <= n,
        v > 0,
        q1 >= 0,
        q2 >= 0,
        crate::rounding::STEP * (q1 * n - v) <= v,
        crate::rounding::STEP * (v - q1 * n) <= v,
        crate::rounding::STEP * (q2 * 1000 - q1) <= q1,
        crate::rounding::STEP * (q1 - q2 * 1000) <= q1,
        crate::rounding::STEP * (b - m * q2) <= m * q2,
        crate::rounding::STEP * (m * q2 - b) <= m * q2,
    ensures
        crate::rounding::STEP * (1000 * (n * b) - m * v) <= 4 * (m * v),
        crate::rounding::STEP * (m * v - 1000 * (n * b)) <= 4 * (m * v),
{
    let s = crate::rounding::STEP as int;
    let x = q1 * n;
    let y = q2 * 1000;
    // The parts of the error, each times what it is multiplied by.
    let e1 = x - v;
    let e2 = y - q1;
    let e3 = b - m * q2;
    assert(1000 * (n * b) - m * v == 1000 * (n * e3) + (m * n) * e2 + m * e1) by (nonlinear_arith)
        requires
            x == q1 * n,
            y == q2 * 1000,
            e1 == x - v,
            e2 == y - q1,
            e3 == b - m * q2,
    ;
    let d1 = m * e1;
    let d2 = (m * n) * e2;
    let d3 = 1000 * (n * e3);
    assert(-(m * v) <= s * d1 <= m * v) by (nonlinear_arith)
        requires
            d1 == m * e1,
            -v <= s * e1 <= v,
            m >= 1,
    ;
    let f2 = (m * n) * q1;
    assert(-f2 <= s * d2 <= f2) by (nonlinear_arith)
        requires
            d2 == (m * n) * e2,
            f2 == (m * n) * q1,
            -q1 <= s * e2 <= q1,
            m >= 1,
            n >= 1,
    ;
    let f3 = (m * n) * y;
    assert(-f3 <= s * d3 <= f3) by (nonlinear_arith)
        requires
            d3 == 1000 * (n * e3),
            f3 == (m * n) * y,
            y == q2 * 1000,
            -(m * q2) <= s * e3 <= m * q2,
            n >= 1,
    ;
    // Each is not much more than the part itself.
    assert(f2 == m * x) by (nonlinear_arith)
        requires
            f2 == (m * n) * q1,
            x == q1 * n,
    ;
    assert(s * f2 <= (s + 1) * (m * v)) by (nonlinear_arith)
        requires
            f2 == m * x,
            s * (x - v) <= v,
            m >= 1,
    ;
    assert(s * f3 <= (s + 1) * f2) by (nonlinear_arith)
        requires
            f3 == (m * n) * y,
            f2 == (m * n) * q1,
            s * (y - q1) <= q1,
            m >= 1,
            n >= 1,
    ;
    let z = m * v;
    assert(z > 0) by (nonlinear_arith)
        requires
            z == m * v,
            m >= 1,
            v > 0,
    ;
    assert(f2 >= 0) by (nonlinear_arith)
        requires
            f2 == (m * n) * q1,
            m >= 1,
            n >= 1,
            q1 >= 0,
    ;
    assert(4 * f2 <= 5 * z && 4 * f3 <= 5 * f2) by (nonlinear_arith)
        requires
            s * f2 <= (s + 1) * z,
            s * f3 <= (s + 1) * f2,
            s == 0x10_0000_0000_0000,
            z > 0,
            f2 >= 0,
    ;
}

/// The blip of an untyped character and the character's disappearance share
/// their moment. The blip sounds when as large a share of the vanish has passed
/// as the characters from this one to the end are of all of them, up to four
/// parts in 2^52. Before it the character is still there and from it on it is
/// gone, up to one part in 2^32 of the time that a character takes.
pub proof fn lemma_untype_blip(tl: TimelineView, ms: u64, i: nat, p: Double)
    requires
        0 < ms,
        tl.vanish_ms == Double::whole(ms as nat),
        i < tl.chars <= crate::config::MAX_TEXT_CHARS,
        !p.nan(),
        0 <= p.value() <= crate::double::one(),
    ensures
        ({
            let n = tl.chars as int;
            let w = crate::double::one() as int;
            let s = crate::rounding::STEP as int;
            let v = tl.vanish_ms.value();
            let blip = tl.untype_blip(i).value();
            let tick = crate::rounding::two_to(1042) as int;
            &&& tick * 0x1_0000_0000 == w
            &&& s * (1000 * (n * blip) - (n - i) * v) <= 4 * ((n - i) * v)
            &&& s * ((n - i) * v - 1000 * (n * blip)) <= 4 * ((n - i) * v)
            &&& n * (p.value() * v - 1000 * (blip * w)) >= v * tick ==> tl.left(p) <= i
            &&& n * (1000 * (blip * w) - p.value() * v) >= v * tick ==> tl.left(p) > i
        }),
{
    let n = tl.chars as int;
    let m = n - i;
    let w = crate::double::one() as int;
    let s = crate::rounding::STEP as int;
    let v = tl.vanish_ms.value();
    let blip = tl.untype_blip(i).value();
    let slack = crate::rounding::two_to(1039) as int;
    let tick = crate::rounding::two_to(1042) as int;
    crate::timeline::lemma_small();
    crate::bounds::lemma_rounded_int(1);
    crate::bounds::lemma_sign(p);
    lemma_blip_near(tl, ms, i);
    lemma_left_near(tl, i, p);
    crate::rounding::lemma_two_to_pos(1039);
    assert(tick == 8 * slack && w == 0x8_0000_0000 * slack) by {
        crate::rounding::lemma_two_to_add(3, 1039);
        crate::rounding::lemma_two_to_add(35, 1039);
        assert(crate::rounding::two_to(3) == 8 && crate::rounding::two_to(17) == 131072) by {
            reveal_with_fuel(crate::rounding::two_to, 18);
        }
        assert(crate::rounding::two_to(18) == 262144);
        crate::rounding::lemma_two_to_add(17, 18);
    }
    let x = n * p.value();
    let y = m * w;
    let b = 1000 * (n * blip);
    // The same, with the length of the vanish taken out.
    assert(n * (p.value() * v - 1000 * (blip * w)) == v * x - w * b) by (nonlinear_arith)
        requires
            x == n * p.value(),
            b == 1000 * (n * blip),
    ;
    assert(n * (1000 * (blip * w) - p.value() * v) == w * b - v * x) by (nonlinear_arith)
        requires
            x == n * p.value(),
            b == 1000 * (n * blip),
    ;
    assert(s * (w * b - v * y) <= 4 * (v * y) && s * (v * y - w * b) <= 4 * (v * y))
        by (nonlinear_arith)
        requires
            y == m * w,
            s * (b - m * v) <= 4 * (m * v),
            s * (m * v - b) <= 4 * (m * v),
            w > 0,
    ;
    assert(4 * y <= s * slack * 7) by (nonlinear_arith)
        requires
            y == m * w,
            1 <= m <= 100_000,
            w == 0x8_0000_0000 * slack,
            s == 0x10_0000_0000_0000,
            slack > 0,
    ;
    if v * x - w * b >= v * tick {
        assert(x >= y + slack) by (nonlinear_arith)
            requires
                v * x - w * b >= v * tick,
                s * (v * y - w * b) <= 4 * (v * y),
                4 * y <= s * slack * 7,
                tick == 8 * slack,
                v > 0,
                s > 0,
        ;
    }
    if w * b - v * x >= v * tick {
        assert(x <= y - slack) by (nonlinear_arith)
            requires
                w * b - v * x >= v * tick,
                s * (w * b - v * y) <= 4 * (v * y),
                4 * y <= s * slack * 7,
                tick == 8 * slack,
                v > 0,
                s > 0,
        ;
    }
}

/// The blips of an untype run backwards, the last character's first, and lie
/// within the vanish, up to four parts in 2^52.
pub proof fn lemma_untype_blips_descend(tl: TimelineView, ms: u64, i: nat, j: nat)
    requires
        0 < ms,
        tl.vanish_ms == Double::whole(ms as nat),
        i < j < tl.chars <= crate::config::MAX_TEXT_CHARS,
    ensures
        ({
            let s = crate::rounding::STEP as int;
            &&& tl.untype_blip(j).below(tl.untype_blip(i))
            &&& 0 < tl.untype_blip(j).value()
            &&& s * (1000 * tl.untype_blip(i).value() - tl.vanish_ms.value()) <= 4
                * tl.vanish_ms.value()
        }),
{
    let n = tl.chars as int;
    let v = tl.vanish_ms.value();
    let s = crate::rounding::STEP as int;
    let (a, b) = (tl.untype_blip(i).value(), tl.untype_blip(j).value());
    let (x, y) = (n - i, n - j);
    crate::timeline::lemma_small();
    lemma_blip_near(tl, ms, i);
    lemma_blip_near(tl, ms, j);
    let (d, e) = (1000 * (n * a), 1000 * (n * b));
    assert(d > e > 0) by (nonlinear_arith)
        requires
            s * (x * v - d) <= 4 * (x * v),
            s * (y * v - e) <= 4 * (y * v),
            s * (e - y * v) <= 4 * (y * v),
            1 <= y < x <= 100_000,
            v > 0,
            s == 0x10_0000_0000_0000,
    {
        assert(y * v + v <= x * v);
        assert(0 < y * v <= 100_000 * v);
        assert(0 < x * v <= 100_000 * v);
    }
    assert(a > b > 0) by (nonlinear_arith)
        requires
            1000 * (n * a) > 1000 * (n * b) > 0,
            n > 0,
    ;
    assert(s * (1000 * a - v) <= 4 * v) by (nonlinear_arith)
        requires
            s * (1000 * (n * a) - x * v) <= 4 * (x * v),
            0 < x <= n,
            v > 0,
            s == 0x10_0000_0000_0000,
    {
        assert(x * v <= n * v);
        assert(s * (1000 * (n * a)) <= (s + 4) * (x * v));
        assert((s + 4) * (x * v) <= (s + 4) * (n * v));
        assert(n * (s * (1000 * a)) <= n * ((s + 4) * v));
    }
}

/// The share that has passed at a blip, up to rounding.
proof fn lemma_share_near(tl: TimelineView, ms: u64, i: nat)
    requires
        0 < ms,
        tl.vanish_ms == Double::whole(ms as nat),
        i < tl.chars <= crate::config::MAX_TEXT_CHARS,
    ensures
        ({
            let s = crate::rounding::STEP as int;
            let w = crate::double::one() as int;
            let v = tl.vanish_ms.value();
            let p = tl.untype_share(i);
            let x = tl.chars * p.value();
            let z = (tl.chars - i) * v;
            &&& p.finite()
            &&& p.value() >= 0
            &&& s * (v * x - w * z) <= 10 * (w * z)
            &&& s * (w * z - v * x) <= 10 * (w * z)
        }),
{
    let n = tl.chars as int;
    let m = n - i;
    let w = crate::double::one();
    let s = crate::rounding::STEP as int;
    let v = tl.vanish_ms.value() as nat;
    let blip = tl.untype_blip(i);
    let b = blip.value() as nat;
    let limit = crate::rounding::two_to(1200);
    let z = m * v;
    let e = 1000 * (n * b);
    crate::timeline::lemma_small();
    crate::timeline::lemma_word_value(ms);
    lemma_blip_near(tl, ms, i);
    crate::rounding::lemma_two_to_values();
    crate::rounding::lemma_two_to_mono(127, 1074);
    crate::rounding::lemma_two_to_mono(1142, 1200);
    crate::rounding::lemma_two_to_add(4, 1138);
    assert(crate::rounding::two_to(4) == 16) by {
        reveal_with_fuel(crate::rounding::two_to, 5);
    }
    assert(v <= z <= 100_000 * v) by (nonlinear_arith)
        requires
            z == m * v,
            1 <= m <= 100_000,
            v > 0,
    ;
    assert(2 * e >= z && e <= 2 * z) by (nonlinear_arith)
        requires
            s * (e - z) <= 4 * z,
            s * (z - e) <= 4 * z,
            s == 0x10_0000_0000_0000,
            z > 0,
    ;
    // In milliseconds.
    crate::order::lemma_whole(1000);
    let num = b * (1000 * w);
    assert(1000 * b >= s && 1000 * b <= 4 * v) by (nonlinear_arith)
        requires
            2 * (1000 * (n * b)) >= v,
            1000 * (n * b) <= 2 * (m * v),
            v >= 0x8000_0000_0000_0000_0000_0000_0000_0000,
            1 <= m <= n <= 131072,
            s == 0x10_0000_0000_0000,
    {
        assert(m * v <= n * v);
        assert(n * (1000 * b) <= n * (2 * v));
        assert(n * (2 * (1000 * b)) >= v);
    }
    assert(num >= s * w && num <= limit * w) by (nonlinear_arith)
        requires
            num == b * (1000 * w),
            s <= 1000 * b <= limit,
            w > 0,
    ;
    crate::bounds::lemma_near_relative(num, w);
    let cm = crate::rounding::nearest(num, w);
    let c = crate::rounding::units(cm);
    crate::order::lemma_of(false, cm);
    crate::order::lemma_zero(blip);
    let passed = blip.product(Double::whole(1000));
    assert(passed.value() == c && passed.finite() && !passed.negative());
    assert(s * (c - 1000 * b) <= 1000 * b && s * (1000 * b - c) <= 1000 * b) by (nonlinear_arith)
        requires
            s * (c * w - num) <= num,
            s * (num - c * w) <= num,
            num == b * (1000 * w),
            w > 0,
    ;
    let k = n * c;
    assert(s * (k - e) <= e && s * (e - k) <= e) by (nonlinear_arith)
        requires
            k == n * c,
            e == 1000 * (n * b),
            s * (c - 1000 * b) <= 1000 * b,
            s * (1000 * b - c) <= 1000 * b,
            n > 0,
    ;
    // Of the whole.
    let part = c * w;
    assert(2 * k >= e && k <= 2 * e) by (nonlinear_arith)
        requires
            s * (k - e) <= e,
            s * (e - k) <= e,
            s == 0x10_0000_0000_0000,
            e > 0,
    ;
    assert(part >= s * v && part <= limit * v) by (nonlinear_arith)
        requires
            part == c * w,
            4 * (n * c) >= v,
            n * c <= 4 * (m * v),
            1 <= m <= n <= 131072,
            w >= 0x8000_0000_0000_0000_0000_0000_0000_0000,
            16 * w <= limit,
            s == 0x10_0000_0000_0000,
            v > 0,
    {
        assert(m * v <= n * v);
        assert(n * c <= n * (4 * v));
        assert(c <= 4 * v);
        assert(c * w <= (4 * v) * w);
        assert((4 * v) * w <= limit * v);
        assert(524288 * c >= v);
        assert(c * w >= c * (524288 * s));
    }
    crate::bounds::lemma_near_relative(part, v);
    let pm = crate::rounding::nearest(part, v);
    let p = crate::rounding::units(pm);
    crate::order::lemma_of(false, pm);
    crate::order::lemma_zero(tl.vanish_ms);
    assert(tl.untype_share(i).value() == p && tl.untype_share(i).finite());
    let x = n * p;
    assert(s * (v * x - w * k) <= w * k && s * (w * k - v * x) <= w * k) by (nonlinear_arith)
        requires
            x == n * p,
            k == n * c,
            part == c * w,
            s * (p * v - part) <= part,
            s * (part - p * v) <= part,
            n > 0,
    ;
    lemma_share_roundings(v as int, w as int, x, k, e, z);
}

/// The roundings of a share come to no more than ten parts in 2^52.
proof fn lemma_share_roundings(v: int, w: int, x: int, k: int, e: int, z: int)
    requires
        z > 0,
        w > 0,
        crate::rounding::STEP * (v * x - w * k) <= w * k,
        crate::rounding::STEP * (w * k - v * x) <= w * k,
        crate::rounding::STEP * (k - e) <= e,
        crate::rounding::STEP * (e - k) <= e,
        crate::rounding::STEP * (e - z) <= 4 * z,
        crate::rounding::STEP * (z - e) <= 4 * z,
        k <= 2 * e,
        e <= 2 * z,
    ensures
        crate::rounding::STEP * (v * x - w * z) <= 10 * (w * z),
        crate::rounding::STEP * (w * z - v * x) <= 10 * (w * z),
{
    let s = crate::rounding::STEP as int;
    let (wk, we, wz) = (w * k, w * e, w * z);
    assert(s * (wk - we) <= we && s * (we - wk) <= we && s * (we - wz) <= 4 * wz && s * (wz - we)
        <= 4 * wz && wz > 0) by (nonlinear_arith)
        requires
            wk == w * k,
            we == w * e,
            wz == w * z,
            s * (k - e) <= e,
            s * (e - k) <= e,
            s * (e - z) <= 4 * z,
            s * (z - e) <= 4 * z,
            w > 0,
            z > 0,
    ;
    assert(2 * we <= 3 * wz) by (nonlinear_arith)
        requires
            s * (we - wz) <= 4 * wz,
            s == 0x10_0000_0000_0000,
            wz > 0,
    ;
    assert(2 * wk <= 3 * we) by (nonlinear_arith)
        requires
            s * (wk - we) <= we,
            s == 0x10_0000_0000_0000,
            2 * we <= 3 * wz,
            s * (wz - we) <= 4 * wz,
            wz > 0,
    ;
}

/// At the blip of an untyped character, as its moment is divided by the length
/// of the vanish, the character is gone, and the ones before it are not. Only
/// where what is left of the text rounds to more than the characters before it
/// is it still there.
pub proof fn lemma_gone_at_the_blip(tl: TimelineView, ms: u64, i: nat)
    requires
        0 < ms,
        tl.vanish_ms == Double::whole(ms as nat),
        i < tl.chars <= crate::config::MAX_TEXT_CHARS,
    ensures
        ({
            let p = tl.untype_share(i);
            let rest = Double::whole(1).difference(p).product(Double::whole(tl.chars));
            tl.left(p) == if rest.at_most(Double::whole(i)) {
                i
            } else {
                i + 1
            }
        }),
{
    let w = crate::double::one() as int;
    let p = tl.untype_share(i);
    crate::timeline::lemma_small();
    lemma_share_near(tl, ms, i);
    lemma_blip_near(tl, ms, i);
    crate::order::lemma_whole(i);
    crate::order::lemma_whole(tl.chars);
    if p.value() > w {
        lemma_share_within(tl, ms, i);
        lemma_past_the_end(p, tl.chars);
    } else {
        lemma_left_around(tl, ms, i);
        crate::timeline::lemma_remaining(p);
        lemma_rest(tl, i, p);
    }
}

/// A share beyond the whole leaves nothing.
proof fn lemma_past_the_end(p: Double, n: nat)
    requires
        p.finite(),
        p.value() > crate::double::one(),
        n <= crate::config::MAX_TEXT_CHARS,
    ensures
        !Double::whole(1).difference(p).product(Double::whole(n)).nan(),
        Double::whole(1).difference(p).product(Double::whole(n)).value() <= 0,
{
    let one = Double::whole(1);
    let w = crate::double::one() as int;
    crate::timeline::lemma_small();
    crate::order::lemma_whole(n);
    crate::order::lemma_negation(p);
    crate::order::lemma_sum(one, p.negation());
    let r = one.difference(p);
    crate::order::lemma_rounded_mono(w - p.value(), 0);
    crate::order::lemma_rounded_mono(-p.value(), w - p.value());
    crate::order::lemma_rounded_exact(p.negation());
    crate::order::lemma_value_bound(p);
    crate::order::lemma_value_bound(r);
    crate::order::lemma_nearest_zero();
    crate::order::lemma_of(true, crate::rounding::nearest((p.value() - w) as nat, 1));
    let c = Double::whole(n);
    crate::order::lemma_of(
        true,
        crate::rounding::nearest(
            crate::double::size(r.value()) * crate::double::size(c.value()),
            crate::double::one(),
        ),
    );
}

/// Only the first character's share can be rounded beyond the whole.
proof fn lemma_share_within(tl: TimelineView, ms: u64, i: nat)
    requires
        0 < ms,
        tl.vanish_ms == Double::whole(ms as nat),
        i < tl.chars <= crate::config::MAX_TEXT_CHARS,
        tl.untype_share(i).value() > crate::double::one(),
    ensures
        i == 0,
{
    let n = tl.chars as int;
    let m = n - i;
    let w = crate::double::one() as int;
    let s = crate::rounding::STEP as int;
    let v = tl.vanish_ms.value();
    let p = tl.untype_share(i).value();
    crate::timeline::lemma_small();
    lemma_share_near(tl, ms, i);
    lemma_blip_near(tl, ms, i);
    if i > 0 {
        let x = n * p;
        let y = w * m;
        assert(w * (m * v) == v * y) by (nonlinear_arith)
            requires
                y == w * m,
        ;
        assert(s * x <= (s + 10) * y) by (nonlinear_arith)
            requires
                s * (v * x - v * y) <= 10 * (v * y),
                v > 0,
        ;
        assert(x <= n * w) by (nonlinear_arith)
            requires
                s * x <= (s + 10) * y,
                y == w * m,
                m <= n - 1,
                1 <= n <= 100_000,
                s == 0x10_0000_0000_0000,
                w > 0,
        {
            assert(y <= w * (n - 1));
            assert((s + 10) * y <= (s + 10) * (w * (n - 1)));
            assert((s + 10) * (w * (n - 1)) == s * (n * w) - s * w + 10 * (w * (n - 1)));
            assert(w * (n - 1) <= 100_000 * w);
        }
        assert(p <= w) by (nonlinear_arith)
            requires
                x <= n * w,
                x == n * p,
                n > 0,
        ;
    }
}

/// At its blip a character and those after it are gone, give or take one.
proof fn lemma_left_around(tl: TimelineView, ms: u64, i: nat)
    requires
        0 < ms,
        tl.vanish_ms == Double::whole(ms as nat),
        i < tl.chars <= crate::config::MAX_TEXT_CHARS,
        tl.untype_share(i).value() <= crate::double::one(),
    ensures
        i <= tl.left(tl.untype_share(i)) <= i + 1,
{
    let n = tl.chars as int;
    let p = tl.untype_share(i);
    crate::timeline::lemma_small();
    lemma_share_near(tl, ms, i);
    crate::order::lemma_zero(p);
    crate::timeline::lemma_untype(tl, p, p);
    if i > 0 {
        lemma_apart_from(tl, ms, i, (i - 1) as nat);
    }
    if i + 1 < n {
        lemma_apart_from(tl, ms, i, i + 1);
    }
}

/// The blips next to one are far from it.
proof fn lemma_apart_from(tl: TimelineView, ms: u64, i: nat, j: nat)
    requires
        0 < ms,
        tl.vanish_ms == Double::whole(ms as nat),
        i < tl.chars <= crate::config::MAX_TEXT_CHARS,
        j < tl.chars,
        j == i + 1 || i == j + 1,
        tl.untype_share(i).value() <= crate::double::one(),
    ensures
        j == i + 1 ==> tl.left(tl.untype_share(i)) <= j,
        i == j + 1 ==> tl.left(tl.untype_share(i)) > j,
{
    let n = tl.chars as int;
    let (m, k) = (n - i, n - j);
    let w = crate::double::one() as int;
    let s = crate::rounding::STEP as int;
    let v = tl.vanish_ms.value();
    let p = tl.untype_share(i);
    let blip = tl.untype_blip(j).value();
    let tick = crate::rounding::two_to(1042) as int;
    crate::timeline::lemma_small();
    lemma_share_near(tl, ms, i);
    lemma_untype_blip(tl, ms, j, p);
    lemma_blip_near(tl, ms, j);
    crate::rounding::lemma_two_to_pos(1042);
    let x = n * p.value();
    let e = 1000 * (n * blip);
    assert(n * (p.value() * v - 1000 * (blip * w)) == v * x - w * e && n * (1000 * (blip * w)
        - p.value() * v) == w * e - v * x) by (nonlinear_arith)
        requires
            x == n * p.value(),
            e == 1000 * (n * blip),
    ;
    let (vx, we, wv) = (v * x, w * e, w * v);
    assert(s * (we - k * wv) <= 4 * (k * wv) && s * (k * wv - we) <= 4 * (k * wv))
        by (nonlinear_arith)
        requires
            we == w * e,
            wv == w * v,
            s * (e - k * v) <= 4 * (k * v),
            s * (k * v - e) <= 4 * (k * v),
            w > 0,
    ;
    assert(w * (m * v) == m * wv && wv > 0 && v * tick * 0x1_0000_0000 == wv) by (nonlinear_arith)
        requires
            wv == w * v,
            w > 0,
            v > 0,
            tick * 0x1_0000_0000 == w,
    ;
    let t = v * tick;
    let (a, b) = (m * wv, k * wv);
    assert(0 < a <= 100_000 * wv && 0 < b <= 100_000 * wv) by (nonlinear_arith)
        requires
            a == m * wv,
            b == k * wv,
            1 <= m <= 100_000,
            1 <= k <= 100_000,
            wv > 0,
    ;
    if j == i + 1 {
        assert(a - b == wv) by (nonlinear_arith)
            requires
                a == m * wv,
                b == k * wv,
                m == k + 1,
        ;
        assert(vx - we >= t) by (nonlinear_arith)
            requires
                s * (a - vx) <= 10 * a,
                s * (we - b) <= 4 * b,
                a <= 100_000 * wv,
                b <= 100_000 * wv,
                a - b == wv,
                t * 0x1_0000_0000 == wv,
                wv > 0,
                s == 0x10_0000_0000_0000,
        ;
    } else {
        assert(b - a == wv) by (nonlinear_arith)
            requires
                a == m * wv,
                b == k * wv,
                k == m + 1,
        ;
        assert(we - vx >= t) by (nonlinear_arith)
            requires
                s * (vx - a) <= 10 * a,
                s * (b - we) <= 4 * b,
                a <= 100_000 * wv,
                b <= 100_000 * wv,
                b - a == wv,
                t * 0x1_0000_0000 == wv,
                wv > 0,
                s == 0x10_0000_0000_0000,
        ;
    }
}

/// How many characters are left, where it is one number or the next.
proof fn lemma_rest(tl: TimelineView, i: nat, p: Double)
    requires
        i < tl.chars <= crate::config::MAX_TEXT_CHARS,
        !p.nan(),
        0 <= p.value() <= crate::double::one(),
        i <= tl.left(p) <= i + 1,
    ensures
        ({
            let rest = Double::whole(1).difference(p).product(Double::whole(tl.chars));
            tl.left(p) == if rest.at_most(Double::whole(i)) {
                i
            } else {
                i + 1
            }
        }),
{
    let w = crate::double::one() as int;
    let r = Double::whole(1).difference(p);
    let c = Double::whole(tl.chars);
    let rest = r.product(c);
    crate::timeline::lemma_small();
    crate::order::lemma_whole(i);
    crate::order::lemma_whole(tl.chars);
    crate::timeline::lemma_remaining(p);
    crate::order::lemma_product_mono(r, r, c);
    let v = rest.value();
    let q = (v + w - 1) / w;
    assert(i * w >= 0) by (nonlinear_arith)
        requires
            w > 0,
    ;
    if v > 0 {
        assert(v <= i * w ==> q <= i) by (nonlinear_arith)
            requires
                q == (v + w - 1) / w,
                w > 0,
        ;
        assert(v > i * w ==> q > i) by (nonlinear_arith)
            requires
                q == (v + w - 1) / w,
                w > 0,
        ;
    }
}

} // verus!
