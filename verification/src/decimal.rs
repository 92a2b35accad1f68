//! Reading doubles from decimal text.
//!
//! A number is an optional sign and either digits with an optional point and
//! exponent, or one of the words `inf`, `infinity` and `nan` in any case. The
//! result is the double nearest to the exact decimal, ties to even.
use crate::bignum::Big;
use crate::double::{Double, NAN};
use crate::rounding::{INF, STEP};
use vstd::prelude::*;

verus! {

pub open spec fn is_digit(c: char) -> bool {
    '0' <= c <= '9'
}

/// Where the run of digits that starts at `from` ends.
pub open spec fn digits_end(s: Seq<char>, from: int) -> int
    decreases s.len() - from,
{
    if 0 <= from < s.len() && is_digit(s[from]) {
        digits_end(s, from + 1)
    } else {
        from
    }
}

/// The number that a run of digits spells.
pub open spec fn number(s: Seq<char>) -> nat
    decreases s.len(),
{
    if s.len() == 0 {
        0
    } else {
        10 * number(s.drop_last()) + (s.last() as nat - 48) as nat
    }
}

/// An exponent: nothing, or `e` with an optional sign and digits.
pub open spec fn exponent_of(t: Seq<char>) -> Option<int> {
    if t.len() == 0 {
        Some(0)
    } else if t[0] != 'e' && t[0] != 'E' {
        None
    } else {
        let signed = t.len() > 1 && (t[1] == '+' || t[1] == '-');
        let from: int = if signed {
            2
        } else {
            1
        };
        if from < t.len() && digits_end(t, from) == t.len() {
            let n = number(t.subrange(from, t.len() as int)) as int;
            Some(
                if signed && t[1] == '-' {
                    -n
                } else {
                    n
                },
            )
        } else {
            None
        }
    }
}

/// The digits of an unsigned decimal and the power of ten they are scaled by.
pub open spec fn decimal_of(s: Seq<char>) -> Option<(Seq<char>, int)> {
    let a = digits_end(s, 0);
    let dot = a < s.len() && s[a] == '.';
    let b = if dot {
        digits_end(s, a + 1)
    } else {
        a
    };
    let fraction = if dot {
        s.subrange(a + 1, b)
    } else {
        Seq::empty()
    };
    let digits = s.subrange(0, a) + fraction;
    if digits.len() == 0 {
        None
    } else {
        match exponent_of(s.subrange(b, s.len() as int)) {
            Some(e) => Some((digits, e - fraction.len())),
            None => None,
        }
    }
}

/// 10 to the power `n`.
pub open spec fn ten_to(n: nat) -> nat
    decreases n,
{
    if n == 0 {
        1
    } else {
        10 * ten_to((n - 1) as nat)
    }
}

/// The magnitude nearest to `n * 10^p`.
pub open spec fn nearest_decimal(n: nat, p: int) -> nat {
    if p >= 0 {
        crate::rounding::nearest((n * ten_to(p as nat)) * crate::double::one(), 1)
    } else {
        crate::rounding::nearest(n * crate::double::one(), ten_to((-p) as nat))
    }
}

/// A letter in lower case.
pub open spec fn lower(c: char) -> char {
    if 'A' <= c <= 'Z' {
        (c as nat + 32) as char
    } else {
        c
    }
}

/// Whether a text spells a word, in any case.
pub open spec fn spells(s: Seq<char>, word: Seq<char>) -> bool {
    s.map_values(|c: char| lower(c)) == word
}

/// The double that a text stands for, if it stands for one.
pub open spec fn double_of(s: Seq<char>) -> Option<Double> {
    let signed = s.len() > 0 && (s[0] == '+' || s[0] == '-');
    let negative = signed && s[0] == '-';
    let body = if signed {
        s.skip(1)
    } else {
        s
    };
    match decimal_of(body) {
        Some((digits, p)) => Some(Double::of(negative, nearest_decimal(number(digits), p))),
        None => if spells(body, "inf"@) || spells(body, "infinity"@) {
            Some(Double::of(negative, INF as nat))
        } else if spells(body, "nan"@) {
            Some(Double::of(negative, NAN as nat))
        } else {
            None
        },
    }
}

proof fn lemma_ten_to_add(a: nat, b: nat)
    ensures
        ten_to(a + b) == ten_to(a) * ten_to(b),
    decreases b,
{
    if b == 0 {
        assert(ten_to(a) * 1 == ten_to(a));
    } else {
        lemma_ten_to_add(a, (b - 1) as nat);
        let x = ten_to(a) as int;
        let y = ten_to((b - 1) as nat) as int;
        assert(10 * (x * y) == x * (10 * y)) by (nonlinear_arith);
    }
}

/// 10^n is at least 8^n.
proof fn lemma_ten_to_floor(n: nat)
    ensures
        ten_to(n) >= crate::rounding::two_to(3 * n),
        ten_to(n) > 0,
    decreases n,
{
    if n > 0 {
        let m = (n - 1) as nat;
        lemma_ten_to_floor(m);
        assert(crate::rounding::two_to(3 * n) == 8 * crate::rounding::two_to(3 * m)) by {
            reveal_with_fuel(crate::rounding::two_to, 4);
        }
    }
}

/// Digits spell a number below the power of ten of their count, and no less
/// than the next lower one once the first is not zero.
proof fn lemma_number_bounds(s: Seq<char>)
    requires
        forall|i: int| 0 <= i < s.len() ==> is_digit(#[trigger] s[i]),
    ensures
        number(s) < ten_to(s.len()),
        s.len() > 0 && s[0] != '0' ==> number(s) >= ten_to((s.len() - 1) as nat),
    decreases s.len(),
{
    if s.len() > 0 {
        assert(is_digit(s.last()));
        assert forall|i: int| 0 <= i < s.drop_last().len() implies is_digit(
            #[trigger] s.drop_last()[i],
        ) by {
            assert(is_digit(s[i]));
        }
        lemma_number_bounds(s.drop_last());
        if s.len() > 1 {
            assert(s.drop_last()[0] == s[0]);
        } else {
            assert(s.drop_last().len() == 0);
            assert(ten_to(0) == 1);
        }
    }
}

/// A leading zero does not change the number.
proof fn lemma_number_zero(s: Seq<char>)
    requires
        s.len() > 0,
        s[0] == '0',
    ensures
        number(s) == number(s.drop_first()),
    decreases s.len(),
{
    if s.len() == 1 {
        assert(s.drop_last() =~= Seq::<char>::empty());
        assert(s.drop_first() =~= Seq::<char>::empty());
        assert(number(s.drop_last()) == 0);
    } else {
        lemma_number_zero(s.drop_last());
        assert(s.drop_last().drop_first() =~= s.drop_first().drop_last());
    }
}

/// A decimal too large for the finite doubles is nearest to infinity.
proof fn lemma_overflow(n: nat, p: int, len: nat)
    requires
        len > 0,
        n >= ten_to((len - 1) as nat),
        len + p > 345,
    ensures
        nearest_decimal(n, p) == INF,
{
    let w = crate::double::one();
    let u = crate::rounding::units(INF as nat);
    crate::rounding::lemma_two_to_values();
    crate::rounding::lemma_two_to_pos(1074);
    assert(u == crate::rounding::two_to(1024) * w) by {
        crate::rounding::lemma_parts_unique(2046, STEP as nat);
        assert(crate::rounding::pack(2046, STEP as nat) == INF);
        crate::rounding::lemma_two_to_add(52, 2046);
        crate::rounding::lemma_two_to_add(1024, 1074);
    }
    let top = (len - 1 + p) as nat;
    lemma_ten_to_floor(top);
    crate::rounding::lemma_two_to_mono(1024, 3 * top);
    if p >= 0 {
        lemma_ten_to_add((len - 1) as nat, p as nat);
        lemma_ten_to_floor(p as nat);
        let t = ten_to(p as nat);
        assert((n * t) * w >= u) by (nonlinear_arith)
            requires
                n >= ten_to((len - 1) as nat),
                ten_to((len - 1) as nat) * t >= crate::rounding::two_to(1024),
                u == crate::rounding::two_to(1024) * w,
                t > 0,
                w > 0,
        ;
        assert(u * 1 == u);
        crate::rounding::lemma_nearest_exact(INF as nat, 1);
        crate::rounding::lemma_nearest_mono(u, (n * t) * w, 1);
    } else {
        let t = ten_to((-p) as nat);
        lemma_ten_to_floor((-p) as nat);
        lemma_ten_to_add(top, (-p) as nat);
        assert(n * w >= u * t) by (nonlinear_arith)
            requires
                n >= ten_to(top) * t,
                ten_to(top) >= crate::rounding::two_to(1024),
                u == crate::rounding::two_to(1024) * w,
                t > 0,
                w > 0,
        ;
        crate::rounding::lemma_nearest_exact(INF as nat, t);
        crate::rounding::lemma_nearest_mono(u * t, n * w, t);
    }
}

/// A decimal too small for any double but zero is nearest to zero.
proof fn lemma_underflow(n: nat, p: int, len: nat)
    requires
        n < ten_to(len),
        len + p <= -359,
    ensures
        nearest_decimal(n, p) == 0,
{
    let w = crate::double::one();
    let t = ten_to((-p) as nat);
    let gap = (-p - len) as nat;
    lemma_ten_to_add(len, gap);
    lemma_ten_to_floor(gap);
    lemma_ten_to_floor(len);
    crate::rounding::lemma_two_to_mono(1077, 3 * gap);
    crate::rounding::lemma_two_to_add(3, 1074);
    crate::rounding::lemma_two_to_values();
    crate::rounding::lemma_two_to_pos(1074);
    assert(crate::rounding::two_to(3) == 8) by {
        reveal_with_fuel(crate::rounding::two_to, 4);
    }
    let num = n * w;
    assert(8 * num < t) by (nonlinear_arith)
        requires
            num == n * w,
            n + 1 <= ten_to(len),
            ten_to(gap) >= 8 * w,
            t == ten_to(len) * ten_to(gap),
            w > 0,
    ;
    assert(t * crate::rounding::two_to(0) == t) by (nonlinear_arith)
        requires
            crate::rounding::two_to(0) == 1,
    ;
    assert(num < t * (2 * STEP)) by (nonlinear_arith)
        requires
            num < t,
    ;
    crate::rounding::lemma_scale_unique(num, t, 0);
    vstd::arithmetic::div_mod::lemma_fundamental_div_mod_converse(
        num as int,
        t as int,
        0,
        num as int,
    );
}

/// Zero is zero at every scale.
proof fn lemma_zero(p: int)
    ensures
        nearest_decimal(0, p) == 0,
{
    let den = if p >= 0 {
        1
    } else {
        ten_to((-p) as nat)
    };
    lemma_ten_to_floor((-p) as nat);
    crate::rounding::lemma_parts_unique(0, 0);
    assert(crate::rounding::units(0) * den == 0) by (nonlinear_arith)
        requires
            crate::rounding::units(0) == 0 * crate::rounding::two_to(0),
    ;
    crate::rounding::lemma_nearest_exact(0, den);
}

/// Exponents beyond every double all give the same result.
proof fn lemma_far(s: Seq<char>, p: int, q: int)
    requires
        forall|i: int| 0 <= i < s.len() ==> is_digit(#[trigger] s[i]),
        p == q || (p >= 345 && q >= 345) || (s.len() + p <= -359 && s.len() + q <= -359),
    ensures
        nearest_decimal(number(s), p) == nearest_decimal(number(s), q),
{
    lemma_number_bounds(s);
    if number(s) == 0 {
        lemma_zero(p);
        lemma_zero(q);
    } else if p >= 345 && q >= 345 {
        assert(ten_to(0) == 1);
        lemma_overflow(number(s), p, 1);
        lemma_overflow(number(s), q, 1);
    } else if p != q {
        lemma_underflow(number(s), p, s.len());
        lemma_underflow(number(s), q, s.len());
    }
}

/// Between two neighbouring magnitudes the nearest one is decided by the
/// midpoint, and at the midpoint by evenness.
proof fn lemma_between(num: nat, den: nat, m: nat)
    requires
        den > 0,
        m < INF,
        crate::rounding::units(m) * den <= num,
        num < crate::rounding::units(m + 1) * den,
    ensures
        ({
            let n = crate::rounding::significand(m);
            let mid = ((2 * n + 1) * crate::rounding::two_to(crate::rounding::exponent(m))) * den;
            crate::rounding::nearest(num, den) == if 2 * num < mid || (2 * num == mid && n % 2
                == 0) {
                m
            } else {
                m + 1
            }
        }),
{
    let k = crate::rounding::exponent(m);
    let n = crate::rounding::significand(m);
    let p = crate::rounding::two_to(k);
    crate::rounding::lemma_parts(m);
    crate::rounding::lemma_units_step(m);
    crate::rounding::lemma_two_to_pos(k);
    let d = den * p;
    let r = num - n * d;
    let mid = ((2 * n + 1) * p) * den;
    assert(0 <= r < d && d > 0 && num == n * d + r && mid == (2 * n + 1) * d) by (nonlinear_arith)
        requires
            (n * p) * den <= num,
            num < (n * p + p) * den,
            d == den * p,
            r == num - n * d,
            mid == ((2 * n + 1) * p) * den,
            den > 0,
            p > 0,
    ;
    assert(num < d * (2 * STEP) && (n >= STEP ==> num >= d * STEP)) by (nonlinear_arith)
        requires
            num == n * d + r,
            0 <= r < d,
            n + 1 <= 2 * STEP,
    ;
    crate::rounding::lemma_scale_unique(num, den, k);
    vstd::arithmetic::div_mod::lemma_fundamental_div_mod_converse(num as int, d as int, n as int, r);
    assert(2 * num - mid == 2 * r - d) by (nonlinear_arith)
        requires
            num == n * d + r,
            mid == (2 * n + 1) * d,
    ;
}

/// Multiply by a power of ten.
fn scale_ten(b: &mut Big, n: u128)
    ensures
        final(b)@ == old(b)@ * ten_to(n as nat),
{
    let mut i: u128 = 0;
    let ghost start = b@;
    assert(start * 1 == start);
    while i < n
        invariant
            i <= n,
            b@ == start * ten_to(i as nat),
        decreases n - i,
    {
        b.scale(10, 0);
        i = i + 1;
        proof {
            let t = ten_to((i - 1) as nat) as int;
            assert((start * t) * 10 + 0 == start * (10 * t)) by (nonlinear_arith);
        }
    }
}

/// Whether the units of a magnitude, times `den`, are at most `num`.
fn reaches(m: u64, num: &Big, den: &Big) -> (r: bool)
    requires
        m <= INF,
    ensures
        r == (crate::rounding::units(m as nat) * den@ <= num@),
{
    let (k, n) = Double::parts(m);
    let mut t: Big = den.copy();
    t.scale(n, 0);
    t.shift(k as u32);
    proof {
        let p = crate::rounding::two_to(k as nat) as int;
        let d = den@ as int;
        assert((d * n + 0) * p == (n * p) * d) by (nonlinear_arith);
    }
    let (below, _) = num.compare(&t);
    !below
}

/// The magnitude nearest to a ratio: the two neighbours are found by
/// bisection, the midpoint between them decides.
fn nearest_ratio(num: &Big, den: &Big) -> (m: u64)
    requires
        den@ > 0,
    ensures
        m == crate::rounding::nearest(num@, den@),
        m <= INF,
{
    if reaches(INF, num, den) {
        proof {
            crate::rounding::lemma_nearest_exact(INF as nat, den@);
            crate::rounding::lemma_nearest_mono(
                crate::rounding::units(INF as nat) * den@,
                num@,
                den@,
            );
        }
        return INF;
    }
    let mut lo: u64 = 0;
    let mut hi: u64 = INF;
    proof {
        crate::rounding::lemma_parts_unique(0, 0);
        assert(crate::rounding::units(0) * den@ == 0) by (nonlinear_arith)
            requires
                crate::rounding::units(0) == 0 * crate::rounding::two_to(0),
        ;
    }
    while hi - lo > 1
        invariant
            lo < hi <= INF,
            crate::rounding::units(lo as nat) * den@ <= num@,
            num@ < crate::rounding::units(hi as nat) * den@,
        decreases hi - lo,
    {
        let mid: u64 = lo + (hi - lo) / 2;
        if reaches(mid, num, den) {
            lo = mid;
        } else {
            hi = mid;
        }
    }
    let (k, n) = Double::parts(lo);
    let mut middle: Big = den.copy();
    middle.scale(2 * n + 1, 0);
    middle.shift(k as u32);
    let mut twice: Big = num.copy();
    twice.scale(2, 0);
    let (below, equal) = twice.compare(&middle);
    proof {
        lemma_between(num@, den@, lo as nat);
        let p = crate::rounding::two_to(k as nat) as int;
        let d = den@ as int;
        assert((d * (2 * n + 1) + 0) * p == ((2 * n + 1) * p) * d) by (nonlinear_arith);
    }
    if below || (equal && n % 2 == 0) {
        lo
    } else {
        lo + 1
    }
}

/// The magnitude nearest to the number that digits spell, times `10^p`.
fn magnitude_of(digits: &Vec<char>, p: i128) -> (m: u64)
    requires
        forall|i: int| 0 <= i < digits@.len() ==> is_digit(#[trigger] digits@[i]),
        -0x1000_0000_0000_0000_0000_0000_0000 <= p <= 0x1000_0000_0000_0000_0000_0000_0000,
    ensures
        m == nearest_decimal(number(digits@), p as int),
        m <= INF,
{
    let mut a: usize = 0;
    let ghost s = digits@;
    assert(s.skip(0) =~= s);
    while a < digits.len() && digits[a] == '0'
        invariant
            a <= digits.len(),
            s == digits@,
            number(s) == number(s.skip(a as int)),
        decreases digits.len() - a,
    {
        proof {
            lemma_number_zero(s.skip(a as int));
            assert(s.skip(a as int).drop_first() =~= s.skip(a + 1));
        }
        a = a + 1;
    }
    let ghost lead = s.skip(a as int);
    let len: usize = digits.len() - a;
    proof {
        assert forall|i: int| 0 <= i < lead.len() implies is_digit(#[trigger] lead[i]) by {
            assert(lead[i] == s[i + a]);
        }
        lemma_number_bounds(lead);
    }
    let top: i128 = p + len as i128;
    if len > 0 && top > 345 {
        proof {
            lemma_overflow(number(s), p as int, len as nat);
        }
        return INF;
    }
    if len == 0 || top <= -359 {
        proof {
            if len == 0 {
                lemma_zero(p as int);
            } else {
                lemma_underflow(number(s), p as int, len as nat);
            }
        }
        return 0;
    }
    let mut num: Big = Big::new(0);
    let mut i: usize = a;
    assert(lead.take(0) =~= Seq::<char>::empty());
    while i < digits.len()
        invariant
            a <= i <= digits.len(),
            s == digits@,
            lead == s.skip(a as int),
            num@ == number(lead.take(i - a)),
            forall|i: int| 0 <= i < digits@.len() ==> is_digit(#[trigger] digits@[i]),
        decreases digits.len() - i,
    {
        let c: char = digits[i];
        let d: u32 = c as u32 - 48;
        num.scale(10, d as u64);
        proof {
            let before = lead.take(i - a);
            let after = lead.take(i + 1 - a);
            assert(after.drop_last() =~= before);
            assert(after.last() == c);
        }
        i = i + 1;
    }
    assert(lead.take(i - a) =~= lead);
    let mut den: Big = Big::new(1);
    if p >= 0 {
        scale_ten(&mut num, p as u128);
    } else {
        scale_ten(&mut den, (-p) as u128);
    }
    num.shift(1074);
    proof {
        lemma_ten_to_floor((-p) as nat);
        assert(1 * ten_to((-p) as nat) == ten_to((-p) as nat));
    }
    nearest_ratio(&num, &den)
}

/// Where the run of digits that starts at `from` ends.
fn skip_digits(cs: &Vec<char>, from: usize) -> (r: usize)
    requires
        from <= cs@.len(),
    ensures
        r == digits_end(cs@, from as int),
        from <= r <= cs@.len(),
        forall|i: int| from <= i < r ==> is_digit(#[trigger] cs@[i]),
{
    let mut i: usize = from;
    while i < cs.len() && '0' <= cs[i] && cs[i] <= '9'
        invariant
            from <= i <= cs.len(),
            digits_end(cs@, from as int) == digits_end(cs@, i as int),
            forall|j: int| from <= j < i ==> is_digit(#[trigger] cs@[j]),
        decreases cs.len() - i,
    {
        i = i + 1;
    }
    i
}

/// Past every exponent that matters.
const FAR: i128 = 0x10_0000_0000_0000_0000_0000_0000;

/// An exponent held to the range that matters.
spec fn held(x: int) -> int {
    if x > FAR {
        FAR as int
    } else if x < -FAR {
        -FAR
    } else {
        x
    }
}

/// Digits from a position on do not reach past what follows.
proof fn lemma_digits_end_skip(s: Seq<char>, b: int, from: int)
    requires
        0 <= b,
        0 <= from,
        b + from <= s.len(),
    ensures
        digits_end(s, b + from) == b + digits_end(s.skip(b), from),
    decreases s.len() - from,
{
    if b + from < s.len() && is_digit(s[b + from]) {
        lemma_digits_end_skip(s, b, from + 1);
    }
}

/// The exponent that starts at `b`, held to the range that matters.
fn read_exponent(cs: &Vec<char>, b: usize) -> (r: Option<i128>)
    requires
        b <= cs@.len(),
    ensures
        match (r, exponent_of(cs@.skip(b as int))) {
            (Some(e), Some(x)) => e == held(x),
            (None, None) => true,
            _ => false,
        },
{
    let ghost t = cs@.skip(b as int);
    if b == cs.len() {
        return Some(0);
    }
    if cs[b] != 'e' && cs[b] != 'E' {
        return None;
    }
    let mut from: usize = b + 1;
    let mut negative: bool = false;
    if from < cs.len() && (cs[from] == '+' || cs[from] == '-') {
        negative = cs[from] == '-';
        from = from + 1;
    }
    let end: usize = skip_digits(cs, from);
    proof {
        lemma_digits_end_skip(cs@, b as int, from - b);
    }
    if from == cs.len() || end < cs.len() {
        return None;
    }
    let ghost digits = t.subrange(from - b, t.len() as int);
    let mut n: i128 = 0;
    let mut i: usize = from;
    assert(digits.take(0) =~= Seq::<char>::empty());
    while i < cs.len()
        invariant
            from <= i <= cs.len(),
            digits == cs@.subrange(from as int, cs@.len() as int),
            0 <= n <= FAR,
            n == held(number(digits.take(i - from)) as int),
            forall|j: int| from <= j < cs@.len() ==> is_digit(#[trigger] cs@[j]),
        decreases cs.len() - i,
    {
        let c: char = cs[i];
        let d: u32 = c as u32 - 48;
        let next: i128 = n * 10 + d as i128;
        n = if next > FAR {
            FAR
        } else {
            next
        };
        proof {
            let after = digits.take(i + 1 - from);
            assert(after.drop_last() =~= digits.take(i - from));
            assert(after.last() == c);
        }
        i = i + 1;
    }
    proof {
        assert(digits.take(i - from) =~= digits);
    }
    Some(
        if negative {
            -n
        } else {
            n
        },
    )
}

/// The magnitude of the unsigned decimal that starts at `a`.
fn read_decimal(cs: &Vec<char>, a: usize) -> (r: Option<u64>)
    requires
        a <= cs@.len(),
    ensures
        match (r, decimal_of(cs@.skip(a as int))) {
            (Some(m), Some((digits, p))) => m == nearest_decimal(number(digits), p) && m <= INF,
            (None, None) => true,
            _ => false,
        },
{
    let ghost s = cs@.skip(a as int);
    let whole: usize = skip_digits(cs, a);
    proof {
        lemma_digits_end_skip(cs@, a as int, 0);
    }
    let mut end: usize = whole;
    let mut digits: Vec<char> = Vec::new();
    let mut i: usize = a;
    while i < whole
        invariant
            a <= i <= whole <= cs@.len(),
            digits@ == cs@.subrange(a as int, i as int),
        decreases whole - i,
    {
        digits.push(cs[i]);
        assert(digits@ =~= cs@.subrange(a as int, i + 1));
        i = i + 1;
    }
    let mut places: usize = 0;
    if whole < cs.len() && cs[whole] == '.' {
        end = skip_digits(cs, whole + 1);
        proof {
            lemma_digits_end_skip(cs@, a as int, whole + 1 - a);
        }
        places = end - (whole + 1);
        let mut i: usize = whole + 1;
        while i < end
            invariant
                a <= whole < i <= end <= cs@.len(),
                digits@ == cs@.subrange(a as int, whole as int) + cs@.subrange(
                    whole + 1,
                    i as int,
                ),
            decreases end - i,
        {
            digits.push(cs[i]);
            assert(digits@ =~= cs@.subrange(a as int, whole as int) + cs@.subrange(
                whole + 1,
                i + 1,
            ));
            i = i + 1;
        }
    }
    proof {
        assert(s.subrange(0, whole - a) =~= cs@.subrange(a as int, whole as int));
        if whole < cs.len() && cs[whole as int] == '.' {
            assert(s.subrange(whole + 1 - a, end - a) =~= cs@.subrange(whole + 1, end as int));
        } else {
            assert(digits@ =~= s.subrange(0, whole - a) + Seq::<char>::empty());
        }
        assert(s.subrange(end - a, s.len() as int) =~= cs@.skip(end as int));
        assert forall|i: int| 0 <= i < digits@.len() implies is_digit(#[trigger] digits@[i]) by {
            if i < whole - a {
                assert(digits@[i] == cs@[a + i]);
            } else {
                assert(digits@[i] == cs@[whole + 1 + i - (whole - a)]);
            }
        }
    }
    if digits.len() == 0 {
        return None;
    }
    match read_exponent(cs, end) {
        Some(e) => {
            proof {
                let x = exponent_of(cs@.skip(end as int))->0;
                lemma_far(digits@, e - places, x - places);
            }
            Some(magnitude_of(&digits, e - places as i128))
        },
        None => None,
    }
}

/// Whether the characters from `a` on spell a word, in any case.
fn spelled(cs: &Vec<char>, a: usize, word: &str) -> (r: bool)
    requires
        a <= cs@.len(),
    ensures
        r == spells(cs@.skip(a as int), word@),
{
    let w: Vec<char> = crate::text::chars_of(word);
    let ghost low = cs@.skip(a as int).map_values(|c: char| lower(c));
    if cs.len() - a != w.len() {
        assert(low.len() != word@.len());
        return false;
    }
    let mut i: usize = 0;
    while i < w.len()
        invariant
            i <= w.len(),
            a + w.len() == cs.len(),
            w@ == word@,
            low == cs@.skip(a as int).map_values(|c: char| lower(c)),
            forall|j: int| 0 <= j < i ==> low[j] == word@[j],
        decreases w.len() - i,
    {
        let c: char = cs[a + i];
        let l: char = if 'A' <= c && c <= 'Z' {
            ((c as u8) + 32) as char
        } else {
            c
        };
        assert(low[i as int] == l);
        if l != w[i] {
            return false;
        }
        i = i + 1;
    }
    assert(low =~= word@);
    true
}

/// Read a double; `None` where the text is not a number.
pub fn parse_double(text: &str) -> (r: Option<Double>)
    ensures
        r == double_of(text@),
{
    let cs: Vec<char> = crate::text::chars_of(text);
    let signed: bool = cs.len() > 0 && (cs[0] == '+' || cs[0] == '-');
    let negative: bool = signed && cs[0] == '-';
    let a: usize = if signed {
        1
    } else {
        0
    };
    proof {
        assert(cs@.skip(0) =~= cs@);
    }
    match read_decimal(&cs, a) {
        Some(m) => Some(Double::make(negative, m)),
        None => if spelled(&cs, a, "inf") || spelled(&cs, a, "infinity") {
            Some(Double::make(negative, INF))
        } else if spelled(&cs, a, "nan") {
            Some(
                if negative {
                    Double { bits: 0xfff8_0000_0000_0000 }
                } else {
                    Double { bits: NAN }
                },
            )
        } else {
            None
        },
    }
}

} // verus!
