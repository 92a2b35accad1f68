//! What reading texts promises: what is cut off, what is kept, and which number
//! or which list a text stands for.
use crate::double::Double;
use crate::outputs::Wanted;
use crate::spec::Fields;
use vstd::prelude::*;

verus! {

/// Trimming cuts white space off both ends and nothing else, and all of it.
pub proof fn lemma_trimmed(s: Seq<char>) -> (ends: (int, int))
    ensures
        0 <= ends.0 <= ends.1 <= s.len(),
        crate::text::trimmed(s) == s.subrange(ends.0, ends.1),
        forall|i: int| 0 <= i < ends.0 ==> crate::text::white(#[trigger] s[i]),
        forall|i: int| ends.1 <= i < s.len() ==> crate::text::white(#[trigger] s[i]),
        ends.0 < ends.1 ==> !crate::text::white(s[ends.0]) && !crate::text::white(s[ends.1 - 1]),
{
    let a = lemma_trim_front(s);
    let rest = s.skip(a);
    let n = lemma_trim_back(rest);
    assert(rest.take(n) =~= s.subrange(a, a + n));
    assert forall|i: int| a + n <= i < s.len() implies crate::text::white(#[trigger] s[i]) by {
        assert(rest[i - a] == s[i]);
    }
    if n > 0 {
        assert(rest[0] == s[a]);
        assert(rest[n - 1] == s[a + n - 1]);
    }
    (a, a + n)
}

proof fn lemma_trim_front(s: Seq<char>) -> (a: int)
    ensures
        0 <= a <= s.len(),
        crate::text::trim_front(s) == s.skip(a),
        forall|i: int| 0 <= i < a ==> crate::text::white(#[trigger] s[i]),
        a < s.len() ==> !crate::text::white(s[a]),
    decreases s.len(),
{
    if s.len() > 0 && crate::text::white(s[0]) {
        let rest = s.drop_first();
        let a = lemma_trim_front(rest);
        assert(rest.skip(a) =~= s.skip(a + 1));
        assert forall|i: int| 0 <= i < a + 1 implies crate::text::white(#[trigger] s[i]) by {
            if i > 0 {
                assert(rest[i - 1] == s[i]);
            }
        }
        if a < rest.len() {
            assert(rest[a] == s[a + 1]);
        }
        a + 1
    } else {
        assert(s.skip(0) =~= s);
        0
    }
}

proof fn lemma_trim_back(s: Seq<char>) -> (n: int)
    ensures
        0 <= n <= s.len(),
        crate::text::trim_back(s) == s.take(n),
        forall|i: int| n <= i < s.len() ==> crate::text::white(#[trigger] s[i]),
        n > 0 ==> !crate::text::white(s[n - 1]),
    decreases s.len(),
{
    if s.len() > 0 && crate::text::white(s.last()) {
        let rest = s.drop_last();
        let n = lemma_trim_back(rest);
        assert(rest.take(n) =~= s.take(n));
        assert forall|i: int| n <= i < s.len() implies crate::text::white(#[trigger] s[i]) by {
            if i < rest.len() {
                assert(rest[i] == s[i]);
            }
        }
        if n > 0 {
            assert(rest[n - 1] == s[n - 1]);
        }
        n
    } else {
        assert(s.take(s.len() as int) =~= s);
        s.len() as int
    }
}

/// What is white is a space, a tab or an end of line, and nothing that leaves
/// ink.
pub proof fn lemma_white(c: char)
    ensures
        c == ' ' || c == '\t' || c == '\n' || c == '\r' ==> crate::text::white(c),
        '!' <= c <= '~' ==> !crate::text::white(c),
{
}

/// A text is cut at the first of the character, and at none where there is none.
pub proof fn lemma_cut(s: Seq<char>, c: char)
    ensures
        match crate::text::cut(s, c) {
            Some((left, right)) => s == left.push(c) + right && !left.contains(c),
            None => !s.contains(c),
        },
{
    lemma_position(s, c, 0);
    let i = crate::text::position(s, c, 0);
    if i < s.len() {
        let left = s.subrange(0, i);
        let right = s.subrange(i + 1, s.len() as int);
        assert(s =~= left.push(c) + right);
        if left.contains(c) {
            let k = choose|k: int| 0 <= k < left.len() && left[k] == c;
            assert(s[k] == c);
        }
    } else if s.contains(c) {
        let k = choose|k: int| 0 <= k < s.len() && s[k] == c;
        assert(s[k] == c);
    }
}

proof fn lemma_position(s: Seq<char>, c: char, from: int)
    requires
        0 <= from <= s.len(),
    ensures
        from <= crate::text::position(s, c, from) <= s.len(),
        crate::text::position(s, c, from) < s.len() ==> s[crate::text::position(s, c, from)] == c,
        forall|i: int| from <= i < crate::text::position(s, c, from) ==> #[trigger] s[i] != c,
    decreases s.len() - from,
{
    if from < s.len() && s[from] != c {
        lemma_position(s, c, from + 1);
    }
}

/// Escaping a text's backslashes, newlines and tabs.
pub open spec fn escaped(s: Seq<char>) -> Seq<char>
    decreases s.len(),
{
    if s.len() == 0 {
        s
    } else {
        (if s[0] == '\\' {
            seq!['\\', '\\']
        } else if s[0] == '\n' {
            seq!['\\', 'n']
        } else if s[0] == '\t' {
            seq!['\\', 't']
        } else {
            seq![s[0]]
        }) + escaped(s.skip(1))
    }
}

/// Expanding undoes escaping: every text can be passed as an argument.
pub proof fn lemma_unescaped_undoes(s: Seq<char>)
    ensures
        crate::text::unescaped(escaped(s)) == s,
    decreases s.len(),
{
    if s.len() > 0 {
        let rest = escaped(s.skip(1));
        let e = escaped(s);
        lemma_unescaped_undoes(s.skip(1));
        if s[0] == '\\' || s[0] == '\n' || s[0] == '\t' {
            assert(e.skip(2) =~= rest);
        } else {
            assert(e.skip(1) =~= rest);
        }
        assert(seq![s[0]] + s.skip(1) =~= s);
    }
}

/// A backslash before anything but the three letters stays, and so does one at
/// the end.
pub proof fn lemma_other_escapes_stay(a: Seq<char>, c: char, b: Seq<char>)
    requires
        !a.contains('\\'),
        c != 'n' && c != 't' && c != '\\',
    ensures
        crate::text::unescaped(a.push('\\').push(c) + b) == a.push('\\').push(c)
            + crate::text::unescaped(b),
        crate::text::unescaped(a.push('\\')) == a.push('\\'),
    decreases a.len(),
{
    let s = a.push('\\').push(c) + b;
    let t = a.push('\\');
    if a.len() > 0 {
        let r = a.skip(1);
        assert(a[0] != '\\');
        assert forall|i: int| 0 <= i < r.len() implies r[i] != '\\' by {
            assert(r[i] == a[i + 1]);
        }
        lemma_other_escapes_stay(r, c, b);
        assert(s.skip(1) =~= r.push('\\').push(c) + b);
        assert(t.skip(1) =~= r.push('\\'));
        assert(seq![a[0]] + (r.push('\\').push(c) + crate::text::unescaped(b)) =~= a.push(
            '\\',
        ).push(c) + crate::text::unescaped(b));
        assert(seq![a[0]] + r.push('\\') =~= t);
    } else {
        assert(s.skip(2) =~= b);
        assert(seq!['\\', c] + crate::text::unescaped(b) =~= a.push('\\').push(c)
            + crate::text::unescaped(b));
        assert(t =~= seq!['\\']);
    }
}

/// Whether a text is digits only.
pub open spec fn all_digits(s: Seq<char>) -> bool {
    forall|i: int| 0 <= i < s.len() ==> '0' <= #[trigger] s[i] <= '9'
}

/// A number is written so that it reads as itself, in digits and with no zero
/// too many.
pub proof fn lemma_written_number(n: nat)
    ensures
        all_digits(crate::text::decimal(n)),
        crate::decimal::number(crate::text::decimal(n)) == n,
        crate::text::decimal(n).len() > 0,
        n > 0 ==> crate::text::decimal(n)[0] != '0',
        n >= 10 ==> crate::text::decimal(n).len() == crate::text::decimal(n / 10).len() + 1,
        n < 10 ==> crate::text::decimal(n).len() == 1,
    decreases n,
{
    let s = crate::text::decimal(n);
    if n < 10 {
        assert(s.drop_last() =~= Seq::<char>::empty());
        assert(crate::decimal::number(s.drop_last()) == 0);
        assert(s.last() == crate::text::digit(n));
    } else {
        lemma_written_number(n / 10);
        assert(s.drop_last() =~= crate::text::decimal(n / 10));
    }
}

/// Digits count in tens.
pub proof fn lemma_number(a: Seq<char>, b: Seq<char>)
    ensures
        crate::decimal::number(a + b) == crate::decimal::number(a) * crate::decimal::ten_to(
            b.len(),
        ) + crate::decimal::number(b),
        a.len() == 1 && all_digits(a) ==> crate::decimal::number(a) == a[0] as nat - 48,
        crate::decimal::ten_to(b.len()) > 0,
    decreases b.len(),
{
    if b.len() > 0 {
        let rest = b.drop_last();
        lemma_number(a, rest);
        assert((a + b).drop_last() =~= a + rest);
        assert((a + b).last() == b.last());
        assert(crate::decimal::ten_to(b.len()) == 10 * crate::decimal::ten_to(rest.len()));
        let (x, t, y) = (
            crate::decimal::number(a),
            crate::decimal::ten_to(rest.len()),
            crate::decimal::number(rest),
        );
        assert(10 * (x * t + y) == x * (10 * t) + 10 * y) by (nonlinear_arith);
    } else {
        assert(a + b =~= a);
        assert(crate::decimal::number(a) * 1 == crate::decimal::number(a));
        if a.len() == 1 {
            assert(a.drop_last() =~= Seq::<char>::empty());
            assert(crate::decimal::number(a.drop_last()) == 0);
            assert(a.last() == a[0]);
        }
    }
}

/// A run of digits ends where it does.
proof fn lemma_run(s: Seq<char>, from: int, to: int)
    requires
        0 <= from <= to <= s.len(),
        forall|i: int| from <= i < to ==> '0' <= #[trigger] s[i] <= '9',
        to < s.len() ==> !('0' <= s[to] <= '9'),
    ensures
        crate::decimal::digits_end(s, from) == to,
    decreases to - from,
{
    if from < to {
        lemma_run(s, from + 1, to);
    }
}

/// A decimal text stands for the double nearest to it: digits, with or without
/// a fraction, of either sign.
pub proof fn lemma_decimal_reads(a: Seq<char>, b: Seq<char>)
    requires
        all_digits(a),
        all_digits(b),
        a.len() + b.len() > 0,
    ensures
        ({
            let w = crate::double::one();
            let n = crate::decimal::number(a + b);
            let d = Double::of(
                false,
                crate::rounding::nearest(n * w, crate::decimal::ten_to(b.len())),
            );
            let s = a.push('.') + b;
            &&& crate::decimal::double_of(s) == Some(d)
            &&& crate::decimal::double_of(seq!['+'] + s) == Some(d)
            &&& crate::decimal::double_of(seq!['-'] + s) == Some(d.negation())
            &&& a.len() > 0 && b.len() == 0 ==> {
                &&& crate::decimal::double_of(a) == Some(d)
                &&& crate::decimal::double_of(seq!['-'] + a) == Some(d.negation())
            }
        }),
{
    let w = crate::double::one();
    let t = crate::decimal::ten_to(b.len());
    let n = crate::decimal::number(a + b);
    let s = a.push('.') + b;
    let none = Seq::<char>::empty();
    lemma_number(a, b);
    lemma_run(s, 0, a.len() as int);
    lemma_run(s, a.len() as int + 1, s.len() as int);
    assert(s.subrange(0, a.len() as int) =~= a);
    assert(s.subrange(a.len() as int + 1, s.len() as int) =~= b);
    assert(s.subrange(s.len() as int, s.len() as int) =~= none);
    assert(crate::decimal::decimal_of(s) == Some((a + b, -(b.len() as int))));
    if b.len() == 0 {
        assert(a + b =~= a);
        assert((n * 1) * w == n * w) by (nonlinear_arith);
        if a.len() > 0 {
            lemma_run(a, 0, a.len() as int);
            assert(a.subrange(0, a.len() as int) =~= a);
            assert(a.subrange(a.len() as int, a.len() as int) =~= none);
            assert(a + none =~= a);
            assert(crate::decimal::decimal_of(a) == Some((a, 0int)));
            assert((seq!['-'] + a).skip(1) =~= a);
            assert((seq!['-'] + a)[0] == '-');
            assert(a[0] != '+' && a[0] != '-');
        }
    }
    assert((seq!['+'] + s).skip(1) =~= s);
    assert((seq!['-'] + s).skip(1) =~= s);
    assert((seq!['+'] + s)[0] == '+' && (seq!['-'] + s)[0] == '-');
    assert(s[0] != '+' && s[0] != '-');
    let m = crate::rounding::nearest(n * w, t);
    crate::order::lemma_of(false, m);
}

/// An exponent shifts the point: digits and an `e` with a number after it.
pub proof fn lemma_exponent_reads(a: Seq<char>, x: Seq<char>)
    requires
        all_digits(a),
        a.len() > 0,
        all_digits(x),
        x.len() > 0,
    ensures
        ({
            let w = crate::double::one();
            let n = crate::decimal::number(a);
            let t = crate::decimal::ten_to(crate::decimal::number(x));
            &&& crate::decimal::double_of(a.push('e') + x) == Some(
                Double::of(false, crate::rounding::nearest((n * t) * w, 1)),
            )
            &&& crate::decimal::number(x) > 0 ==> crate::decimal::double_of(
                a.push('e').push('-') + x,
            ) == Some(Double::of(false, crate::rounding::nearest(n * w, t)))
        }),
{
    let none = Seq::<char>::empty();
    let s = a.push('e') + x;
    let r = a.push('e').push('-') + x;
    let k = a.len() as int;
    lemma_run(s, 0, k);
    lemma_run(r, 0, k);
    assert(s.subrange(0, k) =~= a && r.subrange(0, k) =~= a);
    assert(a + none =~= a);
    let e = s.subrange(k, s.len() as int);
    let f = r.subrange(k, r.len() as int);
    assert(e =~= seq!['e'] + x);
    assert(f =~= seq!['e', '-'] + x);
    lemma_run(e, 1, e.len() as int);
    lemma_run(f, 2, f.len() as int);
    assert(e.subrange(1, e.len() as int) =~= x);
    assert(f.subrange(2, f.len() as int) =~= x);
    assert(e[1] == x[0]);
    assert(s[0] == a[0] && r[0] == a[0]);
}

/// A whole number is read as the digits say, with a plus sign or without.
pub proof fn lemma_word_reads(a: Seq<char>)
    requires
        all_digits(a),
        a.len() > 0,
    ensures
        crate::spec::word_of(a) == Some(crate::decimal::number(a)),
        crate::spec::word_of(seq!['+'] + a) == Some(crate::decimal::number(a)),
{
    assert((seq!['+'] + a).skip(1) =~= a);
    assert(a[0] != '+');
}

/// The connectors that `--output` names are the items of its list, trimmed, all
/// that are not empty and in their order; two words stand for something else.
pub proof fn lemma_outputs_as_asked(s: Seq<char>)
    ensures
        crate::outputs::wanted_of(s) is Current <==> s == "current"@,
        crate::outputs::wanted_of(s) is All <==> s == "all"@,
        crate::outputs::wanted_of(s) matches Wanted::Named(names) ==> names
            == crate::text::pieces(s, ',').map_values(
            |item: Seq<char>| crate::text::trimmed(item),
        ).filter(|name: Seq<char>| name.len() > 0),
{
    reveal_strlit("current");
    reveal_strlit("all");
    assert("current"@.len() == 7 && "all"@.len() == 3);
    lemma_names(crate::text::pieces(s, ','));
}

proof fn lemma_names(items: Seq<Seq<char>>)
    ensures
        crate::outputs::names_in(items) == items.map_values(
            |item: Seq<char>| crate::text::trimmed(item),
        ).filter(|name: Seq<char>| name.len() > 0),
    decreases items.len(),
{
    reveal(Seq::filter);
    let f = |item: Seq<char>| crate::text::trimmed(item);
    let all = items.map_values(f);
    if items.len() > 0 {
        lemma_names(items.drop_last());
        assert(all.drop_last() =~= items.drop_last().map_values(f));
    } else {
        assert(all =~= Seq::<Seq<char>>::empty());
    }
}

/// A monitor is found by its name: the first that carries it.
pub proof fn lemma_monitor_found(connectors: Seq<Option<Seq<char>>>, name: Seq<char>)
    ensures
        ({
            let i = crate::outputs::monitor_named(connectors, name);
            &&& 0 <= i <= connectors.len()
            &&& i < connectors.len() ==> connectors[i] == Some(name)
            &&& forall|j: int| 0 <= j < i ==> #[trigger] connectors[j] != Some(name)
        }),
    decreases connectors.len(),
{
    if connectors.len() > 0 && connectors[0] != Some(name) {
        let rest = connectors.drop_first();
        lemma_monitor_found(rest, name);
        let i = crate::outputs::monitor_named(connectors, name);
        assert forall|j: int| 0 <= j < i implies #[trigger] connectors[j] != Some(name) by {
            if j > 0 {
                assert(rest[j - 1] == connectors[j]);
            }
        }
    }
}

/// The monitors of a list of names: for each name in order its monitor, and the
/// names that no monitor carries are the ones that are missing.
pub proof fn lemma_monitors_of_names(connectors: Seq<Option<Seq<char>>>, names: Seq<Seq<char>>)
    ensures
        crate::outputs::picked(connectors, names) == names.map_values(
            |n: Seq<char>| crate::outputs::monitor_named(connectors, n),
        ).filter(|i: int| i < connectors.len()),
        crate::outputs::unmatched(connectors, names) == names.filter(
            |n: Seq<char>| !connectors.contains(Some(n)),
        ),
    decreases names.len(),
{
    reveal(Seq::filter);
    let f = |n: Seq<char>| crate::outputs::monitor_named(connectors, n);
    let all = names.map_values(f);
    if names.len() > 0 {
        let n = names.last();
        lemma_monitors_of_names(connectors, names.drop_last());
        assert(all.drop_last() =~= names.drop_last().map_values(f));
        lemma_monitor_found(connectors, n);
        let i = crate::outputs::monitor_named(connectors, n);
        if i < connectors.len() {
            assert(connectors.contains(Some(n)));
        } else if connectors.contains(Some(n)) {
            let j = choose|j: int| 0 <= j < connectors.len() && connectors[j] == Some(n);
            assert(connectors[j] == Some(n));
        }
    } else {
        assert(all =~= Seq::<int>::empty());
        assert(names =~= Seq::<Seq<char>>::empty());
    }
}

/// A message lands on every monitor where all are asked for, on the focused one
/// where the current one is, on the named ones where they are named; and it is
/// refused exactly where that is none.
pub proof fn lemma_landing(
    want: Wanted,
    connectors: Seq<Option<Seq<char>>>,
    focused: Result<Seq<char>, Seq<char>>,
)
    ensures
        ({
            let names = match (want, focused) {
                (Wanted::Named(names), _) => names,
                (Wanted::Current, Ok(name)) => seq![name],
                _ => Seq::empty(),
            };
            match crate::outputs::resolved(want, connectors, focused) {
                Ok(monitors) => {
                    &&& monitors.len() > 0
                    &&& if want is All {
                        monitors == Seq::new(connectors.len(), |i: int| i)
                    } else {
                        &&& forall|k: int|
                            0 <= k < monitors.len() ==> 0 <= #[trigger] monitors[k]
                                < connectors.len() && connectors[monitors[k]] is Some
                                && names.contains(connectors[monitors[k]]->0)
                        &&& monitors == crate::outputs::picked(connectors, names)
                    }
                },
                Err(_) => {
                    ||| connectors.len() == 0
                    ||| want is Current && focused is Err
                    ||| !(want is All) && forall|k: int|
                        0 <= k < names.len() ==> !connectors.contains(Some(#[trigger] names[k]))
                },
            }
        }),
{
    let names = match (want, focused) {
        (Wanted::Named(names), _) => names,
        (Wanted::Current, Ok(name)) => seq![name],
        _ => Seq::empty(),
    };
    let all = crate::outputs::picked(connectors, names);
    crate::outputs::lemma_by_names(connectors, names);
    lemma_monitors_of_names(connectors, names);
    assert forall|k: int| 0 <= k < all.len() implies 0 <= #[trigger] all[k] < connectors.len()
        && connectors[all[k]] is Some && names.contains(connectors[all[k]]->0) by {
    }
    if all.len() == 0 {
        let missing = crate::outputs::unmatched(connectors, names);
        lemma_filtered_all(names, |n: Seq<char>| !connectors.contains(Some(n)));
    }
}

/// What loses nothing when it is filtered passes the filter everywhere.
proof fn lemma_filtered_all(s: Seq<Seq<char>>, f: spec_fn(Seq<char>) -> bool)
    ensures
        s.filter(f).len() <= s.len(),
        s.filter(f).len() == s.len() ==> forall|i: int| 0 <= i < s.len() ==> f(#[trigger] s[i]),
    decreases s.len(),
{
    reveal(Seq::filter);
    if s.len() > 0 {
        let rest = s.drop_last();
        lemma_filtered_all(rest, f);
        if s.filter(f).len() == s.len() {
            assert forall|i: int| 0 <= i < s.len() implies f(#[trigger] s[i]) by {
                if i < rest.len() {
                    assert(rest[i] == s[i]);
                }
            }
        }
    }
}

/// Where there are monitors, every name that none carries is reported, in order,
/// whether or not the request as a whole succeeds; the connectors to choose from
/// are those with a name.
pub proof fn lemma_missing(
    want: Wanted,
    connectors: Seq<Option<Seq<char>>>,
    focused: Result<Seq<char>, Seq<char>>,
)
    requires
        connectors.len() > 0,
    ensures
        ({
            let names = match (want, focused) {
                (Wanted::Named(names), _) => names,
                (Wanted::Current, Ok(name)) => seq![name],
                _ => Seq::empty(),
            };
            crate::outputs::reported(want, connectors, focused) == names.filter(
                |n: Seq<char>| !connectors.contains(Some(n)),
            )
        }),
        crate::outputs::known(connectors) == connectors.filter(
            |c: Option<Seq<char>>| c is Some,
        ).map_values(|c: Option<Seq<char>>| c->0),
{
    reveal(Seq::filter);
    let names = match (want, focused) {
        (Wanted::Named(names), _) => names,
        (Wanted::Current, Ok(name)) => seq![name],
        _ => Seq::empty(),
    };
    lemma_monitors_of_names(connectors, names);
    lemma_known(connectors);
}

proof fn lemma_known(connectors: Seq<Option<Seq<char>>>)
    ensures
        crate::outputs::known(connectors) == connectors.filter(
            |c: Option<Seq<char>>| c is Some,
        ).map_values(|c: Option<Seq<char>>| c->0),
    decreases connectors.len(),
{
    reveal(Seq::filter);
    let named = |c: Option<Seq<char>>| c is Some;
    let name = |c: Option<Seq<char>>| c->0;
    let all = connectors.filter(named).map_values(name);
    if connectors.len() > 0 {
        let rest = connectors.drop_last();
        lemma_known(rest);
        let before = rest.filter(named).map_values(name);
        if connectors.last() is Some {
            assert(all =~= before.push(connectors.last()->0));
        } else {
            assert(all =~= before);
        }
    } else {
        assert(all =~= Seq::<Seq<char>>::empty());
    }
}

/// The focused output is the first that has the focus.
pub proof fn lemma_focused(outputs: Seq<(Seq<char>, bool)>) -> (i: int)
    ensures
        0 <= i <= outputs.len(),
        forall|j: int| 0 <= j < i ==> !(#[trigger] outputs[j]).1,
        match crate::outputs::focused_among(outputs) {
            Ok(name) => i < outputs.len() && outputs[i].1 && outputs[i].0 == name,
            Err(_) => i == outputs.len(),
        },
    decreases outputs.len(),
{
    if outputs.len() > 0 && !outputs[0].1 {
        let rest = outputs.drop_first();
        let i = lemma_focused(rest);
        assert forall|j: int| 0 <= j < i + 1 implies !(#[trigger] outputs[j]).1 by {
            if j > 0 {
                assert(rest[j - 1] == outputs[j]);
            }
        }
        if i < rest.len() {
            assert(rest[i] == outputs[i + 1]);
        }
        i + 1
    } else {
        0
    }
}

/// The value of a key is that of the pair that has it.
pub proof fn lemma_value_by_key(f: Fields, key: Seq<char>, value: Seq<char>)
    requires
        f.wf(),
    ensures
        crate::spec::value_of(f.pairs, key) == Some(value) <==> f.pairs.contains((key, value)),
{
    crate::spec::lemma_place(f.pairs, key);
    let i = crate::spec::place(f.pairs, key);
    if crate::spec::value_of(f.pairs, key) == Some(value) {
        assert(f.pairs[i] == (key, value));
    }
    if f.pairs.contains((key, value)) {
        let k = choose|k: int| 0 <= k < f.pairs.len() && f.pairs[k] == (key, value);
        crate::spec::lemma_value_of(f.pairs, k);
    }
}

/// A headline may be given bare or by its key: given both ways it is refused,
/// given one way it is that value, and else there is none.
pub proof fn lemma_headline(f: Fields, key: Seq<char>, value: Seq<char>)
    requires
        f.wf(),
    ensures
        f.bare is Some && f.pairs.contains((key, value)) ==> f.headline_of(key) is Err,
        f.bare is None && f.pairs.contains((key, value)) ==> f.headline_of(key) == Ok::<
            Option<Seq<char>>,
            Seq<char>,
        >(Some(value)),
        f.bare is Some && (forall|v: Seq<char>| !(#[trigger] f.pairs.contains((key, v))))
            ==> f.headline_of(key) == Ok::<Option<Seq<char>>, Seq<char>>(f.bare),
        f.bare is None && (forall|v: Seq<char>| !(#[trigger] f.pairs.contains((key, v))))
            ==> f.headline_of(key) == Ok::<Option<Seq<char>>, Seq<char>>(None),
{
    lemma_value_by_key(f, key, value);
    if let Some(v) = crate::spec::value_of(f.pairs, key) {
        lemma_value_by_key(f, key, v);
    }
}

/// A comma outside brackets always separates: no field holds one, counting the
/// brackets from its own start.
pub proof fn lemma_fields_at_commas(s: Seq<char>)
    ensures
        crate::spec::fields(s).len() > 0,
        crate::spec::depth(s) == crate::spec::depth(crate::spec::fields(s).last()),
        forall|k: int, i: int|
            0 <= k < crate::spec::fields(s).len() && 0 <= i < crate::spec::fields(s)[k].len()
                && #[trigger] crate::spec::fields(s)[k][i] == ',' ==> crate::spec::depth(
                crate::spec::fields(s)[k].take(i),
            ) > 0,
    decreases s.len(),
{
    if s.len() > 0 {
        let r = s.drop_last();
        let before = crate::spec::fields(r);
        let all = crate::spec::fields(s);
        lemma_fields_at_commas(r);
        let n = before.len() - 1;
        if s.last() == ',' && crate::spec::depth(r) == 0 {
            assert forall|k: int, i: int|
                0 <= k < all.len() && 0 <= i < all[k].len() && #[trigger] all[k][i]
                    == ',' implies crate::spec::depth(all[k].take(i)) > 0 by {
                assert(all[k] == before[k]);
                assert(before[k][i] == ',');
            }
        } else {
            let x = before.last();
            assert(all.last() == x.push(s.last()));
            assert(all.last().drop_last() =~= x);
            assert forall|k: int, i: int|
                0 <= k < all.len() && 0 <= i < all[k].len() && #[trigger] all[k][i]
                    == ',' implies crate::spec::depth(all[k].take(i)) > 0 by {
                if k < n {
                    assert(all[k] == before[k]);
                    assert(before[k][i] == ',');
                } else if i < x.len() {
                    assert(all[k].take(i) =~= x.take(i));
                    assert(before[n][i] == ',');
                } else {
                    assert(all[k].take(i) =~= x);
                }
            }
        }
    }
}

/// How many more brackets a text opens than it closes.
pub open spec fn opened(s: Seq<char>) -> int {
    s.filter(|c: char| c == '(').len() - s.filter(|c: char| c == ')').len()
}

/// The brackets that are open after a text are those that some end of it opens
/// and does not close; no end opens more.
pub proof fn lemma_depth(s: Seq<char>) -> (k: int)
    ensures
        0 <= k <= s.len(),
        opened(s.skip(k)) == crate::spec::depth(s),
        forall|i: int| 0 <= i <= s.len() ==> opened(#[trigger] s.skip(i)) <= crate::spec::depth(s),
    decreases s.len(),
{
    reveal(Seq::filter);
    let d = crate::spec::depth(s);
    assert(opened(Seq::<char>::empty()) == 0);
    assert(s.skip(s.len() as int) =~= Seq::<char>::empty());
    if s.len() > 0 {
        let r = s.drop_last();
        let c = s.last();
        let step: int = if c == '(' {
            1
        } else if c == ')' {
            -1
        } else {
            0
        };
        let k = lemma_depth(r);
        assert forall|i: int| 0 <= i < s.len() implies opened(#[trigger] s.skip(i)) == opened(
            r.skip(i),
        ) + step by {
            assert(s.skip(i).drop_last() =~= r.skip(i));
            assert(s.skip(i).last() == c);
        }
        assert forall|i: int| 0 <= i <= s.len() implies opened(#[trigger] s.skip(i)) <= d by {
            if i < s.len() {
                assert(opened(r.skip(i)) <= crate::spec::depth(r));
            }
        }
        if c == ')' && crate::spec::depth(r) == 0 {
            s.len() as int
        } else {
            assert(opened(s.skip(k)) == opened(r.skip(k)) + step);
            k
        }
    } else {
        0
    }
}

/// After a text that leaves no bracket open, brackets are counted from the start
/// again.
proof fn lemma_depth_restarts(a: Seq<char>, b: Seq<char>)
    requires
        crate::spec::depth(a) == 0,
    ensures
        crate::spec::depth(a + seq![','] + b) == crate::spec::depth(b),
    decreases b.len(),
{
    let s = a + seq![','] + b;
    if b.len() == 0 {
        assert(s.drop_last() =~= a);
        assert(s.last() == ',');
    } else {
        lemma_depth_restarts(a, b.drop_last());
        assert(s.drop_last() =~= a + seq![','] + b.drop_last());
        assert(s.last() == b.last());
    }
}

/// Two specs with a comma between them are the fields of the one and then those
/// of the other, where the first leaves no bracket open.
pub proof fn lemma_fields_apart(a: Seq<char>, b: Seq<char>)
    requires
        crate::spec::depth(a) == 0,
    ensures
        crate::spec::fields(a + seq![','] + b) == crate::spec::fields(a) + crate::spec::fields(b),
    decreases b.len(),
{
    let s = a + seq![','] + b;
    let fa = crate::spec::fields(a);
    if b.len() == 0 {
        assert(s.drop_last() =~= a);
        assert(s.last() == ',');
        assert(crate::spec::fields(s) =~= fa + crate::spec::fields(b));
    } else {
        let r = b.drop_last();
        lemma_fields_apart(a, r);
        lemma_depth_restarts(a, r);
        lemma_fields_at_commas(r);
        assert(s.drop_last() =~= a + seq![','] + r);
        assert(s.last() == b.last());
        assert(crate::spec::fields(s) =~= fa + crate::spec::fields(b));
    }
}

/// A value in brackets is one field with what stands before it, whatever commas
/// it holds.
pub proof fn lemma_brackets_hold(name: Seq<char>, inner: Seq<char>)
    requires
        !name.contains(','),
        !name.contains('('),
        !inner.contains('('),
        !inner.contains(')'),
    ensures
        ({
            let s = name + seq!['('] + inner + seq![')'];
            crate::spec::fields(s) == seq![s] && crate::spec::depth(s) == 0
        }),
{
    let s = name + seq!['('] + inner + seq![')'];
    lemma_plain_depth(name);
    lemma_inner_depth(name, inner);
    assert(s.drop_last() =~= name + seq!['('] + inner);
    assert forall|i: int| 0 <= i < s.len() && s[i] == ',' implies crate::spec::depth(
        #[trigger] s.take(i),
    ) > 0 by {
        if i < name.len() {
            assert(name[i] == ',');
            assert(name.contains(','));
        } else {
            let n = i - name.len() - 1;
            let part = inner.take(n);
            assert(s.take(i) =~= name + seq!['('] + part);
            assert(!part.contains('(') && !part.contains(')'));
            lemma_inner_depth(name, part);
        }
    }
    crate::spec::lemma_bracketed_is_one_field(s);
}

proof fn lemma_plain_depth(s: Seq<char>)
    requires
        !s.contains('('),
    ensures
        crate::spec::depth(s) == 0,
    decreases s.len(),
{
    if s.len() > 0 {
        let r = s.drop_last();
        assert(!r.contains('('));
        assert(s.last() != '(');
        lemma_plain_depth(r);
    }
}

proof fn lemma_inner_depth(name: Seq<char>, inner: Seq<char>)
    requires
        crate::spec::depth(name) == 0,
        !inner.contains('('),
        !inner.contains(')'),
    ensures
        crate::spec::depth(name + seq!['('] + inner) == 1,
    decreases inner.len(),
{
    let s = name + seq!['('] + inner;
    if inner.len() == 0 {
        assert(s.drop_last() =~= name);
        assert(s.last() == '(');
    } else {
        let r = inner.drop_last();
        assert(!r.contains('(') && !r.contains(')'));
        assert(inner.contains(inner.last()));
        lemma_inner_depth(name, r);
        assert(s.drop_last() =~= name + seq!['('] + r);
        assert(s.last() == inner.last());
    }
}

} // verus!
