//! Text as sequences of characters: trimming, splitting, joining and the
//! escapes of the message argument.
use vstd::prelude::*;
use vstd::string::StrSliceExecFns;
use vstd::string::StringExecFns;

verus! {

/// `String::push`: the character goes to the end of the text.
pub assume_specification[ String::push ](s: &mut String, c: char)
    ensures
        final(s)@ == old(s)@.push(c),
;

/// What `format!("{:?}")` makes of a text: quoted, with escapes.
pub uninterp spec fn debug_text(text: Seq<char>) -> Seq<char>;

/// The text as `Debug` for `str` shows it. Quoting and escaping are left to
/// the standard library; the result depends on the text alone.
#[verifier::external_body]
pub(crate) fn quoted(text: &str) -> (r: String)
    ensures
        r@ == debug_text(text@),
{
    format!("{:?}", text)
}

/// The characters of a text.
pub fn chars_of(text: &str) -> (out: Vec<char>)
    ensures
        out@ == text@,
{
    let mut out: Vec<char> = Vec::new();
    for c in it: text.chars()
        invariant
            out@ == it.seq().take(it.index() as int),
            it.seq() == text@,
    {
        out.push(c);
    }
    out
}

/// Whether two texts hold the same characters.
pub fn same(a: &str, b: &str) -> (r: bool)
    ensures
        r == (a@ == b@),
{
    a.to_owned() == b.to_owned()
}

/// The characters with the Unicode property White_Space.
pub open spec fn white(c: char) -> bool {
    ||| '\u{9}' <= c <= '\u{d}'
    ||| c == ' '
    ||| c == '\u{85}'
    ||| c == '\u{a0}'
    ||| c == '\u{1680}'
    ||| '\u{2000}' <= c <= '\u{200a}'
    ||| c == '\u{2028}'
    ||| c == '\u{2029}'
    ||| c == '\u{202f}'
    ||| c == '\u{205f}'
    ||| c == '\u{3000}'
}

pub fn is_white(c: char) -> (r: bool)
    ensures
        r == white(c),
{
    ('\u{9}' <= c && c <= '\u{d}') || c == ' ' || c == '\u{85}' || c == '\u{a0}' || c == '\u{1680}'
        || ('\u{2000}' <= c && c <= '\u{200a}') || c == '\u{2028}' || c == '\u{2029}' || c
        == '\u{202f}' || c == '\u{205f}' || c == '\u{3000}'
}

/// A text without its leading white space.
pub open spec fn trim_front(s: Seq<char>) -> Seq<char>
    decreases s.len(),
{
    if s.len() > 0 && white(s[0]) {
        trim_front(s.drop_first())
    } else {
        s
    }
}

/// A text without its trailing white space.
pub open spec fn trim_back(s: Seq<char>) -> Seq<char>
    decreases s.len(),
{
    if s.len() > 0 && white(s.last()) {
        trim_back(s.drop_last())
    } else {
        s
    }
}

/// A text without white space at either end.
pub open spec fn trimmed(s: Seq<char>) -> Seq<char> {
    trim_back(trim_front(s))
}

/// A text without white space at either end.
pub fn trim<'a>(text: &'a str) -> (r: &'a str)
    ensures
        r@ == trimmed(text@),
{
    let cs: Vec<char> = chars_of(text);
    let mut a: usize = 0;
    assert(text@.subrange(0, text@.len() as int) =~= text@);
    while a < cs.len() && is_white(cs[a])
        invariant
            a <= cs.len(),
            cs@ == text@,
            trim_front(text@) == trim_front(text@.subrange(a as int, text@.len() as int)),
        decreases cs.len() - a,
    {
        proof {
            let s = text@.subrange(a as int, text@.len() as int);
            assert(s.drop_first() =~= text@.subrange(a + 1, text@.len() as int));
        }
        a = a + 1;
    }
    let mut b: usize = cs.len();
    let ghost front = text@.subrange(a as int, text@.len() as int);
    assert(trim_front(text@) == front);
    while b > a && is_white(cs[b - 1])
        invariant
            a <= b <= cs.len(),
            cs@ == text@,
            trim_front(text@) == front,
            trim_back(front) == trim_back(text@.subrange(a as int, b as int)),
        decreases b - a,
    {
        proof {
            let s = text@.subrange(a as int, b as int);
            assert(s.drop_last() =~= text@.subrange(a as int, b - 1));
        }
        b = b - 1;
    }
    proof {
        let s = text@.subrange(a as int, b as int);
        assert(s.len() > 0 ==> s.last() == text@[b - 1]);
    }
    text.substring_char(a, b)
}

/// Whether a character occurs in a text.
pub fn contains(text: &str, c: char) -> (r: bool)
    ensures
        r == text@.contains(c),
{
    let cs: Vec<char> = chars_of(text);
    let mut i: usize = 0;
    while i < cs.len()
        invariant
            i <= cs.len(),
            cs@ == text@,
            forall|j: int| 0 <= j < i ==> text@[j] != c,
        decreases cs.len() - i,
    {
        if cs[i] == c {
            assert(text@[i as int] == c);
            return true;
        }
        i = i + 1;
    }
    false
}

/// The position of the first `c` at or after `from`, or the length.
pub open spec fn position(s: Seq<char>, c: char, from: int) -> int
    decreases s.len() - from,
{
    if from < 0 || from >= s.len() {
        s.len() as int
    } else if s[from] == c {
        from
    } else {
        position(s, c, from + 1)
    }
}

/// A text cut at its first `c`, which is dropped; `None` where `c` is absent.
pub open spec fn cut(s: Seq<char>, c: char) -> Option<(Seq<char>, Seq<char>)> {
    let i = position(s, c, 0);
    if i < s.len() {
        Some((s.subrange(0, i), s.subrange(i + 1, s.len() as int)))
    } else {
        None
    }
}

/// A text cut at its first `c`.
pub fn split_once<'a>(text: &'a str, c: char) -> (r: Option<(&'a str, &'a str)>)
    ensures
        match r {
            Some((left, right)) => cut(text@, c) == Some((left@, right@)),
            None => cut(text@, c) is None,
        },
{
    let cs: Vec<char> = chars_of(text);
    let mut i: usize = 0;
    while i < cs.len() && cs[i] != c
        invariant
            i <= cs.len(),
            cs@ == text@,
            position(text@, c, 0) == position(text@, c, i as int),
        decreases cs.len() - i,
    {
        i = i + 1;
    }
    if i < cs.len() {
        Some((text.substring_char(0, i), text.substring_char(i + 1, cs.len())))
    } else {
        None
    }
}

/// The pieces of a text between the occurrences of a separator.
pub open spec fn pieces(s: Seq<char>, sep: char) -> Seq<Seq<char>>
    decreases s.len(),
{
    if s.len() == 0 {
        seq![Seq::empty()]
    } else {
        let before = pieces(s.drop_last(), sep);
        if s.last() == sep {
            before.push(Seq::empty())
        } else {
            before.drop_last().push(before.last().push(s.last()))
        }
    }
}

/// Texts joined by a separator.
pub open spec fn joined(parts: Seq<Seq<char>>, sep: Seq<char>) -> Seq<char>
    decreases parts.len(),
{
    if parts.len() == 0 {
        Seq::empty()
    } else if parts.len() == 1 {
        parts[0]
    } else {
        joined(parts.drop_last(), sep) + sep + parts.last()
    }
}

/// The texts of a list.
pub open spec fn texts(list: Seq<String>) -> Seq<Seq<char>> {
    list.map_values(|t: String| t@)
}

/// The pieces of a text between the occurrences of a separator.
pub fn split(text: &str, sep: char) -> (out: Vec<String>)
    ensures
        texts(out@) == pieces(text@, sep),
        out@.len() > 0,
{
    let cs: Vec<char> = chars_of(text);
    let mut out: Vec<String> = Vec::new();
    let mut piece: String = String::new();
    let mut i: usize = 0;
    assert(text@.take(0) =~= Seq::<char>::empty());
    assert(texts(out@).push(piece@) =~= seq![Seq::<char>::empty()]);
    while i < cs.len()
        invariant
            i <= cs.len(),
            cs@ == text@,
            texts(out@).push(piece@) == pieces(text@.take(i as int), sep),
        decreases cs.len() - i,
    {
        let c: char = cs[i];
        let ghost before = texts(out@).push(piece@);
        let ghost old_out = out@;
        proof {
            assert(text@.take(i + 1).drop_last() =~= text@.take(i as int));
            assert(before.drop_last() =~= texts(out@));
            assert(before.last() == piece@);
        }
        if c == sep {
            out.push(piece);
            piece = String::new();
            proof {
                assert(texts(out@) =~= before);
                assert(piece@ =~= Seq::<char>::empty());
            }
        } else {
            piece.push(c);
        }
        i = i + 1;
    }
    assert(text@.take(i as int) =~= text@);
    let ghost before = texts(out@).push(piece@);
    out.push(piece);
    assert(texts(out@) =~= before);
    out
}

/// Texts joined by a separator.
pub fn join(parts: &Vec<String>, sep: &str) -> (r: String)
    ensures
        r@ == joined(texts(parts@), sep@),
{
    let mut r: String = String::new();
    let mut i: usize = 0;
    let ghost all = texts(parts@);
    while i < parts.len()
        invariant
            i <= parts.len(),
            all == texts(parts@),
            r@ == joined(all.take(i as int), sep@),
        decreases parts.len() - i,
    {
        proof {
            assert(all.take(i + 1).drop_last() =~= all.take(i as int));
            assert(all[i as int] == parts@[i as int]@);
        }
        if i > 0 {
            r.append(sep);
            r.append(parts[i].as_str());
        } else {
            r = parts[i].clone();
        }
        i = i + 1;
    }
    assert(all.take(i as int) =~= all);
    r
}

/// The decimal digit of a number below ten.
pub open spec fn digit(d: nat) -> char {
    (48 + d) as char
}

/// A number in decimal.
pub open spec fn decimal(n: nat) -> Seq<char>
    decreases n,
{
    if n < 10 {
        seq![digit(n)]
    } else {
        decimal(n / 10).push(digit(n % 10))
    }
}

/// A number in decimal.
pub fn to_decimal(n: u64) -> (r: String)
    ensures
        r@ == decimal(n as nat),
    decreases n,
{
    let mut r: String = if n < 10 {
        String::new()
    } else {
        to_decimal(n / 10)
    };
    let d: u8 = (n % 10) as u8;
    r.push((48 + d) as char);
    assert(n < 10 ==> r@ =~= seq![digit(n as nat)]);
    r
}

/// A text with the escapes for newline, tab and backslash expanded. A
/// backslash before anything else, or at the end, stays.
pub open spec fn unescaped(s: Seq<char>) -> Seq<char>
    decreases s.len(),
{
    if s.len() == 0 {
        s
    } else if s[0] != '\\' {
        seq![s[0]] + unescaped(s.skip(1))
    } else if s.len() == 1 {
        s
    } else if s[1] == 'n' {
        seq!['\n'] + unescaped(s.skip(2))
    } else if s[1] == 't' {
        seq!['\t'] + unescaped(s.skip(2))
    } else if s[1] == '\\' {
        seq!['\\'] + unescaped(s.skip(2))
    } else {
        seq!['\\', s[1]] + unescaped(s.skip(2))
    }
}

/// Expand the escapes of the message argument. Unknown escapes are kept.
pub fn unescape(text: &str) -> (out: String)
    ensures
        out@ == unescaped(text@),
{
    let cs: Vec<char> = chars_of(text);
    let mut out: String = String::new();
    let mut i: usize = 0;
    assert(text@.skip(0) =~= text@);
    while i < cs.len()
        invariant
            i <= cs.len(),
            cs@ == text@,
            out@ + unescaped(text@.skip(i as int)) == unescaped(text@),
        decreases cs.len() - i,
    {
        let c: char = cs[i];
        let ghost rest = text@.skip(i as int);
        let ghost before = out@;
        proof {
            assert(rest.skip(1) =~= text@.skip(i + 1));
            assert(rest.len() > 1 ==> rest.skip(2) =~= text@.skip(i + 2));
        }
        if c != '\\' {
            out.push(c);
            i = i + 1;
            assert(out@ + unescaped(text@.skip(i as int)) =~= before + unescaped(rest));
        } else if i + 1 == cs.len() {
            out.push(c);
            i = i + 1;
            proof {
                assert(text@.skip(i as int) =~= Seq::<char>::empty());
                assert(out@ + unescaped(text@.skip(i as int)) =~= before + unescaped(rest));
            }
        } else {
            let e: char = cs[i + 1];
            if e == 'n' {
                out.push('\n');
            } else if e == 't' {
                out.push('\t');
            } else if e == '\\' {
                out.push('\\');
            } else {
                out.push('\\');
                out.push(e);
            }
            i = i + 2;
            assert(out@ + unescaped(text@.skip(i as int)) =~= before + unescaped(rest));
        }
    }
    assert(text@.skip(i as int) =~= Seq::<char>::empty());
    assert(out@ + unescaped(text@.skip(i as int)) =~= out@);
    out
}

/// A text without its trailing newlines.
pub open spec fn chomped(s: Seq<char>) -> Seq<char>
    decreases s.len(),
{
    if s.len() > 0 && s.last() == '\n' {
        chomped(s.drop_last())
    } else {
        s
    }
}

/// A text without its trailing newlines.
pub fn chomp<'a>(text: &'a str) -> (r: &'a str)
    ensures
        r@ == chomped(text@),
{
    let cs: Vec<char> = chars_of(text);
    let mut b: usize = cs.len();
    assert(text@.take(b as int) =~= text@);
    while b > 0 && cs[b - 1] == '\n'
        invariant
            b <= cs.len(),
            cs@ == text@,
            chomped(text@) == chomped(text@.take(b as int)),
        decreases b,
    {
        assert(text@.take(b as int).drop_last() =~= text@.take(b - 1));
        b = b - 1;
    }
    assert(text@.take(b as int) =~= text@.subrange(0, b as int));
    text.substring_char(0, b)
}

/// What is left after chomping is a prefix that does not end in a newline, and
/// everything cut off is newlines.
pub proof fn lemma_chomped(s: Seq<char>)
    ensures
        chomped(s).len() <= s.len(),
        chomped(s) == s.take(chomped(s).len() as int),
        chomped(s).len() > 0 ==> chomped(s).last() != '\n',
        forall|i: int| chomped(s).len() <= i < s.len() ==> s[i] == '\n',
        chomped(chomped(s)) == chomped(s),
    decreases s.len(),
{
    if s.len() > 0 && s.last() == '\n' {
        lemma_chomped(s.drop_last());
        let n = chomped(s).len() as int;
        assert(s.drop_last().take(n) =~= s.take(n));
        assert forall|i: int| n <= i < s.len() implies s[i] == '\n' by {
            if i < s.len() - 1 {
                assert(s.drop_last()[i] == s[i]);
            }
        }
    } else {
        assert(s.take(s.len() as int) =~= s);
    }
}

/// A text without backslashes holds no escapes: it is left as it is.
pub proof fn lemma_unescaped_plain(s: Seq<char>)
    requires
        !s.contains('\\'),
    ensures
        unescaped(s) == s,
    decreases s.len(),
{
    if s.len() > 0 {
        assert(s[0] != '\\');
        assert forall|i: int| 0 <= i < s.skip(1).len() implies s.skip(1)[i] != '\\' by {
            assert(s[i + 1] == s.skip(1)[i]);
        }
        lemma_unescaped_plain(s.skip(1));
        assert(seq![s[0]] + s.skip(1) =~= s);
    }
}

/// Expanding escapes never makes a text longer.
pub proof fn lemma_unescaped_len(s: Seq<char>)
    ensures
        unescaped(s).len() <= s.len(),
    decreases s.len(),
{
    if s.len() > 0 && s[0] != '\\' {
        lemma_unescaped_len(s.skip(1));
    } else if s.len() > 1 {
        lemma_unescaped_len(s.skip(2));
    }
}

/// Joining the pieces of a text by their separator gives the text back.
pub proof fn lemma_pieces_joined(s: Seq<char>, sep: char)
    ensures
        joined(pieces(s, sep), seq![sep]) == s,
        pieces(s, sep).len() > 0,
    decreases s.len(),
{
    if s.len() > 0 {
        lemma_pieces_joined(s.drop_last(), sep);
        let before = pieces(s.drop_last(), sep);
        let after = pieces(s, sep);
        assert(s =~= s.drop_last().push(s.last()));
        if s.last() == sep {
            assert(after.drop_last() =~= before);
            assert(joined(after, seq![sep]) =~= s);
        } else {
            assert(after.drop_last() =~= before.drop_last());
            if before.len() == 1 {
                assert(joined(after, seq![sep]) =~= s);
            } else {
                assert(joined(before, seq![sep]) == joined(before.drop_last(), seq![sep]) + seq![sep]
                    + before.last());
                assert(joined(after, seq![sep]) =~= s);
            }
        }
    }
}

/// No piece holds the separator.
pub proof fn lemma_pieces_free(s: Seq<char>, sep: char)
    ensures
        pieces(s, sep).len() > 0,
        forall|i: int| 0 <= i < pieces(s, sep).len() ==> !(#[trigger] pieces(s, sep)[i]).contains(sep),
    decreases s.len(),
{
    if s.len() > 0 {
        lemma_pieces_free(s.drop_last(), sep);
        let before = pieces(s.drop_last(), sep);
        let after = pieces(s, sep);
        assert forall|i: int| 0 <= i < after.len() implies !(#[trigger] after[i]).contains(sep) by {
            if i < before.len() - 1 || (s.last() == sep && i < before.len()) {
                assert(after[i] == before[i]);
            } else if s.last() != sep {
                let last = before.last();
                assert(!last.contains(sep));
                assert(after[i] == last.push(s.last()));
                if after[i].contains(sep) {
                    let j = choose|j: int| 0 <= j < after[i].len() && after[i][j] == sep;
                    assert(last[j] == sep);
                }
            }
        }
    }
}

/// A separator and a piece without one after a text add that piece.
proof fn lemma_pieces_after(s: Seq<char>, piece: Seq<char>, sep: char)
    requires
        !piece.contains(sep),
    ensures
        pieces(s + seq![sep] + piece, sep) == pieces(s, sep).push(piece),
    decreases piece.len(),
{
    let whole = s + seq![sep] + piece;
    if piece.len() == 0 {
        assert(whole.drop_last() =~= s);
        assert(piece =~= Seq::empty());
    } else {
        let front = piece.drop_last();
        assert(piece.last() == piece[piece.len() - 1]);
        assert forall|i: int| 0 <= i < front.len() implies front[i] != sep by {
            assert(front[i] == piece[i]);
        }
        lemma_pieces_after(s, front, sep);
        assert(whole.drop_last() =~= s + seq![sep] + front);
        assert(front.push(piece.last()) =~= piece);
        assert(pieces(s, sep).push(front).drop_last() =~= pieces(s, sep));
    }
}

/// A text without the separator is one piece.
proof fn lemma_one_piece(s: Seq<char>, sep: char)
    requires
        !s.contains(sep),
    ensures
        pieces(s, sep) == seq![s],
    decreases s.len(),
{
    if s.len() == 0 {
        assert(s =~= Seq::empty());
    } else {
        let front = s.drop_last();
        assert(s.last() == s[s.len() - 1]);
        assert forall|i: int| 0 <= i < front.len() implies front[i] != sep by {
            assert(front[i] == s[i]);
        }
        lemma_one_piece(front, sep);
        assert(front.push(s.last()) =~= s);
        assert(pieces(s, sep) =~= seq![s]);
    }
}

/// Texts without the separator come back as the pieces of what they join to.
pub proof fn lemma_joined_pieces(parts: Seq<Seq<char>>, sep: char)
    requires
        parts.len() > 0,
        forall|i: int| 0 <= i < parts.len() ==> !(#[trigger] parts[i]).contains(sep),
    ensures
        pieces(joined(parts, seq![sep]), sep) == parts,
    decreases parts.len(),
{
    if parts.len() == 1 {
        lemma_one_piece(parts[0], sep);
        assert(parts =~= seq![parts[0]]);
    } else {
        let front = parts.drop_last();
        assert forall|i: int| 0 <= i < front.len() implies !(#[trigger] front[i]).contains(sep) by {
            assert(front[i] == parts[i]);
        }
        lemma_joined_pieces(front, sep);
        assert(parts.last() == parts[parts.len() - 1]);
        lemma_pieces_after(joined(front, seq![sep]), parts.last(), sep);
        assert(front.push(parts.last()) =~= parts);
    }
}

/// Joining the last of the texts gives an end of what joining all of them
/// gives.
pub proof fn lemma_joined_end(parts: Seq<Seq<char>>, from: int, sep: Seq<char>)
    requires
        0 <= from < parts.len(),
    ensures
        joined(parts.skip(from), sep).len() <= joined(parts, sep).len(),
        joined(parts.skip(from), sep) == joined(parts, sep).skip(
            joined(parts, sep).len() - joined(parts.skip(from), sep).len(),
        ),
    decreases parts.len(),
{
    let end = parts.skip(from);
    let all = joined(parts, sep);
    if from == 0 {
        assert(end =~= parts);
        assert(all.skip(0) =~= all);
    } else if end.len() == 1 {
        assert(end[0] == parts.last());
        assert(joined(end, sep) =~= all.skip(all.len() - end[0].len()));
    } else {
        let front = parts.drop_last();
        lemma_joined_end(front, from, sep);
        assert(end.drop_last() =~= front.skip(from));
        assert(end.last() == parts.last());
        assert(joined(end, sep) =~= all.skip(all.len() - joined(end, sep).len()));
    }
}

} // verus!
