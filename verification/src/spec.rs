//! Command-line specs: an optional leading bare value followed by
//! comma-separated `key=value` fields. Unknown and duplicate fields are
//! rejected.
use crate::double::Double;
use crate::error::{cat, Error};
use vstd::prelude::*;
use vstd::string::StrSliceExecFns;

verus! {

/// How many brackets are open after a text. A closing one with no partner
/// counts for nothing.
pub open spec fn depth(s: Seq<char>) -> nat
    decreases s.len(),
{
    if s.len() == 0 {
        0
    } else {
        let d = depth(s.drop_last());
        if s.last() == '(' {
            d + 1
        } else if s.last() == ')' && d > 0 {
            (d - 1) as nat
        } else {
            d
        }
    }
}

/// The fields of a spec: its pieces between the commas outside brackets.
pub open spec fn fields(s: Seq<char>) -> Seq<Seq<char>>
    decreases s.len(),
{
    if s.len() == 0 {
        seq![Seq::empty()]
    } else {
        let before = fields(s.drop_last());
        if s.last() == ',' && depth(s.drop_last()) == 0 {
            before.push(Seq::empty())
        } else {
            before.drop_last().push(before.last().push(s.last()))
        }
    }
}

/// The texts of a list of slices.
pub open spec fn slices(list: Seq<&str>) -> Seq<Seq<char>> {
    list.map_values(|t: &str| t@)
}

/// Split fields at commas outside brackets, preserving CSS values such as
/// `rgb(184, 187, 38)`.
pub fn split_fields<'a>(spec: &'a str) -> (out: Vec<&'a str>)
    ensures
        slices(out@) == fields(spec@),
        out@.len() > 0,
{
    let cs: Vec<char> = crate::text::chars_of(spec);
    let mut out: Vec<&'a str> = Vec::new();
    let mut open: usize = 0;
    let mut start: usize = 0;
    let mut i: usize = 0;
    proof {
        assert(spec@.take(0) =~= Seq::<char>::empty());
        assert(slices(out@).push(spec@.subrange(0, 0)) =~= seq![Seq::<char>::empty()]);
    }
    while i < cs.len()
        invariant
            start <= i <= cs.len(),
            cs@ == spec@,
            open == depth(spec@.take(i as int)),
            open <= i,
            slices(out@).push(spec@.subrange(start as int, i as int)) == fields(
                spec@.take(i as int),
            ),
        decreases cs.len() - i,
    {
        let c: char = cs[i];
        let ghost before = slices(out@).push(spec@.subrange(start as int, i as int));
        proof {
            assert(spec@.take(i + 1).drop_last() =~= spec@.take(i as int));
            assert(before.drop_last() =~= slices(out@));
            assert(before.last() == spec@.subrange(start as int, i as int));
            assert(spec@.subrange(start as int, i as int).push(c) =~= spec@.subrange(
                start as int,
                i + 1,
            ));
            assert(spec@.subrange(i + 1, i + 1) =~= Seq::<char>::empty());
        }
        if c == ',' && open == 0 {
            out.push(spec.substring_char(start, i));
            start = i + 1;
            assert(slices(out@) =~= before);
        } else if c == '(' {
            open = open + 1;
        } else if c == ')' && open > 0 {
            open = open - 1;
        }
        i = i + 1;
    }
    proof {
        assert(spec@.take(i as int) =~= spec@);
    }
    let ghost before = slices(out@).push(spec@.subrange(start as int, i as int));
    out.push(spec.substring_char(start, cs.len()));
    assert(slices(out@) =~= before);
    out
}

/// The text of an optional slice.
pub open spec fn text_of(t: Option<&str>) -> Option<Seq<char>> {
    match t {
        Some(t) => Some(t@),
        None => None,
    }
}

/// A key with its value.
pub open spec fn pair(p: (&str, &str)) -> (Seq<char>, Seq<char>) {
    (p.0@, p.1@)
}

/// What is left of a spec, and which keys were asked for.
#[verifier::ext_equal]
pub ghost struct Fields {
    pub flag: Seq<char>,
    pub bare: Option<Seq<char>>,
    pub pairs: Seq<(Seq<char>, Seq<char>)>,
    pub asked: Seq<Seq<char>>,
}

/// Where a key stands among the pairs; their count where it is absent.
pub open spec fn place(pairs: Seq<(Seq<char>, Seq<char>)>, key: Seq<char>) -> int
    decreases pairs.len(),
{
    if pairs.len() == 0 {
        0
    } else if pairs[0].0 == key {
        0
    } else {
        1 + place(pairs.drop_first(), key)
    }
}

/// The value of a key, if it has one.
pub open spec fn value_of(pairs: Seq<(Seq<char>, Seq<char>)>, key: Seq<char>) -> Option<Seq<char>> {
    let i = place(pairs, key);
    if i < pairs.len() {
        Some(pairs[i].1)
    } else {
        None
    }
}

/// The pairs whose keys are not in a list, in order.
pub open spec fn others(pairs: Seq<(Seq<char>, Seq<char>)>, keys: Seq<Seq<char>>) -> Seq<
    (Seq<char>, Seq<char>),
>
    decreases pairs.len(),
{
    if pairs.len() == 0 {
        Seq::empty()
    } else {
        let before = others(pairs.drop_last(), keys);
        if keys.contains(pairs.last().0) {
            before
        } else {
            before.push(pairs.last())
        }
    }
}

/// The refusals of a spec, as the user reads them.
pub open spec fn no_value(flag: Seq<char>) -> Seq<char> {
    flag + " needs a value, e.g. "@ + flag + " 'key=value'"@
}

pub open spec fn empty_field(flag: Seq<char>, text: Seq<char>) -> Seq<char> {
    flag + ": empty field in "@ + crate::text::debug_text(text)
        + "; commas separate fields, so a trailing or doubled one has nothing to separate"@
}

pub open spec fn no_key(flag: Seq<char>, item: Seq<char>) -> Seq<char> {
    flag + ": "@ + crate::text::debug_text(item) + " has no key before the ="@
}

pub open spec fn key_without_value(flag: Seq<char>, key: Seq<char>) -> Seq<char> {
    flag + ": "@ + key + " has no value after the ="@
}

pub open spec fn repeated(flag: Seq<char>, key: Seq<char>) -> Seq<char> {
    flag + ": "@ + key + " given more than once"@
}

pub open spec fn colon_form(flag: Seq<char>, item: Seq<char>) -> Seq<char> {
    flag + ": "@ + crate::text::debug_text(item)
        + " looks like the old colon form; fields are now comma-separated, e.g. "@ + flag
        + " 'value,key=value'"@
}

pub open spec fn late_bare(flag: Seq<char>, item: Seq<char>) -> Seq<char> {
    flag + ": "@ + crate::text::debug_text(item)
        + " has no key; only the first value may be bare"@
}

pub open spec fn bad_value(
    flag: Seq<char>,
    value: Seq<char>,
    key: Seq<char>,
    why: Seq<char>,
) -> Seq<char> {
    flag + ": bad value "@ + crate::text::debug_text(value) + " for "@ + key + " ("@ + why + ")"@
}

pub open spec fn not_a_bool(flag: Seq<char>, key: Seq<char>, value: Seq<char>) -> Seq<char> {
    flag + ": "@ + key + " wants true or false, got "@ + crate::text::debug_text(value)
}

pub open spec fn unknown_field(
    flag: Seq<char>,
    key: Seq<char>,
    asked: Seq<Seq<char>>,
) -> Seq<char> {
    flag + ": unknown field "@ + crate::text::debug_text(key) + " (want "@ + crate::text::joined(
        asked,
        ", "@,
    ) + ")"@
}

pub open spec fn given_twice(
    flag: Seq<char>,
    key: Seq<char>,
    bare: Seq<char>,
    named: Seq<char>,
) -> Seq<char> {
    flag + ": "@ + key + " given twice, as "@ + crate::text::debug_text(bare) + " and as "@ + key
        + "="@ + crate::text::debug_text(named)
}

/// What one more field, trimmed, makes of the fields before it. `i` is its
/// position.
pub open spec fn with_field(
    flag: Seq<char>,
    text: Seq<char>,
    before: Fields,
    i: int,
    item: Seq<char>,
) -> Result<Fields, Seq<char>> {
    if item.len() == 0 {
        Err(empty_field(flag, text))
    } else {
        match crate::text::cut(item, '=') {
            Some((left, right)) => {
                let key = crate::text::trimmed(left);
                let value = crate::text::trimmed(right);
                if key.len() == 0 {
                    Err(no_key(flag, item))
                } else if value.len() == 0 {
                    Err(key_without_value(flag, key))
                } else if value_of(before.pairs, key) is Some {
                    Err(repeated(flag, key))
                } else {
                    Ok((Fields { pairs: before.pairs.push((key, value)), ..before }))
                }
            },
            None => if item.contains(':') {
                Err(colon_form(flag, item))
            } else if i != 0 {
                Err(late_bare(flag, item))
            } else {
                Ok((Fields { bare: Some(item), ..before }))
            },
        }
    }
}

/// The fields gathered from the first items of a spec, in order.
pub open spec fn gathered(flag: Seq<char>, text: Seq<char>, items: Seq<Seq<char>>) -> Result<
    Fields,
    Seq<char>,
>
    decreases items.len(),
{
    if items.len() == 0 {
        Ok((Fields { flag, bare: None, pairs: Seq::empty(), asked: Seq::empty() }))
    } else {
        match gathered(flag, text, items.drop_last()) {
            Ok(before) => with_field(
                flag,
                text,
                before,
                items.len() - 1,
                crate::text::trimmed(items.last()),
            ),
            Err(e) => Err(e),
        }
    }
}

/// What a spec says, or why it is refused.
pub open spec fn parsed(flag: Seq<char>, text: Seq<char>) -> Result<Fields, Seq<char>> {
    if crate::text::trimmed(text).len() == 0 {
        Err(no_value(flag))
    } else {
        gathered(flag, text, fields(text))
    }
}

impl Fields {
    /// The fields after a key has been asked for: it is on record, and its
    /// pair is gone.
    pub open spec fn without(self, key: Seq<char>) -> Fields {
        let i = place(self.pairs, key);
        Fields {
            pairs: if i < self.pairs.len() {
                self.pairs.remove(i)
            } else {
                self.pairs
            },
            asked: if self.asked.contains(key) {
                self.asked
            } else {
                self.asked.push(key)
            },
            ..self
        }
    }

    /// The primary field, by name or as the bare value.
    pub open spec fn headline_of(self, key: Seq<char>) -> Result<Option<Seq<char>>, Seq<char>> {
        match (self.bare, value_of(self.pairs, key)) {
            (Some(bare), Some(named)) => Err(given_twice(self.flag, key, bare, named)),
            (Some(bare), None) => Ok(Some(bare)),
            (None, named) => Ok(named),
        }
    }

    /// A field read as a number.
    pub open spec fn read<T: FromField>(self, key: Seq<char>) -> Result<Option<T>, Seq<char>> {
        match value_of(self.pairs, key) {
            None => Ok(None),
            Some(v) => match T::reads(v) {
                Ok(t) => Ok(Some(t)),
                Err(why) => Err(bad_value(self.flag, v, key, why)),
            },
        }
    }

    /// A field read as `true` or `false`.
    pub open spec fn read_bool(self, key: Seq<char>) -> Result<Option<bool>, Seq<char>> {
        match value_of(self.pairs, key) {
            None => Ok(None),
            Some(v) => if v == "true"@ {
                Ok(Some(true))
            } else if v == "false"@ {
                Ok(Some(false))
            } else {
                Err(not_a_bool(self.flag, key, v))
            },
        }
    }

    /// The refusal of the first field whose key is not among the known ones.
    pub open spec fn unknown(self, known: Seq<Seq<char>>) -> Option<Seq<char>> {
        let rest = others(self.pairs, known);
        if rest.len() > 0 {
            Some(unknown_field(self.flag, rest[0].0, known))
        } else {
            None
        }
    }

    /// The fields after some keys have been asked for.
    pub open spec fn after(self, keys: Seq<Seq<char>>) -> Fields {
        Fields { pairs: others(self.pairs, keys), asked: keys, ..self }
    }

    /// Keys and values are not empty, no key occurs twice, and no key that was
    /// asked for is left.
    pub open spec fn wf(self) -> bool {
        &&& forall|i: int| 0 <= i < self.pairs.len() ==> (#[trigger] self.pairs[i]).0.len() > 0
        &&& forall|i: int| 0 <= i < self.pairs.len() ==> (#[trigger] self.pairs[i]).1.len() > 0
        &&& forall|i: int, j: int|
            0 <= i < j < self.pairs.len() ==> (#[trigger] self.pairs[i]).0 != (
            #[trigger] self.pairs[j]).0
        &&& forall|i: int, j: int|
            0 <= i < self.pairs.len() && 0 <= j < self.asked.len() ==> (#[trigger] self.pairs[i]).0
                != #[trigger] self.asked[j]
        &&& match self.bare {
            Some(b) => b.len() > 0,
            None => true,
        }
    }
}

/// A value that a field can hold.
pub trait FromField: Sized {
    /// What a text stands for, or why it stands for nothing.
    spec fn reads(text: Seq<char>) -> Result<Self, Seq<char>>;

    /// Read a field.
    fn from_field(text: &str) -> (r: Result<Self, String>)
        ensures
            match r {
                Ok(v) => Self::reads(text@) == Ok::<Self, Seq<char>>(v),
                Err(e) => Self::reads(text@) == Err::<Self, Seq<char>>(e@),
            },
    ;
}

impl FromField for Double {
    open spec fn reads(text: Seq<char>) -> Result<Double, Seq<char>> {
        match crate::decimal::double_of(text) {
            Some(d) => Ok(d),
            None => Err(
                if text.len() == 0 {
                    "cannot parse float from empty string"@
                } else {
                    "invalid float literal"@
                },
            ),
        }
    }

    fn from_field(text: &str) -> (r: Result<Double, String>) {
        match crate::decimal::parse_double(text) {
            Some(d) => Ok(d),
            None => {
                let cs: Vec<char> = crate::text::chars_of(text);
                if cs.len() == 0 {
                    Err("cannot parse float from empty string".to_owned())
                } else {
                    Err("invalid float literal".to_owned())
                }
            },
        }
    }
}

/// The whole number that a text spells: digits, with an optional plus sign.
pub open spec fn word_of(s: Seq<char>) -> Option<nat> {
    let body = if s.len() > 0 && s[0] == '+' {
        s.skip(1)
    } else {
        s
    };
    if body.len() > 0 && forall|i: int|
        0 <= i < body.len() ==> crate::decimal::is_digit(#[trigger] body[i]) {
        Some(crate::decimal::number(body))
    } else {
        None
    }
}

/// Why `str::parse` refuses a text as a `u64`.
pub uninterp spec fn word_error(text: Seq<char>) -> Seq<char>;

/// `str::parse::<u64>`: an optional plus sign and decimal digits whose number
/// fits; the wording of the refusal is the standard library's.
#[verifier::external_body]
fn parse_word(text: &str) -> (r: Result<u64, String>)
    ensures
        match r {
            Ok(n) => word_of(text@) == Some(n as nat),
            Err(e) => e@ == word_error(text@) && match word_of(text@) {
                Some(n) => n > u64::MAX,
                None => true,
            },
        },
{
    match text.parse::<u64>() {
        Ok(n) => Ok(n),
        Err(e) => Err(e.to_string()),
    }
}

impl FromField for u64 {
    open spec fn reads(text: Seq<char>) -> Result<u64, Seq<char>> {
        match word_of(text) {
            Some(n) => if n <= u64::MAX {
                Ok(n as u64)
            } else {
                Err(word_error(text))
            },
            None => Err(word_error(text)),
        }
    }

    fn from_field(text: &str) -> (r: Result<u64, String>) {
        parse_word(text)
    }
}

/// Why `str::parse` refuses a text as a `usize`.
pub uninterp spec fn count_error(text: Seq<char>) -> Seq<char>;

/// `str::parse::<usize>`: an optional plus sign and decimal digits whose
/// number fits; the wording of the refusal is the standard library's.
#[verifier::external_body]
fn parse_count(text: &str) -> (r: Result<usize, String>)
    ensures
        match r {
            Ok(n) => word_of(text@) == Some(n as nat),
            Err(e) => e@ == count_error(text@) && match word_of(text@) {
                Some(n) => n > usize::MAX,
                None => true,
            },
        },
{
    match text.parse::<usize>() {
        Ok(n) => Ok(n),
        Err(e) => Err(e.to_string()),
    }
}

impl FromField for usize {
    open spec fn reads(text: Seq<char>) -> Result<usize, Seq<char>> {
        match word_of(text) {
            Some(n) => if n <= usize::MAX {
                Ok(n as usize)
            } else {
                Err(count_error(text))
            },
            None => Err(count_error(text)),
        }
    }

    fn from_field(text: &str) -> (r: Result<usize, String>) {
        parse_count(text)
    }
}

/// Parsed fields are consumed by callers; `finish` rejects leftovers. `asked`
/// tracks supported keys for error messages.
#[derive(Debug)]
pub struct Spec<'a> {
    flag: &'static str,
    bare: Option<&'a str>,
    pairs: Vec<(&'a str, &'a str)>,
    asked: Vec<&'static str>,
}

impl<'a> View for Spec<'a> {
    type V = Fields;

    closed spec fn view(&self) -> Fields {
        Fields {
            flag: self.flag@,
            bare: match self.bare {
                Some(b) => Some(b@),
                None => None,
            },
            pairs: self.pairs@.map_values(|p: (&'a str, &'a str)| pair(p)),
            asked: slices(self.asked@),
        }
    }
}

/// Where a key stands among pairs; their count where it is absent.
fn find<'a>(pairs: &Vec<(&'a str, &'a str)>, key: &str) -> (r: usize)
    ensures
        r == place(pairs@.map_values(|p: (&'a str, &'a str)| pair(p)), key@),
        r <= pairs@.len(),
{
    let ghost all = pairs@.map_values(|p: (&'a str, &'a str)| pair(p));
    let mut i: usize = 0;
    assert(all.skip(0) =~= all);
    while i < pairs.len()
        invariant
            i <= pairs.len(),
            all == pairs@.map_values(|p: (&'a str, &'a str)| pair(p)),
            place(all, key@) == i + place(all.skip(i as int), key@),
        decreases pairs.len() - i,
    {
        proof {
            assert(all.skip(i as int)[0] == all[i as int]);
            assert(all.skip(i as int).drop_first() =~= all.skip(i + 1));
        }
        let p: (&str, &str) = pairs[i];
        if crate::text::same(p.0, key) {
            return i;
        }
        i = i + 1;
    }
    i
}

/// Whether a text is in a list.
fn listed(list: &Vec<&'static str>, key: &str) -> (r: bool)
    ensures
        r == slices(list@).contains(key@),
{
    let mut i: usize = 0;
    while i < list.len()
        invariant
            i <= list.len(),
            forall|j: int| 0 <= j < i ==> slices(list@)[j] != key@,
        decreases list.len() - i,
    {
        assert(slices(list@)[i as int] == list@[i as int]@);
        if crate::text::same(list[i], key) {
            return true;
        }
        i = i + 1;
    }
    false
}

/// Texts joined by a comma and a space.
fn listing(list: &Vec<&'static str>) -> (r: String)
    ensures
        r@ == crate::text::joined(slices(list@), ", "@),
{
    let mut parts: Vec<String> = Vec::new();
    let mut i: usize = 0;
    while i < list.len()
        invariant
            i <= list.len(),
            crate::text::texts(parts@) == slices(list@).take(i as int),
        decreases list.len() - i,
    {
        let ghost before = crate::text::texts(parts@);
        parts.push(list[i].to_owned());
        proof {
            assert(crate::text::texts(parts@) =~= before.push(list@[i as int]@));
            assert(slices(list@).take(i + 1) =~= slices(list@).take(i as int).push(
                list@[i as int]@,
            ));
        }
        i = i + 1;
    }
    assert(slices(list@).take(i as int) =~= slices(list@));
    crate::text::join(&parts, ", ")
}

impl<'a> Spec<'a> {
    /// Read a spec. `flag` is the option it was given to.
    pub fn parse(flag: &'static str, spec: &'a str) -> (r: Result<Spec<'a>, Error>)
        ensures
            match r {
                Ok(s) => parsed(flag@, spec@) == Ok::<Fields, Seq<char>>(s@),
                Err(e) => parsed(flag@, spec@) == Err::<Fields, Seq<char>>(e@),
            },
    {
        if crate::text::trim(spec).is_empty() {
            let m: String = cat(flag, " needs a value, e.g. ");
            return Err(Error::new(cat(cat(m.as_str(), flag).as_str(), " 'key=value'")));
        }
        let items: Vec<&'a str> = split_fields(spec);
        let ghost all = fields(spec@);
        let mut s: Spec<'a> = Spec { flag, bare: None, pairs: Vec::new(), asked: Vec::new() };
        let mut i: usize = 0;
        proof {
            assert(all.take(0) =~= Seq::<Seq<char>>::empty());
            assert(s@ =~= (Fields {
                flag: flag@,
                bare: None,
                pairs: Seq::empty(),
                asked: Seq::empty(),
            }));
            lemma_gathered_prefix(flag@, spec@, all, 0);
        }
        while i < items.len()
            invariant
                i <= items.len(),
                all == fields(spec@),
                slices(items@) == all,
                s.flag == flag,
                crate::text::trimmed(spec@).len() > 0,
                gathered(flag@, spec@, all.take(i as int)) == Ok::<Fields, Seq<char>>(s@),
            decreases items.len() - i,
        {
            let item: &'a str = crate::text::trim(items[i]);
            proof {
                assert(all[i as int] == items@[i as int]@);
                assert(all.take(i + 1).drop_last() =~= all.take(i as int));
                assert(all.take(i + 1).last() == all[i as int]);
                lemma_gathered_prefix(flag@, spec@, all, i + 1);
            }
            match s.add_field(spec, i, item) {
                Ok(()) => {},
                Err(e) => {
                    return Err(e);
                },
            }
            i = i + 1;
        }
        assert(all.take(i as int) =~= all);
        Ok(s)
    }

    /// Take in the field at position `i`.
    fn add_field(&mut self, spec: &str, i: usize, item: &'a str) -> (r: Result<(), Error>)
        ensures
            match r {
                Ok(()) => with_field(old(self)@.flag, spec@, old(self)@, i as int, item@) == Ok::<
                    Fields,
                    Seq<char>,
                >(final(self)@) && final(self).flag == old(self).flag,
                Err(e) => with_field(old(self)@.flag, spec@, old(self)@, i as int, item@) == Err::<
                    Fields,
                    Seq<char>,
                >(e@),
            },
    {
        let flag: &'static str = self.flag;
        let ghost before = self@;
        if item.is_empty() {
            let m: String = cat(cat(flag, ": empty field in ").as_str(), crate::text::quoted(spec).as_str());
            return Err(
                Error::new(
                    cat(
                        m.as_str(),
                        "; commas separate fields, so a trailing or doubled one has nothing to separate",
                    ),
                ),
            );
        }
        let head: String = cat(flag, ": ");
        match crate::text::split_once(item, '=') {
            Some((left, right)) => {
                let key: &'a str = crate::text::trim(left);
                let value: &'a str = crate::text::trim(right);
                if key.is_empty() {
                    let m: String = cat(head.as_str(), crate::text::quoted(item).as_str());
                    return Err(Error::new(cat(m.as_str(), " has no key before the =")));
                }
                if value.is_empty() {
                    let m: String = cat(head.as_str(), key);
                    return Err(Error::new(cat(m.as_str(), " has no value after the =")));
                }
                if find(&self.pairs, key) < self.pairs.len() {
                    let m: String = cat(head.as_str(), key);
                    return Err(Error::new(cat(m.as_str(), " given more than once")));
                }
                self.pairs.push((key, value));
                assert(self@ =~= (Fields { pairs: before.pairs.push((key@, value@)), ..before }));
                Ok(())
            },
            None => {
                if crate::text::contains(item, ':') {
                    let m: String = cat(head.as_str(), crate::text::quoted(item).as_str());
                    let m: String = cat(
                        m.as_str(),
                        " looks like the old colon form; fields are now comma-separated, e.g. ",
                    );
                    return Err(Error::new(cat(cat(m.as_str(), flag).as_str(), " 'value,key=value'")));
                }
                if i != 0 {
                    let m: String = cat(head.as_str(), crate::text::quoted(item).as_str());
                    return Err(
                        Error::new(cat(m.as_str(), " has no key; only the first value may be bare")),
                    );
                }
                self.bare = Some(item);
                assert(self@ =~= (Fields { bare: Some(item@), ..before }));
                Ok(())
            },
        }
    }

    /// The leading value, if one was given without a key.
    pub fn bare(&self) -> (r: Option<&'a str>)
        ensures
            text_of(r) == self@.bare,
    {
        self.bare
    }

    /// Take the value of a key, and put the key on record as supported, also
    /// when the spec does not hold it.
    pub fn take(&mut self, key: &'static str) -> (r: Option<&'a str>)
        ensures
            final(self)@ == old(self)@.without(key@),
            text_of(r) == value_of(old(self)@.pairs, key@),
    {
        let ghost before = self@;
        if !listed(&self.asked, key) {
            self.asked.push(key);
        }
        assert(self@.asked =~= before.without(key@).asked);
        let i: usize = find(&self.pairs, key);
        if i == self.pairs.len() {
            assert(self@ =~= before.without(key@));
            return None;
        }
        let (_, value) = self.pairs.remove(i);
        assert(self@.pairs =~= before.pairs.remove(i as int));
        assert(self@ =~= before.without(key@));
        Some(value)
    }

    /// Take and read a field. A value that cannot be read is refused, and the
    /// field is named.
    pub fn take_parsed<T: FromField>(&mut self, key: &'static str) -> (r: Result<Option<T>, Error>)
        ensures
            final(self)@ == old(self)@.without(key@),
            crate::error::told(r) == old(self)@.read::<T>(key@),
    {
        let flag: &'static str = self.flag;
        match self.take(key) {
            None => Ok(None),
            Some(v) => match T::from_field(v) {
                Ok(t) => Ok(Some(t)),
                Err(why) => {
                    let m: String = cat(
                        cat(flag, ": bad value ").as_str(),
                        crate::text::quoted(v).as_str(),
                    );
                    let m: String = cat(cat(m.as_str(), " for ").as_str(), key);
                    let m: String = cat(cat(m.as_str(), " (").as_str(), why.as_str());
                    Err(Error::new(cat(m.as_str(), ")")))
                },
            },
        }
    }

    /// `true`/`false` only, spelled the way TOML spells them.
    pub fn take_bool(&mut self, key: &'static str) -> (r: Result<Option<bool>, Error>)
        ensures
            final(self)@ == old(self)@.without(key@),
            crate::error::told(r) == old(self)@.read_bool(key@),
    {
        let flag: &'static str = self.flag;
        match self.take(key) {
            None => Ok(None),
            Some(v) => if crate::text::same(v, "true") {
                Ok(Some(true))
            } else if crate::text::same(v, "false") {
                Ok(Some(false))
            } else {
                let m: String = cat(cat(flag, ": ").as_str(), key);
                let m: String = cat(m.as_str(), " wants true or false, got ");
                Err(Error::new(cat(m.as_str(), crate::text::quoted(v).as_str())))
            },
        }
    }

    /// Reject unconsumed fields and list supported keys.
    pub fn finish(self) -> (r: Result<(), Error>)
        ensures
            crate::error::told(r) == if self@.pairs.len() > 0 {
                Err::<(), Seq<char>>(unknown_field(self@.flag, self@.pairs[0].0, self@.asked))
            } else {
                Ok(())
            },
    {
        if self.pairs.len() > 0 {
            let p: (&str, &str) = self.pairs[0];
            let m: String = cat(
                cat(self.flag, ": unknown field ").as_str(),
                crate::text::quoted(p.0).as_str(),
            );
            let m: String = cat(cat(m.as_str(), " (want ").as_str(), listing(&self.asked).as_str());
            return Err(Error::new(cat(m.as_str(), ")")));
        }
        Ok(())
    }

    /// Read the primary field by name or as the leading bare value. Reject
    /// specs that supply both.
    pub fn headline(&mut self, key: &'static str) -> (r: Result<Option<&'a str>, Error>)
        ensures
            final(self)@ == old(self)@.without(key@),
            match r {
                Ok(v) => old(self)@.headline_of(key@) == Ok::<Option<Seq<char>>, Seq<char>>(
                    text_of(v),
                ),
                Err(e) => old(self)@.headline_of(key@) == Err::<Option<Seq<char>>, Seq<char>>(e@),
            },
    {
        let named: Option<&'a str> = self.take(key);
        match (self.bare, named) {
            (Some(bare), Some(named)) => {
                let m: String = cat(cat(self.flag, ": ").as_str(), key);
                let m: String = cat(
                    cat(m.as_str(), " given twice, as ").as_str(),
                    crate::text::quoted(bare).as_str(),
                );
                let m: String = cat(cat(m.as_str(), " and as ").as_str(), key);
                Err(
                    Error::new(
                        cat(cat(m.as_str(), "=").as_str(), crate::text::quoted(named).as_str()),
                    ),
                )
            },
            (Some(bare), None) => Ok(Some(bare)),
            (None, named) => Ok(named),
        }
    }
}

/// A refused field refuses the whole spec, whatever follows it.
proof fn lemma_gathered_prefix(flag: Seq<char>, text: Seq<char>, items: Seq<Seq<char>>, n: int)
    requires
        0 <= n <= items.len(),
    ensures
        gathered(flag, text, items.take(n)) is Err ==> gathered(flag, text, items) == gathered(
            flag,
            text,
            items.take(n),
        ),
    decreases items.len() - n,
{
    if n < items.len() {
        lemma_gathered_prefix(flag, text, items, n + 1);
        assert(items.take(n + 1).drop_last() =~= items.take(n));
    } else {
        assert(items.take(n) =~= items);
    }
}

/// Joining the fields of a spec by commas gives the spec back.
pub proof fn lemma_fields_joined(s: Seq<char>)
    ensures
        crate::text::joined(fields(s), seq![',']) == s,
        fields(s).len() > 0,
    decreases s.len(),
{
    if s.len() > 0 {
        lemma_fields_joined(s.drop_last());
        let before = fields(s.drop_last());
        let after = fields(s);
        assert(s =~= s.drop_last().push(s.last()));
        if s.last() == ',' && depth(s.drop_last()) == 0 {
            assert(after.drop_last() =~= before);
        } else {
            assert(after.drop_last() =~= before.drop_last());
            if before.len() > 1 {
                assert(crate::text::joined(before, seq![',']) == crate::text::joined(
                    before.drop_last(),
                    seq![','],
                ) + seq![','] + before.last());
            }
        }
        assert(crate::text::joined(after, seq![',']) =~= s);
    }
}

/// Commas inside brackets separate nothing: a spec whose every comma stands
/// inside brackets is one field.
pub proof fn lemma_bracketed_is_one_field(s: Seq<char>)
    requires
        forall|i: int| 0 <= i < s.len() && s[i] == ',' ==> depth(#[trigger] s.take(i)) > 0,
    ensures
        fields(s) == seq![s],
    decreases s.len(),
{
    if s.len() > 0 {
        let t = s.drop_last();
        assert forall|i: int| 0 <= i < t.len() && t[i] == ',' implies depth(#[trigger] t.take(i))
            > 0 by {
            assert(t.take(i) =~= s.take(i));
        }
        lemma_bracketed_is_one_field(t);
        assert(s.take(s.len() - 1) =~= t);
        assert(t.push(s.last()) =~= s);
        assert(fields(s) =~= seq![s]);
    } else {
        assert(s =~= Seq::<char>::empty());
    }
}

/// Where a key stands is the first place that holds it.
pub(crate) proof fn lemma_place(pairs: Seq<(Seq<char>, Seq<char>)>, key: Seq<char>)
    ensures
        0 <= place(pairs, key) <= pairs.len(),
        place(pairs, key) < pairs.len() ==> pairs[place(pairs, key)].0 == key,
        forall|i: int| 0 <= i < place(pairs, key) ==> (#[trigger] pairs[i]).0 != key,
    decreases pairs.len(),
{
    if pairs.len() > 0 && pairs[0].0 != key {
        let rest = pairs.drop_first();
        lemma_place(rest, key);
        assert forall|i: int| 0 <= i < place(pairs, key) implies (#[trigger] pairs[i]).0 != key by {
            if i > 0 {
                assert(rest[i - 1] == pairs[i]);
            }
        }
    }
}

/// With distinct keys, the value of a key is the one it is paired with.
pub(crate) proof fn lemma_value_of(pairs: Seq<(Seq<char>, Seq<char>)>, i: int)
    requires
        0 <= i < pairs.len(),
        forall|i: int, j: int|
            0 <= i < j < pairs.len() ==> (#[trigger] pairs[i]).0 != (#[trigger] pairs[j]).0,
    ensures
        value_of(pairs, pairs[i].0) == Some(pairs[i].1),
{
    lemma_place(pairs, pairs[i].0);
    let p = place(pairs, pairs[i].0);
    if p < i {
        assert(pairs[p].0 != pairs[i].0);
    } else if p > i {
        assert(pairs[i].0 != pairs[i].0);
    }
}

/// Every accepted spec is well formed: its keys and values are not empty, no
/// key occurs twice, and nothing has been asked for yet.
pub proof fn lemma_parsed_wf(flag: Seq<char>, text: Seq<char>)
    ensures
        match parsed(flag, text) {
            Ok(f) => f.wf() && f.flag == flag && f.asked.len() == 0,
            Err(_) => true,
        },
{
    lemma_gathered_wf(flag, text, fields(text));
}

pub(crate) proof fn lemma_gathered_wf(flag: Seq<char>, text: Seq<char>, items: Seq<Seq<char>>)
    ensures
        match gathered(flag, text, items) {
            Ok(f) => f.wf() && f.flag == flag && f.asked.len() == 0,
            Err(_) => true,
        },
    decreases items.len(),
{
    if items.len() > 0 {
        lemma_gathered_wf(flag, text, items.drop_last());
        match gathered(flag, text, items.drop_last()) {
            Ok(before) => {
                let item = crate::text::trimmed(items.last());
                match crate::text::cut(item, '=') {
                    Some((left, right)) => {
                        let key = crate::text::trimmed(left);
                        lemma_place(before.pairs, key);
                    },
                    None => {},
                }
            },
            Err(_) => {},
        }
    }
}

/// Asking for a key keeps a spec well formed, removes that key and leaves
/// every other one with its value.
pub proof fn lemma_without(f: Fields, key: Seq<char>, other: Seq<char>)
    requires
        f.wf(),
    ensures
        f.without(key).wf(),
        f.without(key).asked.contains(key),
        value_of(f.without(key).pairs, key) is None,
        other != key ==> value_of(f.without(key).pairs, other) == value_of(f.pairs, other),
{
    lemma_place(f.pairs, key);
    let g = f.without(key);
    let p = place(f.pairs, key);
    assert forall|i: int| 0 <= i < g.pairs.len() implies (#[trigger] g.pairs[i]).0 != key by {
        if p < f.pairs.len() {
            if i < p {
                assert(g.pairs[i] == f.pairs[i]);
            } else {
                assert(g.pairs[i] == f.pairs[i + 1]);
                assert(f.pairs[p].0 != f.pairs[i + 1].0);
            }
        }
    }
    lemma_place(g.pairs, key);
    assert(f.asked.contains(key) ==> g.asked.contains(key));
    if !f.asked.contains(key) {
        assert(g.asked[f.asked.len() as int] == key);
    }
    assert forall|i: int, j: int|
        0 <= i < g.pairs.len() && 0 <= j < g.asked.len() implies (#[trigger] g.pairs[i]).0
        != #[trigger] g.asked[j] by {
        if j < f.asked.len() {
            assert(g.asked[j] == f.asked[j]);
            if p < f.pairs.len() && i >= p {
                assert(g.pairs[i] == f.pairs[i + 1]);
            } else {
                assert(g.pairs[i] == f.pairs[i]);
            }
        }
    }
    if other != key {
        lemma_place(f.pairs, other);
        lemma_place(g.pairs, other);
        let a = place(f.pairs, other);
        let b = place(g.pairs, other);
        if p < f.pairs.len() {
            if a < f.pairs.len() {
                let at = if a < p {
                    a
                } else {
                    a - 1
                };
                assert(g.pairs[at] == f.pairs[a]);
                lemma_value_of(g.pairs, at);
            } else if b < g.pairs.len() {
                let at = if b < p {
                    b
                } else {
                    b + 1
                };
                assert(f.pairs[at] == g.pairs[b]);
            }
        }
    }
}

/// Keeping one key out more keeps out what is left of it.
proof fn lemma_others_push(
    pairs: Seq<(Seq<char>, Seq<char>)>,
    keys: Seq<Seq<char>>,
    key: Seq<char>,
)
    ensures
        others(others(pairs, keys), seq![key]) == others(pairs, keys.push(key)),
    decreases pairs.len(),
{
    if pairs.len() > 0 {
        let last = pairs.last();
        let inner = others(pairs, keys);
        lemma_others_push(pairs.drop_last(), keys, key);
        lemma_push_contains(keys, key, last.0);
        lemma_push_contains(Seq::empty(), key, last.0);
        assert(Seq::empty().push(key) =~= seq![key]);
        if !keys.contains(last.0) {
            assert(inner.drop_last() =~= others(pairs.drop_last(), keys));
        }
    }
}

proof fn lemma_push_contains(keys: Seq<Seq<char>>, key: Seq<char>, other: Seq<char>)
    ensures
        keys.push(key).contains(other) == (keys.contains(other) || key == other),
{
    let all = keys.push(key);
    if keys.contains(other) {
        let i = choose|i: int| 0 <= i < keys.len() && keys[i] == other;
        assert(all[i] == other);
    }
    if key == other {
        assert(all[keys.len() as int] == other);
    }
    if all.contains(other) && key != other {
        let i = choose|i: int| 0 <= i < all.len() && all[i] == other;
        assert(keys[i] == other);
    }
}

/// Leaving one key out removes its one pair.
proof fn lemma_others_one(pairs: Seq<(Seq<char>, Seq<char>)>, key: Seq<char>)
    requires
        forall|i: int, j: int|
            0 <= i < j < pairs.len() ==> (#[trigger] pairs[i]).0 != (#[trigger] pairs[j]).0,
    ensures
        others(pairs, seq![key]) == if place(pairs, key) < pairs.len() {
            pairs.remove(place(pairs, key))
        } else {
            pairs
        },
    decreases pairs.len(),
{
    if pairs.len() > 0 {
        let t = pairs.drop_last();
        let last = pairs.last();
        lemma_others_one(t, key);
        lemma_place(t, key);
        lemma_place(pairs, key);
        lemma_push_contains(Seq::empty(), key, last.0);
        assert(Seq::empty().push(key) =~= seq![key]);
        let p = place(pairs, key);
        let q = place(t, key);
        if last.0 == key {
            assert(q == t.len()) by {
                if q < t.len() {
                    assert(pairs[q].0 != pairs[pairs.len() - 1].0);
                }
            }
            assert(p == pairs.len() - 1) by {
                if p < pairs.len() - 1 {
                    assert(t[p].0 == key);
                }
            }
            assert(pairs.remove(p) =~= t);
        } else {
            if q < t.len() {
                assert(p == q) by {
                    assert(pairs[q] == t[q]);
                    if p < q {
                        assert(t[p].0 != key);
                    }
                }
                assert(pairs.remove(p) =~= t.remove(p).push(last));
            } else {
                assert(p == pairs.len()) by {
                    if p < pairs.len() {
                        assert(p < pairs.len() - 1);
                        assert(t[p].0 != key);
                    }
                }
                assert(t.push(last) =~= pairs);
            }
        }
    } else {
        assert(others(pairs, seq![key]) =~= pairs);
    }
}

/// Asking for one more key: what is known of the others does not change.
pub proof fn lemma_after(f: Fields, keys: Seq<Seq<char>>, key: Seq<char>)
    requires
        f.wf(),
        !keys.contains(key),
    ensures
        f.after(keys).without(key) == f.after(keys.push(key)),
        value_of(f.after(keys).pairs, key) == value_of(f.pairs, key),
        f.after(keys).read_bool(key) == f.read_bool(key),
        f.after(keys).headline_of(key) == f.headline_of(key),
{
    let g = f.after(keys);
    lemma_others(f.pairs, keys);
    lemma_others_one(g.pairs, key);
    lemma_others_push(f.pairs, keys, key);
    lemma_place(f.pairs, key);
    lemma_place(g.pairs, key);
    let p = place(f.pairs, key);
    let q = place(g.pairs, key);
    if p < f.pairs.len() {
        assert(g.pairs.contains(f.pairs[p]));
        let j = choose|j: int| 0 <= j < g.pairs.len() && g.pairs[j] == f.pairs[p];
        lemma_value_of(g.pairs, j);
    } else if q < g.pairs.len() {
        assert(f.pairs.contains(g.pairs[q]));
        let j = choose|j: int| 0 <= j < f.pairs.len() && f.pairs[j] == g.pairs[q];
        assert(f.pairs[j].0 == key);
    }
    assert(g.without(key) =~= f.after(keys.push(key)));
}

/// Before any key has been asked for, nothing is left out.
pub proof fn lemma_after_none(f: Fields)
    requires
        f.asked.len() == 0,
    ensures
        f.after(Seq::empty()) == f,
{
    lemma_others_none(f.pairs);
    assert(f.after(Seq::empty()) =~= f);
}

proof fn lemma_others_none(pairs: Seq<(Seq<char>, Seq<char>)>)
    ensures
        others(pairs, Seq::empty()) == pairs,
    decreases pairs.len(),
{
    if pairs.len() > 0 {
        lemma_others_none(pairs.drop_last());
        assert(pairs.drop_last().push(pairs.last()) =~= pairs);
    } else {
        assert(others(pairs, Seq::empty()) =~= pairs);
    }
}

/// What the pairs with other keys are, and that they are still distinct.
proof fn lemma_others(pairs: Seq<(Seq<char>, Seq<char>)>, keys: Seq<Seq<char>>)
    requires
        forall|i: int, j: int|
            0 <= i < j < pairs.len() ==> (#[trigger] pairs[i]).0 != (#[trigger] pairs[j]).0,
    ensures
        forall|i: int|
            0 <= i < pairs.len() && !keys.contains((#[trigger] pairs[i]).0) ==> others(
                pairs,
                keys,
            ).contains(pairs[i]),
        forall|j: int|
            0 <= j < others(pairs, keys).len() ==> pairs.contains(#[trigger] others(pairs, keys)[j])
                && !keys.contains(others(pairs, keys)[j].0),
        forall|i: int, j: int|
            0 <= i < j < others(pairs, keys).len() ==> (#[trigger] others(pairs, keys)[i]).0 != (
            #[trigger] others(pairs, keys)[j]).0,
    decreases pairs.len(),
{
    if pairs.len() > 0 {
        let t = pairs.drop_last();
        let last = pairs.last();
        let before = others(t, keys);
        let all = others(pairs, keys);
        lemma_others(t, keys);
        assert forall|i: int|
            0 <= i < pairs.len() && !keys.contains((#[trigger] pairs[i]).0) implies all.contains(
            pairs[i],
        ) by {
            if i < t.len() {
                assert(t[i] == pairs[i]);
                assert(before.contains(t[i]));
                let k = choose|k: int| 0 <= k < before.len() && before[k] == t[i];
                assert(all[k] == t[i]);
            } else {
                assert(all[before.len() as int] == last);
            }
        }
        assert forall|j: int| 0 <= j < all.len() implies pairs.contains(#[trigger] all[j])
            && !keys.contains(all[j].0) by {
            if j < before.len() {
                assert(all[j] == before[j]);
                let k = choose|k: int| 0 <= k < t.len() && t[k] == before[j];
                assert(pairs[k] == before[j]);
            } else {
                assert(pairs[pairs.len() - 1] == last);
            }
        }
        assert forall|i: int, j: int| 0 <= i < j < all.len() implies (#[trigger] all[i]).0 != (
        #[trigger] all[j]).0 by {
            assert(all[i] == before[i]);
            if j == before.len() {
                assert(t.contains(before[i]));
                let k = choose|k: int| 0 <= k < t.len() && t[k] == before[i];
                assert(pairs[k].0 != pairs[pairs.len() - 1].0);
            } else {
                assert(all[j] == before[j]);
            }
        }
    }
}

/// The order of the pairs does not matter: two well-formed specs with the same
/// pairs give every key the same value.
pub proof fn lemma_order_of_pairs(f: Fields, g: Fields, key: Seq<char>)
    requires
        f.wf(),
        g.wf(),
        f.pairs.to_multiset() == g.pairs.to_multiset(),
    ensures
        value_of(f.pairs, key) == value_of(g.pairs, key),
{
    lemma_same_value(f, g, key);
    lemma_same_value(g, f, key);
}

proof fn lemma_same_value(f: Fields, g: Fields, key: Seq<char>)
    requires
        f.wf(),
        g.wf(),
        f.pairs.to_multiset() == g.pairs.to_multiset(),
    ensures
        value_of(f.pairs, key) is Some ==> value_of(g.pairs, key) == value_of(f.pairs, key),
{
    lemma_place(f.pairs, key);
    let i = place(f.pairs, key);
    if i < f.pairs.len() {
        broadcast use vstd::seq_lib::group_to_multiset_ensures;

        assert(f.pairs.contains(f.pairs[i]));
        assert(f.pairs.to_multiset().contains(f.pairs[i]));
        assert(g.pairs.contains(f.pairs[i]));
        let j = choose|j: int| 0 <= j < g.pairs.len() && g.pairs[j] == f.pairs[i];
        lemma_value_of(g.pairs, j);
    }
}

/// The primary field reads the same bare or named.
pub proof fn lemma_headline_either_way(f: Fields, g: Fields, key: Seq<char>, value: Seq<char>)
    requires
        f.bare == Some(value),
        value_of(f.pairs, key) is None,
        g.bare is None,
        value_of(g.pairs, key) == Some(value),
    ensures
        f.headline_of(key) == Ok::<Option<Seq<char>>, Seq<char>>(Some(value)),
        g.headline_of(key) == f.headline_of(key),
{
}

/// The list of supported keys never contradicts itself: a field refused as
/// unknown is not among them.
pub proof fn lemma_refused_is_not_listed(f: Fields)
    requires
        f.wf(),
        f.pairs.len() > 0,
    ensures
        !f.asked.contains(f.pairs[0].0),
{
}

/// Whether a field is the key and value of a pair.
pub open spec fn spells(item: Seq<char>, pair: (Seq<char>, Seq<char>)) -> bool {
    match crate::text::cut(crate::text::trimmed(item), '=') {
        Some((left, right)) => pair == (crate::text::trimmed(left), crate::text::trimmed(right)),
        None => false,
    }
}

/// What was gathered: the bare value from the first item, if it has no key,
/// and a pair from every other, in their order.
pub open spec fn holds(items: Seq<Seq<char>>, f: Fields) -> bool {
    let b: int = if f.bare is Some {
        1
    } else {
        0
    };
    &&& items.len() == b + f.pairs.len()
    &&& b == 1 ==> f.bare == Some(crate::text::trimmed(items[0])) && crate::text::cut(
        f.bare->0,
        '=',
    ) is None
    &&& forall|i: int| 0 <= i < f.pairs.len() ==> spells(items[b + i], #[trigger] f.pairs[i])
}

pub(crate) proof fn lemma_gathered_holds(flag: Seq<char>, text: Seq<char>, items: Seq<Seq<char>>)
    ensures
        match gathered(flag, text, items) {
            Ok(f) => holds(items, f),
            Err(_) => true,
        },
    decreases items.len(),
{
    if items.len() > 0 {
        let front = items.drop_last();
        lemma_gathered_holds(flag, text, front);
        match (gathered(flag, text, front), gathered(flag, text, items)) {
            (Ok(before), Ok(f)) => {
                let b: int = if f.bare is Some {
                    1
                } else {
                    0
                };
                assert forall|i: int| 0 <= i < f.pairs.len() implies spells(
                    items[b + i],
                    #[trigger] f.pairs[i],
                ) by {
                    if i < before.pairs.len() {
                        assert(f.pairs[i] == before.pairs[i]);
                        assert(front[b + i] == items[b + i]);
                    }
                }
                if before.bare is Some {
                    assert(front[0] == items[0]);
                }
            },
            _ => {},
        }
    }
}

/// Every field of an accepted spec counts: a first one without a key is the
/// bare value, and each of the others is one pair, in the order they stand.
pub proof fn lemma_every_field_counts(flag: Seq<char>, text: Seq<char>)
    ensures
        match parsed(flag, text) {
            Ok(f) => match f.bare {
                Some(bare) => {
                    &&& fields(text).len() == f.pairs.len() + 1
                    &&& bare == crate::text::trimmed(fields(text)[0])
                    &&& forall|i: int|
                        0 <= i < f.pairs.len() ==> spells(fields(text)[1 + i], #[trigger] f.pairs[i])
                },
                None => {
                    &&& fields(text).len() == f.pairs.len()
                    &&& forall|i: int|
                        0 <= i < f.pairs.len() ==> spells(fields(text)[i], #[trigger] f.pairs[i])
                },
            },
            Err(_) => true,
        },
{
    lemma_gathered_holds(flag, text, fields(text));
    match parsed(flag, text) {
        Ok(f) => {
            if f.bare is None {
                assert forall|i: int| 0 <= i < f.pairs.len() implies spells(
                    fields(text)[i],
                    #[trigger] f.pairs[i],
                ) by {
                    assert(fields(text)[0 + i] == fields(text)[i]);
                }
            }
        },
        Err(_) => {},
    }
}

/// A spec that gives the same key in two of its fields is refused.
pub proof fn lemma_repeated_key_is_refused(
    flag: Seq<char>,
    text: Seq<char>,
    i: int,
    j: int,
    a: (Seq<char>, Seq<char>),
    b: (Seq<char>, Seq<char>),
)
    requires
        0 <= i < j < fields(text).len(),
        spells(fields(text)[i], a),
        spells(fields(text)[j], b),
        a.0 == b.0,
    ensures
        parsed(flag, text) is Err,
{
    lemma_gathered_holds(flag, text, fields(text));
    lemma_parsed_wf(flag, text);
    match parsed(flag, text) {
        Ok(f) => {
            let n: int = if f.bare is Some {
                1
            } else {
                0
            };
            assert(spells(fields(text)[n + (i - n)], f.pairs[i - n]));
            assert(spells(fields(text)[n + (j - n)], f.pairs[j - n]));
        },
        Err(_) => {},
    }
}

/// A field is refused as unknown exactly where some key is not a known one.
pub proof fn lemma_unknown_field_is_refused(f: Fields, known: Seq<Seq<char>>)
    requires
        f.wf(),
    ensures
        f.unknown(known) is Some <==> exists|i: int|
            0 <= i < f.pairs.len() && !known.contains((#[trigger] f.pairs[i]).0),
{
    lemma_others(f.pairs, known);
    let rest = others(f.pairs, known);
    if rest.len() > 0 {
        assert(f.pairs.contains(rest[0]));
        let i = choose|i: int| 0 <= i < f.pairs.len() && f.pairs[i] == rest[0];
        assert(!known.contains(f.pairs[i].0));
    }
    if exists|i: int| 0 <= i < f.pairs.len() && !known.contains((#[trigger] f.pairs[i]).0) {
        let i = choose|i: int|
            0 <= i < f.pairs.len() && !known.contains((#[trigger] f.pairs[i]).0);
        assert(rest.contains(f.pairs[i]));
    }
}

} // verus!
