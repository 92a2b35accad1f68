//! TOML presets. Values inherit from `[style.default]`, then from built-in
//! defaults: raw tables are merged before they are decoded, to tell omitted
//! fields from fields explicitly set to their defaults.
use crate::config::{Style, StyleError};
use crate::error::{cat, Error};
use vstd::prelude::*;

verus! {

/// The name whose block every other preset inherits from.
pub const BASE: &'static str = "default";

/// A TOML table, by its keys and values.
#[verifier::external_type_specification]
#[verifier::external_body]
#[verifier::reject_recursive_types(K)]
#[verifier::reject_recursive_types(V)]
pub struct ExMap<K, V>(toml::map::Map<K, V>);

/// A TOML value.
#[verifier::external_type_specification]
#[verifier::external_body]
pub struct ExValue(toml::Value);

/// A TOML value as far as merging looks into it: strings, tables, and the rest.
pub ghost enum Tree {
    Text(Seq<char>),
    Table(Map<Seq<char>, Tree>),
    Other(toml::Value),
}

/// What a table holds.
pub uninterp spec fn contents(t: toml::map::Map<String, toml::Value>) -> Map<Seq<char>, Tree>;

/// What a value holds.
pub uninterp spec fn tree_of(v: toml::Value) -> Tree;

/// Whether `==` of `toml::Value` holds of two values that are neither strings
/// nor tables.
pub uninterp spec fn alike(a: Tree, b: Tree) -> bool;

/// Whether two values are equal: strings when their characters are, tables when
/// they have the same keys and equal values.
pub open spec fn same_value(a: Tree, b: Tree) -> bool
    decreases b,
{
    match (a, b) {
        (Tree::Text(s), Tree::Text(t)) => s == t,
        (Tree::Table(x), Tree::Table(y)) => {
            &&& x.dom() == y.dom()
            &&& forall|k: Seq<char>| #[trigger] y.dom().contains(k) ==> same_value(x[k], y[k])
        },
        (Tree::Other(_), Tree::Other(_)) => alike(a, b),
        _ => false,
    }
}

/// No entries.
pub open spec fn nothing() -> Map<Seq<char>, Tree> {
    Map::empty()
}

/// `toml::map::Map::new`: nothing in it.
#[verifier::external_body]
fn empty_table() -> (t: toml::map::Map<String, toml::Value>)
    ensures
        contents(t) == nothing(),
{
    toml::map::Map::new()
}

/// `toml::map::Map::keys`: every key once.
#[verifier::external_body]
fn keys(t: &toml::map::Map<String, toml::Value>) -> (out: Vec<String>)
    ensures
        crate::text::texts(out@).no_duplicates(),
        forall|k: Seq<char>| #[trigger]
            crate::text::texts(out@).contains(k) <==> contents(*t).dom().contains(k),
{
    t.keys().cloned().collect()
}

/// `toml::map::Map::get`: the value of a key, if it has one.
#[verifier::external_body]
fn get<'a>(t: &'a toml::map::Map<String, toml::Value>, key: &str) -> (r: Option<&'a toml::Value>)
    ensures
        match r {
            Some(v) => contents(*t).dom().contains(key@) && contents(*t)[key@] == tree_of(*v),
            None => !contents(*t).dom().contains(key@),
        },
{
    t.get(key)
}

/// `toml::map::Map::insert`: the key has the value from now on.
#[verifier::external_body]
fn insert(t: &mut toml::map::Map<String, toml::Value>, key: &str, value: toml::Value)
    ensures
        contents(*final(t)) == contents(*old(t)).insert(key@, tree_of(value)),
{
    t.insert(key.to_string(), value);
}

/// `toml::map::Map::remove`: the value of a key, which the table loses.
#[verifier::external_body]
fn remove(t: &mut toml::map::Map<String, toml::Value>, key: &str) -> (r: Option<toml::Value>)
    ensures
        contents(*final(t)) == contents(*old(t)).remove(key@),
        match r {
            Some(v) => contents(*old(t)).dom().contains(key@) && contents(*old(t))[key@] == tree_of(
                v,
            ),
            None => !contents(*old(t)).dom().contains(key@),
        },
{
    t.remove(key)
}

/// `Clone` for tables: the copy holds the same.
#[verifier::external_body]
fn copy_table(t: &toml::map::Map<String, toml::Value>) -> (r: toml::map::Map<String, toml::Value>)
    ensures
        contents(r) == contents(*t),
{
    t.clone()
}

/// `Clone` for `toml::Value`: the copy holds the same.
#[verifier::external_body]
fn copy_value(v: &toml::Value) -> (r: toml::Value)
    ensures
        tree_of(r) == tree_of(*v),
{
    v.clone()
}

/// `toml::Value::as_table`: the table, if the value is one.
#[verifier::external_body]
fn as_table(v: &toml::Value) -> (r: Option<&toml::map::Map<String, toml::Value>>)
    ensures
        match r {
            Some(t) => tree_of(*v) == Tree::Table(contents(*t)),
            None => !(tree_of(*v) is Table),
        },
{
    v.as_table()
}

/// The `toml::Value::Table` variant: the table it holds, or the value back.
#[verifier::external_body]
fn into_table(v: toml::Value) -> (r: Result<toml::map::Map<String, toml::Value>, toml::Value>)
    ensures
        match r {
            Ok(t) => tree_of(v) == Tree::Table(contents(t)),
            Err(u) => !(tree_of(v) is Table) && tree_of(u) == tree_of(v),
        },
{
    match v {
        toml::Value::Table(t) => Ok(t),
        other => Err(other),
    }
}

/// The `toml::Value::Table` variant, made from a table.
#[verifier::external_body]
fn from_table(t: toml::map::Map<String, toml::Value>) -> (v: toml::Value)
    ensures
        tree_of(v) == Tree::Table(contents(t)),
{
    toml::Value::Table(t)
}

/// `==` of `toml::Value`: strings are equal when their characters are, tables
/// when they have the same keys and equal values, and no string or table equals
/// a value of another sort. Of two other values it depends on what they hold
/// alone.
#[verifier::external_body]
fn equal(a: &toml::Value, b: &toml::Value) -> (r: bool)
    ensures
        match (tree_of(*a), tree_of(*b)) {
            (Tree::Other(_), Tree::Other(_)) => r == alike(tree_of(*a), tree_of(*b)),
            _ => r == same_value(tree_of(*a), tree_of(*b)),
        },
{
    a == b
}

/// What `toml::from_str` makes of a document: a table, or why it is not one.
pub uninterp spec fn document(text: Seq<char>) -> Result<Map<Seq<char>, Tree>, Seq<char>>;

/// `toml::from_str` into a table. What the document says, and the wording of
/// the refusal, are the `toml` crate's; both depend on the text alone.
#[verifier::external_body]
fn parse_document(text: &str) -> (r: Result<toml::map::Map<String, toml::Value>, String>)
    ensures
        match r {
            Ok(t) => document(text@) == Ok::<Map<Seq<char>, Tree>, Seq<char>>(contents(t)),
            Err(e) => document(text@) == Err::<Map<Seq<char>, Tree>, Seq<char>>(e@),
        },
{
    match toml::from_str::<toml::Table>(text) {
        Ok(t) => Ok(t),
        Err(e) => Err(e.to_string()),
    }
}

/// Whether two tables belong together: not if both name a `kind` and the kinds
/// differ.
pub open spec fn fitting(base: Map<Seq<char>, Tree>, over: Map<Seq<char>, Tree>) -> bool {
    base.dom().contains("kind"@) && over.dom().contains("kind"@) ==> same_value(
        base["kind"@],
        over["kind"@],
    )
}

/// A value laid over another: tables that belong together merge key by key,
/// anything else replaces what was there.
pub open spec fn overlaid(base: Tree, over: Tree) -> Tree
    decreases over,
{
    match (base, over) {
        (Tree::Table(b), Tree::Table(o)) => if fitting(b, o) {
            Tree::Table(
                Map::new(
                    |k: Seq<char>| b.dom().contains(k) || o.dom().contains(k),
                    |k: Seq<char>|
                        if !o.dom().contains(k) {
                            b[k]
                        } else if b.dom().contains(k) {
                            overlaid(b[k], o[k])
                        } else {
                            o[k]
                        },
                ),
            )
        } else {
            over
        },
        _ => over,
    }
}

/// A table laid over another, key by key.
pub open spec fn merged_tables(b: Map<Seq<char>, Tree>, o: Map<Seq<char>, Tree>) -> Map<
    Seq<char>,
    Tree,
> {
    Map::new(
        |k: Seq<char>| b.dom().contains(k) || o.dom().contains(k),
        |k: Seq<char>|
            if !o.dom().contains(k) {
                b[k]
            } else if b.dom().contains(k) {
                overlaid(b[k], o[k])
            } else {
                o[k]
            },
    )
}

/// Whether two tables belong together.
fn compatible(
    base: &toml::map::Map<String, toml::Value>,
    over: &toml::map::Map<String, toml::Value>,
) -> (r: bool)
    ensures
        r == fitting(contents(*base), contents(*over)),
{
    match (get(base, "kind"), get(over, "kind")) {
        (Some(a), Some(b)) => equal(a, b),
        _ => true,
    }
}

/// A table with the first keys of another laid over it.
spec fn merged_upto(
    b: Map<Seq<char>, Tree>,
    o: Map<Seq<char>, Tree>,
    done: Seq<Seq<char>>,
) -> Map<Seq<char>, Tree> {
    Map::new(
        |k: Seq<char>| b.dom().contains(k) || (o.dom().contains(k) && done.contains(k)),
        |k: Seq<char>|
            if !o.dom().contains(k) || !done.contains(k) {
                b[k]
            } else if b.dom().contains(k) {
                overlaid(b[k], o[k])
            } else {
                o[k]
            },
    )
}

/// Recursively overlay `over` onto `base`. Replace tables with different
/// `kind` values to avoid retaining fields from another enum variant.
pub fn merge_into(
    base: &mut toml::map::Map<String, toml::Value>,
    over: &toml::map::Map<String, toml::Value>,
)
    ensures
        contents(*final(base)) == merged_tables(contents(*old(base)), contents(*over)),
    decreases contents(*over),
{
    let names: Vec<String> = keys(over);
    let ghost all = crate::text::texts(names@);
    let ghost b = contents(*base);
    let ghost o = contents(*over);
    proof {
        assert(o.dom() =~= all.to_set());
        vstd::seq_lib::seq_to_set_is_finite(all);
        assert(b =~= merged_upto(b, o, all.take(0)));
    }
    let mut i: usize = 0;
    while i < names.len()
        invariant
            i <= names@.len(),
            all == crate::text::texts(names@),
            all.no_duplicates(),
            o == contents(*over),
            o.dom().finite(),
            forall|k: Seq<char>| #[trigger] all.contains(k) <==> o.dom().contains(k),
            contents(*base) == merged_upto(b, o, all.take(i as int)),
        decreases names.len() - i,
    {
        let key: &str = names[i].as_str();
        let ghost done = all.take(i as int);
        let ghost next = all.take(i + 1);
        proof {
            assert(all[i as int] == key@);
            assert(all.contains(key@));
            lemma_next_key(all, i as int);
        }
        let value: &toml::Value = match get(over, key) {
            Some(v) => v,
            None => {
                return;
            },
        };
        match remove(base, key) {
            Some(there) => match into_table(there) {
                Ok(mut inner) => {
                    match as_table(value) {
                        Some(sub) => {
                            if compatible(&inner, sub) {
                                let ghost was = contents(inner);
                                proof {
                                    assert(decreases_to!(o => o[key@]));
                                }
                                merge_into(&mut inner, sub);
                                proof {
                                    lemma_overlaid_tables(was, contents(*sub));
                                }
                                insert(base, key, from_table(inner));
                            } else {
                                insert(base, key, copy_value(value));
                            }
                        },
                        None => {
                            insert(base, key, copy_value(value));
                        },
                    }
                },
                Err(_) => {
                    insert(base, key, copy_value(value));
                },
            },
            None => {
                insert(base, key, copy_value(value));
            },
        }
        proof {
            assert(contents(*base) =~= merged_upto(b, o, next));
        }
        i = i + 1;
    }
    proof {
        assert(all.take(i as int) =~= all);
        assert(merged_upto(b, o, all) =~= merged_tables(b, o));
    }
}

/// Tables that belong together are laid over each other key by key.
proof fn lemma_overlaid_tables(b: Map<Seq<char>, Tree>, o: Map<Seq<char>, Tree>)
    requires
        fitting(b, o),
    ensures
        overlaid(Tree::Table(b), Tree::Table(o)) == Tree::Table(merged_tables(b, o)),
{
    let r = overlaid(Tree::Table(b), Tree::Table(o));
    assert(r is Table);
    assert(r->Table_0 =~= merged_tables(b, o));
}

/// The next key of a list is not among those before it, and is the only one
/// that the longer list adds.
proof fn lemma_next_key(all: Seq<Seq<char>>, i: int)
    requires
        0 <= i < all.len(),
        all.no_duplicates(),
    ensures
        !all.take(i).contains(all[i]),
        forall|k: Seq<char>| #[trigger]
            all.take(i + 1).contains(k) <==> all.take(i).contains(k) || k == all[i],
{
    let done = all.take(i);
    let next = all.take(i + 1);
    if done.contains(all[i]) {
        let j = choose|j: int| 0 <= j < done.len() && done[j] == all[i];
        assert(all[j] == all[i]);
    }
    assert forall|k: Seq<char>| #[trigger] next.contains(k) <==> done.contains(k) || k == all[i] by {
        if done.contains(k) {
            let j = choose|j: int| 0 <= j < done.len() && done[j] == k;
            assert(next[j] == k);
        }
        if k == all[i] {
            assert(next[i] == k);
        }
        if next.contains(k) {
            let j = choose|j: int| 0 <= j < next.len() && next[j] == k;
            if j < i {
                assert(done[j] == k);
            }
        }
    }
}

/// Whether every entry is a table.
pub open spec fn all_tables(styles: Map<Seq<char>, Tree>) -> bool {
    forall|k: Seq<char>| #[trigger] styles.dom().contains(k) ==> styles[k] is Table
}

/// The presets of a document: its `style` table, if it has one.
pub open spec fn styles_of(doc: Map<Seq<char>, Tree>) -> Map<Seq<char>, Tree> {
    if doc.dom().contains("style"@) {
        doc["style"@]->Table_0
    } else {
        nothing()
    }
}

/// Whether a document is a config: nothing but `style`, a table of tables.
pub open spec fn is_config(doc: Map<Seq<char>, Tree>) -> bool {
    &&& forall|k: Seq<char>| #[trigger] doc.dom().contains(k) ==> k == "style"@
    &&& doc.dom().contains("style"@) ==> doc["style"@] is Table && all_tables(
        doc["style"@]->Table_0,
    )
}

/// Why a document is not a config.
pub open spec fn unknown_key(key: Seq<char>) -> Seq<char> {
    "unknown field `"@ + key + "`, expected `style`"@
}

pub open spec fn not_a_table(key: Seq<char>) -> Seq<char> {
    key + " must be a table"@
}

/// Whether a text says why a document is not a config: it names a key that
/// does not belong there, or what should have been a table.
pub open spec fn explains(doc: Map<Seq<char>, Tree>, why: Seq<char>) -> bool {
    ||| exists|k: Seq<char>| #[trigger]
        doc.dom().contains(k) && k != "style"@ && why == unknown_key(k)
    ||| doc.dom().contains("style"@) && !(doc["style"@] is Table) && why == not_a_table("style"@)
    ||| doc.dom().contains("style"@) && doc["style"@] is Table && exists|k: Seq<char>| #[trigger]
        doc["style"@]->Table_0.dom().contains(k) && !(doc["style"@]->Table_0[k] is Table) && why
            == not_a_table("style."@ + k)
}

/// The raw table of a preset: the base, with the preset laid over it.
pub open spec fn merged_of(styles: Map<Seq<char>, Tree>, name: Seq<char>) -> Map<Seq<char>, Tree> {
    let base = if styles.dom().contains("default"@) {
        styles["default"@]->Table_0
    } else {
        nothing()
    };
    if name != "default"@ && styles.dom().contains(name) {
        merged_tables(base, styles[name]->Table_0)
    } else {
        base
    }
}

/// Where a preset is, for error messages.
pub open spec fn place_of(name: Seq<char>) -> Seq<char> {
    "in [style."@ + name + "]"@
}

pub fn preset_place(name: &str) -> (r: String)
    ensures
        r@ == place_of(name@),
{
    cat(cat("in [style.", name).as_str(), "]")
}

/// Whether a preset is the first that does not decode.
pub open spec fn first_fault(faults: Seq<Option<String>>, i: int) -> bool {
    0 <= i < faults.len() && faults[i] is Some && forall|j: int|
        0 <= j < i ==> (#[trigger] faults[j]) is None
}

/// Whether every preset of a file decodes, by what is wrong with each of them.
/// The first that does not is reported, with its place and the file.
pub fn check_presets(names: &Vec<String>, faults: &Vec<Option<String>>, path: &str) -> (r: Result<
    (),
    Error,
>)
    requires
        names@.len() == faults@.len(),
    ensures
        match r {
            Ok(_) => forall|i: int| 0 <= i < faults@.len() ==> (#[trigger] faults@[i]) is None,
            Err(e) => exists|i: int| #[trigger]
                first_fault(faults@, i) && e@ == crate::error::in_context(
                    place_of(names@[i]@) + " of "@ + path@,
                    faults@[i]->Some_0@,
                ),
        },
{
    let mut i: usize = 0;
    while i < faults.len()
        invariant
            i <= faults@.len(),
            names@.len() == faults@.len(),
            forall|j: int| 0 <= j < i ==> (#[trigger] faults@[j]) is None,
        decreases faults.len() - i,
    {
        if let Some(why) = &faults[i] {
            let place: String = cat(preset_place(names[i].as_str()).as_str(), " of ");
            let place: String = cat(place.as_str(), path);
            assert(first_fault(faults@, i as int));
            return Err(Error::new(why.as_str().to_owned()).context(place.as_str()));
        }
        i = i + 1;
    }
    Ok(())
}

/// Why a preset cannot be used.
#[derive(Debug)]
pub enum PresetError {
    /// It is not there, or does not decode.
    Refused(Error),
    /// A value is out of range.
    Range(StyleError),
}

/// The presets of a config file.
pub struct Config {
    styles: toml::map::Map<String, toml::Value>,
}

impl View for Config {
    type V = Map<Seq<char>, Tree>;

    closed spec fn view(&self) -> Map<Seq<char>, Tree> {
        contents(self.styles)
    }
}

impl Default for Config {
    /// What a missing file yields.
    fn default() -> (c: Config)
        ensures
            c@ == nothing(),
    {
        Config { styles: empty_table() }
    }
}

impl Config {
    #[verifier::type_invariant]
    spec fn tables_only(&self) -> bool {
        all_tables(contents(self.styles))
    }

    /// Read a config file.
    pub fn parse(text: &str) -> (r: Result<Config, Error>)
        ensures
            match document(text@) {
                Err(e) => r is Err && r->Err_0@ == e,
                Ok(doc) => match r {
                    Ok(c) => is_config(doc) && c@ == styles_of(doc),
                    Err(e) => !is_config(doc) && explains(doc, e@),
                },
            },
    {
        match parse_document(text) {
            Ok(doc) => Config::from_document(doc),
            Err(e) => Err(Error::new(e)),
        }
    }

    /// Take the presets of a document.
    pub fn from_document(doc: toml::map::Map<String, toml::Value>) -> (r: Result<Config, Error>)
        ensures
            match r {
                Ok(c) => is_config(contents(doc)) && c@ == styles_of(contents(doc)),
                Err(e) => !is_config(contents(doc)) && explains(contents(doc), e@),
            },
    {
        let ghost d = contents(doc);
        let names: Vec<String> = keys(&doc);
        let ghost all = crate::text::texts(names@);
        let mut i: usize = 0;
        while i < names.len()
            invariant
                i <= names@.len(),
                d == contents(doc),
                all == crate::text::texts(names@),
                forall|k: Seq<char>| #[trigger] all.contains(k) <==> d.dom().contains(k),
                forall|j: int| 0 <= j < i ==> #[trigger] all[j] == "style"@,
            decreases names.len() - i,
        {
            let key: &str = names[i].as_str();
            proof {
                assert(all[i as int] == key@);
                assert(all.contains(key@));
            }
            if !crate::text::same(key, "style") {
                assert(d.dom().contains(key@));
                let m: String = cat("unknown field `", key);
                return Err(Error::new(cat(m.as_str(), "`, expected `style`")));
            }
            i = i + 1;
        }
        proof {
            assert forall|k: Seq<char>| #[trigger] d.dom().contains(k) implies k == "style"@ by {
                assert(all.contains(k));
                let j = choose|j: int| 0 <= j < all.len() && all[j] == k;
                assert(all[j] == "style"@);
            }
        }
        let styles: toml::map::Map<String, toml::Value> = match get(&doc, "style") {
            None => {
                return Ok(Config::default());
            },
            Some(v) => match as_table(v) {
                Some(t) => copy_table(t),
                None => {
                    return Err(Error::new(cat("style", " must be a table")));
                },
            },
        };
        let ghost s = contents(styles);
        let presets: Vec<String> = keys(&styles);
        let ghost each = crate::text::texts(presets@);
        let mut i: usize = 0;
        while i < presets.len()
            invariant
                i <= presets@.len(),
                d == contents(doc),
                s == contents(styles),
                d.dom().contains("style"@),
                d["style"@] == Tree::Table(s),
                each == crate::text::texts(presets@),
                forall|k: Seq<char>| #[trigger] each.contains(k) <==> s.dom().contains(k),
                forall|j: int| 0 <= j < i ==> s[#[trigger] each[j]] is Table,
            decreases presets.len() - i,
        {
            let name: &str = presets[i].as_str();
            proof {
                assert(each[i as int] == name@);
                assert(each.contains(name@));
            }
            let is_table: bool = match get(&styles, name) {
                Some(v) => as_table(v).is_some(),
                None => false,
            };
            if !is_table {
                assert(s.dom().contains(name@) && !(s[name@] is Table));
                return Err(
                    Error::new(cat(cat("style.", name).as_str(), " must be a table")),
                );
            }
            i = i + 1;
        }
        proof {
            assert forall|k: Seq<char>| #[trigger] s.dom().contains(k) implies s[k] is Table by {
                assert(each.contains(k));
                let j = choose|j: int| 0 <= j < each.len() && each[j] == k;
                assert(s[each[j]] is Table);
            }
        }
        Ok(Config { styles })
    }

    /// The names of the presets.
    pub fn names(&self) -> (out: Vec<String>)
        ensures
            crate::text::texts(out@).no_duplicates(),
            forall|k: Seq<char>| #[trigger]
                crate::text::texts(out@).contains(k) <==> self@.dom().contains(k),
    {
        keys(&self.styles)
    }

    /// Overlay a preset onto the base before filling field defaults.
    pub fn merged(&self, name: &str) -> (t: toml::map::Map<String, toml::Value>)
        ensures
            contents(t) == merged_of(self@, name@),
    {
        proof {
            use_type_invariant(self);
        }
        let mut merged: toml::map::Map<String, toml::Value> = match get(&self.styles, BASE) {
            Some(v) => match as_table(v) {
                Some(t) => copy_table(t),
                None => empty_table(),
            },
            None => empty_table(),
        };
        if !crate::text::same(name, BASE) {
            if let Some(v) = get(&self.styles, name) {
                if let Some(preset) = as_table(v) {
                    merge_into(&mut merged, preset);
                }
            }
        }
        merged
    }

    /// Resolve a named preset over `[style.default]` and built-in defaults.
    /// `decoded` is what its merged table decodes to. Unknown names, tables
    /// that do not decode and values out of range are errors.
    pub fn style(&self, name: &str, decoded: Result<Style, String>) -> (r: Result<
        Style,
        PresetError,
    >)
        ensures
            if name@ != "default"@ && !self@.dom().contains(name@) {
                r is Err && r->Err_0 is Refused && r->Err_0->Refused_0@ == "no [style."@ + name@
                    + "] in the config"@
            } else {
                match decoded {
                    Err(e) => r is Err && r->Err_0 is Refused && r->Err_0->Refused_0@
                        == crate::error::in_context(place_of(name@), e@),
                    Ok(s) => match crate::config::fault(s@) {
                        None => r == Ok::<Style, PresetError>(s),
                        Some(f) => r == Err::<Style, PresetError>(PresetError::Range(f)),
                    },
                }
            },
    {
        if !crate::text::same(name, BASE) && get(&self.styles, name).is_none() {
            let m: String = cat("no [style.", name);
            return Err(PresetError::Refused(Error::new(cat(m.as_str(), "] in the config"))));
        }
        match decoded {
            Err(e) => Err(
                PresetError::Refused(Error::new(e).context(preset_place(name).as_str())),
            ),
            Ok(s) => match s.validate() {
                Ok(()) => Ok(s),
                Err(f) => Err(PresetError::Range(f)),
            },
        }
    }
}

/// Merging with nothing changes nothing, on either side.
pub proof fn lemma_merge_nothing(t: Map<Seq<char>, Tree>)
    ensures
        merged_tables(t, nothing()) == t,
        merged_tables(nothing(), t) == t,
{
    assert(merged_tables(t, nothing()) =~= t);
    assert(merged_tables(nothing(), t) =~= t);
}

/// How a preset inherits, key by key. A key it does not set comes from the
/// base. A key that it sets to anything but a table is its own. Sub-tables
/// merge field by field, unless both name a `kind` and the kinds differ: then
/// the preset's replaces the base's whole.
pub proof fn lemma_inherits(b: Map<Seq<char>, Tree>, o: Map<Seq<char>, Tree>, k: Seq<char>)
    ensures
        ({
            let m = merged_tables(b, o);
            &&& m.dom().contains(k) <==> b.dom().contains(k) || o.dom().contains(k)
            &&& b.dom().contains(k) && !o.dom().contains(k) ==> m[k] == b[k]
            &&& o.dom().contains(k) && !(o[k] is Table) ==> m[k] == o[k]
            &&& o.dom().contains(k) && !b.dom().contains(k) ==> m[k] == o[k]
            &&& o.dom().contains(k) && b.dom().contains(k) && !(b[k] is Table) ==> m[k] == o[k]
            &&& o.dom().contains(k) && b.dom().contains(k) && o[k] is Table && b[k] is Table && !(
            o[k]->Table_0.dom().contains("kind"@) && b[k]->Table_0.dom().contains("kind"@)) ==> m[k]
                == Tree::Table(merged_tables(b[k]->Table_0, o[k]->Table_0))
            &&& o.dom().contains(k) && b.dom().contains(k) && o[k] is Table && b[k] is Table ==> (
            if fitting(b[k]->Table_0, o[k]->Table_0) {
                m[k] == Tree::Table(merged_tables(b[k]->Table_0, o[k]->Table_0))
            } else {
                m[k] == o[k]
            })
        }),
{
    if o.dom().contains(k) && b.dom().contains(k) && o[k] is Table && b[k] is Table && fitting(
        b[k]->Table_0,
        o[k]->Table_0,
    ) {
        lemma_overlaid_tables(b[k]->Table_0, o[k]->Table_0);
    }
}

/// Changing `kind` replaces a sub-table instead of mixing variants; leaving it
/// out keeps the base's kind, and the fields that are not set.
pub proof fn lemma_kind(b: Map<Seq<char>, Tree>, o: Map<Seq<char>, Tree>, k: Seq<char>)
    requires
        b.dom().contains(k),
        b[k] is Table,
        b[k]->Table_0.dom().contains("kind"@),
        b[k]->Table_0["kind"@] is Text,
        o.dom().contains(k),
        o[k] is Table,
        o[k]->Table_0.dom().contains("kind"@) ==> o[k]->Table_0["kind"@] is Text,
    ensures
        ({
            let bt = b[k]->Table_0;
            let ot = o[k]->Table_0;
            let m = merged_tables(b, o)[k];
            if ot.dom().contains("kind"@) && ot["kind"@]->Text_0 != bt["kind"@]->Text_0 {
                m == o[k]
            } else {
                &&& m == Tree::Table(merged_tables(bt, ot))
                &&& m->Table_0["kind"@] == bt["kind"@]
                &&& forall|f: Seq<char>| #[trigger]
                    bt.dom().contains(f) && !ot.dom().contains(f) ==> m->Table_0[f] == bt[f]
            }
        }),
{
    lemma_inherits(b, o, k);
    lemma_inherits(b[k]->Table_0, o[k]->Table_0, "kind"@);
}

/// Whether laying a value over another leaves a value that it can be laid over
/// again. Where it merges a table into one with other fields, its `kind` must
/// equal itself. Every text does; a number that is not one does not, nor does a
/// table that holds one.
pub open spec fn settles(base: Tree, over: Tree) -> bool
    decreases over,
{
    match (base, over) {
        (Tree::Table(b), Tree::Table(o)) => {
            ||| !fitting(b, o)
            ||| overlaid(base, over) == over
            ||| {
                &&& o.dom().contains("kind"@) ==> same_value(o["kind"@], o["kind"@])
                &&& forall|k: Seq<char>| #[trigger]
                    o.dom().contains(k) && b.dom().contains(k) ==> settles(b[k], o[k])
            }
        },
        _ => true,
    }
}

/// Whether every `kind` in a value is a text, as it is in every valid preset.
pub open spec fn text_kinds(t: Tree) -> bool
    decreases t,
{
    match t {
        Tree::Table(m) => {
            &&& m.dom().contains("kind"@) ==> m["kind"@] is Text
            &&& forall|k: Seq<char>| #[trigger] m.dom().contains(k) ==> text_kinds(m[k])
        },
        _ => true,
    }
}

/// A value laid over itself stays as it is.
proof fn lemma_overlaid_self(t: Tree)
    ensures
        overlaid(t, t) == t,
    decreases t,
{
    if let Tree::Table(m) = t {
        assert forall|k: Seq<char>| #[trigger] m.dom().contains(k) implies overlaid(m[k], m[k])
            == m[k] by {
            lemma_overlaid_self(m[k]);
        }
        if fitting(m, m) {
            lemma_overlaid_tables(m, m);
            assert(merged_tables(m, m) =~= m);
        }
    }
}

/// A value laid over one that equals it still equals it, where it equals
/// itself.
proof fn lemma_overlaid_same(b: Tree, o: Tree)
    requires
        same_value(b, o),
        same_value(o, o),
    ensures
        same_value(overlaid(b, o), o),
    decreases o,
{
    match (b, o) {
        (Tree::Table(x), Tree::Table(y)) => {
            if fitting(x, y) {
                let r = merged_tables(x, y);
                lemma_overlaid_tables(x, y);
                assert(r.dom() =~= y.dom());
                assert forall|k: Seq<char>| #[trigger] y.dom().contains(k) implies same_value(
                    r[k],
                    y[k],
                ) by {
                    lemma_overlaid_same(x[k], y[k]);
                }
            }
        },
        _ => {},
    }
}

/// Laying the same value over again changes nothing.
proof fn lemma_overlaid_twice(b: Tree, o: Tree)
    requires
        settles(b, o),
    ensures
        overlaid(overlaid(b, o), o) == overlaid(b, o),
    decreases o,
{
    lemma_overlaid_self(o);
    match (b, o) {
        (Tree::Table(x), Tree::Table(y)) => {
            if fitting(x, y) && overlaid(b, o) != o {
                let r = merged_tables(x, y);
                lemma_overlaid_tables(x, y);
                if x.dom().contains("kind"@) && y.dom().contains("kind"@) {
                    lemma_overlaid_same(x["kind"@], y["kind"@]);
                }
                assert(fitting(r, y));
                lemma_overlaid_tables(r, y);
                assert forall|k: Seq<char>| #[trigger] y.dom().contains(k) implies overlaid(
                    r[k],
                    y[k],
                ) == r[k] by {
                    if x.dom().contains(k) {
                        lemma_overlaid_twice(x[k], y[k]);
                    } else {
                        lemma_overlaid_self(y[k]);
                    }
                }
                assert(merged_tables(r, y) =~= r);
            }
        },
        _ => {},
    }
}

/// Merging the same table again changes nothing. Left out are sub-tables with a
/// `kind` that does not equal itself, as a NaN does not, and that are merged
/// with other fields: the second time, they replace what the first time merged.
pub proof fn lemma_merge_again(b: Map<Seq<char>, Tree>, o: Map<Seq<char>, Tree>)
    requires
        forall|k: Seq<char>| #[trigger]
            o.dom().contains(k) && b.dom().contains(k) ==> settles(b[k], o[k]),
    ensures
        merged_tables(merged_tables(b, o), o) == merged_tables(b, o),
{
    let r = merged_tables(b, o);
    assert forall|k: Seq<char>| #[trigger] o.dom().contains(k) implies overlaid(r[k], o[k])
        == r[k] by {
        if b.dom().contains(k) {
            lemma_overlaid_twice(b[k], o[k]);
        } else {
            lemma_overlaid_self(o[k]);
        }
    }
    assert(merged_tables(r, o) =~= r);
}

/// A table whose every `kind` is a text settles over any other.
pub proof fn lemma_text_kinds_settle(b: Tree, o: Tree)
    requires
        text_kinds(o),
    ensures
        settles(b, o),
    decreases o,
{
    match (b, o) {
        (Tree::Table(x), Tree::Table(y)) => {
            assert forall|k: Seq<char>| #[trigger]
                y.dom().contains(k) && x.dom().contains(k) implies settles(x[k], y[k]) by {
                lemma_text_kinds_settle(x[k], y[k]);
            }
        },
        _ => {},
    }
}

} // verus!
