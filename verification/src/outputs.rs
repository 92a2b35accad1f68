//! Which monitors a message lands on. Monitors are known by their connector
//! names, the one identifier that the compositor and the toolkit agree on.
use crate::error::{cat, Error};
use vstd::prelude::*;

verus! {

/// What `--output` asks for.
#[derive(Clone, Debug, PartialEq, Eq)]
pub enum OutputSpec {
    /// The output that has the focus.
    Current,
    /// Every enabled output.
    All,
    /// A specific list of connector names.
    Named(Vec<String>),
}

/// What `--output` asks for, by its names.
pub ghost enum Wanted {
    Current,
    All,
    Named(Seq<Seq<char>>),
}

impl View for OutputSpec {
    type V = Wanted;

    open spec fn view(&self) -> Wanted {
        match self {
            OutputSpec::Current => Wanted::Current,
            OutputSpec::All => Wanted::All,
            OutputSpec::Named(names) => Wanted::Named(crate::text::texts(names@)),
        }
    }
}

/// The items of a list, trimmed, without the empty ones.
pub open spec fn names_in(items: Seq<Seq<char>>) -> Seq<Seq<char>>
    decreases items.len(),
{
    if items.len() == 0 {
        Seq::empty()
    } else {
        let before = names_in(items.drop_last());
        let name = crate::text::trimmed(items.last());
        if name.len() > 0 {
            before.push(name)
        } else {
            before
        }
    }
}

/// What an `--output` value asks for: `current`, `all`, or a comma-separated
/// list.
pub open spec fn wanted_of(s: Seq<char>) -> Wanted {
    if s == "current"@ {
        Wanted::Current
    } else if s == "all"@ {
        Wanted::All
    } else {
        Wanted::Named(names_in(crate::text::pieces(s, ',')))
    }
}

impl OutputSpec {
    /// Parse the `--output` value.
    pub fn parse(s: &str) -> (spec: OutputSpec)
        ensures
            spec@ == wanted_of(s@),
    {
        if crate::text::same(s, "current") {
            return OutputSpec::Current;
        }
        if crate::text::same(s, "all") {
            return OutputSpec::All;
        }
        let items: Vec<String> = crate::text::split(s, ',');
        let ghost all = crate::text::pieces(s@, ',');
        let mut names: Vec<String> = Vec::new();
        let mut i: usize = 0;
        proof {
            assert(all.take(0) =~= Seq::<Seq<char>>::empty());
            assert(crate::text::texts(names@) =~= Seq::<Seq<char>>::empty());
        }
        while i < items.len()
            invariant
                i <= items@.len(),
                crate::text::texts(items@) == all,
                crate::text::texts(names@) == names_in(all.take(i as int)),
            decreases items.len() - i,
        {
            let name: &str = crate::text::trim(items[i].as_str());
            let ghost before = crate::text::texts(names@);
            proof {
                assert(all[i as int] == items@[i as int]@);
                assert(all.take(i + 1).drop_last() =~= all.take(i as int));
            }
            if !name.is_empty() {
                names.push(name.to_owned());
                assert(crate::text::texts(names@) =~= before.push(name@));
            }
            i = i + 1;
        }
        assert(all.take(i as int) =~= all);
        OutputSpec::Named(names)
    }
}

/// The connector names of monitors, as far as they have one.
pub open spec fn connector_names(connectors: Seq<Option<String>>) -> Seq<Option<Seq<char>>> {
    connectors.map_values(|c: Option<String>| crate::config::string_of(c))
}

/// Where a name stands among connectors; their count where it is absent.
pub open spec fn monitor_named(connectors: Seq<Option<Seq<char>>>, name: Seq<char>) -> int
    decreases connectors.len(),
{
    if connectors.len() == 0 {
        0
    } else if connectors[0] == Some(name) {
        0
    } else {
        1 + monitor_named(connectors.drop_first(), name)
    }
}

/// The monitors with the given names, in the order of the names. A name that
/// matches nothing is passed over.
pub open spec fn picked(connectors: Seq<Option<Seq<char>>>, names: Seq<Seq<char>>) -> Seq<int>
    decreases names.len(),
{
    if names.len() == 0 {
        Seq::empty()
    } else {
        let before = picked(connectors, names.drop_last());
        let at = monitor_named(connectors, names.last());
        if at < connectors.len() {
            before.push(at)
        } else {
            before
        }
    }
}

/// The names that match no monitor.
pub open spec fn unmatched(connectors: Seq<Option<Seq<char>>>, names: Seq<Seq<char>>) -> Seq<
    Seq<char>,
>
    decreases names.len(),
{
    if names.len() == 0 {
        Seq::empty()
    } else {
        let before = unmatched(connectors, names.drop_last());
        if monitor_named(connectors, names.last()) < connectors.len() {
            before
        } else {
            before.push(names.last())
        }
    }
}

/// The connectors that have a name.
pub open spec fn known(connectors: Seq<Option<Seq<char>>>) -> Seq<Seq<char>>
    decreases connectors.len(),
{
    if connectors.len() == 0 {
        Seq::empty()
    } else {
        let before = known(connectors.drop_last());
        match connectors.last() {
            Some(c) => before.push(c),
            None => before,
        }
    }
}

/// The monitors a message lands on, by position, and the names to report as
/// missing.
#[derive(Debug)]
pub struct Picked {
    pub monitors: Vec<usize>,
    pub missing: Vec<String>,
}

/// Positions as integers.
pub open spec fn positions(v: Seq<usize>) -> Seq<int> {
    v.map_values(|i: usize| i as int)
}

fn find_monitor(connectors: &Vec<Option<String>>, name: &str) -> (r: usize)
    ensures
        r == monitor_named(connector_names(connectors@), name@),
        r <= connectors@.len(),
{
    let ghost all = connector_names(connectors@);
    let mut i: usize = 0;
    assert(all.skip(0) =~= all);
    while i < connectors.len()
        invariant
            i <= connectors@.len(),
            all == connector_names(connectors@),
            monitor_named(all, name@) == i + monitor_named(all.skip(i as int), name@),
        decreases connectors.len() - i,
    {
        proof {
            assert(all.skip(i as int)[0] == all[i as int]);
            assert(all[i as int] == crate::config::string_of(connectors@[i as int]));
            assert(all.skip(i as int).drop_first() =~= all.skip(i + 1));
        }
        if let Some(c) = &connectors[i] {
            if crate::text::same(c.as_str(), name) {
                return i;
            }
        }
        i = i + 1;
    }
    i
}

/// The monitors with the given names.
pub fn by_names(connectors: &Vec<Option<String>>, names: &Vec<String>) -> (r: Picked)
    ensures
        positions(r.monitors@) == picked(connector_names(connectors@), crate::text::texts(names@)),
        crate::text::texts(r.missing@) == unmatched(
            connector_names(connectors@),
            crate::text::texts(names@),
        ),
{
    let ghost have = connector_names(connectors@);
    let ghost all = crate::text::texts(names@);
    let mut monitors: Vec<usize> = Vec::new();
    let mut missing: Vec<String> = Vec::new();
    let mut i: usize = 0;
    proof {
        assert(all.take(0) =~= Seq::<Seq<char>>::empty());
        assert(positions(monitors@) =~= Seq::<int>::empty());
        assert(crate::text::texts(missing@) =~= Seq::<Seq<char>>::empty());
    }
    while i < names.len()
        invariant
            i <= names@.len(),
            have == connector_names(connectors@),
            all == crate::text::texts(names@),
            positions(monitors@) == picked(have, all.take(i as int)),
            crate::text::texts(missing@) == unmatched(have, all.take(i as int)),
        decreases names.len() - i,
    {
        let ghost was = positions(monitors@);
        let ghost gone = crate::text::texts(missing@);
        proof {
            assert(all[i as int] == names@[i as int]@);
            assert(all.take(i + 1).drop_last() =~= all.take(i as int));
        }
        let at: usize = find_monitor(connectors, names[i].as_str());
        if at < connectors.len() {
            monitors.push(at);
            assert(positions(monitors@) =~= was.push(at as int));
        } else {
            missing.push(names[i].clone());
            assert(crate::text::texts(missing@) =~= gone.push(all[i as int]));
        }
        i = i + 1;
    }
    assert(all.take(i as int) =~= all);
    Picked { monitors, missing }
}

/// The names of all connectors, for the error.
pub fn connector_list(connectors: &Vec<Option<String>>) -> (r: String)
    ensures
        r@ == crate::text::joined(known(connector_names(connectors@)), ", "@),
{
    let ghost all = connector_names(connectors@);
    let mut names: Vec<String> = Vec::new();
    let mut i: usize = 0;
    proof {
        assert(all.take(0) =~= Seq::<Option<Seq<char>>>::empty());
        assert(crate::text::texts(names@) =~= Seq::<Seq<char>>::empty());
    }
    while i < connectors.len()
        invariant
            i <= connectors@.len(),
            all == connector_names(connectors@),
            crate::text::texts(names@) == known(all.take(i as int)),
        decreases connectors.len() - i,
    {
        let ghost before = crate::text::texts(names@);
        proof {
            assert(all[i as int] == crate::config::string_of(connectors@[i as int]));
            assert(all.take(i + 1).drop_last() =~= all.take(i as int));
        }
        if let Some(c) = &connectors[i] {
            names.push(c.clone());
            assert(crate::text::texts(names@) =~= before.push(c@));
        }
        i = i + 1;
    }
    assert(all.take(i as int) =~= all);
    crate::text::join(&names, ", ")
}

/// The monitors that a request names, given the focused output, or why there
/// are none to name.
pub open spec fn chosen(
    want: Wanted,
    connectors: Seq<Option<Seq<char>>>,
    focused: Result<Seq<char>, Seq<char>>,
) -> Result<Seq<int>, Seq<char>> {
    match want {
        Wanted::All => Ok(Seq::new(connectors.len(), |i: int| i)),
        Wanted::Current => match focused {
            Ok(name) => Ok(picked(connectors, seq![name])),
            Err(e) => Err("--output current needs sway's IPC socket: "@ + e),
        },
        Wanted::Named(names) => Ok(picked(connectors, names)),
    }
}

/// The monitors a message lands on. An empty result is an error: showing a
/// message on no screen at all would be a silent no-op.
pub open spec fn resolved(
    want: Wanted,
    connectors: Seq<Option<Seq<char>>>,
    focused: Result<Seq<char>, Seq<char>>,
) -> Result<Seq<int>, Seq<char>> {
    if connectors.len() == 0 {
        Err("GDK reports no monitors"@)
    } else {
        match chosen(want, connectors, focused) {
            Err(e) => Err(e),
            Ok(monitors) => if monitors.len() == 0 {
                Err(
                    "no output matched (have: "@ + crate::text::joined(known(connectors), ", "@)
                        + ")"@,
                )
            } else {
                Ok(monitors)
            },
        }
    }
}

/// The names to report as missing.
pub open spec fn reported(
    want: Wanted,
    connectors: Seq<Option<Seq<char>>>,
    focused: Result<Seq<char>, Seq<char>>,
) -> Seq<Seq<char>> {
    if connectors.len() == 0 {
        Seq::empty()
    } else {
        match want {
            Wanted::All => Seq::empty(),
            Wanted::Current => match focused {
                Ok(name) => unmatched(connectors, seq![name]),
                Err(_) => Seq::empty(),
            },
            Wanted::Named(names) => unmatched(connectors, names),
        }
    }
}

/// Resolve a request against the monitors that are there. `focused` is the
/// focused output's name, or why it is not known; it is read only where the
/// request is for the current output. What matches nothing is named in the
/// second result, also when the request as a whole fails.
pub fn resolve(
    spec: &OutputSpec,
    connectors: &Vec<Option<String>>,
    focused: &Result<String, String>,
) -> (r: (Result<Vec<usize>, Error>, Vec<String>))
    ensures
        ({
            let have = connector_names(connectors@);
            let focus = match *focused {
                Ok(n) => Ok::<Seq<char>, Seq<char>>(n@),
                Err(e) => Err(e@),
            };
            &&& match r.0 {
                Ok(monitors) => resolved(spec@, have, focus) == Ok::<Seq<int>, Seq<char>>(
                    positions(monitors@),
                ),
                Err(e) => resolved(spec@, have, focus) == Err::<Seq<int>, Seq<char>>(e@),
            }
            &&& crate::text::texts(r.1@) == reported(spec@, have, focus)
        }),
{
    let mut none: Vec<String> = Vec::new();
    assert(crate::text::texts(none@) =~= Seq::<Seq<char>>::empty());
    if connectors.len() == 0 {
        return (Err(Error::new("GDK reports no monitors".to_owned())), none);
    }
    let ghost have = connector_names(connectors@);
    let chosen: Picked = match spec {
        OutputSpec::All => {
            let mut monitors: Vec<usize> = Vec::new();
            let mut i: usize = 0;
            while i < connectors.len()
                invariant
                    i <= connectors@.len(),
                    monitors@.len() == i,
                    forall|k: int| 0 <= k < i ==> #[trigger] monitors@[k] == k,
                decreases connectors.len() - i,
            {
                monitors.push(i);
                i = i + 1;
            }
            assert(positions(monitors@) =~= Seq::new(have.len(), |i: int| i));
            Picked { monitors, missing: none }
        },
        OutputSpec::Current => match focused {
            Ok(name) => {
                let mut names: Vec<String> = Vec::new();
                names.push(name.clone());
                assert(crate::text::texts(names@) =~= seq![name@]);
                by_names(connectors, &names)
            },
            Err(e) => {
                return (
                    Err(
                        Error::new(
                            cat("--output current needs sway's IPC socket: ", e.as_str()),
                        ),
                    ),
                    none,
                );
            },
        },
        OutputSpec::Named(names) => by_names(connectors, names),
    };
    assert(positions(chosen.monitors@).len() == chosen.monitors@.len());
    if chosen.monitors.len() == 0 {
        let m: String = cat("no output matched (have: ", connector_list(connectors).as_str());
        return (Err(Error::new(cat(m.as_str(), ")"))), chosen.missing);
    }
    (Ok(chosen.monitors), chosen.missing)
}

/// The first focused output among names with their focus.
pub open spec fn focused_among(outputs: Seq<(Seq<char>, bool)>) -> Result<Seq<char>, Seq<char>>
    decreases outputs.len(),
{
    if outputs.len() == 0 {
        Err("sway reports no focused output"@)
    } else if outputs[0].1 {
        Ok(outputs[0].0)
    } else {
        focused_among(outputs.drop_first())
    }
}

/// The focused output, among what the compositor reports.
pub fn focused_output(outputs: &Vec<(String, bool)>) -> (r: Result<String, String>)
    ensures
        match r {
            Ok(n) => focused_among(outputs@.map_values(|o: (String, bool)| (o.0@, o.1))) == Ok::<
                Seq<char>,
                Seq<char>,
            >(n@),
            Err(e) => focused_among(outputs@.map_values(|o: (String, bool)| (o.0@, o.1))) == Err::<
                Seq<char>,
                Seq<char>,
            >(e@),
        },
{
    let ghost all = outputs@.map_values(|o: (String, bool)| (o.0@, o.1));
    let mut i: usize = 0;
    assert(all.skip(0) =~= all);
    while i < outputs.len()
        invariant
            i <= outputs@.len(),
            all == outputs@.map_values(|o: (String, bool)| (o.0@, o.1)),
            focused_among(all) == focused_among(all.skip(i as int)),
        decreases outputs.len() - i,
    {
        proof {
            assert(all.skip(i as int)[0] == all[i as int]);
            assert(all.skip(i as int).drop_first() =~= all.skip(i + 1));
        }
        if outputs[i].1 {
            return Ok(outputs[i].0.clone());
        }
        i = i + 1;
    }
    Err("sway reports no focused output".to_owned())
}

/// Every monitor picked by name is one that carries such a name, and every
/// name is either picked or reported.
pub proof fn lemma_by_names(connectors: Seq<Option<Seq<char>>>, names: Seq<Seq<char>>)
    ensures
        picked(connectors, names).len() + unmatched(connectors, names).len() == names.len(),
        forall|i: int|
            0 <= i < picked(connectors, names).len() ==> 0 <= #[trigger] picked(
                connectors,
                names,
            )[i] < connectors.len() && exists|k: int|
                0 <= k < names.len() && connectors[picked(connectors, names)[i]] == Some(
                    #[trigger] names[k],
                ),
    decreases names.len(),
{
    if names.len() > 0 {
        let rest = names.drop_last();
        let before = picked(connectors, rest);
        let all = picked(connectors, names);
        lemma_by_names(connectors, rest);
        lemma_monitor_named(connectors, names.last());
        assert forall|i: int| 0 <= i < all.len() implies 0 <= #[trigger] all[i] < connectors.len()
            && exists|k: int|
            0 <= k < names.len() && connectors[all[i]] == Some(#[trigger] names[k]) by {
            if i < before.len() {
                assert(all[i] == before[i]);
                let k = choose|k: int|
                    0 <= k < rest.len() && connectors[before[i]] == Some(#[trigger] rest[k]);
                assert(names[k] == rest[k]);
            } else {
                assert(names[names.len() - 1] == names.last());
            }
        }
    }
}

proof fn lemma_monitor_named(connectors: Seq<Option<Seq<char>>>, name: Seq<char>)
    ensures
        0 <= monitor_named(connectors, name) <= connectors.len(),
        monitor_named(connectors, name) < connectors.len() ==> connectors[monitor_named(
            connectors,
            name,
        )] == Some(name),
    decreases connectors.len(),
{
    if connectors.len() > 0 && connectors[0] != Some(name) {
        lemma_monitor_named(connectors.drop_first(), name);
    }
}

} // verus!
