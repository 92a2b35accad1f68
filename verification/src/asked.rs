//! What is asked for on the command line is what one gets: a field that a spec
//! gives has the value that it names, and a spec that is in order is accepted.
use crate::config::{
    Dir, GlowView, HAlign, LineAlign, Reveal, Scanlines, Sound, StyleView, VAlign, Vanish,
};
use crate::double::Double;
use crate::near::close;
use crate::overrides::OverridesView;
use crate::spec::Fields;
use vstd::prelude::*;

verus! {

/// Each word of an alignment or a direction names one of them, and nothing else
/// names any.
pub proof fn lemma_words(v: Seq<char>)
    ensures
        ({
            let h = crate::overrides::halign_of(v);
            &&& h == Ok::<HAlign, Seq<char>>(HAlign::Left) <==> v == "left"@
            &&& h == Ok::<HAlign, Seq<char>>(HAlign::Center) <==> v == "center"@
            &&& h == Ok::<HAlign, Seq<char>>(HAlign::Right) <==> v == "right"@
        }),
        ({
            let y = crate::overrides::valign_of(v);
            &&& y == Ok::<VAlign, Seq<char>>(VAlign::Top) <==> v == "top"@
            &&& y == Ok::<VAlign, Seq<char>>(VAlign::Center) <==> v == "center"@
            &&& y == Ok::<VAlign, Seq<char>>(VAlign::Bottom) <==> v == "bottom"@
        }),
        ({
            let a = crate::overrides::line_align_of(v);
            &&& a == Ok::<LineAlign, Seq<char>>(LineAlign::Left) <==> v == "left"@
            &&& a == Ok::<LineAlign, Seq<char>>(LineAlign::Center) <==> v == "center"@
            &&& a == Ok::<LineAlign, Seq<char>>(LineAlign::Right) <==> v == "right"@
        }),
        ({
            let d = crate::overrides::dir_of(v);
            &&& d == Ok::<Dir, Seq<char>>(Dir::Up) <==> v == "up"@
            &&& d == Ok::<Dir, Seq<char>>(Dir::Down) <==> v == "down"@
        }),
{
    reveal_strlit("left");
    reveal_strlit("center");
    reveal_strlit("right");
    reveal_strlit("top");
    reveal_strlit("bottom");
    reveal_strlit("up");
    reveal_strlit("down");
    assert("left"@.len() == 4 && "center"@.len() == 6 && "right"@.len() == 5 && "top"@.len() == 3);
    assert("up"@.len() == 2 && "down"@.len() == 4);
    assert("center"@[0] == 'c' && "bottom"@[0] == 'b');
}

/// The kinds of an exit are told apart.
proof fn lemma_kinds()
    ensures
        "instant"@ != "fade"@,
        "instant"@ != "wash"@,
        "fade"@ != "collapse"@,
        "fade"@ != "wash"@,
        "fade"@ != "untype"@,
        "fade"@ != "dissolve"@,
        "collapse"@ != "wash"@,
        "collapse"@ != "untype"@,
        "collapse"@ != "dissolve"@,
        "wash"@ != "untype"@,
        "wash"@ != "dissolve"@,
        "untype"@ != "dissolve"@,
        "instant"@ != "collapse"@,
        "instant"@ != "untype"@,
        "instant"@ != "dissolve"@,
        "instant"@ != "typewriter"@,
{
    reveal_strlit("instant");
    reveal_strlit("fade");
    reveal_strlit("collapse");
    reveal_strlit("wash");
    reveal_strlit("untype");
    reveal_strlit("dissolve");
    reveal_strlit("typewriter");
    assert("instant"@.len() == 7 && "fade"@.len() == 4 && "collapse"@.len() == 8);
    assert("untype"@.len() == 6 && "typewriter"@.len() == 10 && "wash"@.len() == 4);
    assert("dissolve"@.len() == 8);
    assert("fade"@[0] == 'f' && "wash"@[0] == 'w');
    assert("collapse"@[0] == 'c' && "dissolve"@[0] == 'd');
}

/// How long an exit lasts.
pub open spec fn lasts(v: Vanish) -> Option<u64> {
    match v {
        Vanish::Instant => None,
        Vanish::Fade { ms } => Some(ms),
        Vanish::Collapse { ms } => Some(ms),
        Vanish::Wash { ms, .. } => Some(ms),
        Vanish::Untype { ms } => Some(ms),
        Vanish::Dissolve { ms } => Some(ms),
    }
}

/// Whether an exit is of the kind that a word names.
pub open spec fn is_kind(v: Vanish, word: Seq<char>) -> bool {
    match v {
        Vanish::Instant => word == "instant"@,
        Vanish::Fade { .. } => word == "fade"@,
        Vanish::Collapse { .. } => word == "collapse"@,
        Vanish::Wash { .. } => word == "wash"@,
        Vanish::Untype { .. } => word == "untype"@,
        Vanish::Dissolve { .. } => word == "dissolve"@,
    }
}

/// Whether two exits are of one kind.
pub open spec fn same_kind(v: Vanish, c: Vanish) -> bool {
    match v {
        Vanish::Instant => c is Instant,
        Vanish::Fade { .. } => c is Fade,
        Vanish::Collapse { .. } => c is Collapse,
        Vanish::Wash { .. } => c is Wash,
        Vanish::Untype { .. } => c is Untype,
        Vanish::Dissolve { .. } => c is Dissolve,
    }
}

/// The first word of a spec, bare or under its key.
pub open spec fn first_word(f: Fields, key: Seq<char>) -> Option<Seq<char>> {
    if f.bare is Some {
        f.bare
    } else {
        crate::spec::value_of(f.pairs, key)
    }
}

/// What `--vanish` gives is what the exit has: the kind it names or else the
/// preset's, the duration it names or else the preset's, the direction it names
/// or else the preset's. A direction is for a wash only, and an instant exit
/// takes nothing.
pub proof fn lemma_vanish_as_asked(text: Seq<char>, current: Vanish)
    requires
        crate::overrides::vanish_of(text, current) is Ok,
    ensures
        ({
            let f = crate::spec::parsed("--vanish"@, text)->Ok_0;
            let v = crate::overrides::vanish_of(text, current)->Ok_0;
            let ms = crate::spec::value_of(f.pairs, "ms"@);
            let dir = crate::spec::value_of(f.pairs, "dir"@);
            &&& crate::spec::parsed("--vanish"@, text) is Ok
            &&& match first_word(f, "kind"@) {
                Some(word) => is_kind(v, word),
                None => same_kind(v, current),
            }
            &&& match ms {
                Some(t) => lasts(v) is Some && crate::spec::word_of(t) == Some(lasts(v)->0 as nat),
                None => lasts(v) is Some ==> lasts(v)->0 == match lasts(current) {
                    Some(n) => n,
                    None => 420u64,
                },
            }
            &&& match (dir, v) {
                (Some(t), Vanish::Wash { dir: d, .. }) => (d is Down <==> t == "down"@) && (
                d is Up <==> t == "up"@),
                (Some(_), _) => false,
                (None, Vanish::Wash { dir: d, .. }) => match current {
                    Vanish::Wash { dir: c, .. } => d == c,
                    _ => d is Down,
                },
                _ => true,
            }
        }),
{
    let f = crate::spec::parsed("--vanish"@, text)->Ok_0;
    lemma_kinds();
    match crate::spec::value_of(f.pairs, "dir"@) {
        Some(t) => lemma_words(t),
        None => {},
    }
}

/// A `--vanish` spec that is in order is accepted: fields that it has, a kind
/// that there is, a number for its duration, a direction only for a wash.
pub proof fn lemma_vanish_accepts(text: Seq<char>, current: Vanish, f: Fields)
    requires
        crate::spec::parsed("--vanish"@, text) == Ok::<Fields, Seq<char>>(f),
        f.unknown(seq!["kind"@, "ms"@, "dir"@]) is None,
        f.bare is None || crate::spec::value_of(f.pairs, "kind"@) is None,
        match crate::spec::value_of(f.pairs, "ms"@) {
            Some(t) => crate::spec::word_of(t) is Some && crate::spec::word_of(t)->0 <= u64::MAX,
            None => true,
        },
        match crate::spec::value_of(f.pairs, "dir"@) {
            Some(t) => (t == "up"@ || t == "down"@) && match first_word(f, "kind"@) {
                Some(word) => word == "wash"@,
                None => current is Wash,
            },
            None => true,
        },
        match first_word(f, "kind"@) {
            Some(word) => {
                ||| word == "fade"@
                ||| word == "collapse"@
                ||| word == "wash"@
                ||| word == "untype"@
                ||| word == "dissolve"@
                ||| word == "instant"@ && crate::spec::value_of(f.pairs, "ms"@) is None
            },
            None => !(current is Instant) || crate::spec::value_of(f.pairs, "ms"@) is None,
        },
    ensures
        crate::overrides::vanish_of(text, current) is Ok,
{
    lemma_kinds();
    match crate::spec::value_of(f.pairs, "dir"@) {
        Some(t) => lemma_words(t),
        None => {},
    }
}

/// Whether a text reads as a number.
pub open spec fn reads_as(t: Seq<char>, d: Double) -> bool {
    crate::decimal::double_of(t) == Some(d)
}

/// Whether a field has the number that its text reads as, or else another.
pub open spec fn number_or(given: Option<Seq<char>>, d: Double, other: Double) -> bool {
    match given {
        Some(t) => reads_as(t, d),
        None => d == other,
    }
}

/// Whether a field has the truth that its text names, or else another.
pub open spec fn truth_or(given: Option<Seq<char>>, b: bool, other: bool) -> bool {
    match given {
        Some(t) => if b {
            t == "true"@
        } else {
            t == "false"@
        },
        None => b == other,
    }
}

/// What `--glow` gives is what the halo has, and `none` alone takes it away.
pub proof fn lemma_glow_as_asked(text: Seq<char>, current: Option<GlowView>)
    requires
        crate::overrides::glow_spec(text, current) is Ok,
    ensures
        ({
            let f = crate::spec::parsed("--glow"@, text)->Ok_0;
            let radius = crate::spec::value_of(f.pairs, "radius"@);
            let alpha = crate::spec::value_of(f.pairs, "alpha"@);
            let base = match current {
                Some(c) => c,
                None => crate::config::default_glow(),
            };
            match crate::overrides::glow_spec(text, current)->Ok_0 {
                None => first_word(f, "color"@) == Some("none"@) && radius is None
                    && alpha is None,
                Some(g) => {
                    &&& match first_word(f, "color"@) {
                        Some(c) => g.color == c && c != "none"@,
                        None => g.color == base.color,
                    }
                    &&& number_or(radius, g.radius, base.radius)
                    &&& number_or(alpha, g.alpha, base.alpha)
                },
            }
        }),
{
}

/// Whether a field is absent or a number.
pub open spec fn a_number(f: Fields, key: Seq<char>) -> bool {
    crate::spec::value_of(f.pairs, key) matches Some(t) ==> crate::decimal::double_of(t) is Some
}

/// Whether a field is absent or a truth.
pub open spec fn a_truth(f: Fields, key: Seq<char>) -> bool {
    crate::spec::value_of(f.pairs, key) matches Some(t) ==> t == "true"@ || t == "false"@
}

/// Whether a spec has only the fields of a list, and its first one once.
pub open spec fn in_order(f: Fields, keys: Seq<Seq<char>>) -> bool {
    f.unknown(keys) is None && (f.bare is None || crate::spec::value_of(f.pairs, keys[0]) is None)
}

/// Specs of a halo, an outline, a raster and a sound that are in order are
/// accepted.
pub proof fn lemma_drawing_accepts(text: Seq<char>, f: Fields)
    ensures
        forall|current: Option<GlowView>|
            crate::spec::parsed("--glow"@, text) == Ok::<Fields, Seq<char>>(f) && in_order(
                f,
                seq!["color"@, "radius"@, "alpha"@],
            ) && a_number(f, "radius"@) && a_number(f, "alpha"@) && first_word(f, "color"@) != Some(
                "none"@,
            ) ==> #[trigger] crate::overrides::glow_spec(text, current) is Ok,
        forall|colour: Option<Seq<char>>, width: Option<Double>|
            crate::spec::parsed("--outline"@, text) == Ok::<Fields, Seq<char>>(f) && in_order(
                f,
                seq!["color"@, "width"@],
            ) && a_number(f, "width"@) && first_word(f, "color"@) != Some("none"@)
                ==> #[trigger] crate::overrides::outline_of(text, colour, width) is Ok,
        forall|current: Option<Scanlines>|
            crate::spec::parsed("--scanlines"@, text) == Ok::<Fields, Seq<char>>(f) && in_order(
                f,
                crate::overrides::scanlines_keys(),
            ) && a_number(f, "strength"@) && a_number(f, "duty"@) && (match first_word(
                f,
                "period"@,
            ) {
                Some(t) => t != "none"@ && crate::decimal::double_of(t) is Some,
                None => true,
            }) ==> #[trigger] crate::overrides::scanlines_of(text, current) is Ok,
{
}

/// What `--outline` gives is what the stroke has, and `none` takes the colour
/// away and leaves the width.
pub proof fn lemma_outline_as_asked(
    text: Seq<char>,
    colour: Option<Seq<char>>,
    width: Option<Double>,
)
    requires
        crate::overrides::outline_of(text, colour, width) is Ok,
    ensures
        ({
            let f = crate::spec::parsed("--outline"@, text)->Ok_0;
            let (c, w) = crate::overrides::outline_of(text, colour, width)->Ok_0;
            &&& match first_word(f, "color"@) {
                Some(t) => if t == "none"@ {
                    c is None
                } else {
                    c == Some(t)
                },
                None => c == colour,
            }
            &&& match crate::spec::value_of(f.pairs, "width"@) {
                Some(t) => w is Some && reads_as(t, w->0),
                None => w == width,
            }
        }),
{
}

/// What `--scanlines` gives is what the raster has, and `none` alone takes it
/// away.
pub proof fn lemma_scanlines_as_asked(text: Seq<char>, current: Option<Scanlines>)
    requires
        crate::overrides::scanlines_of(text, current) is Ok,
    ensures
        ({
            let f = crate::spec::parsed("--scanlines"@, text)->Ok_0;
            let strength = crate::spec::value_of(f.pairs, "strength"@);
            let duty = crate::spec::value_of(f.pairs, "duty"@);
            let base = match current {
                Some(c) => c,
                None => crate::config::default_scanlines(),
            };
            match crate::overrides::scanlines_of(text, current)->Ok_0 {
                None => first_word(f, "period"@) == Some("none"@) && strength is None
                    && duty is None,
                Some(s) => {
                    &&& first_word(f, "period"@) != Some("none"@)
                    &&& number_or(first_word(f, "period"@), s.period, base.period)
                    &&& number_or(strength, s.strength, base.strength)
                    &&& number_or(duty, s.duty, base.duty)
                },
            }
        }),
{
}

/// What `--reveal` gives is what the reveal has. Over an instant preset the
/// fields that it does not give are the built-in ones.
pub proof fn lemma_reveal_as_asked(text: Seq<char>, current: Reveal)
    requires
        crate::overrides::reveal_of(text, current) is Ok,
    ensures
        ({
            let f = crate::spec::parsed("--reveal"@, text)->Ok_0;
            let v = crate::overrides::reveal_of(text, current)->Ok_0;
            let base = match current {
                Reveal::Typewriter { .. } => current,
                Reveal::Instant => Reveal::Typewriter {
                    cps: Double::whole(28),
                    cursor: true,
                    jitter: Double { bits: 0 },
                    scroll: false,
                },
            };
            &&& match first_word(f, "kind"@) {
                Some(word) => if v is Instant {
                    word == "instant"@
                } else {
                    word == "typewriter"@
                },
                None => v is Typewriter && current is Typewriter,
            }
            &&& match v {
                Reveal::Instant => f.pairs.len() == 0 || first_word(f, "kind"@)
                    == crate::spec::value_of(f.pairs, "kind"@),
                Reveal::Typewriter { cps, cursor, jitter, scroll } => {
                    &&& number_or(crate::spec::value_of(f.pairs, "cps"@), cps, base->cps)
                    &&& truth_or(crate::spec::value_of(f.pairs, "cursor"@), cursor, base->cursor)
                    &&& number_or(crate::spec::value_of(f.pairs, "jitter"@), jitter, base->jitter)
                    &&& truth_or(crate::spec::value_of(f.pairs, "scroll"@), scroll, base->scroll)
                },
            }
        }),
{
    lemma_kinds();
    let f = crate::spec::parsed("--reveal"@, text)->Ok_0;
    let keys = seq!["kind"@, "cps"@, "cursor"@, "jitter"@, "scroll"@];
    crate::spec::lemma_parsed_wf("--reveal"@, text);
    crate::spec::lemma_unknown_field_is_refused(f, keys);
    if f.pairs.len() > 0 && crate::overrides::reveal_of(text, current)->Ok_0 is Instant && f.bare
        is Some {
        let key = f.pairs[0].0;
        assert(keys.contains(key));
        crate::spec::lemma_value_of(f.pairs, 0);
        assert(key == keys[0] || key == keys[1] || key == keys[2] || key == keys[3] || key
            == keys[4]);
    }
}

/// A `--reveal` spec that is in order is accepted.
pub proof fn lemma_reveal_accepts(text: Seq<char>, current: Reveal, f: Fields)
    requires
        crate::spec::parsed("--reveal"@, text) == Ok::<Fields, Seq<char>>(f),
        in_order(f, seq!["kind"@, "cps"@, "cursor"@, "jitter"@, "scroll"@]),
        a_number(f, "cps"@),
        a_truth(f, "cursor"@),
        a_number(f, "jitter"@),
        a_truth(f, "scroll"@),
        match first_word(f, "kind"@) {
            Some(word) => word == "typewriter"@,
            None => current is Typewriter,
        },
    ensures
        crate::overrides::reveal_of(text, current) is Ok,
{
    lemma_kinds();
}

/// What `--sound` gives is what the sound has: on for `on` and `true`, off for
/// `off` and `false`, and the numbers as they read.
pub proof fn lemma_sound_as_asked(text: Seq<char>, current: Sound)
    requires
        crate::overrides::sound_of(text, current) is Ok,
    ensures
        ({
            let f = crate::spec::parsed("--sound"@, text)->Ok_0;
            let s = crate::overrides::sound_of(text, current)->Ok_0;
            let freq = crate::spec::value_of(f.pairs, "freq"@);
            let decay = crate::spec::value_of(f.pairs, "decay_ms"@);
            let gain = crate::spec::value_of(f.pairs, "gain"@);
            &&& match first_word(f, "enabled"@) {
                Some(t) => if s.enabled {
                    t == "on"@ || t == "true"@
                } else {
                    t == "off"@ || t == "false"@
                },
                None => s.enabled == current.enabled,
            }
            &&& number_or(freq, s.freq, current.freq)
            &&& number_or(decay, s.decay_ms, current.decay_ms)
            &&& number_or(gain, s.gain, current.gain)
            &&& match crate::spec::value_of(f.pairs, "every"@) {
                Some(t) => crate::spec::word_of(t) == Some(s.every as nat),
                None => s.every == current.every,
            }
        }),
{
}

/// A `--sound` spec that is in order is accepted.
pub proof fn lemma_sound_accepts(text: Seq<char>, current: Sound, f: Fields)
    requires
        crate::spec::parsed("--sound"@, text) == Ok::<Fields, Seq<char>>(f),
        in_order(f, seq!["enabled"@, "freq"@, "decay_ms"@, "gain"@, "every"@]),
        a_number(f, "freq"@),
        a_number(f, "decay_ms"@),
        a_number(f, "gain"@),
        match crate::spec::value_of(f.pairs, "every"@) {
            Some(t) => crate::spec::word_of(t) is Some && crate::spec::word_of(t)->0 <= usize::MAX,
            None => true,
        },
        match first_word(f, "enabled"@) {
            Some(t) => t == "on"@ || t == "true"@ || t == "off"@ || t == "false"@,
            None => true,
        },
    ensures
        crate::overrides::sound_of(text, current) is Ok,
{
}

/// Whether a word is a component of a placement.
pub open spec fn a_component(word: Seq<char>) -> bool {
    ||| word == "center"@
    ||| word == "left"@
    ||| word == "right"@
    ||| word == "top"@
    ||| word == "bottom"@
}

/// A placement is accepted where every component is one, and is where they say,
/// in whatever order: to the side that is named and in the middle where none is.
pub proof fn lemma_placement(parts: Seq<Seq<char>>)
    ensures
        crate::overrides::placed(parts) is Ok <==> forall|i: int|
            0 <= i < parts.len() ==> a_component(#[trigger] parts[i]),
        crate::overrides::placed(parts) matches Ok(at) ==> {
            &&& parts.contains("left"@) && !parts.contains("right"@) ==> at.0 is Left
            &&& parts.contains("right"@) && !parts.contains("left"@) ==> at.0 is Right
            &&& !parts.contains("left"@) && !parts.contains("right"@) ==> at.0 is Center
            &&& parts.contains("top"@) && !parts.contains("bottom"@) ==> at.1 is Top
            &&& parts.contains("bottom"@) && !parts.contains("top"@) ==> at.1 is Bottom
            &&& !parts.contains("top"@) && !parts.contains("bottom"@) ==> at.1 is Center
        },
    decreases parts.len(),
{
    reveal_strlit("left");
    reveal_strlit("center");
    reveal_strlit("centre");
    reveal_strlit("right");
    reveal_strlit("top");
    reveal_strlit("bottom");
    assert("center"@[0] == 'c' && "bottom"@[0] == 'b' && "centre"@[0] == 'c');
    assert("center"@[4] == 'e' && "centre"@[4] == 'r');
    if parts.len() > 0 {
        let rest = parts.drop_last();
        let last = parts.last();
        lemma_placement(rest);
        assert(parts[parts.len() - 1] == last);
        assert forall|x: Seq<char>| #[trigger]
            parts.contains(x) <==> rest.contains(x) || x == last by {
            if rest.contains(x) {
                let i = choose|i: int| 0 <= i < rest.len() && rest[i] == x;
                assert(parts[i] == x);
            }
            if parts.contains(x) && x != last {
                let i = choose|i: int| 0 <= i < parts.len() && parts[i] == x;
                assert(rest[i] == x);
            }
        }
        if forall|i: int| 0 <= i < parts.len() ==> a_component(#[trigger] parts[i]) {
            assert forall|i: int| 0 <= i < rest.len() implies a_component(#[trigger] rest[i]) by {
                assert(rest[i] == parts[i]);
            }
        }
        if crate::overrides::placed(parts) is Ok {
            assert forall|i: int| 0 <= i < parts.len() implies a_component(
                #[trigger] parts[i],
            ) by {
                if i < rest.len() {
                    assert(rest[i] == parts[i]);
                }
            }
        }
    }
}

/// What `--position` gives is where the block is: the side that a field names,
/// or else that of the bare word, or else the preset's.
pub proof fn lemma_position_as_asked(text: Seq<char>, current: (HAlign, VAlign))
    requires
        crate::overrides::position_of(text, current) is Ok,
    ensures
        ({
            let f = crate::spec::parsed("--position"@, text)->Ok_0;
            let at = crate::overrides::position_of(text, current)->Ok_0;
            let bare = match f.bare {
                Some(word) => crate::overrides::placed(crate::text::pieces(word, '-')),
                None => Ok(current),
            };
            &&& bare is Ok
            &&& match crate::spec::value_of(f.pairs, "halign"@) {
                Some(t) => match at.0 {
                    HAlign::Left => t == "left"@,
                    HAlign::Center => t == "center"@,
                    HAlign::Right => t == "right"@,
                },
                None => at.0 == bare->Ok_0.0,
            }
            &&& match crate::spec::value_of(f.pairs, "valign"@) {
                Some(t) => match at.1 {
                    VAlign::Top => t == "top"@,
                    VAlign::Center => t == "center"@,
                    VAlign::Bottom => t == "bottom"@,
                },
                None => at.1 == bare->Ok_0.1,
            }
        }),
{
    let f = crate::spec::parsed("--position"@, text)->Ok_0;
    match crate::spec::value_of(f.pairs, "halign"@) {
        Some(t) => lemma_words(t),
        None => {},
    }
    match crate::spec::value_of(f.pairs, "valign"@) {
        Some(t) => lemma_words(t),
        None => {},
    }
}

/// The hold time that `--timeout` gives in seconds, in whole milliseconds.
pub proof fn lemma_timeout_as_asked(s: StyleView, o: OverridesView)
    requires
        o.timeout is Some,
    ensures
        ({
            let w = crate::double::one() as int;
            let t = o.timeout->0;
            match crate::overrides::with_timeout(s, o) {
                Ok(r) => {
                    &&& !t.nan() && 0 <= t.value() <= 3600 * w
                    &&& r.timeout_ms * w <= 1000 * t.value() + w / 1000
                    &&& 1000 * t.value() - w / 1000 < (r.timeout_ms + 1) * w
                },
                Err(_) => t.nan() || t.value() < 0 || t.value() > 3600 * w,
            }
        }),
{
    let w = crate::double::one() as int;
    let g = crate::rounding::two_to(1044) as int;
    let step = crate::rounding::STEP as int;
    let t = o.timeout->0;
    let k = Double::whole(1000);
    crate::order::lemma_whole(0);
    crate::order::lemma_whole(1000);
    crate::order::lemma_whole(3600);
    crate::mixing::lemma_grid();
    assert(0 * w == 0);
    if crate::overrides::with_timeout(s, o) is Ok {
        crate::order::lemma_value_bound(Double::whole(3600));
        crate::rounding::lemma_units_mono(0, crate::rounding::INF as nat);
        crate::bounds::lemma_sign(t);
        let v = t.value();
        assert(v * (1000 * w) <= (2 * step) * (g * w)) by (nonlinear_arith)
            requires
                0 <= v <= 3600 * w,
                0x80_0000 * w == (2 * step) * g,
                w > 0,
        {
            assert(v * (1000 * w) <= (3600 * w) * (1000 * w));
            assert((0x80_0000 * w) * w == ((2 * step) * g) * w);
        }
        crate::near::lemma_product_close(t, k, 1044);
        let x = t.product(k).value();
        assert(close(x, 1000 * v, g)) by (nonlinear_arith)
            requires
                -(g * w) <= x * w - v * (1000 * w) <= g * w,
                w > 0,
        ;
        let n = t.product(k).floor_word();
        let q = x / w;
        assert(x > 0 ==> q * w <= x < (q + 1) * w && 0 <= q <= 0x80_0000) by (nonlinear_arith)
            requires
                q == x / w,
                x <= 3_600_000 * w + g,
                g <= w,
                w > 0,
        ;
        assert(g <= w / 1000);
    }
}

/// Every option that is given takes effect, from the preset's own value and
/// whatever the others are; and the options are refused exactly where one of
/// them is.
#[verifier::rlimit(100)]
#[verifier::spinoff_prover]
pub proof fn lemma_options_take_effect(s: StyleView, o: OverridesView)
    ensures
        ({
            let (t, refused) = crate::overrides::applied(s, o);
            let outline = crate::overrides::outline_of(o.outline->0, s.outline, s.outline_width);
            let glow = crate::overrides::glow_spec(o.glow->0, s.glow);
            let scanlines = crate::overrides::scanlines_of(o.scanlines->0, s.scanlines);
            let position = crate::overrides::position_of(o.position->0, (s.halign, s.valign));
            let lines = crate::overrides::line_align_of(o.line_align->0);
            let reveal = crate::overrides::reveal_of(o.reveal->0, s.reveal);
            let vanish = crate::overrides::vanish_of(o.vanish->0, s.vanish);
            let sound = crate::overrides::sound_of(o.sound->0, s.sound);
            &&& refused is None <==> {
                &&& o.outline is Some ==> outline is Ok
                &&& o.glow is Some ==> glow is Ok
                &&& o.scanlines is Some ==> scanlines is Ok
                &&& o.timeout is Some ==> crate::overrides::with_timeout(s, o) is Ok
                &&& o.position is Some ==> position is Ok
                &&& o.line_align is Some ==> lines is Ok
                &&& o.reveal is Some ==> reveal is Ok
                &&& o.vanish is Some ==> vanish is Ok
                &&& o.sound is Some ==> sound is Ok
            }
            &&& refused is None ==> {
                &&& o.font is Some ==> t.font == o.font->0
                &&& o.color is Some ==> t.color == o.color->0
                &&& o.outline is Some ==> (t.outline, t.outline_width) == outline->Ok_0
                &&& o.glow is Some ==> t.glow == glow->Ok_0
                &&& o.scanlines is Some ==> t.scanlines == scanlines->Ok_0
                &&& o.timeout is Some ==> t.timeout_ms == crate::overrides::with_timeout(
                    s,
                    o,
                )->Ok_0.timeout_ms
                &&& o.position is Some ==> (t.halign, t.valign) == position->Ok_0
                &&& o.margin is Some ==> t.margin == o.margin->0
                &&& o.width is Some ==> t.width == o.width
                &&& o.lines is Some ==> t.lines == o.lines
                &&& o.line_align is Some ==> t.line_align == lines->Ok_0
                &&& o.reveal is Some ==> t.reveal == reveal->Ok_0
                &&& o.vanish is Some ==> t.vanish == vanish->Ok_0
                &&& o.sound is Some ==> t.sound == sound->Ok_0
            }
        }),
{
}

} // verus!
