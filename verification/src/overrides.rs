//! The command line over a preset: each option is read from its spec, and what
//! it does not mention keeps the preset's value.
use crate::config::{
    Dir, Glow, HAlign, LineAlign, Reveal, Scanlines, Sound, Style, VAlign, Vanish, DEFAULT_CPS,
    DEFAULT_VANISH_MS,
};
use crate::double::Double;
use crate::error::{cat, Error};
use crate::spec::{FromField, Spec};
use vstd::prelude::*;

verus! {

/// The value given, or the one already there.
pub open spec fn either<T>(given: Option<T>, current: T) -> T {
    match given {
        Some(t) => t,
        None => current,
    }
}

fn or_current<T>(given: Option<T>, current: T) -> (r: T)
    ensures
        r == either(given, current),
{
    match given {
        Some(t) => t,
        None => current,
    }
}

/// Whether a text was given and is a word.
fn is_word(text: &Option<&str>, word: &str) -> (r: bool)
    ensures
        r == (crate::spec::text_of(*text) == Some(word@)),
{
    match text {
        Some(t) => crate::text::same(t, word),
        None => false,
    }
}

/// A refusal that quotes a word: what is said before and after it.
fn refuse(before: &str, word: &str, after: &str) -> (e: Error)
    ensures
        e@ == before@ + crate::text::debug_text(word@) + after@,
{
    Error::new(cat(cat(before, crate::text::quoted(word).as_str()).as_str(), after))
}

/// The keys of `--scanlines`.
pub open spec fn scanlines_keys() -> Seq<Seq<char>> {
    seq!["period"@, "strength"@, "duty"@]
}

/// The raster that `--scanlines` asks for. The bare value is the period: the
/// field a raster is usually described by.
pub open spec fn scanlines_of(text: Seq<char>, current: Option<Scanlines>) -> Result<
    Option<Scanlines>,
    Seq<char>,
> {
    match crate::spec::parsed("--scanlines"@, text) {
        Err(e) => Err(e),
        Ok(f) => match (
            f.headline_of("period"@),
            f.read::<Double>("strength"@),
            f.read::<Double>("duty"@),
            f.unknown(scanlines_keys()),
        ) {
            (Err(e), _, _, _) => Err(e),
            (_, Err(e), _, _) => Err(e),
            (_, _, Err(e), _) => Err(e),
            (_, _, _, Some(e)) => Err(e),
            (Ok(period), Ok(strength), Ok(duty), None) => if period == Some("none"@) {
                if strength is None && duty is None {
                    Ok(None)
                } else {
                    Err("--scanlines none takes no other fields; there is no raster to describe"@)
                }
            } else {
                let base = either(current, crate::config::default_scanlines());
                match period {
                    Some(v) => match Double::reads(v) {
                        Ok(p) => Ok(
                            Some(
                                (Scanlines {
                                    period: p,
                                    strength: either(strength, base.strength),
                                    duty: either(duty, base.duty),
                                }),
                            ),
                        ),
                        Err(why) => Err(
                            crate::spec::bad_value("--scanlines"@, v, "period"@, why),
                        ),
                    },
                    None => Ok(
                        Some(
                            (Scanlines {
                                period: base.period,
                                strength: either(strength, base.strength),
                                duty: either(duty, base.duty),
                            }),
                        ),
                    ),
                }
            },
        },
    }
}

/// Read `--scanlines`. A field-only spec over a preset with no raster switches
/// the built-in one on.
pub fn parse_scanlines(spec: &str, current: Option<Scanlines>) -> (r: Result<
    Option<Scanlines>,
    Error,
>)
    ensures
        crate::error::told(r) == scanlines_of(spec@, current),
{
    let mut s: Spec = match Spec::parse("--scanlines", spec) {
        Ok(s) => s,
        Err(e) => return Err(e),
    };
    let ghost f = s@;
    proof {
        crate::spec::lemma_parsed_wf("--scanlines"@, spec@);
        crate::spec::lemma_after_none(f);
        reveal_strlit("period");
        reveal_strlit("strength");
        reveal_strlit("duty");
        let k0 = Seq::<Seq<char>>::empty();
        crate::spec::lemma_after(f, k0, "period"@);
        let k1 = k0.push("period"@);
        crate::spec::lemma_after(f, k1, "strength"@);
        let k2 = k1.push("strength"@);
        crate::spec::lemma_after(f, k2, "duty"@);
        assert(k2.push("duty"@) =~= scanlines_keys());
    }
    let period: Option<&str> = match s.headline("period") {
        Ok(v) => v,
        Err(e) => return Err(e),
    };
    let strength: Option<Double> = match s.take_parsed::<Double>("strength") {
        Ok(v) => v,
        Err(e) => return Err(e),
    };
    let duty: Option<Double> = match s.take_parsed::<Double>("duty") {
        Ok(v) => v,
        Err(e) => return Err(e),
    };
    match s.finish() {
        Ok(()) => {},
        Err(e) => return Err(e),
    }
    if is_word(&period, "none") {
        if strength.is_some() || duty.is_some() {
            return Err(
                Error::new(
                    "--scanlines none takes no other fields; there is no raster to describe".to_owned(),
                ),
            );
        }
        return Ok(None);
    }
    let base: Scanlines = match current {
        Some(c) => c,
        None => Scanlines::default(),
    };
    let period: Double = match period {
        Some(v) => match Double::from_field(v) {
            Ok(p) => p,
            Err(why) => {
                let m: String = cat(
                    cat("--scanlines", ": bad value ").as_str(),
                    crate::text::quoted(v).as_str(),
                );
                let m: String = cat(cat(m.as_str(), " for ").as_str(), "period");
                let m: String = cat(cat(m.as_str(), " (").as_str(), why.as_str());
                return Err(Error::new(cat(m.as_str(), ")")));
            },
        },
        None => base.period,
    };
    Ok(
        Some(
            Scanlines {
                period,
                strength: or_current(strength, base.strength),
                duty: or_current(duty, base.duty),
            },
        ),
    )
}

/// The horizontal placement that a word names.
pub open spec fn halign_of(v: Seq<char>) -> Result<HAlign, Seq<char>> {
    if v == "left"@ {
        Ok(HAlign::Left)
    } else if v == "center"@ {
        Ok(HAlign::Center)
    } else if v == "right"@ {
        Ok(HAlign::Right)
    } else {
        Err("bad halign "@ + crate::text::debug_text(v) + " (want left, center or right)"@)
    }
}

pub fn parse_halign(v: &str) -> (r: Result<HAlign, Error>)
    ensures
        crate::error::told(r) == halign_of(v@),
{
    if crate::text::same(v, "left") {
        Ok(HAlign::Left)
    } else if crate::text::same(v, "center") {
        Ok(HAlign::Center)
    } else if crate::text::same(v, "right") {
        Ok(HAlign::Right)
    } else {
        Err(refuse("bad halign ", v, " (want left, center or right)"))
    }
}

/// The vertical placement that a word names.
pub open spec fn valign_of(v: Seq<char>) -> Result<VAlign, Seq<char>> {
    if v == "top"@ {
        Ok(VAlign::Top)
    } else if v == "center"@ {
        Ok(VAlign::Center)
    } else if v == "bottom"@ {
        Ok(VAlign::Bottom)
    } else {
        Err("bad valign "@ + crate::text::debug_text(v) + " (want top, center or bottom)"@)
    }
}

pub fn parse_valign(v: &str) -> (r: Result<VAlign, Error>)
    ensures
        crate::error::told(r) == valign_of(v@),
{
    if crate::text::same(v, "top") {
        Ok(VAlign::Top)
    } else if crate::text::same(v, "center") {
        Ok(VAlign::Center)
    } else if crate::text::same(v, "bottom") {
        Ok(VAlign::Bottom)
    } else {
        Err(refuse("bad valign ", v, " (want top, center or bottom)"))
    }
}

/// The alignment within the block that a word names.
pub open spec fn line_align_of(v: Seq<char>) -> Result<LineAlign, Seq<char>> {
    if v == "left"@ {
        Ok(LineAlign::Left)
    } else if v == "center"@ {
        Ok(LineAlign::Center)
    } else if v == "right"@ {
        Ok(LineAlign::Right)
    } else {
        Err("bad --line-align "@ + crate::text::debug_text(v) + " (want left, center or right)"@)
    }
}

pub fn parse_line_align(v: &str) -> (r: Result<LineAlign, Error>)
    ensures
        crate::error::told(r) == line_align_of(v@),
{
    if crate::text::same(v, "left") {
        Ok(LineAlign::Left)
    } else if crate::text::same(v, "center") {
        Ok(LineAlign::Center)
    } else if crate::text::same(v, "right") {
        Ok(LineAlign::Right)
    } else {
        Err(refuse("bad --line-align ", v, " (want left, center or right)"))
    }
}

/// The direction that a word names.
pub open spec fn dir_of(v: Seq<char>) -> Result<Dir, Seq<char>> {
    if v == "up"@ {
        Ok(Dir::Up)
    } else if v == "down"@ {
        Ok(Dir::Down)
    } else {
        Err("--vanish: bad dir "@ + crate::text::debug_text(v) + " (want up or down)"@)
    }
}

pub fn parse_dir(v: &str) -> (r: Result<Dir, Error>)
    ensures
        crate::error::told(r) == dir_of(v@),
{
    if crate::text::same(v, "up") {
        Ok(Dir::Up)
    } else if crate::text::same(v, "down") {
        Ok(Dir::Down)
    } else {
        Err(refuse("--vanish: bad dir ", v, " (want up or down)"))
    }
}

/// What one more component makes of a placement.
pub open spec fn with_component(at: (HAlign, VAlign), part: Seq<char>) -> Result<
    (HAlign, VAlign),
    Seq<char>,
> {
    if part == "center"@ {
        Ok(at)
    } else if part == "centre"@ {
        Err("--position: spelled \"center\" here, the way the config file spells it"@)
    } else if part == "left"@ {
        Ok((HAlign::Left, at.1))
    } else if part == "right"@ {
        Ok((HAlign::Right, at.1))
    } else if part == "top"@ {
        Ok((at.0, VAlign::Top))
    } else if part == "bottom"@ {
        Ok((at.0, VAlign::Bottom))
    } else {
        Err(
            "--position: bad component "@ + crate::text::debug_text(part)
                + " (want center, top, bottom, left or right)"@,
        )
    }
}

/// The placement that components name, each over the ones before it.
pub open spec fn placed(parts: Seq<Seq<char>>) -> Result<(HAlign, VAlign), Seq<char>>
    decreases parts.len(),
{
    if parts.len() == 0 {
        Ok((HAlign::Center, VAlign::Center))
    } else {
        match placed(parts.drop_last()) {
            Ok(at) => with_component(at, parts.last()),
            Err(e) => Err(e),
        }
    }
}

/// A refused component refuses the whole word.
proof fn lemma_placed_prefix(parts: Seq<Seq<char>>, n: int)
    requires
        0 <= n <= parts.len(),
    ensures
        placed(parts.take(n)) is Err ==> placed(parts) == placed(parts.take(n)),
    decreases parts.len() - n,
{
    if n < parts.len() {
        lemma_placed_prefix(parts, n + 1);
        assert(parts.take(n + 1).drop_last() =~= parts.take(n));
    } else {
        assert(parts.take(n) =~= parts);
    }
}

/// `top-left`, `bottom`, `center`, … in either order.
pub fn parse_position_word(word: &str) -> (r: Result<(HAlign, VAlign), Error>)
    ensures
        crate::error::told(r) == placed(crate::text::pieces(word@, '-')),
{
    let parts: Vec<String> = crate::text::split(word, '-');
    let ghost all = crate::text::pieces(word@, '-');
    let mut h: HAlign = HAlign::Center;
    let mut v: VAlign = VAlign::Center;
    let mut i: usize = 0;
    assert(all.take(0) =~= Seq::<Seq<char>>::empty());
    while i < parts.len()
        invariant
            i <= parts.len(),
            all == crate::text::pieces(word@, '-'),
            crate::text::texts(parts@) == all,
            placed(all.take(i as int)) == Ok::<(HAlign, VAlign), Seq<char>>((h, v)),
        decreases parts.len() - i,
    {
        let part: &str = parts[i].as_str();
        proof {
            assert(all[i as int] == parts@[i as int]@);
            assert(all.take(i + 1).drop_last() =~= all.take(i as int));
            lemma_placed_prefix(all, i + 1);
        }
        if crate::text::same(part, "center") {
        } else if crate::text::same(part, "centre") {
            return Err(
                Error::new(
                    "--position: spelled \"center\" here, the way the config file spells it".to_owned(),
                ),
            );
        } else if crate::text::same(part, "left") {
            h = HAlign::Left;
        } else if crate::text::same(part, "right") {
            h = HAlign::Right;
        } else if crate::text::same(part, "top") {
            v = VAlign::Top;
        } else if crate::text::same(part, "bottom") {
            v = VAlign::Bottom;
        } else {
            return Err(
                refuse(
                    "--position: bad component ",
                    part,
                    " (want center, top, bottom, left or right)",
                ),
            );
        }
        i = i + 1;
    }
    assert(all.take(i as int) =~= all);
    Ok((h, v))
}

/// A placement on one axis: the named field, or what stands already.
pub open spec fn axis<A>(
    given: Option<Seq<char>>,
    named: spec_fn(Seq<char>) -> Result<A, Seq<char>>,
    current: A,
) -> Result<A, Seq<char>> {
    match given {
        Some(v) => named(v),
        None => Ok(current),
    }
}

/// The placement that `--position` asks for. A bare name sets both axes; named
/// fields set one each.
pub open spec fn position_of(text: Seq<char>, current: (HAlign, VAlign)) -> Result<
    (HAlign, VAlign),
    Seq<char>,
> {
    match crate::spec::parsed("--position"@, text) {
        Err(e) => Err(e),
        Ok(f) => match match f.bare {
            Some(word) => placed(crate::text::pieces(word, '-')),
            None => Ok(current),
        } {
            Err(e) => Err(e),
            Ok(at) => match (
                axis(
                    crate::spec::value_of(f.pairs, "halign"@),
                    |v: Seq<char>| halign_of(v),
                    at.0,
                ),
                axis(
                    crate::spec::value_of(f.pairs, "valign"@),
                    |v: Seq<char>| valign_of(v),
                    at.1,
                ),
                f.unknown(seq!["halign"@, "valign"@]),
            ) {
                (Err(e), _, _) => Err(e),
                (_, Err(e), _) => Err(e),
                (_, _, Some(e)) => Err(e),
                (Ok(h), Ok(v), None) => Ok((h, v)),
            },
        },
    }
}

/// Parse placement.
pub fn parse_position(spec: &str, halign: HAlign, valign: VAlign) -> (r: Result<
    (HAlign, VAlign),
    Error,
>)
    ensures
        crate::error::told(r) == position_of(spec@, (halign, valign)),
{
    let mut s: Spec = match Spec::parse("--position", spec) {
        Ok(s) => s,
        Err(e) => return Err(e),
    };
    let ghost f = s@;
    proof {
        crate::spec::lemma_parsed_wf("--position"@, spec@);
        crate::spec::lemma_after_none(f);
        reveal_strlit("halign");
        reveal_strlit("valign");
        assert("halign"@[0] != "valign"@[0]);
        let k0 = Seq::<Seq<char>>::empty();
        crate::spec::lemma_after(f, k0, "halign"@);
        let k1 = k0.push("halign"@);
        crate::spec::lemma_after(f, k1, "valign"@);
        assert(k1.push("valign"@) =~= seq!["halign"@, "valign"@]);
    }
    let (mut h, mut v): (HAlign, VAlign) = match s.bare() {
        Some(word) => match parse_position_word(word) {
            Ok(at) => at,
            Err(e) => return Err(e),
        },
        None => (halign, valign),
    };
    if let Some(word) = s.take("halign") {
        h = match parse_halign(word) {
            Ok(h) => h,
            Err(e) => return Err(e),
        };
    }
    if let Some(word) = s.take("valign") {
        v = match parse_valign(word) {
            Ok(v) => v,
            Err(e) => return Err(e),
        };
    }
    match s.finish() {
        Ok(()) => {},
        Err(e) => return Err(e),
    }
    Ok((h, v))
}

/// The outline that `--outline` asks for: colour and width.
pub open spec fn outline_of(
    text: Seq<char>,
    colour: Option<Seq<char>>,
    width: Option<Double>,
) -> Result<(Option<Seq<char>>, Option<Double>), Seq<char>> {
    match crate::spec::parsed("--outline"@, text) {
        Err(e) => Err(e),
        Ok(f) => match (
            f.headline_of("color"@),
            f.read::<Double>("width"@),
            f.unknown(seq!["color"@, "width"@]),
        ) {
            (Err(e), _, _) => Err(e),
            (_, Err(e), _) => Err(e),
            (_, _, Some(e)) => Err(e),
            (Ok(c), Ok(w), None) => if c == Some("none"@) {
                if w is None {
                    Ok((None, width))
                } else {
                    Err("--outline none takes no width; there is no stroke to size"@)
                }
            } else {
                Ok(
                    (
                        if c is Some {
                            c
                        } else {
                            colour
                        },
                        if w is Some {
                            w
                        } else {
                            width
                        },
                    ),
                )
            },
        },
    }
}

/// Parse outline colour and width, preserving omitted preset fields.
pub fn parse_outline(
    spec: &str,
    current_colour: Option<&str>,
    current_width: Option<Double>,
) -> (r: Result<(Option<String>, Option<Double>), Error>)
    ensures
        match r {
            Ok((c, w)) => outline_of(spec@, crate::spec::text_of(current_colour), current_width)
                == Ok::<(Option<Seq<char>>, Option<Double>), Seq<char>>(
                (crate::config::string_of(c), w),
            ),
            Err(e) => outline_of(spec@, crate::spec::text_of(current_colour), current_width)
                == Err::<(Option<Seq<char>>, Option<Double>), Seq<char>>(e@),
        },
{
    let mut s: Spec = match Spec::parse("--outline", spec) {
        Ok(s) => s,
        Err(e) => return Err(e),
    };
    let ghost f = s@;
    proof {
        crate::spec::lemma_parsed_wf("--outline"@, spec@);
        crate::spec::lemma_after_none(f);
        reveal_strlit("color");
        reveal_strlit("width");
        assert("color"@[0] != "width"@[0]);
        let k0 = Seq::<Seq<char>>::empty();
        crate::spec::lemma_after(f, k0, "color"@);
        let k1 = k0.push("color"@);
        crate::spec::lemma_after(f, k1, "width"@);
        assert(k1.push("width"@) =~= seq!["color"@, "width"@]);
    }
    let colour: Option<&str> = match s.headline("color") {
        Ok(v) => v,
        Err(e) => return Err(e),
    };
    let width: Option<Double> = match s.take_parsed::<Double>("width") {
        Ok(v) => v,
        Err(e) => return Err(e),
    };
    match s.finish() {
        Ok(()) => {},
        Err(e) => return Err(e),
    }
    if is_word(&colour, "none") {
        // Reject width with `none`; preserve the configured width when
        // disabling alone.
        if width.is_some() {
            return Err(
                Error::new("--outline none takes no width; there is no stroke to size".to_owned()),
            );
        }
        return Ok((None, current_width));
    }
    let colour: Option<String> = match colour {
        Some(c) => Some(c.to_owned()),
        None => match current_colour {
            Some(c) => Some(c.to_owned()),
            None => None,
        },
    };
    let width: Option<Double> = if width.is_some() {
        width
    } else {
        current_width
    };
    Ok((colour, width))
}

/// The halo that `--glow` asks for.
pub open spec fn glow_spec(text: Seq<char>, current: Option<crate::config::GlowView>) -> Result<
    Option<crate::config::GlowView>,
    Seq<char>,
> {
    match crate::spec::parsed("--glow"@, text) {
        Err(e) => Err(e),
        Ok(f) => match (
            f.headline_of("color"@),
            f.read::<Double>("radius"@),
            f.read::<Double>("alpha"@),
            f.unknown(seq!["color"@, "radius"@, "alpha"@]),
        ) {
            (Err(e), _, _, _) => Err(e),
            (_, Err(e), _, _) => Err(e),
            (_, _, Err(e), _) => Err(e),
            (_, _, _, Some(e)) => Err(e),
            (Ok(colour), Ok(radius), Ok(alpha), None) => if colour == Some("none"@) {
                if radius is None && alpha is None {
                    Ok(None)
                } else {
                    Err("--glow none takes no other fields; there is no halo to describe"@)
                }
            } else {
                let base = either(current, crate::config::default_glow());
                Ok(
                    Some(
                        (crate::config::GlowView {
                            color: either(colour, base.color),
                            radius: either(radius, base.radius),
                            alpha: either(alpha, base.alpha),
                        }),
                    ),
                )
            },
        },
    }
}

/// `#b8bb26`, `#b8bb26,radius=12,alpha=0.7`, `none`.
pub fn parse_glow(spec: &str, current: &Option<Glow>) -> (r: Result<Option<Glow>, Error>)
    ensures
        match r {
            Ok(g) => glow_spec(spec@, crate::config::glow_of(*current)) == Ok::<
                Option<crate::config::GlowView>,
                Seq<char>,
            >(crate::config::glow_of(g)),
            Err(e) => glow_spec(spec@, crate::config::glow_of(*current)) == Err::<
                Option<crate::config::GlowView>,
                Seq<char>,
            >(e@),
        },
{
    let mut s: Spec = match Spec::parse("--glow", spec) {
        Ok(s) => s,
        Err(e) => return Err(e),
    };
    let ghost f = s@;
    proof {
        crate::spec::lemma_parsed_wf("--glow"@, spec@);
        crate::spec::lemma_after_none(f);
        reveal_strlit("color");
        reveal_strlit("radius");
        reveal_strlit("alpha");
        assert("color"@[0] != "alpha"@[0]);
        let k0 = Seq::<Seq<char>>::empty();
        crate::spec::lemma_after(f, k0, "color"@);
        let k1 = k0.push("color"@);
        crate::spec::lemma_after(f, k1, "radius"@);
        let k2 = k1.push("radius"@);
        crate::spec::lemma_after(f, k2, "alpha"@);
        assert(k2.push("alpha"@) =~= seq!["color"@, "radius"@, "alpha"@]);
    }
    let colour: Option<&str> = match s.headline("color") {
        Ok(v) => v,
        Err(e) => return Err(e),
    };
    let radius: Option<Double> = match s.take_parsed::<Double>("radius") {
        Ok(v) => v,
        Err(e) => return Err(e),
    };
    let alpha: Option<Double> = match s.take_parsed::<Double>("alpha") {
        Ok(v) => v,
        Err(e) => return Err(e),
    };
    match s.finish() {
        Ok(()) => {},
        Err(e) => return Err(e),
    }
    if is_word(&colour, "none") {
        if radius.is_some() || alpha.is_some() {
            return Err(
                Error::new(
                    "--glow none takes no other fields; there is no halo to describe".to_owned(),
                ),
            );
        }
        return Ok(None);
    }
    // Use glow defaults when enabling a halo through a field-only spec.
    let base: Glow = match current {
        Some(g) => Glow { color: g.color.clone(), radius: g.radius, alpha: g.alpha },
        None => Glow::default(),
    };
    let color: String = match colour {
        Some(c) => c.to_owned(),
        None => base.color.clone(),
    };
    Ok(
        Some(
            Glow {
                color,
                radius: or_current(radius, base.radius),
                alpha: or_current(alpha, base.alpha),
            },
        ),
    )
}

/// The typewriter that fields describe, over the preset's reveal. Over an
/// instant preset they need an explicit kind.
pub open spec fn typewriter_of(
    current: Reveal,
    named: bool,
    cps: Option<Double>,
    cursor: Option<bool>,
    jitter: Option<Double>,
    scroll: Option<bool>,
) -> Result<Reveal, Seq<char>> {
    match current {
        Reveal::Typewriter { cps: c, cursor: k, jitter: j, scroll: s } => Ok(
            (Reveal::Typewriter {
                cps: either(cps, c),
                cursor: either(cursor, k),
                jitter: either(jitter, j),
                scroll: either(scroll, s),
            }),
        ),
        Reveal::Instant => if named {
            Ok(
                (Reveal::Typewriter {
                    cps: either(cps, Double::whole(DEFAULT_CPS as nat)),
                    cursor: either(cursor, true),
                    jitter: either(jitter, (Double { bits: 0 })),
                    scroll: either(scroll, false),
                }),
            )
        } else {
            Err(
                "--reveal: the preset reveals instantly, so there is nothing to adjust; say typewriter to switch it on"@,
            )
        },
    }
}

/// The reveal that `--reveal` asks for.
pub open spec fn reveal_of(text: Seq<char>, current: Reveal) -> Result<Reveal, Seq<char>> {
    match crate::spec::parsed("--reveal"@, text) {
        Err(e) => Err(e),
        Ok(f) => match (
            f.headline_of("kind"@),
            f.read::<Double>("cps"@),
            f.read_bool("cursor"@),
            f.read::<Double>("jitter"@),
            f.read_bool("scroll"@),
            f.unknown(seq!["kind"@, "cps"@, "cursor"@, "jitter"@, "scroll"@]),
        ) {
            (Err(e), _, _, _, _, _) => Err(e),
            (_, Err(e), _, _, _, _) => Err(e),
            (_, _, Err(e), _, _, _) => Err(e),
            (_, _, _, Err(e), _, _) => Err(e),
            (_, _, _, _, Err(e), _) => Err(e),
            (_, _, _, _, _, Some(e)) => Err(e),
            (Ok(kind), Ok(cps), Ok(cursor), Ok(jitter), Ok(scroll), None) => if kind == Some(
                "instant"@,
            ) {
                if cps is None && cursor is None && jitter is None && scroll is None {
                    Ok(Reveal::Instant)
                } else {
                    Err(
                        "--reveal instant takes no other fields; cps, cursor, jitter and scroll all belong to the typewriter"@,
                    )
                }
            } else if kind == Some("typewriter"@) || kind is None {
                typewriter_of(current, kind is Some, cps, cursor, jitter, scroll)
            } else {
                Err(
                    "--reveal: unknown kind "@ + crate::text::debug_text(kind->0)
                        + " (want instant or typewriter)"@,
                )
            },
        },
    }
}

/// `instant`, `typewriter,cps=50`, `cps=50,scroll=true`.
pub fn parse_reveal(spec: &str, current: &Reveal) -> (r: Result<Reveal, Error>)
    ensures
        crate::error::told(r) == reveal_of(spec@, *current),
{
    let mut s: Spec = match Spec::parse("--reveal", spec) {
        Ok(s) => s,
        Err(e) => return Err(e),
    };
    let ghost f = s@;
    proof {
        crate::spec::lemma_parsed_wf("--reveal"@, spec@);
        crate::spec::lemma_after_none(f);
        reveal_strlit("kind");
        reveal_strlit("cps");
        reveal_strlit("cursor");
        reveal_strlit("jitter");
        reveal_strlit("scroll");
        assert("cursor"@[0] == 'c' && "jitter"@[0] == 'j' && "scroll"@[0] == 's');
        let k0 = Seq::<Seq<char>>::empty();
        crate::spec::lemma_after(f, k0, "kind"@);
        let k1 = k0.push("kind"@);
        crate::spec::lemma_after(f, k1, "cps"@);
        let k2 = k1.push("cps"@);
        crate::spec::lemma_after(f, k2, "cursor"@);
        let k3 = k2.push("cursor"@);
        crate::spec::lemma_after(f, k3, "jitter"@);
        let k4 = k3.push("jitter"@);
        crate::spec::lemma_after(f, k4, "scroll"@);
        assert(k4.push("scroll"@) =~= seq!["kind"@, "cps"@, "cursor"@, "jitter"@, "scroll"@]);
    }
    let kind: Option<&str> = match s.headline("kind") {
        Ok(v) => v,
        Err(e) => return Err(e),
    };
    let cps: Option<Double> = match s.take_parsed::<Double>("cps") {
        Ok(v) => v,
        Err(e) => return Err(e),
    };
    let cursor: Option<bool> = match s.take_bool("cursor") {
        Ok(v) => v,
        Err(e) => return Err(e),
    };
    let jitter: Option<Double> = match s.take_parsed::<Double>("jitter") {
        Ok(v) => v,
        Err(e) => return Err(e),
    };
    let scroll: Option<bool> = match s.take_bool("scroll") {
        Ok(v) => v,
        Err(e) => return Err(e),
    };
    match s.finish() {
        Ok(()) => {},
        Err(e) => return Err(e),
    }
    let typed: bool = cps.is_some() || cursor.is_some() || jitter.is_some() || scroll.is_some();
    if is_word(&kind, "instant") {
        if typed {
            return Err(
                Error::new(
                    "--reveal instant takes no other fields; cps, cursor, jitter and scroll all belong to the typewriter".to_owned(),
                ),
            );
        }
        return Ok(Reveal::Instant);
    }
    if let Some(other) = kind {
        if !crate::text::same(other, "typewriter") {
            return Err(refuse("--reveal: unknown kind ", other, " (want instant or typewriter)"));
        }
    }
    match *current {
        Reveal::Typewriter { cps: c, cursor: k, jitter: j, scroll: l } => Ok(
            Reveal::Typewriter {
                cps: or_current(cps, c),
                cursor: or_current(cursor, k),
                jitter: or_current(jitter, j),
                scroll: or_current(scroll, l),
            },
        ),
        // Typewriter fields require a typewriter preset or an explicit kind.
        Reveal::Instant => {
            if kind.is_none() {
                return Err(
                    Error::new(
                        "--reveal: the preset reveals instantly, so there is nothing to adjust; say typewriter to switch it on".to_owned(),
                    ),
                );
            }
            Ok(
                Reveal::Typewriter {
                    cps: or_current(cps, Double::from_word(DEFAULT_CPS)),
                    cursor: or_current(cursor, true),
                    jitter: or_current(jitter, Double { bits: 0 }),
                    scroll: or_current(scroll, false),
                },
            )
        },
    }
}

/// The direction that a field names, if it is there.
pub open spec fn dir_field(given: Option<Seq<char>>) -> Result<Option<Dir>, Seq<char>> {
    match given {
        None => Ok(None),
        Some(v) => match dir_of(v) {
            Ok(d) => Ok(Some(d)),
            Err(e) => Err(e),
        },
    }
}

/// The effect of a kind, over the preset's effect. Omitting the duration keeps
/// the preset's; switching from instant uses the built-in one. A direction
/// belongs to a wash, and is inherited from one.
pub open spec fn effect_of(
    kind: Seq<char>,
    ms: Option<u64>,
    dir: Option<Dir>,
    word: Option<Seq<char>>,
    current: Vanish,
) -> Result<Vanish, Seq<char>> {
    let ms_or = either(
        ms,
        if current is Instant {
            DEFAULT_VANISH_MS
        } else {
            current.duration()
        },
    );
    if kind == "instant"@ {
        if ms is None && dir is None {
            Ok(Vanish::Instant)
        } else {
            Err("--vanish instant takes no other fields; it happens on one frame"@)
        }
    } else if kind != "wash"@ && dir is Some {
        Err(
            "--vanish: dir only applies to wash, not to "@ + kind + "; say --vanish 'wash,dir="@
                + either(word, "up"@) + "' to switch the effect too"@,
        )
    } else if kind == "fade"@ {
        Ok((Vanish::Fade { ms: ms_or }))
    } else if kind == "collapse"@ {
        Ok((Vanish::Collapse { ms: ms_or }))
    } else if kind == "untype"@ {
        Ok((Vanish::Untype { ms: ms_or }))
    } else if kind == "dissolve"@ {
        Ok((Vanish::Dissolve { ms: ms_or }))
    } else if kind == "wash"@ {
        Ok(
            (Vanish::Wash {
                ms: ms_or,
                dir: either(
                    dir,
                    match current {
                        Vanish::Wash { dir: d, .. } => d,
                        _ => Dir::Down,
                    },
                ),
            }),
        )
    } else {
        Err(
            "--vanish: unknown kind "@ + crate::text::debug_text(kind)
                + " (want instant, fade, collapse, wash, untype or dissolve)"@,
        )
    }
}

/// The effect that `--vanish` asks for.
pub open spec fn vanish_of(text: Seq<char>, current: Vanish) -> Result<Vanish, Seq<char>> {
    match crate::spec::parsed("--vanish"@, text) {
        Err(e) => Err(e),
        Ok(f) => match (
            f.headline_of("kind"@),
            f.read::<u64>("ms"@),
            dir_field(crate::spec::value_of(f.pairs, "dir"@)),
            f.unknown(seq!["kind"@, "ms"@, "dir"@]),
        ) {
            (Err(e), _, _, _) => Err(e),
            (_, Err(e), _, _) => Err(e),
            (_, _, Err(e), _) => Err(e),
            (_, _, _, Some(e)) => Err(e),
            (Ok(kind), Ok(ms), Ok(dir), None) => effect_of(
                either(kind, current.name()),
                ms,
                dir,
                crate::spec::value_of(f.pairs, "dir"@),
                current,
            ),
        },
    }
}

/// `fade`, `wash,dir=up,ms=700`, `kind=collapse,ms=250`.
pub fn parse_vanish(spec: &str, current: &Vanish) -> (r: Result<Vanish, Error>)
    ensures
        crate::error::told(r) == vanish_of(spec@, *current),
{
    let mut s: Spec = match Spec::parse("--vanish", spec) {
        Ok(s) => s,
        Err(e) => return Err(e),
    };
    let ghost f = s@;
    proof {
        crate::spec::lemma_parsed_wf("--vanish"@, spec@);
        crate::spec::lemma_after_none(f);
        reveal_strlit("kind");
        reveal_strlit("ms");
        reveal_strlit("dir");
        let k0 = Seq::<Seq<char>>::empty();
        crate::spec::lemma_after(f, k0, "kind"@);
        let k1 = k0.push("kind"@);
        crate::spec::lemma_after(f, k1, "ms"@);
        let k2 = k1.push("ms"@);
        crate::spec::lemma_after(f, k2, "dir"@);
        assert(k2.push("dir"@) =~= seq!["kind"@, "ms"@, "dir"@]);
    }
    let kind: Option<&str> = match s.headline("kind") {
        Ok(v) => v,
        Err(e) => return Err(e),
    };
    let ms: Option<u64> = match s.take_parsed::<u64>("ms") {
        Ok(v) => v,
        Err(e) => return Err(e),
    };
    let dir_word: Option<&str> = s.take("dir");
    let dir: Option<Dir> = match dir_word {
        Some(w) => match parse_dir(w) {
            Ok(d) => Some(d),
            Err(e) => return Err(e),
        },
        None => None,
    };
    match s.finish() {
        Ok(()) => {},
        Err(e) => return Err(e),
    }
    let kind: &str = match kind {
        Some(k) => k,
        None => current.kind(),
    };
    if crate::text::same(kind, "instant") {
        if ms.is_some() || dir.is_some() {
            return Err(
                Error::new("--vanish instant takes no other fields; it happens on one frame".to_owned()),
            );
        }
        return Ok(Vanish::Instant);
    }
    // Use the built-in duration when switching from instant.
    let ms: u64 = or_current(
        ms,
        if matches!(current, Vanish::Instant) {
            DEFAULT_VANISH_MS
        } else {
            current.ms()
        },
    );
    if !crate::text::same(kind, "wash") && dir.is_some() {
        // Direction is valid only for wash; suggest an explicit kind.
        let m: String = cat("--vanish: dir only applies to wash, not to ", kind);
        let m: String = cat(m.as_str(), "; say --vanish 'wash,dir=");
        let m: String = cat(
            m.as_str(),
            match dir_word {
                Some(w) => w,
                None => "up",
            },
        );
        return Err(Error::new(cat(m.as_str(), "' to switch the effect too")));
    }
    if crate::text::same(kind, "fade") {
        Ok(Vanish::Fade { ms })
    } else if crate::text::same(kind, "collapse") {
        Ok(Vanish::Collapse { ms })
    } else if crate::text::same(kind, "untype") {
        Ok(Vanish::Untype { ms })
    } else if crate::text::same(kind, "dissolve") {
        Ok(Vanish::Dissolve { ms })
    } else if crate::text::same(kind, "wash") {
        // Inherit direction only from wash.
        let inherited: Dir = match *current {
            Vanish::Wash { dir, .. } => dir,
            _ => Dir::Down,
        };
        Ok(Vanish::Wash { ms, dir: or_current(dir, inherited) })
    } else {
        Err(
            refuse(
                "--vanish: unknown kind ",
                kind,
                " (want instant, fade, collapse, wash, untype or dissolve)",
            ),
        )
    }
}

/// Whether the sound is on: bare values use on/off, the named field
/// true/false, and either may use the other's words.
pub open spec fn switch_of(given: Option<Seq<char>>, current: bool) -> Result<bool, Seq<char>> {
    match given {
        None => Ok(current),
        Some(v) => if v == "on"@ || v == "true"@ {
            Ok(true)
        } else if v == "off"@ || v == "false"@ {
            Ok(false)
        } else {
            Err("--sound: "@ + crate::text::debug_text(v) + " is not on or off"@)
        },
    }
}

/// The sound that `--sound` asks for.
pub open spec fn sound_of(text: Seq<char>, current: Sound) -> Result<Sound, Seq<char>> {
    match crate::spec::parsed("--sound"@, text) {
        Err(e) => Err(e),
        Ok(f) => match (
            f.headline_of("enabled"@),
            f.read::<Double>("freq"@),
            f.read::<Double>("decay_ms"@),
            f.read::<Double>("gain"@),
            f.read::<usize>("every"@),
            f.unknown(seq!["enabled"@, "freq"@, "decay_ms"@, "gain"@, "every"@]),
        ) {
            (Err(e), _, _, _, _, _) => Err(e),
            (_, Err(e), _, _, _, _) => Err(e),
            (_, _, Err(e), _, _, _) => Err(e),
            (_, _, _, Err(e), _, _) => Err(e),
            (_, _, _, _, Err(e), _) => Err(e),
            (_, _, _, _, _, Some(e)) => Err(e),
            (Ok(enabled), Ok(freq), Ok(decay_ms), Ok(gain), Ok(every), None) => match switch_of(
                enabled,
                current.enabled,
            ) {
                Err(e) => Err(e),
                Ok(on) => Ok(
                    (Sound {
                        enabled: on,
                        freq: either(freq, current.freq),
                        decay_ms: either(decay_ms, current.decay_ms),
                        gain: either(gain, current.gain),
                        every: either(every, current.every),
                    }),
                ),
            },
        },
    }
}

/// `on`, `off`, `freq=1800,gain=0.3`.
pub fn parse_sound(spec: &str, current: &Sound) -> (r: Result<Sound, Error>)
    ensures
        crate::error::told(r) == sound_of(spec@, *current),
{
    let mut s: Spec = match Spec::parse("--sound", spec) {
        Ok(s) => s,
        Err(e) => return Err(e),
    };
    let ghost f = s@;
    proof {
        crate::spec::lemma_parsed_wf("--sound"@, spec@);
        crate::spec::lemma_after_none(f);
        reveal_strlit("enabled");
        reveal_strlit("freq");
        reveal_strlit("decay_ms");
        reveal_strlit("gain");
        reveal_strlit("every");
        assert("freq"@[0] != "gain"@[0]);
        let k0 = Seq::<Seq<char>>::empty();
        crate::spec::lemma_after(f, k0, "enabled"@);
        let k1 = k0.push("enabled"@);
        crate::spec::lemma_after(f, k1, "freq"@);
        let k2 = k1.push("freq"@);
        crate::spec::lemma_after(f, k2, "decay_ms"@);
        let k3 = k2.push("decay_ms"@);
        crate::spec::lemma_after(f, k3, "gain"@);
        let k4 = k3.push("gain"@);
        crate::spec::lemma_after(f, k4, "every"@);
        assert(k4.push("every"@) =~= seq!["enabled"@, "freq"@, "decay_ms"@, "gain"@, "every"@]);
    }
    let enabled: Option<&str> = match s.headline("enabled") {
        Ok(v) => v,
        Err(e) => return Err(e),
    };
    let freq: Option<Double> = match s.take_parsed::<Double>("freq") {
        Ok(v) => v,
        Err(e) => return Err(e),
    };
    let decay_ms: Option<Double> = match s.take_parsed::<Double>("decay_ms") {
        Ok(v) => v,
        Err(e) => return Err(e),
    };
    let gain: Option<Double> = match s.take_parsed::<Double>("gain") {
        Ok(v) => v,
        Err(e) => return Err(e),
    };
    let every: Option<usize> = match s.take_parsed::<usize>("every") {
        Ok(v) => v,
        Err(e) => return Err(e),
    };
    match s.finish() {
        Ok(()) => {},
        Err(e) => return Err(e),
    }
    let on: bool = match enabled {
        None => current.enabled,
        Some(v) => if crate::text::same(v, "on") || crate::text::same(v, "true") {
            true
        } else if crate::text::same(v, "off") || crate::text::same(v, "false") {
            false
        } else {
            return Err(refuse("--sound: ", v, " is not on or off"));
        },
    };
    Ok(
        Sound {
            enabled: on,
            freq: or_current(freq, current.freq),
            decay_ms: or_current(decay_ms, current.decay_ms),
            gain: or_current(gain, current.gain),
            every: or_current(every, current.every),
        },
    )
}

/// The options of the command line that describe a style. What is not given
/// keeps the preset's value.
#[derive(Clone, Debug, Default)]
pub struct Overrides {
    pub font: Option<String>,
    pub color: Option<String>,
    pub outline: Option<String>,
    pub glow: Option<String>,
    pub scanlines: Option<String>,
    /// Hold time in seconds.
    pub timeout: Option<Double>,
    pub position: Option<String>,
    pub margin: Option<i32>,
    pub width: Option<i32>,
    pub lines: Option<usize>,
    pub line_align: Option<String>,
    pub reveal: Option<String>,
    pub vanish: Option<String>,
    pub sound: Option<String>,
}

/// The options, by their texts and numbers.
#[verifier::ext_equal]
pub ghost struct OverridesView {
    pub font: Option<Seq<char>>,
    pub color: Option<Seq<char>>,
    pub outline: Option<Seq<char>>,
    pub glow: Option<Seq<char>>,
    pub scanlines: Option<Seq<char>>,
    pub timeout: Option<Double>,
    pub position: Option<Seq<char>>,
    pub margin: Option<i32>,
    pub width: Option<i32>,
    pub lines: Option<usize>,
    pub line_align: Option<Seq<char>>,
    pub reveal: Option<Seq<char>>,
    pub vanish: Option<Seq<char>>,
    pub sound: Option<Seq<char>>,
}

impl View for Overrides {
    type V = OverridesView;

    open spec fn view(&self) -> OverridesView {
        OverridesView {
            font: crate::config::string_of(self.font),
            color: crate::config::string_of(self.color),
            outline: crate::config::string_of(self.outline),
            glow: crate::config::string_of(self.glow),
            scanlines: crate::config::string_of(self.scanlines),
            timeout: self.timeout,
            position: crate::config::string_of(self.position),
            margin: self.margin,
            width: self.width,
            lines: self.lines,
            line_align: crate::config::string_of(self.line_align),
            reveal: crate::config::string_of(self.reveal),
            vanish: crate::config::string_of(self.vanish),
            sound: crate::config::string_of(self.sound),
        }
    }
}

/// A style with another font and colour.
pub open spec fn with_text(s: crate::config::StyleView, o: OverridesView) -> crate::config::StyleView {
    crate::config::StyleView { font: either(o.font, s.font), color: either(o.color, s.color), ..s }
}

/// A style with another outline.
pub open spec fn with_outline(s: crate::config::StyleView, o: OverridesView) -> Result<
    crate::config::StyleView,
    Seq<char>,
> {
    match o.outline {
        None => Ok(s),
        Some(text) => match outline_of(text, s.outline, s.outline_width) {
            Ok((c, w)) => Ok((crate::config::StyleView { outline: c, outline_width: w, ..s })),
            Err(e) => Err(e),
        },
    }
}

/// A style with another glow.
pub open spec fn with_glow(s: crate::config::StyleView, o: OverridesView) -> Result<
    crate::config::StyleView,
    Seq<char>,
> {
    match o.glow {
        None => Ok(s),
        Some(text) => match glow_spec(text, s.glow) {
            Ok(g) => Ok((crate::config::StyleView { glow: g, ..s })),
            Err(e) => Err(e),
        },
    }
}

/// A style with another raster.
pub open spec fn with_scanlines(s: crate::config::StyleView, o: OverridesView) -> Result<
    crate::config::StyleView,
    Seq<char>,
> {
    match o.scanlines {
        None => Ok(s),
        Some(text) => match scanlines_of(text, s.scanlines) {
            Ok(sl) => Ok((crate::config::StyleView { scanlines: sl, ..s })),
            Err(e) => Err(e),
        },
    }
}

/// A style with another hold time. Seconds are held to an hour before they
/// become milliseconds.
pub open spec fn with_timeout(s: crate::config::StyleView, o: OverridesView) -> Result<
    crate::config::StyleView,
    Seq<char>,
> {
    match o.timeout {
        None => Ok(s),
        Some(t) => if crate::config::within(0, t, 3600) {
            Ok(
                (crate::config::StyleView {
                    timeout_ms: t.product(Double::whole(1000)).floor_word() as u64,
                    ..s
                }),
            )
        } else {
            Err("--timeout must be between 0 and 3600 seconds"@)
        },
    }
}

/// A style with another placement.
pub open spec fn with_position(s: crate::config::StyleView, o: OverridesView) -> Result<
    crate::config::StyleView,
    Seq<char>,
> {
    match o.position {
        None => Ok(s),
        Some(text) => match position_of(text, (s.halign, s.valign)) {
            Ok((h, v)) => Ok((crate::config::StyleView { halign: h, valign: v, ..s })),
            Err(e) => Err(e),
        },
    }
}

/// A style with another margin, width and number of lines.
pub open spec fn with_block(s: crate::config::StyleView, o: OverridesView) -> crate::config::StyleView {
    crate::config::StyleView {
        margin: either(o.margin, s.margin),
        width: if o.width is Some {
            o.width
        } else {
            s.width
        },
        lines: if o.lines is Some {
            o.lines
        } else {
            s.lines
        },
        ..s
    }
}

/// A style with another alignment of lines.
pub open spec fn with_line_align(s: crate::config::StyleView, o: OverridesView) -> Result<
    crate::config::StyleView,
    Seq<char>,
> {
    match o.line_align {
        None => Ok(s),
        Some(text) => match line_align_of(text) {
            Ok(a) => Ok((crate::config::StyleView { line_align: a, ..s })),
            Err(e) => Err(e),
        },
    }
}

/// A style with another reveal.
pub open spec fn with_reveal(s: crate::config::StyleView, o: OverridesView) -> Result<
    crate::config::StyleView,
    Seq<char>,
> {
    match o.reveal {
        None => Ok(s),
        Some(text) => match reveal_of(text, s.reveal) {
            Ok(v) => Ok((crate::config::StyleView { reveal: v, ..s })),
            Err(e) => Err(e),
        },
    }
}

/// A style with another vanish.
pub open spec fn with_vanish(s: crate::config::StyleView, o: OverridesView) -> Result<
    crate::config::StyleView,
    Seq<char>,
> {
    match o.vanish {
        None => Ok(s),
        Some(text) => match vanish_of(text, s.vanish) {
            Ok(v) => Ok((crate::config::StyleView { vanish: v, ..s })),
            Err(e) => Err(e),
        },
    }
}

/// A style with another sound.
pub open spec fn with_sound(s: crate::config::StyleView, o: OverridesView) -> Result<
    crate::config::StyleView,
    Seq<char>,
> {
    match o.sound {
        None => Ok(s),
        Some(text) => match sound_of(text, s.sound) {
            Ok(v) => Ok((crate::config::StyleView { sound: v, ..s })),
            Err(e) => Err(e),
        },
    }
}

/// A style on its way through the options, and the refusal that stopped it.
pub open spec fn and_then(
    at: (crate::config::StyleView, Option<Seq<char>>),
    next: Result<crate::config::StyleView, Seq<char>>,
) -> (crate::config::StyleView, Option<Seq<char>>) {
    if at.1 is Some {
        at
    } else {
        match next {
            Ok(s) => (s, None),
            Err(e) => (at.0, Some(e)),
        }
    }
}

/// What the options make of a style: the options are taken in order, and the
/// first refusal stops them.
pub open spec fn applied(s: crate::config::StyleView, o: OverridesView) -> (
    crate::config::StyleView,
    Option<Seq<char>>,
) {
    let a = (with_text(s, o), None::<Seq<char>>);
    let a = and_then(a, with_outline(a.0, o));
    let a = and_then(a, with_glow(a.0, o));
    let a = and_then(a, with_scanlines(a.0, o));
    let a = and_then(a, with_timeout(a.0, o));
    let a = and_then(a, with_position(a.0, o));
    let a = and_then(a, Ok(with_block(a.0, o)));
    let a = and_then(a, with_line_align(a.0, o));
    let a = and_then(a, with_reveal(a.0, o));
    let a = and_then(a, with_vanish(a.0, o));
    and_then(a, with_sound(a.0, o))
}

fn apply_edges(style: &mut Style, o: &Overrides) -> (r: Result<(), Error>)
    ensures
        ({
            let a = (old(style)@, None::<Seq<char>>);
            let a = and_then(a, with_outline(a.0, o@));
            let a = and_then(a, with_glow(a.0, o@));
            let a = and_then(a, with_scanlines(a.0, o@));
            final(style)@ == a.0 && (match r {
                Ok(()) => a.1 is None,
                Err(e) => a.1 == Some(e@),
            })
        }),
{
    if let Some(text) = &o.outline {
        let current: Option<&str> = match &style.outline {
            Some(c) => Some(c.as_str()),
            None => None,
        };
        match parse_outline(text.as_str(), current, style.outline_width) {
            Ok((colour, width)) => {
                style.outline = colour;
                style.outline_width = width;
            },
            Err(e) => return Err(e),
        }
    }
    if let Some(text) = &o.glow {
        match parse_glow(text.as_str(), &style.glow) {
            Ok(g) => {
                style.glow = g;
            },
            Err(e) => return Err(e),
        }
    }
    if let Some(text) = &o.scanlines {
        match parse_scanlines(text.as_str(), style.scanlines) {
            Ok(sl) => {
                style.scanlines = sl;
            },
            Err(e) => return Err(e),
        }
    }
    Ok(())
}

fn apply_place(style: &mut Style, o: &Overrides) -> (r: Result<(), Error>)
    ensures
        ({
            let a = (old(style)@, None::<Seq<char>>);
            let a = and_then(a, with_timeout(a.0, o@));
            let a = and_then(a, with_position(a.0, o@));
            let a = and_then(a, Ok(with_block(a.0, o@)));
            let a = and_then(a, with_line_align(a.0, o@));
            final(style)@ == a.0 && (match r {
                Ok(()) => a.1 is None,
                Err(e) => a.1 == Some(e@),
            })
        }),
{
    if let Some(t) = o.timeout {
        // Check seconds before the conversion, which would turn negatives
        // into zero.
        if !(Double::from_word(0).le(t) && t.le(Double::from_word(3600))) {
            return Err(Error::new("--timeout must be between 0 and 3600 seconds".to_owned()));
        }
        style.timeout_ms = t.times(Double::from_word(1000)).to_word();
    }
    if let Some(text) = &o.position {
        match parse_position(text.as_str(), style.halign, style.valign) {
            Ok((h, v)) => {
                style.halign = h;
                style.valign = v;
            },
            Err(e) => return Err(e),
        }
    }
    if let Some(m) = o.margin {
        style.margin = m;
    }
    if let Some(w) = o.width {
        style.width = Some(w);
    }
    if let Some(n) = o.lines {
        style.lines = Some(n);
    }
    if let Some(text) = &o.line_align {
        match parse_line_align(text.as_str()) {
            Ok(a) => {
                style.line_align = a;
            },
            Err(e) => return Err(e),
        }
    }
    Ok(())
}

fn apply_effects(style: &mut Style, o: &Overrides) -> (r: Result<(), Error>)
    ensures
        ({
            let a = (old(style)@, None::<Seq<char>>);
            let a = and_then(a, with_reveal(a.0, o@));
            let a = and_then(a, with_vanish(a.0, o@));
            let a = and_then(a, with_sound(a.0, o@));
            final(style)@ == a.0 && (match r {
                Ok(()) => a.1 is None,
                Err(e) => a.1 == Some(e@),
            })
        }),
{
    if let Some(text) = &o.reveal {
        match parse_reveal(text.as_str(), &style.reveal) {
            Ok(v) => {
                style.reveal = v;
            },
            Err(e) => return Err(e),
        }
    }
    if let Some(text) = &o.vanish {
        match parse_vanish(text.as_str(), &style.vanish) {
            Ok(v) => {
                style.vanish = v;
            },
            Err(e) => return Err(e),
        }
    }
    if let Some(text) = &o.sound {
        match parse_sound(text.as_str(), &style.sound) {
            Ok(v) => {
                style.sound = v;
            },
            Err(e) => return Err(e),
        }
    }
    Ok(())
}

/// Apply the command line over the preset, preserving omitted values. The
/// resulting style is still to be validated.
pub fn apply_overrides(style: &mut Style, cli: &Overrides) -> (r: Result<(), Error>)
    ensures
        final(style)@ == applied(old(style)@, cli@).0,
        match r {
            Ok(()) => applied(old(style)@, cli@).1 is None,
            Err(e) => applied(old(style)@, cli@).1 == Some(e@),
        },
{
    if let Some(f) = &cli.font {
        style.font = f.clone();
    }
    if let Some(c) = &cli.color {
        style.color = c.clone();
    }
    assert(style@ == with_text(old(style)@, cli@));
    match apply_edges(style, cli) {
        Ok(()) => {},
        Err(e) => return Err(e),
    }
    match apply_place(style, cli) {
        Ok(()) => {},
        Err(e) => return Err(e),
    }
    apply_effects(style, cli)
}

/// Without options the style stays as it is.
pub proof fn lemma_no_overrides(s: crate::config::StyleView, o: OverridesView)
    requires
        o.font is None,
        o.color is None,
        o.outline is None,
        o.glow is None,
        o.scanlines is None,
        o.timeout is None,
        o.position is None,
        o.margin is None,
        o.width is None,
        o.lines is None,
        o.line_align is None,
        o.reveal is None,
        o.vanish is None,
        o.sound is None,
    ensures
        applied(s, o) == (s, None::<Seq<char>>),
{
}

/// Each option reaches its own fields and no others: whatever the options, a
/// field whose option is not given keeps its value.
pub proof fn lemma_omitted_fields_stay(s: crate::config::StyleView, o: OverridesView)
    ensures
        ({
            let t = applied(s, o).0;
            &&& o.font is None ==> t.font == s.font
            &&& o.color is None ==> t.color == s.color
            &&& o.outline is None ==> t.outline == s.outline && t.outline_width == s.outline_width
            &&& o.glow is None ==> t.glow == s.glow
            &&& o.scanlines is None ==> t.scanlines == s.scanlines
            &&& o.timeout is None ==> t.timeout_ms == s.timeout_ms
            &&& o.position is None ==> t.halign == s.halign && t.valign == s.valign
            &&& o.margin is None ==> t.margin == s.margin
            &&& o.width is None ==> t.width == s.width
            &&& o.lines is None ==> t.lines == s.lines
            &&& o.line_align is None ==> t.line_align == s.line_align
            &&& o.reveal is None ==> t.reveal == s.reveal
            &&& o.vanish is None ==> t.vanish == s.vanish
            &&& o.sound is None ==> t.sound == s.sound
        }),
{
}

/// Whether a spec gives a field a value.
pub open spec fn gives(f: crate::spec::Fields, key: Seq<char>) -> bool {
    crate::spec::value_of(f.pairs, key) is Some
}

/// Whether a spec gives its primary field a value, bare or named.
pub open spec fn gives_first(f: crate::spec::Fields, key: Seq<char>) -> bool {
    f.bare is Some || gives(f, key)
}

/// The fields that `--glow` does not mention keep the preset's values, or the
/// built-in ones where the preset has no halo.
pub proof fn lemma_glow_keeps(text: Seq<char>, current: Option<crate::config::GlowView>)
    requires
        glow_spec(text, current) matches Ok(Some(_)),
    ensures
        ({
            let f = crate::spec::parsed("--glow"@, text)->Ok_0;
            let g = glow_spec(text, current)->Ok_0->0;
            let base = either(current, crate::config::default_glow());
            &&& !gives_first(f, "color"@) ==> g.color == base.color
            &&& !gives(f, "radius"@) ==> g.radius == base.radius
            &&& !gives(f, "alpha"@) ==> g.alpha == base.alpha
        }),
{
}

/// The fields that `--outline` does not mention keep the preset's values, and
/// switching the stroke off keeps its width.
pub proof fn lemma_outline_keeps(
    text: Seq<char>,
    colour: Option<Seq<char>>,
    width: Option<Double>,
)
    requires
        outline_of(text, colour, width) is Ok,
    ensures
        ({
            let f = crate::spec::parsed("--outline"@, text)->Ok_0;
            let (c, w) = outline_of(text, colour, width)->Ok_0;
            &&& !gives_first(f, "color"@) ==> c == colour
            &&& !gives(f, "width"@) ==> w == width
            &&& c is None && colour is Some ==> w == width
        }),
{
}

/// The fields that `--scanlines` does not mention keep the preset's values, or
/// the built-in ones where the preset has no raster.
pub proof fn lemma_scanlines_keep(text: Seq<char>, current: Option<Scanlines>)
    requires
        scanlines_of(text, current) matches Ok(Some(_)),
    ensures
        ({
            let f = crate::spec::parsed("--scanlines"@, text)->Ok_0;
            let s = scanlines_of(text, current)->Ok_0->0;
            let base = either(current, crate::config::default_scanlines());
            &&& !gives_first(f, "period"@) ==> s.period == base.period
            &&& !gives(f, "strength"@) ==> s.strength == base.strength
            &&& !gives(f, "duty"@) ==> s.duty == base.duty
        }),
{
}

/// An axis that `--position` does not mention stays where the preset has it.
pub proof fn lemma_position_keeps(text: Seq<char>, current: (HAlign, VAlign))
    requires
        position_of(text, current) is Ok,
    ensures
        ({
            let f = crate::spec::parsed("--position"@, text)->Ok_0;
            let at = position_of(text, current)->Ok_0;
            &&& f.bare is None && !gives(f, "halign"@) ==> at.0 == current.0
            &&& f.bare is None && !gives(f, "valign"@) ==> at.1 == current.1
        }),
{
}

/// The fields that `--reveal` does not mention keep the preset's values.
/// Typewriter fields are accepted only over a typewriter preset or with an
/// explicit kind.
pub proof fn lemma_reveal_keeps(text: Seq<char>, current: Reveal)
    requires
        reveal_of(text, current) is Ok,
    ensures
        ({
            let f = crate::spec::parsed("--reveal"@, text)->Ok_0;
            let r = reveal_of(text, current)->Ok_0;
            &&& !gives_first(f, "kind"@) ==> current is Typewriter
            &&& r is Instant ==> f.headline_of("kind"@) == Ok::<Option<Seq<char>>, Seq<char>>(
                Some("instant"@),
            )
            &&& (match (r, current) {
                (
                    Reveal::Typewriter { cps, cursor, jitter, scroll },
                    Reveal::Typewriter { cps: c, cursor: k, jitter: j, scroll: s },
                ) => {
                    &&& !gives(f, "cps"@) ==> cps == c
                    &&& !gives(f, "cursor"@) ==> cursor == k
                    &&& !gives(f, "jitter"@) ==> jitter == j
                    &&& !gives(f, "scroll"@) ==> scroll == s
                },
                _ => true,
            })
        }),
{
}

/// Without a kind `--vanish` keeps the preset's effect, and without a duration
/// the effect lasts as long as the preset's, or the built-in time where the
/// preset's is instant. A wash keeps its direction.
pub proof fn lemma_vanish_keeps(text: Seq<char>, current: Vanish)
    requires
        vanish_of(text, current) is Ok,
    ensures
        ({
            let f = crate::spec::parsed("--vanish"@, text)->Ok_0;
            let v = vanish_of(text, current)->Ok_0;
            &&& !gives_first(f, "kind"@) ==> v.name() == current.name()
            &&& !gives(f, "ms"@) && v !is Instant ==> v.duration() == if current is Instant {
                DEFAULT_VANISH_MS
            } else {
                current.duration()
            }
            &&& !gives(f, "dir"@) && v is Wash && current is Wash ==> v->dir == current->dir
        }),
{
}

/// The fields that `--sound` does not mention keep the preset's values.
pub proof fn lemma_sound_keeps(text: Seq<char>, current: Sound)
    requires
        sound_of(text, current) is Ok,
    ensures
        ({
            let f = crate::spec::parsed("--sound"@, text)->Ok_0;
            let s = sound_of(text, current)->Ok_0;
            &&& !gives_first(f, "enabled"@) ==> s.enabled == current.enabled
            &&& !gives(f, "freq"@) ==> s.freq == current.freq
            &&& !gives(f, "decay_ms"@) ==> s.decay_ms == current.decay_ms
            &&& !gives(f, "gain"@) ==> s.gain == current.gain
            &&& !gives(f, "every"@) ==> s.every == current.every
        }),
{
}

} // verus!
