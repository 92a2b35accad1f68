//! On which terms things are accepted and refused: styles, specs, messages,
//! datagrams, paths; and what a listener makes of a message.
use crate::config::{Reveal, StyleError, StyleView};
use crate::double::Double;
use crate::listen::Decision;
use crate::near::close;
use crate::presets::Tree;
use crate::timeline::Phase;
use vstd::prelude::*;

verus! {

/// A finding names a value of the style that is out of its range, and its number
/// is that value.
pub proof fn lemma_finding_is_true(s: StyleView)
    ensures
        match crate::config::fault(s) {
            None => true,
            Some(e) => match e {
                StyleError::Timeout(ms) => ms == s.timeout_ms && ms > 3_600_000,
                StyleError::OutlineWidth(d) => s.outline_width == Some(d)
                    && !crate::config::between(0, d, 128) && e.number() == Some(d),
                StyleError::Jitter(d) => s.reveal is Typewriter && s.reveal->jitter == d
                    && !crate::config::between(0, d, 1) && e.number() == Some(d),
                StyleError::CpsNotFinite => s.reveal is Typewriter && !s.reveal->cps.finite(),
                StyleError::CpsNotPositive(d) => s.reveal is Typewriter && s.reveal->cps == d
                    && d.finite() && d.value() <= 0 && e.number() == Some(d),
                StyleError::VanishMs(ms) => ms == s.vanish.duration() && ms > 3_600_000,
                StyleError::GlowRadius(d) => s.glow is Some && s.glow->0.radius == d
                    && !crate::config::between(0, d, 128) && e.number() == Some(d),
                StyleError::GlowAlpha(d) => s.glow is Some && s.glow->0.alpha == d
                    && !crate::config::between(0, d, 1) && e.number() == Some(d),
                StyleError::Width(w) => s.width == Some(w) && !(1 <= w <= 16384),
                StyleError::Lines(n) => s.lines == Some(n) && !(1 <= n <= 256),
                StyleError::ScanlinePeriod(d) => s.scanlines is Some && s.scanlines->0.period == d
                    && !crate::config::between(2, d, 128) && e.number() == Some(d),
                StyleError::ScanlineStrength(d) => s.scanlines is Some
                    && s.scanlines->0.strength == d && !crate::config::between(0, d, 1)
                    && e.number() == Some(d),
                StyleError::ScanlineDuty(d) => s.scanlines is Some && s.scanlines->0.duty == d && !(
                crate::config::between(0, d, 1) && d.value() < crate::double::one()) && e.number()
                    == Some(d),
                StyleError::SoundEvery(n) => s.sound.every == n && n == 0,
                StyleError::SoundFreq(d) => s.sound.freq == d && !crate::config::between(
                    100,
                    d,
                    8000,
                ) && e.number() == Some(d),
                StyleError::SoundDecay(d) => s.sound.decay_ms == d && !crate::config::between(
                    10,
                    d,
                    3000,
                ) && e.number() == Some(d),
                StyleError::SoundGain(d) => s.sound.gain == d && !crate::config::between(0, d, 1)
                    && e.number() == Some(d),
            },
        },
{
    crate::order::lemma_whole(0);
    crate::order::lemma_whole(1);
    assert(0 * crate::double::one() == 0);
    match s.outline_width {
        Some(w) => crate::config::lemma_within(0, w, 128),
        None => {},
    }
    match s.reveal {
        Reveal::Typewriter { jitter, .. } => crate::config::lemma_within(0, jitter, 1),
        Reveal::Instant => {},
    }
    match s.glow {
        Some(g) => {
            crate::config::lemma_within(0, g.radius, 128);
            crate::config::lemma_within(0, g.alpha, 1);
        },
        None => {},
    }
    match s.scanlines {
        Some(sl) => {
            crate::config::lemma_within(2, sl.period, 128);
            crate::config::lemma_within(0, sl.strength, 1);
        },
        None => {},
    }
    crate::config::lemma_within(100, s.sound.freq, 8000);
    crate::config::lemma_within(10, s.sound.decay_ms, 3000);
    crate::config::lemma_within(0, s.sound.gain, 1);
}

/// The key of a field, where it has one.
pub open spec fn key_of(item: Seq<char>) -> Option<Seq<char>> {
    match crate::text::cut(crate::text::trimmed(item), '=') {
        Some((left, _)) => Some(crate::text::trimmed(left)),
        None => None,
    }
}

/// Whether a field may stand at its place: a key and a value that are not empty,
/// or a bare value at the start that is not in the old form.
pub open spec fn may_stand(item: Seq<char>, i: int) -> bool {
    let t = crate::text::trimmed(item);
    match crate::text::cut(t, '=') {
        Some((left, right)) => crate::text::trimmed(left).len() > 0 && crate::text::trimmed(
            right,
        ).len() > 0,
        None => t.len() > 0 && i == 0 && !t.contains(':'),
    }
}

/// A spec is accepted exactly where it says something, every field may stand
/// where it does, and no key is given twice.
pub proof fn lemma_spec_accepted(flag: Seq<char>, text: Seq<char>)
    ensures
        crate::spec::parsed(flag, text) is Ok <==> {
            let items = crate::spec::fields(text);
            &&& crate::text::trimmed(text).len() > 0
            &&& forall|i: int| 0 <= i < items.len() ==> may_stand(#[trigger] items[i], i)
            &&& forall|i: int, j: int|
                0 <= i < j < items.len() && key_of(#[trigger] items[i]) is Some ==> key_of(items[i])
                    != key_of(#[trigger] items[j])
        },
{
    lemma_gathered_accepted(flag, text, crate::spec::fields(text));
}

proof fn lemma_gathered_accepted(flag: Seq<char>, text: Seq<char>, items: Seq<Seq<char>>)
    ensures
        crate::spec::gathered(flag, text, items) is Ok <==> {
            &&& forall|i: int| 0 <= i < items.len() ==> may_stand(#[trigger] items[i], i)
            &&& forall|i: int, j: int|
                0 <= i < j < items.len() && key_of(#[trigger] items[i]) is Some ==> key_of(items[i])
                    != key_of(#[trigger] items[j])
        },
    decreases items.len(),
{
    if items.len() > 0 {
        let rest = items.drop_last();
        let last = items.last();
        let n = items.len() - 1;
        lemma_gathered_accepted(flag, text, rest);
        assert(items[n] == last);
        let stand = forall|i: int| 0 <= i < items.len() ==> may_stand(#[trigger] items[i], i);
        let apart = forall|i: int, j: int|
            0 <= i < j < items.len() && key_of(#[trigger] items[i]) is Some ==> key_of(items[i])
                != key_of(#[trigger] items[j]);
        if crate::spec::gathered(flag, text, rest) is Err {
            if stand && apart {
                assert forall|i: int| 0 <= i < rest.len() implies may_stand(
                    #[trigger] rest[i],
                    i,
                ) by {
                    assert(rest[i] == items[i]);
                }
                assert forall|i: int, j: int|
                    0 <= i < j < rest.len() && key_of(#[trigger] rest[i]) is Some implies key_of(
                    rest[i],
                ) != key_of(#[trigger] rest[j]) by {
                    assert(rest[i] == items[i] && rest[j] == items[j]);
                }
                assert(false);
            }
        } else {
            let before = crate::spec::gathered(flag, text, rest)->Ok_0;
            crate::spec::lemma_gathered_holds(flag, text, rest);
            crate::spec::lemma_gathered_wf(flag, text, rest);
            assert forall|i: int| 0 <= i < rest.len() implies may_stand(
                #[trigger] items[i],
                i,
            ) by {
                assert(rest[i] == items[i]);
            }
            let b: int = if before.bare is Some {
                1
            } else {
                0
            };
            if key_of(last) is Some {
                let key = key_of(last)->0;
                crate::spec::lemma_place(before.pairs, key);
                let p = crate::spec::place(before.pairs, key);
                if p < before.pairs.len() {
                    assert(crate::spec::spells(rest[b + p], before.pairs[p]));
                    assert(items[b + p] == rest[b + p]);
                    assert(key_of(items[b + p]) == key_of(items[n]));
                    assert(!apart);
                } else {
                    assert forall|i: int, j: int|
                        0 <= i < j < items.len() && key_of(
                            #[trigger] items[i],
                        ) is Some implies key_of(items[i]) != key_of(#[trigger] items[j]) by {
                        assert(rest[i] == items[i]);
                        if j < n {
                            assert(rest[j] == items[j]);
                        } else {
                            if i >= b {
                                assert(crate::spec::spells(rest[b + (i - b)], before.pairs[i - b]));
                                assert(before.pairs[i - b].0 != key);
                            }
                        }
                    }
                }
            } else {
                assert forall|i: int, j: int|
                    0 <= i < j < items.len() && key_of(#[trigger] items[i]) is Some implies key_of(
                    items[i],
                ) != key_of(#[trigger] items[j]) by {
                    assert(rest[i] == items[i]);
                    if j < n {
                        assert(rest[j] == items[j]);
                    }
                }
            }
            if crate::spec::gathered(flag, text, items) is Ok {
                assert(may_stand(items[n], n));
            } else if stand && apart {
                assert(may_stand(items[n], n));
            }
        }
    }
}

/// A message comes through as it is but for the newlines at its end, and is
/// refused exactly where it is longer than 100000 characters without them.
pub proof fn lemma_message_text(t: Seq<char>, n: nat)
    requires
        t.len() > 0 ==> t.last() != '\n',
    ensures
        ({
            let text = t + Seq::new(n, |i: int| '\n');
            &&& t.len() <= 100_000 ==> crate::message::trimmed_text(text) == Ok::<
                Seq<char>,
                Seq<char>,
            >(t)
            &&& t.len() > 100_000 ==> crate::message::trimmed_text(text) is Err
            &&& crate::message::argument_text(text, true) == crate::message::trimmed_text(text)
            &&& crate::listen::shown_of(text) == if t.len() == 0 {
                None
            } else {
                Some(t)
            }
        }),
    decreases n,
{
    let text = t + Seq::new(n, |i: int| '\n');
    if n > 0 {
        lemma_message_text(t, (n - 1) as nat);
        assert(text.drop_last() =~= t + Seq::new((n - 1) as nat, |i: int| '\n'));
        assert(text.last() == '\n');
    } else {
        assert(text =~= t);
    }
}

/// The message of an argument has its escapes expanded, unless it is taken raw.
pub proof fn lemma_argument(text: Seq<char>)
    requires
        text.len() <= 100_000,
        text.len() > 0 ==> text.last() != '\n',
    ensures
        crate::message::argument_text(crate::wording::escaped(text), false) == Ok::<
            Seq<char>,
            Seq<char>,
        >(text),
        crate::message::argument_text(text, true) == Ok::<Seq<char>, Seq<char>>(text),
{
    crate::wording::lemma_unescaped_undoes(text);
}

/// A text that is piped in is read whole, and what is too long or not UTF-8 is
/// refused.
pub proof fn lemma_stream(text: Seq<char>, bytes: Seq<u8>)
    ensures
        vstd::utf8::encode_utf8(text).len() < 400_001 ==> crate::message::stream_text(
            vstd::utf8::encode_utf8(text),
        ) == Ok::<Seq<char>, Seq<char>>(text),
        crate::message::stream_text(bytes) is Ok <==> bytes.len() < 400_001
            && vstd::utf8::valid_utf8(bytes),
        crate::message::stream_text(bytes) matches Ok(t) ==> vstd::utf8::encode_utf8(t) == bytes,
{
    vstd::utf8::encode_utf8_valid_utf8(text);
    vstd::utf8::encode_utf8_decode_utf8(text);
    if vstd::utf8::valid_utf8(bytes) {
        vstd::utf8::decode_utf8_encode_utf8(bytes);
    }
}

/// A datagram is read exactly where it did not fill the buffer and is UTF-8, and
/// then as it was sent; a sender refuses what would not fit.
pub proof fn lemma_datagram(buf: Seq<u8>, n: int, text: Seq<char>)
    requires
        0 <= n <= buf.len(),
    ensures
        crate::ipc::said(buf, n) is Ok <==> n < buf.len() && vstd::utf8::valid_utf8(buf.take(n)),
        crate::ipc::said(buf, n) matches Ok(t) ==> vstd::utf8::encode_utf8(t) == buf.take(n),
        crate::ipc::oversize(text) is None <==> vstd::utf8::encode_utf8(text).len() <= 400_000,
{
    if vstd::utf8::valid_utf8(buf.take(n)) {
        vstd::utf8::decode_utf8_encode_utf8(buf.take(n));
    }
}

/// What a listener does with a message: while a block is typed or held the
/// message becomes its last line; while it vanishes the message waits; else it
/// starts a block of its own. Messages that waited become one block, a line each.
pub proof fn lemma_listener(
    up: Option<(Seq<char>, Phase)>,
    cap: nat,
    text: Seq<char>,
    held: Seq<Seq<char>>,
)
    requires
        cap > 0,
    ensures
        match crate::listen::decided(up, cap, text) {
            Decision::Wait { text: t } => up is Some && (up->0).1 is Vanish && t == text,
            Decision::Put { text: block, shown } => if up is Some && ((up->0).1 is Reveal
                || (up->0).1 is Hold) {
                &&& shown <= block.len()
                &&& block.skip(shown as int) == text
                &&& shown > 0 ==> block[shown - 1] == '\n'
                &&& shown > 0 <==> (up->0).0.len() > 0 && cap > 1
                &&& shown > 0 ==> block.take(shown - 1) == (up->0).0.skip(
                    (up->0).0.len() - (shown - 1),
                )
                &&& shown > 0 && crate::text::pieces((up->0).0, '\n').len() < cap ==> shown - 1
                    == (up->0).0.len()
            } else {
                block == text && shown == 0 && !(up is Some && (up->0).1 is Vanish)
            },
        },
        match crate::listen::released(held) {
            Some(d) => held.len() > 0 && d == (Decision::Put {
                text: crate::text::joined(held, seq!['\n']),
                shown: 0,
            }),
            None => held.len() == 0,
        },
{
    if up is Some {
        crate::listen::lemma_only_the_message_is_typed((up->0).0, cap, text);
        let block = crate::listen::put_grown((up->0).0, cap, text);
        let current = (up->0).0;
        let all = crate::listen::lines_of(current);
        let lines = crate::listen::grown(current, cap, text);
        crate::text::lemma_pieces_joined(current, '\n');
        if lines.len() == all.len() + 1 {
            assert(lines.drop_last() =~= all);
        }
        if let Decision::Put { text: b, shown } = block {
            if shown > 0 {
                assert(b.take(shown as int)[shown - 1] == b[shown - 1]);
                assert(b.take(shown - 1) =~= b.take(shown as int).drop_last());
                assert(b.take(shown - 1) =~= current.skip(current.len() - (shown - 1)));
            }
        }
    }
}

/// The lines of a block that are kept are its last ones, as many as there is
/// room for beside the new one.
pub proof fn lemma_kept_lines(current: Seq<char>, cap: nat, text: Seq<char>)
    requires
        cap > 0,
    ensures
        ({
            let all = crate::listen::lines_of(current);
            let lines = crate::listen::grown(current, cap, text);
            &&& lines.len() == if all.len() + 1 <= cap {
                all.len() + 1
            } else {
                cap
            }
            &&& lines.last() == text
            &&& forall|i: int|
                0 <= i < lines.len() - 1 ==> #[trigger] lines[i] == all[all.len() + 1 - lines.len()
                    + i]
            &&& current.len() == 0 <==> all.len() == 0
        }),
{
    crate::text::lemma_pieces_joined(current, '\n');
}

/// A listener waits as long as the vanish has left, and a hundredth of a second.
pub proof fn lemma_wait(left: Double)
    requires
        left.finite(),
        left.value() <= 0x1_0000_0000 * crate::double::one(),
    ensures
        ({
            let w = crate::double::one() as int;
            let rest = if left.value() > 0 {
                left.value()
            } else {
                0
            };
            close(
                1000 * crate::listen::wait_of(left).value(),
                rest + 10 * w,
                2002 * crate::rounding::two_to(1053) + w / 1000,
            )
        }),
{
    let w = crate::double::one() as int;
    let zero = Double::whole(0);
    let d = left.larger(zero);
    let grace = Double { bits: crate::listen::GRACE };
    crate::timeline::lemma_small();
    crate::order::lemma_whole(0);
    crate::order::lemma_value_bound(left);
    crate::pacing::lemma_thirty_two();
    crate::rounding::lemma_two_to_pos(1053);
    crate::pacing::lemma_seconds(d);
    let q = d.quotient(Double::whole(1000));
    crate::near::lemma_bits(crate::listen::GRACE, 1015, 0x14_7ae1_47ae_147b);
    reveal_with_fuel(crate::rounding::two_to, 7);
    crate::rounding::lemma_two_to_values();
    crate::rounding::lemma_two_to_add(6, 53);
    crate::rounding::lemma_two_to_add(59, 1015);
    let u = crate::rounding::two_to(1015);
    assert(w == 0x800_0000_0000_0000 * u);
    assert(grace.value() == 0x14_7ae1_47ae_147b * u);
    crate::near::lemma_sum_close(q, grace, 1053);
}

/// What a preset makes of a key: its own value, unless it has none or both it
/// and the base have a table there; the base's where it has none. An unknown
/// name and the base's own are the base.
pub proof fn lemma_preset(styles: Map<Seq<char>, Tree>, name: Seq<char>, key: Seq<char>)
    requires
        crate::presets::all_tables(styles),
    ensures
        ({
            let base = if styles.dom().contains("default"@) {
                styles["default"@]->Table_0
            } else {
                Map::empty()
            };
            let m = crate::presets::merged_of(styles, name);
            if name == "default"@ || !styles.dom().contains(name) {
                m == base
            } else {
                let own = styles[name]->Table_0;
                &&& m.dom().contains(key) <==> base.dom().contains(key) || own.dom().contains(key)
                &&& own.dom().contains(key) && !(own[key] is Table && base.dom().contains(key)
                    && base[key] is Table) ==> m[key] == own[key]
                &&& !own.dom().contains(key) && base.dom().contains(key) ==> m[key] == base[key]
                &&& own.dom().contains(key) && own[key] is Table ==> m[key] is Table
            }
        }),
{
    let base = if styles.dom().contains("default"@) {
        styles["default"@]->Table_0
    } else {
        crate::presets::nothing()
    };
    if name != "default"@ && styles.dom().contains(name) {
        crate::presets::lemma_inherits(base, styles[name]->Table_0, key);
    }
}

/// A name below a path is the path, one separator where it needs one, and the
/// name.
pub proof fn lemma_below(base: Seq<u8>, name: Seq<char>)
    ensures
        ({
            let p = crate::paths::below(base, name);
            let tail = vstd::utf8::encode_utf8(name);
            let n = p.len() - tail.len();
            &&& p.take(base.len() as int) == base
            &&& p.skip(n) == tail
            &&& n == base.len() || n == base.len() + 1
            &&& base.len() > 0 ==> p[n - 1] == 47
            &&& base.len() == 0 || base.last() == 47 ==> n == base.len()
        }),
{
    let p = crate::paths::below(base, name);
    let tail = vstd::utf8::encode_utf8(name);
    let n = p.len() - tail.len();
    assert(p.take(base.len() as int) =~= base);
    assert(p.skip(n) =~= tail);
}

/// The config is below an absolute XDG_CONFIG_HOME, else below HOME, else
/// nowhere; the socket is below an absolute XDG_RUNTIME_DIR or nowhere.
pub proof fn lemma_places(xdg: Option<Seq<u8>>, home: Option<Seq<u8>>)
    ensures
        ({
            let absolute = xdg is Some && xdg->0.len() > 0 && xdg->0[0] == 47;
            let base = if absolute {
                xdg
            } else {
                home
            };
            &&& match crate::paths::config_file(xdg, home) {
                Some(p) => {
                    &&& base is Some
                    &&& p.len() > base->0.len()
                    &&& p.take(base->0.len() as int) == base->0
                    &&& p.skip(p.len() - vstd::utf8::encode_utf8("config.toml"@).len())
                        == vstd::utf8::encode_utf8("config.toml"@)
                },
                None => base is None,
            }
            &&& match crate::paths::socket_file(xdg) {
                Ok(p) => {
                    &&& absolute
                    &&& p.take(xdg->0.len() as int) == xdg->0
                    &&& p.skip(p.len() - vstd::utf8::encode_utf8("wayhud.sock"@).len())
                        == vstd::utf8::encode_utf8("wayhud.sock"@)
                },
                Err(_) => !absolute,
            }
        }),
{
    let absolute = xdg is Some && xdg->0.len() > 0 && xdg->0[0] == 47;
    if absolute {
        let b = xdg->0;
        lemma_below(b, "wayhud.sock"@);
        lemma_below(b, "wayhud"@);
        let q = crate::paths::below(b, "wayhud"@);
        lemma_below(q, "config.toml"@);
        let p = crate::paths::below(q, "config.toml"@);
        assert(p.take(b.len() as int) =~= p.take(q.len() as int).take(b.len() as int));
        lemma_name();
    } else if home is Some {
        let b = home->0;
        lemma_below(b, ".config"@);
        let c = crate::paths::below(b, ".config"@);
        lemma_below(c, "wayhud"@);
        let q = crate::paths::below(c, "wayhud"@);
        lemma_below(q, "config.toml"@);
        let p = crate::paths::below(q, "config.toml"@);
        assert(q.take(b.len() as int) =~= q.take(c.len() as int).take(b.len() as int));
        assert(p.take(b.len() as int) =~= p.take(q.len() as int).take(b.len() as int));
        lemma_name();
    }
}

proof fn lemma_name()
    ensures
        vstd::utf8::encode_utf8("config.toml"@).len() > 0,
{
    reveal_strlit("config.toml");
    vstd::utf8::encode_utf8_decode_utf8("config.toml"@);
    let e = vstd::utf8::encode_utf8("config.toml"@);
    if e.len() == 0 {
        assert(e =~= vstd::utf8::encode_utf8(Seq::empty()));
        vstd::utf8::encode_utf8_decode_utf8(Seq::empty());
        assert("config.toml"@.len() == 11);
    }
}

} // verus!
