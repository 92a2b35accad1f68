//! What a listener does with a message that arrives.
//!
//! A message joins the one on screen rather than replacing it: while the block
//! is revealing or being held, an arrival is appended as a line and only that
//! line is typed, and the hold starts again from it. A vanish is a commit
//! point: what arrives during one waits for it to finish and then starts a
//! block of its own, so a burst cannot keep the overlay up forever.
use crate::config::Style;
use crate::double::Double;
use crate::timeline::Phase;
use vstd::prelude::*;

verus! {

/// Lines a listener keeps when the style does not reserve any. The block has
/// to be bounded or a burst grows the surface off the screen.
pub const DEFAULT_LISTEN_LINES: usize = 10;

/// The bit pattern of 0.01: how long after a vanish its wait ends, in seconds.
pub const GRACE: u64 = 0x3f84_7ae1_47ae_147b;

/// The lines of a block; an empty block has none.
pub open spec fn lines_of(text: Seq<char>) -> Seq<Seq<char>> {
    if text.len() == 0 {
        Seq::empty()
    } else {
        crate::text::pieces(text, '\n')
    }
}

/// Split a block into lines without allocating a line for an empty block.
pub fn block_lines(text: &str) -> (lines: Vec<String>)
    ensures
        crate::text::texts(lines@) == lines_of(text@),
{
    if text.is_empty() {
        let lines: Vec<String> = Vec::new();
        assert(crate::text::texts(lines@) =~= Seq::<Seq<char>>::empty());
        lines
    } else {
        crate::text::split(text, '\n')
    }
}

/// How many lines the block may have: what the style reserves, or the
/// listener's own number. The reservation is made before the first message.
pub fn reserve(style: &mut Style) -> (cap: usize)
    ensures
        cap == match old(style)@.lines {
            Some(n) => n,
            None => DEFAULT_LISTEN_LINES,
        },
        final(style)@ == (crate::config::StyleView { lines: Some(cap), ..old(style)@ }),
        old(style)@.lines is Some ==> final(style)@.lines == old(style)@.lines,
        old(style)@.lines is None ==> cap == 10,
{
    match style.lines {
        Some(n) => n,
        None => {
            style.lines = Some(DEFAULT_LISTEN_LINES);
            DEFAULT_LISTEN_LINES
        },
    }
}

/// The last lines of a block and a new one, no more than the cap in all.
pub open spec fn grown(current: Seq<char>, cap: nat, text: Seq<char>) -> Seq<Seq<char>> {
    let all = lines_of(current).push(text);
    if all.len() > cap {
        all.skip(all.len() - cap)
    } else {
        all
    }
}

/// How many characters of a grown block are already on screen: the lines that
/// were kept, and the separator after them. Only the line that arrives is typed,
/// so the separator counts as shown even after a single blank line.
pub open spec fn already_shown(lines: Seq<Seq<char>>) -> nat {
    if lines.len() <= 1 {
        0
    } else {
        crate::text::joined(lines.drop_last(), seq!['\n']).len() + 1
    }
}

/// What is to be done about a message.
#[derive(Debug)]
pub enum Action {
    /// Put a block up, typing only what follows the first `shown` characters.
    Put { text: String, shown: usize },
    /// Keep the message until the vanish is over.
    Wait { text: String },
}

/// What is to be done about a message, by its texts.
pub ghost enum Decision {
    Put { text: Seq<char>, shown: nat },
    Wait { text: Seq<char> },
}

impl View for Action {
    type V = Decision;

    open spec fn view(&self) -> Decision {
        match self {
            Action::Put { text, shown } => Decision::Put { text: text@, shown: *shown as nat },
            Action::Wait { text } => Decision::Wait { text: text@ },
        }
    }
}

/// What an arriving message does to what is on screen.
pub open spec fn decided(
    up: Option<(Seq<char>, Phase)>,
    cap: nat,
    text: Seq<char>,
) -> Decision {
    match up {
        Some((current, Phase::Reveal { .. })) => put_grown(current, cap, text),
        Some((current, Phase::Hold)) => put_grown(current, cap, text),
        Some((_, Phase::Vanish { .. })) => Decision::Wait { text },
        Some((_, Phase::Done)) => Decision::Put { text, shown: 0 },
        None => Decision::Put { text, shown: 0 },
    }
}

/// The block grows by the message.
pub open spec fn put_grown(current: Seq<char>, cap: nat, text: Seq<char>) -> Decision {
    let lines = grown(current, cap, text);
    Decision::Put {
        text: crate::text::joined(lines, seq!['\n']),
        shown: already_shown(lines),
    }
}

/// The length of texts joined by one character grows with each of them.
proof fn lemma_joined_push(parts: Seq<Seq<char>>, last: Seq<char>)
    ensures
        crate::text::joined(parts.push(last), seq!['\n']) == if parts.len() == 0 {
            last
        } else {
            crate::text::joined(parts, seq!['\n']) + seq!['\n'] + last
        },
{
    assert(parts.push(last).drop_last() =~= parts);
}

/// Decide what one arriving message does to what is on screen: `up` is the
/// block that is there and its phase.
pub fn arrived(up: Option<(&str, Phase)>, cap: usize, text: &str) -> (r: Action)
    requires
        cap > 0,
    ensures
        r@ == decided(
            match up {
                Some((current, phase)) => Some((current@, phase)),
                None => None,
            },
            cap as nat,
            text@,
        ),
{
    match up {
        Some((current, phase)) => match phase {
            Phase::Reveal { .. } => grow(current, cap, text),
            Phase::Hold => grow(current, cap, text),
            Phase::Vanish { .. } => Action::Wait { text: text.to_owned() },
            Phase::Done => Action::Put { text: text.to_owned(), shown: 0 },
        },
        None => Action::Put { text: text.to_owned(), shown: 0 },
    }
}

fn grow(current: &str, cap: usize, text: &str) -> (r: Action)
    requires
        cap > 0,
    ensures
        r@ == put_grown(current@, cap as nat, text@),
{
    let before: Vec<String> = block_lines(current);
    let ghost all = lines_of(current@).push(text@);
    // The lines that are kept: all but what is over the cap once the new one
    // is there.
    let over: usize = if before.len() >= cap {
        before.len() - (cap - 1)
    } else {
        0
    };
    let mut kept: Vec<String> = Vec::new();
    let mut i: usize = over;
    assert(crate::text::texts(kept@) =~= lines_of(current@).subrange(over as int, over as int));
    while i < before.len()
        invariant
            over <= i <= before@.len(),
            crate::text::texts(before@) == lines_of(current@),
            crate::text::texts(kept@) == lines_of(current@).subrange(over as int, i as int),
        decreases before.len() - i,
    {
        let ghost was = crate::text::texts(kept@);
        kept.push(before[i].clone());
        proof {
            assert(lines_of(current@)[i as int] == before@[i as int]@);
            assert(crate::text::texts(kept@) =~= was.push(before@[i as int]@));
            assert(lines_of(current@).subrange(over as int, i + 1) =~= lines_of(current@).subrange(
                over as int,
                i as int,
            ).push(lines_of(current@)[i as int]));
        }
        i = i + 1;
    }
    let ghost stay = crate::text::texts(kept@);
    let shown_text: String = crate::text::join(&kept, "\n");
    proof {
        reveal_strlit("\n");
        assert("\n"@ =~= seq!['\n']);
    }
    let head: String = crate::error::cat(shown_text.as_str(), "\n");
    let ghost lines = grown(current@, cap as nat, text@);
    proof {
        assert(crate::text::texts(before@).len() == before@.len());
        assert(lines =~= stay.push(text@));
        assert(lines.drop_last() =~= stay);
        lemma_joined_push(stay, text@);
    }
    // The separator counts as shown too, or the new line would be typed
    // starting with the newline before it.
    let shown: usize = if kept.len() == 0 {
        0
    } else {
        crate::text::chars_of(head.as_str()).len()
    };
    let block: String = if kept.len() > 0 {
        crate::error::cat(head.as_str(), text)
    } else {
        text.to_owned()
    };
    Action::Put { text: block, shown }
}

/// A decision for texts held until a vanish is over: they become a block of
/// their own.
pub open spec fn released(held: Seq<Seq<char>>) -> Option<Decision> {
    if held.len() == 0 {
        None
    } else {
        Some(Decision::Put { text: crate::text::joined(held, seq!['\n']), shown: 0 })
    }
}

/// What to put up once a vanish is over.
pub fn release(held: &Vec<String>) -> (r: Option<Action>)
    ensures
        match r {
            Some(a) => released(crate::text::texts(held@)) == Some(a@),
            None => released(crate::text::texts(held@)) is None,
        },
{
    if held.len() == 0 {
        return None;
    }
    proof {
        reveal_strlit("\n");
        assert("\n"@ =~= seq!['\n']);
    }
    Some(Action::Put { text: crate::text::join(held, "\n"), shown: 0 })
}

/// How long to wait for a vanish with so many milliseconds left, in seconds.
pub open spec fn wait_of(remaining_ms: Double) -> Double {
    remaining_ms.larger(Double::whole(0)).quotient(Double::whole(1000)).sum(
        Double { bits: GRACE },
    )
}

/// How long to wait for a vanish with so many milliseconds left, in seconds.
pub fn wait_for(remaining_ms: Double) -> (s: Double)
    ensures
        s == wait_of(remaining_ms),
        s == remaining_ms.larger(Double::whole(0)).quotient(Double::whole(1000)).sum(
            Double { bits: GRACE },
        ),
{
    remaining_ms.max(Double::from_word(0)).over(Double::from_word(1000)).plus(
        Double { bits: GRACE },
    )
}

/// The text of a datagram as a listener shows it; nothing where it is empty.
pub open spec fn shown_of(text: Seq<char>) -> Option<Seq<char>> {
    if crate::text::chomped(text).len() == 0 {
        None
    } else {
        Some(crate::text::chomped(text))
    }
}

/// The text of a datagram as a listener shows it; nothing where it is empty.
pub fn shown_text(text: &str) -> (r: Option<String>)
    ensures
        crate::config::string_of(r) == shown_of(text@),
        crate::config::string_of(r) == if crate::text::chomped(text@).len() == 0 {
            None
        } else {
            Some(crate::text::chomped(text@))
        },
{
    let t: &str = crate::text::chomp(text);
    if t.is_empty() {
        None
    } else {
        Some(t.to_owned())
    }
}

/// A message goes below the last lines of the block, in the order they had,
/// and the block stays within its cap.
pub proof fn lemma_grown(current: Seq<char>, cap: nat, text: Seq<char>)
    requires
        cap > 0,
    ensures
        0 < grown(current, cap, text).len() <= cap,
        grown(current, cap, text).last() == text,
        grown(current, cap, text).len() <= lines_of(current).len() + 1,
        grown(current, cap, text).drop_last() == lines_of(current).skip(
            lines_of(current).len() + 1 - grown(current, cap, text).len(),
        ),
        grown(current, cap, text).len() < cap ==> grown(current, cap, text).drop_last()
            == lines_of(current),
{
    let kept = grown(current, cap, text).drop_last();
    assert(kept =~= lines_of(current).skip(lines_of(current).len() - kept.len()));
    if kept.len() + 1 < cap {
        assert(lines_of(current).skip(0) =~= lines_of(current));
    }
}

/// Only the new line is typed: what is counted as shown is the end of the
/// block that was up and the separator after it, and what follows is the
/// message.
pub proof fn lemma_only_the_message_is_typed(current: Seq<char>, cap: nat, text: Seq<char>)
    requires
        cap > 0,
    ensures
        put_grown(current, cap, text) matches Decision::Put { text: block, shown } && {
            &&& shown <= block.len()
            &&& block.skip(shown as int) == text
            &&& shown > 0 ==> shown - 1 <= current.len() && block.take(shown as int)
                == current.skip(current.len() - (shown - 1)).push('\n')
        },
{
    let lines = grown(current, cap, text);
    let kept = lines.drop_last();
    let sep = seq!['\n'];
    let block = crate::text::joined(lines, sep);
    lemma_grown(current, cap, text);
    assert(kept.push(text) =~= lines);
    lemma_joined_push(kept, text);
    if kept.len() == 0 {
        assert(block.skip(0) =~= block);
    } else {
        let all = lines_of(current);
        let head = crate::text::joined(kept, sep);
        crate::text::lemma_pieces_joined(current, '\n');
        crate::text::lemma_joined_end(all, all.len() - kept.len(), sep);
        let shown = (head.len() + 1) as int;
        assert(block =~= head.push('\n') + text);
        assert(block.skip(shown) =~= text);
        assert(block.take(shown) =~= head.push('\n'));
    }
}

/// A block that a message has joined does not end in a newline where the
/// message does not.
pub proof fn lemma_block_ends_as_the_message(current: Seq<char>, cap: nat, text: Seq<char>)
    requires
        cap > 0,
        text.len() > 0,
    ensures
        put_grown(current, cap, text) matches Decision::Put { text: block, .. } && block.len() > 0
            && block.last() == text.last(),
{
    let lines = grown(current, cap, text);
    lemma_grown(current, cap, text);
    assert(lines.drop_last().push(text) =~= lines);
    lemma_joined_push(lines.drop_last(), text);
}

/// A block that grows by messages of one line each has the lines that were
/// kept and the new one, and never more than its cap.
pub proof fn lemma_block_is_bounded(current: Seq<char>, cap: nat, text: Seq<char>)
    requires
        cap > 0,
        text.len() > 0,
        !text.contains('\n'),
    ensures
        put_grown(current, cap, text) matches Decision::Put { text: block, .. } && {
            &&& lines_of(block) == grown(current, cap, text)
            &&& lines_of(block).len() <= cap
        },
{
    let lines = grown(current, cap, text);
    lemma_grown(current, cap, text);
    lemma_block_ends_as_the_message(current, cap, text);
    if current.len() > 0 {
        crate::text::lemma_pieces_free(current, '\n');
    }
    assert forall|i: int| 0 <= i < lines.len() implies !(#[trigger] lines[i]).contains('\n') by {
        if i < lines.len() - 1 {
            let all = lines_of(current);
            assert(lines[i] == lines.drop_last()[i]);
            assert(lines[i] == all[i + (all.len() + 1 - lines.len())]);
        } else {
            assert(lines[i] == lines.last());
        }
    }
    crate::text::lemma_joined_pieces(lines, '\n');
}

} // verus!
