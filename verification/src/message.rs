//! The message: where its text comes from, and what is done to it before it is
//! shown.
use crate::config::MAX_TEXT_CHARS;
use crate::error::{cat, Error};
use vstd::prelude::*;

verus! {

/// Most bytes ever read from a stream: four per allowed character, and one
/// that says there were more.
pub const BUDGET: usize = 400_001;

/// Why bytes are not UTF-8.
pub uninterp spec fn utf8_error(bytes: Seq<u8>) -> Seq<char>;

/// `String::from_utf8`: the text that the bytes encode, exactly when they are
/// valid UTF-8; the wording of the refusal is the standard library's.
#[verifier::external_body]
pub(crate) fn decode(bytes: Vec<u8>) -> (r: Result<String, String>)
    ensures
        match r {
            Ok(s) => vstd::utf8::valid_utf8(bytes@) && s@ == vstd::utf8::decode_utf8(bytes@),
            Err(e) => !vstd::utf8::valid_utf8(bytes@) && e@ == utf8_error(bytes@),
        },
{
    match String::from_utf8(bytes) {
        Ok(s) => Ok(s),
        Err(e) => Err(e.to_string()),
    }
}

/// The text of a stream, or why it is refused. Reaching the budget is an
/// error, whatever the bytes are: a truncated tail may split a character.
pub open spec fn stream_text(bytes: Seq<u8>) -> Result<Seq<char>, Seq<char>> {
    if bytes.len() >= BUDGET {
        Err("message is longer than the maximum of 100000 characters"@)
    } else if vstd::utf8::valid_utf8(bytes) {
        Ok(vstd::utf8::decode_utf8(bytes))
    } else {
        Err(crate::error::in_context("input is not valid UTF-8"@, utf8_error(bytes)))
    }
}

/// Bytes on their way in from a stream. No more than [`BUDGET`] are ever asked
/// for, which bounds memory before decoding and counting.
pub struct Intake {
    bytes: Vec<u8>,
}

impl View for Intake {
    type V = Seq<u8>;

    closed spec fn view(&self) -> Seq<u8> {
        self.bytes@
    }
}

impl Intake {
    #[verifier::type_invariant]
    spec fn bounded(&self) -> bool {
        self.bytes@.len() <= BUDGET
    }

    pub fn new() -> (r: Intake)
        ensures
            r@ == Seq::<u8>::empty(),
    {
        Intake { bytes: Vec::new() }
    }

    /// How many bytes may still be read. Reading is over when there is no room.
    pub fn room(&self) -> (n: usize)
        ensures
            n == BUDGET - self@.len(),
    {
        proof {
            use_type_invariant(self);
        }
        BUDGET - self.bytes.len()
    }

    /// Take in what was read. What there is no room for is dropped.
    pub fn push(&mut self, chunk: &[u8])
        ensures
            final(self)@ == old(self)@ + chunk@.take(
                if chunk@.len() <= BUDGET - old(self)@.len() {
                    chunk@.len() as int
                } else {
                    BUDGET - old(self)@.len()
                },
            ),
            final(self)@.len() <= BUDGET,
    {
        proof {
            use_type_invariant(&*self);
        }
        let room: usize = BUDGET - self.bytes.len();
        let n: usize = if chunk.len() <= room {
            chunk.len()
        } else {
            room
        };
        let ghost before = self.bytes@;
        let mut all: Vec<u8> = Vec::new();
        std::mem::swap(&mut all, &mut self.bytes);
        let mut i: usize = 0;
        while i < n
            invariant
                i <= n <= chunk@.len(),
                n + before.len() <= BUDGET,
                all@ == before + chunk@.take(i as int),
            decreases n - i,
        {
            all.push(chunk[i]);
            i = i + 1;
            assert(all@ =~= before + chunk@.take(i as int));
        }
        self.bytes = all;
    }

    /// The text of the stream.
    pub fn finish(self) -> (r: Result<String, Error>)
        ensures
            match r {
                Ok(s) => stream_text(self@) == Ok::<Seq<char>, Seq<char>>(s@),
                Err(e) => stream_text(self@) == Err::<Seq<char>, Seq<char>>(e@),
            },
    {
        if self.bytes.len() >= BUDGET {
            return Err(
                Error::new("message is longer than the maximum of 100000 characters".to_owned()),
            );
        }
        match decode(self.bytes) {
            Ok(s) => Ok(s),
            Err(e) => Err(Error::new(e).context("input is not valid UTF-8")),
        }
    }
}

/// The text to show, given what was passed or piped in: trailing newlines go,
/// and what is over the limit is refused.
pub open spec fn trimmed_text(text: Seq<char>) -> Result<Seq<char>, Seq<char>> {
    let t = crate::text::chomped(text);
    if t.len() <= MAX_TEXT_CHARS {
        Ok(t)
    } else {
        Err(
            "message is "@ + crate::text::decimal(t.len())
                + " characters; the maximum is 100000"@,
        )
    }
}

/// The message in the argument: escapes are expanded unless it is taken raw.
pub open spec fn argument_text(text: Seq<char>, raw: bool) -> Result<Seq<char>, Seq<char>> {
    trimmed_text(
        if raw {
            text
        } else {
            crate::text::unescaped(text)
        },
    )
}

/// Trim trailing newlines, to avoid an empty line that changes the surface
/// height and final caret position, and check the character limit.
pub fn trim_text(text: &str) -> (r: Result<String, Error>)
    ensures
        match r {
            Ok(s) => trimmed_text(text@) == Ok::<Seq<char>, Seq<char>>(s@),
            Err(e) => trimmed_text(text@) == Err::<Seq<char>, Seq<char>>(e@),
        },
{
    let text: &str = crate::text::chomp(text);
    let count: usize = crate::text::chars_of(text).len();
    if count > MAX_TEXT_CHARS {
        let m: String = cat("message is ", crate::text::to_decimal(count as u64).as_str());
        return Err(Error::new(cat(m.as_str(), " characters; the maximum is 100000")));
    }
    Ok(text.to_owned())
}

/// Whether the message comes from the argument: it is there, and not `-`.
pub fn given<'a>(text: Option<&'a str>) -> (r: Option<&'a str>)
    ensures
        crate::spec::text_of(r) == if crate::spec::text_of(text) == Some("-"@) {
            None
        } else {
            crate::spec::text_of(text)
        },
        r is Some <==> text is Some && text->0@ != "-"@,
        r is Some ==> r->0@ == text->0@,
{
    match text {
        Some(t) => if crate::text::same(t, "-") {
            None
        } else {
            Some(t)
        },
        None => None,
    }
}

/// The message in the argument.
pub fn read_argument(text: &str, raw: bool) -> (r: Result<String, Error>)
    ensures
        match r {
            Ok(s) => argument_text(text@, raw) == Ok::<Seq<char>, Seq<char>>(s@),
            Err(e) => argument_text(text@, raw) == Err::<Seq<char>, Seq<char>>(e@),
        },
{
    if raw {
        trim_text(text)
    } else {
        trim_text(crate::text::unescape(text).as_str())
    }
}

/// The message of a stream: escapes are left alone.
pub fn read_stream(intake: Intake) -> (r: Result<String, Error>)
    ensures
        match r {
            Ok(s) => match stream_text(intake@) {
                Ok(t) => trimmed_text(t) == Ok::<Seq<char>, Seq<char>>(s@),
                Err(_) => false,
            },
            Err(e) => match stream_text(intake@) {
                Ok(t) => trimmed_text(t) == Err::<Seq<char>, Seq<char>>(e@),
                Err(f) => e@ == f,
            },
        },
{
    match intake.finish() {
        Ok(t) => trim_text(t.as_str()),
        Err(e) => Err(e),
    }
}

/// Every message that is shown is within the limit and does not end in a
/// newline, and taking it in once more would not change it.
pub proof fn lemma_trimmed_text(text: Seq<char>)
    ensures
        match trimmed_text(text) {
            Ok(t) => t.len() <= MAX_TEXT_CHARS && (t.len() > 0 ==> t.last() != '\n')
                && trimmed_text(t) == Ok::<Seq<char>, Seq<char>>(t),
            Err(_) => true,
        },
{
    crate::text::lemma_chomped(text);
}

/// A character takes at most four bytes.
proof fn lemma_decoded_len(bytes: Seq<u8>)
    requires
        vstd::utf8::valid_utf8(bytes),
    ensures
        bytes.len() <= 4 * vstd::utf8::decode_utf8(bytes).len(),
    decreases bytes.len(),
{
    if bytes.len() > 0 {
        lemma_decoded_len(vstd::utf8::pop_first_scalar(bytes));
    }
}

/// The budget refuses no text within the limit: what reaches it encodes more
/// characters than a message may have.
pub proof fn lemma_budget(bytes: Seq<u8>)
    requires
        vstd::utf8::valid_utf8(bytes),
        bytes.len() >= BUDGET,
    ensures
        vstd::utf8::decode_utf8(bytes).len() > MAX_TEXT_CHARS,
{
    lemma_decoded_len(bytes);
}

} // verus!
