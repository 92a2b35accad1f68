//! What goes through the listener socket: one datagram is one message, so a
//! body with newlines in it needs no framing and no escaping.
use crate::error::{cat, Error};
use vstd::prelude::*;

verus! {

/// Largest datagram accepted, in bytes: four per allowed character, the same
/// bound as on a stream, plus one byte to notice an overflow.
pub const MAX_DATAGRAM: usize = 400_001;

/// Whether the sender refuses a message, and why.
pub open spec fn oversize(text: Seq<char>) -> Option<Seq<char>> {
    let n = vstd::utf8::encode_utf8(text).len();
    if n < MAX_DATAGRAM {
        None
    } else {
        Some(
            "message is "@ + crate::text::decimal(n) + " bytes; the socket carries at most 400000"@,
        )
    }
}

/// Check a message before it is sent. The character cap is checked where the
/// text is read; this bounds the datagram itself, which is what the listener
/// sizes its buffer from.
pub fn check_size(text: &str) -> (r: Result<(), Error>)
    ensures
        crate::error::told(r) == match oversize(text@) {
            None => Ok::<(), Seq<char>>(()),
            Some(e) => Err(e),
        },
{
    let n: usize = text.as_bytes().len();
    if n >= MAX_DATAGRAM {
        let m: String = cat("message is ", crate::text::to_decimal(n as u64).as_str());
        return Err(Error::new(cat(m.as_str(), " bytes; the socket carries at most 400000")));
    }
    Ok(())
}

/// What a datagram that filled `n` bytes of a buffer says: its text, or why it
/// is dropped.
pub open spec fn said(buf: Seq<u8>, n: int) -> Result<Seq<char>, Seq<char>> {
    let bytes = buf.take(n);
    if n >= buf.len() {
        Err("dropped a message longer than 100000 characters"@)
    } else if vstd::utf8::valid_utf8(bytes) {
        Ok(vstd::utf8::decode_utf8(bytes))
    } else {
        Err(
            "dropped a message that is not valid UTF-8: "@ + crate::message::utf8_error(bytes),
        )
    }
}

/// Read a datagram that filled `n` bytes of the buffer. One that is not UTF-8,
/// or that fills the buffer, is dropped: a listener stays up for the next
/// message rather than exiting on something a sender got wrong.
pub fn read_datagram(buf: &[u8], n: usize) -> (r: Result<String, Error>)
    requires
        n <= buf@.len(),
    ensures
        match r {
            Ok(s) => said(buf@, n as int) == Ok::<Seq<char>, Seq<char>>(s@),
            Err(e) => said(buf@, n as int) == Err::<Seq<char>, Seq<char>>(e@),
        },
{
    if n >= buf.len() {
        return Err(Error::new("dropped a message longer than 100000 characters".to_owned()));
    }
    let mut bytes: Vec<u8> = Vec::new();
    let mut i: usize = 0;
    while i < n
        invariant
            i <= n < buf@.len(),
            bytes@ == buf@.take(i as int),
        decreases n - i,
    {
        bytes.push(buf[i]);
        i = i + 1;
        assert(bytes@ =~= buf@.take(i as int));
    }
    match crate::message::decode(bytes) {
        Ok(s) => Ok(s),
        Err(e) => Err(
            Error::new(cat("dropped a message that is not valid UTF-8: ", e.as_str())),
        ),
    }
}

/// A message arrives whole: what the sender accepts is what the listener reads
/// from a buffer of the agreed size.
pub proof fn lemma_arrives_whole(text: Seq<char>, buf: Seq<u8>)
    requires
        oversize(text) is None,
        buf.len() == MAX_DATAGRAM,
        buf.take(vstd::utf8::encode_utf8(text).len() as int) == vstd::utf8::encode_utf8(text),
    ensures
        said(buf, vstd::utf8::encode_utf8(text).len() as int) == Ok::<Seq<char>, Seq<char>>(text),
{
    vstd::utf8::encode_utf8_valid_utf8(text);
    vstd::utf8::encode_utf8_decode_utf8(text);
}

} // verus!
