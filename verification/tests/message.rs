//! The message's text.
use std::io::Read;

use wayhud::config::MAX_TEXT_CHARS;
use wayhud::error::Error;
use wayhud::message::{given, read_argument, read_stream, trim_text, Intake, BUDGET};
use wayhud::text::{chomp, is_white, join, same, split, split_once, to_decimal, trim, unescape};

/// Read a stream the way the program does: never more than there is room for.
fn read_capped(mut r: impl Read) -> Result<String, Error> {
    let mut intake = Intake::new();
    let mut buf = [0u8; 8192];
    loop {
        let room = intake.room().min(buf.len());
        if room == 0 {
            break;
        }
        let n = r.read(&mut buf[..room]).unwrap();
        if n == 0 {
            break;
        }
        intake.push(&buf[..n]);
    }
    intake.finish()
}

#[test]
fn escapes_expand_but_unknown_ones_survive() {
    assert_eq!(unescape("a\\nb"), "a\nb");
    assert_eq!(unescape("a\\tb"), "a\tb");
    assert_eq!(unescape("a\\\\nb"), "a\\nb");
    // Preserve backslashes in unknown escapes.
    assert_eq!(unescape("C:\\dir"), "C:\\dir");
    assert_eq!(unescape("trailing\\"), "trailing\\");
}

#[test]
fn an_endless_stream_stops_at_the_budget_instead_of_being_read_whole() {
    // Check bytes consumed as well as the error: character counting alone
    // would allow an unbounded read before rejection.
    struct Counting {
        asked: usize,
        left: usize,
    }
    impl Read for Counting {
        fn read(&mut self, buf: &mut [u8]) -> std::io::Result<usize> {
            let n = buf.len().min(self.left);
            buf[..n].fill(b'x');
            self.asked += n;
            self.left -= n;
            Ok(n)
        }
    }
    let budget = MAX_TEXT_CHARS * 4 + 1;
    // Use a finite source so a regression fails without hanging.
    let mut src = Counting {
        asked: 0,
        left: budget * 4,
    };
    let err = read_capped(&mut src).unwrap_err();
    assert!(
        err.message().contains("maximum"),
        "wrong error: {}",
        err.message()
    );
    assert_eq!(
        src.asked, budget,
        "read {} bytes against a {budget}-byte budget: the stream is not bounded",
        src.asked
    );

    let at_cap = "x".repeat(MAX_TEXT_CHARS);
    assert_eq!(read_capped(at_cap.as_bytes()).unwrap(), at_cap);
}

#[test]
fn a_trailing_newline_is_trimmed_however_the_text_arrived() {
    // Trim trailing newlines consistently for argv and stdin.
    assert_eq!(read_argument("one\ntwo\n", false).unwrap(), "one\ntwo");
    assert_eq!(
        read_argument("one\n\n\n", false).unwrap(),
        "one",
        "all of them, not just one"
    );
    // Preserve internal newlines.
    assert_eq!(read_argument("one\n\ntwo", false).unwrap(), "one\n\ntwo");

    let mut intake = Intake::new();
    intake.push(b"one\ntwo\n\n");
    assert_eq!(read_stream(intake).unwrap(), "one\ntwo");
}

#[test]
fn raw_mode_keeps_the_text_verbatim() {
    assert_eq!(read_argument("a\\nb", true).unwrap(), "a\\nb");
    assert_eq!(read_argument("a\\nb", false).unwrap(), "a\nb");
    // A stream is never unescaped.
    let mut intake = Intake::new();
    intake.push(b"a\\nb");
    assert_eq!(read_stream(intake).unwrap(), "a\\nb");
}

#[test]
fn an_absurdly_long_message_is_rejected_at_the_edge() {
    // Bound text before downstream allocations.
    let long = "x".repeat(MAX_TEXT_CHARS + 1);
    let err = read_argument(&long, false).unwrap_err();
    assert!(
        err.message().contains("maximum"),
        "wrong error: {}",
        err.message()
    );
    assert_eq!(
        err.message(),
        "message is 100001 characters; the maximum is 100000"
    );
    assert!(read_argument(&"x".repeat(MAX_TEXT_CHARS), false).is_ok());
    // Newlines at the end do not count.
    assert!(trim_text(&("x".repeat(MAX_TEXT_CHARS) + "\n\n")).is_ok());
}

#[test]
fn a_stream_that_is_not_text_is_refused() {
    let mut intake = Intake::new();
    intake.push(&[0x61, 0xff]);
    let err = intake.finish().unwrap_err();
    assert_eq!(
        err.message(),
        "input is not valid UTF-8: invalid utf-8 sequence of 1 bytes from index 1"
    );
    let mut intake = Intake::new();
    intake.push("ä€𝄞".as_bytes());
    assert_eq!(intake.finish().unwrap(), "ä€𝄞");
}

#[test]
fn the_budget_holds_every_message_within_the_limit() {
    assert_eq!(BUDGET, MAX_TEXT_CHARS * 4 + 1);
    let widest = "𝄞".repeat(MAX_TEXT_CHARS);
    assert_eq!(read_capped(widest.as_bytes()).unwrap(), widest);
    // A chunk past the room there is gets cut.
    let mut intake = Intake::new();
    intake.push(&vec![b'x'; BUDGET + 5]);
    assert_eq!(intake.room(), 0);
    assert!(intake.finish().is_err());
}

#[test]
fn a_dash_stands_for_the_stream() {
    assert_eq!(given(Some("-")), None);
    assert_eq!(given(None), None);
    assert_eq!(given(Some("--")), Some("--"));
    assert_eq!(given(Some("")), Some(""));
}

#[test]
fn white_space_is_what_unicode_says_it_is() {
    for n in 0..=0x10ffffu32 {
        if let Some(c) = char::from_u32(n) {
            assert_eq!(is_white(c), c.is_whitespace(), "U+{n:04X}");
        }
    }
}

#[test]
fn text_helpers_agree_with_the_standard_library() {
    for text in ["", " ", "a", "  a b\t", "\u{3000}x\u{a0}", "a=b=c", "=", "x=", "ä,ö,,"] {
        assert_eq!(trim(text), text.trim());
        assert_eq!(split_once(text, '='), text.split_once('='));
        let parts: Vec<String> = text.split(',').map(str::to_string).collect();
        assert_eq!(split(text, ','), parts);
        assert_eq!(join(&parts, ","), text);
        assert_eq!(chomp(&format!("{text}\n\n")), text);
        assert!(same(text, &text.to_string()));
    }
    for n in [0, 9, 10, 99, 12_345, u64::MAX] {
        assert_eq!(to_decimal(n), n.to_string());
    }
}
