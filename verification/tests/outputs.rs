//! Outputs, the socket and the listener.
use wayhud::config::Style;
use wayhud::double::Double;
use wayhud::ipc::{check_size, read_datagram, MAX_DATAGRAM};
use wayhud::listen::{
    arrived, block_lines, release, reserve, shown_text, wait_for, Action, DEFAULT_LISTEN_LINES,
};
use wayhud::outputs::{by_names, connector_list, focused_output, resolve, OutputSpec};
use wayhud::timeline::Phase;

fn d(x: f64) -> Double {
    Double::from_bits(x.to_bits())
}

fn connectors(names: &[&str]) -> Vec<Option<String>> {
    names
        .iter()
        .map(|n| (!n.is_empty()).then_some(n.to_string()))
        .collect()
}

fn strings(names: &[&str]) -> Vec<String> {
    names.iter().map(|n| n.to_string()).collect()
}

#[test]
fn spec_parsing() {
    assert_eq!(OutputSpec::parse("current"), OutputSpec::Current);
    assert_eq!(OutputSpec::parse("all"), OutputSpec::All);
    assert_eq!(
        OutputSpec::parse("DP-3, eDP-1"),
        OutputSpec::Named(vec!["DP-3".into(), "eDP-1".into()])
    );
}

#[test]
fn empty_names_do_not_become_phantom_outputs() {
    assert_eq!(
        OutputSpec::parse("DP-3,,"),
        OutputSpec::Named(vec!["DP-3".into()])
    );
}

#[test]
fn monitors_are_picked_in_the_order_of_the_names() {
    let have = connectors(&["eDP-1", "", "DP-3"]);
    let picked = by_names(&have, &strings(&["DP-3", "DP-9", "eDP-1"]));
    assert_eq!(picked.monitors, [2, 0]);
    assert_eq!(picked.missing, ["DP-9"]);
    assert_eq!(connector_list(&have), "eDP-1, DP-3");
}

#[test]
fn a_request_resolves_or_says_why_not() {
    let have = connectors(&["eDP-1", "", "DP-3"]);
    let none = || Err("no socket".to_string());
    let at = |spec: &str, focus: &Result<String, String>| {
        let (r, missing) = resolve(&OutputSpec::parse(spec), &have, focus);
        (r.map_err(|e| e.message().to_string()), missing)
    };
    assert_eq!(at("all", &none()).0, Ok(vec![0, 1, 2]));
    assert_eq!(at("current", &Ok("DP-3".into())).0, Ok(vec![2]));
    assert_eq!(
        at("current", &none()).0,
        Err("--output current needs sway's IPC socket: no socket".into())
    );
    // A name that matches nothing is reported but not fatal.
    let (r, missing) = at("DP-3,DP-9", &none());
    assert_eq!(r, Ok(vec![2]));
    assert_eq!(missing, ["DP-9"]);
    // Nothing at all is fatal.
    let (r, missing) = at("DP-9", &none());
    assert_eq!(r, Err("no output matched (have: eDP-1, DP-3)".into()));
    assert_eq!(missing, ["DP-9"]);
    assert!(at("current", &Ok("HDMI-1".into())).0.is_err());
    let (r, _) = resolve(&OutputSpec::All, &vec![], &none());
    assert_eq!(r.unwrap_err().message(), "GDK reports no monitors");
}

#[test]
fn the_focused_output_is_the_first_one_reported_so() {
    let outputs = |list: &[(&str, bool)]| -> Vec<(String, bool)> {
        list.iter().map(|(n, f)| (n.to_string(), *f)).collect()
    };
    assert_eq!(
        focused_output(&outputs(&[("a", false), ("b", true), ("c", true)])),
        Ok("b".into())
    );
    assert_eq!(
        focused_output(&outputs(&[("a", false)])),
        Err("sway reports no focused output".into())
    );
}

/// Hand a message over the way a datagram socket does.
fn through_the_socket(bytes: &[u8]) -> Result<String, String> {
    let mut buf = vec![0u8; MAX_DATAGRAM];
    let n = bytes.len().min(buf.len());
    buf[..n].copy_from_slice(&bytes[..n]);
    read_datagram(&buf, n).map_err(|e| e.message().to_string())
}

#[test]
fn a_message_arrives_whole() {
    check_size("SYSTEM ONLINE").unwrap();
    assert_eq!(
        through_the_socket("SYSTEM ONLINE".as_bytes()),
        Ok("SYSTEM ONLINE".into())
    );
}

#[test]
fn newlines_need_no_escaping() {
    assert_eq!(
        through_the_socket("FIRST\nSECOND\n".as_bytes()),
        Ok("FIRST\nSECOND\n".into())
    );
}

#[test]
fn a_message_over_the_cap_is_refused_by_the_sender() {
    let long = "x".repeat(MAX_DATAGRAM);
    assert_eq!(
        check_size(&long).unwrap_err().message(),
        "message is 400001 bytes; the socket carries at most 400000"
    );
    assert!(check_size(&long[1..]).is_ok());
    // Bytes count, not characters.
    assert!(check_size(&"ä".repeat(200_001)).is_err());
    // And the listener drops what fills its buffer.
    assert_eq!(
        through_the_socket(long.as_bytes()),
        Err("dropped a message longer than 100000 characters".into())
    );
}

#[test]
fn a_datagram_that_is_not_text_is_dropped() {
    assert_eq!(
        through_the_socket(&[0x61, 0xc3]),
        Err(
            "dropped a message that is not valid UTF-8: incomplete utf-8 byte sequence from \
             index 1"
                .into()
        )
    );
    assert_eq!(through_the_socket(&[]), Ok(String::new()));
}

fn put(action: Action) -> (String, usize) {
    match action {
        Action::Put { text, shown } => (text, shown),
        Action::Wait { text } => panic!("told to wait with {text:?}"),
    }
}

#[test]
fn a_message_joins_the_block_that_is_up() {
    let hold = |current| Some((current, Phase::Hold));
    assert_eq!(put(arrived(hold("one"), 10, "two")), ("one\ntwo".into(), 4));
    assert_eq!(
        put(arrived(hold("one\ntwo"), 10, "drei")),
        ("one\ntwo\ndrei".into(), 8)
    );
    // While it is being typed too.
    assert_eq!(
        put(arrived(
            Some(("ö", Phase::Reveal { chars: 0 })),
            10,
            "two"
        )),
        ("ö\ntwo".into(), 2)
    );
    // An empty block has no line to keep.
    assert_eq!(put(arrived(hold(""), 10, "two")), ("two".into(), 0));
}

#[test]
fn a_block_never_outgrows_its_cap() {
    let mut block = String::new();
    for i in 0..30 {
        let line = format!("line {i}");
        let (text, shown) = put(arrived(Some((&block, Phase::Hold)), 4, &line));
        assert!(block_lines(&text).len() <= 4);
        // Only the new line is typed; what is before it was on screen.
        let typed: String = text.chars().skip(shown).collect();
        assert_eq!(typed, line);
        block = text;
    }
    assert_eq!(block, "line 26\nline 27\nline 28\nline 29");
    assert_eq!(
        put(arrived(Some(("a\nb", Phase::Hold)), 1, "c")),
        ("c".into(), 0)
    );
}

#[test]
fn a_vanish_is_a_commit_point() {
    let during = arrived(Some(("old", Phase::Vanish { p: d(0.5) })), 10, "new");
    assert!(matches!(during, Action::Wait { text } if text == "new"));
    assert_eq!(
        put(arrived(Some(("old", Phase::Done)), 10, "new")),
        ("new".into(), 0)
    );
    assert_eq!(put(arrived(None, 10, "new")), ("new".into(), 0));
    // What waited becomes a block of its own.
    let released = release(&strings(&["a", "b"])).unwrap();
    assert_eq!(put(released), ("a\nb".into(), 0));
    assert!(release(&vec![]).is_none());
    assert_eq!(wait_for(d(250.0)), d(250.0 / 1000.0 + 0.01));
    assert_eq!(wait_for(d(-3.0)), d(0.01));
}

#[test]
fn a_listener_reserves_its_lines_up_front() {
    let mut s = Style::default();
    assert_eq!(reserve(&mut s), DEFAULT_LISTEN_LINES);
    assert_eq!(s.lines, Some(10));
    let mut s = Style {
        lines: Some(3),
        ..Style::default()
    };
    assert_eq!(reserve(&mut s), 3);
    assert_eq!(s.lines, Some(3));
}

#[test]
fn a_block_splits_into_the_lines_it_is_made_of() {
    assert!(block_lines("").is_empty());
    assert_eq!(block_lines("a"), ["a"]);
    assert_eq!(block_lines("a\n\nb\n"), ["a", "", "b", ""]);
    assert_eq!(shown_text("a\n\n").as_deref(), Some("a"));
    assert_eq!(shown_text("\n"), None);
}

#[test]
fn a_separator_after_a_blank_line_is_not_typed_again() {
    let up = Some(("one\n", Phase::Hold));
    assert_eq!(put(arrived(up, 2, "two")), ("\ntwo".into(), 1));
    assert_eq!(put(arrived(up, 3, "two")), ("one\n\ntwo".into(), 5));
    assert_eq!(put(arrived(up, 1, "two")), ("two".into(), 0));
}
