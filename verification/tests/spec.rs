//! Command-line specs.
use wayhud::double::Double;
use wayhud::error::Error;
use wayhud::spec::{split_fields, Spec};

fn d(x: f64) -> Double {
    Double::from_bits(x.to_bits())
}

fn spec(s: &str) -> Result<Spec<'_>, Error> {
    Spec::parse("--test", s)
}

#[test]
fn a_bare_value_and_pairs_travel_together() {
    let mut s = spec("#b8bb26,radius=12,alpha=0.7").unwrap();
    assert_eq!(s.bare(), Some("#b8bb26"));
    assert_eq!(s.take_parsed::<Double>("radius").unwrap(), Some(d(12.0)));
    assert_eq!(s.take_parsed::<Double>("alpha").unwrap(), Some(d(0.7)));
    s.finish().unwrap();
}

#[test]
fn pairs_alone_and_a_bare_value_alone_both_parse() {
    let mut s = spec("radius=12").unwrap();
    assert_eq!(s.bare(), None);
    assert_eq!(s.take_parsed::<Double>("radius").unwrap(), Some(d(12.0)));

    let s = spec("none").unwrap();
    assert_eq!(s.bare(), Some("none"));
}

#[test]
fn order_of_the_pairs_does_not_matter() {
    let mut a = spec("radius=12,alpha=0.7").unwrap();
    let mut b = spec("alpha=0.7,radius=12").unwrap();
    assert_eq!(
        (
            a.take_parsed::<Double>("radius").unwrap(),
            a.take_parsed::<Double>("alpha").unwrap()
        ),
        (
            b.take_parsed::<Double>("radius").unwrap(),
            b.take_parsed::<Double>("alpha").unwrap()
        )
    );
}

#[test]
fn whitespace_around_fields_is_not_a_typo() {
    let mut s = spec(" #fff , radius = 12 ").unwrap();
    assert_eq!(s.bare(), Some("#fff"));
    assert_eq!(s.take_parsed::<Double>("radius").unwrap(), Some(d(12.0)));
}

#[test]
fn an_unknown_field_is_refused_with_the_ones_that_exist() {
    let mut s = spec("radius=12,radius_px=4").unwrap();

    let _ = s.take("color");
    let _ = s.take_parsed::<Double>("radius").unwrap();
    let _ = s.take_parsed::<Double>("alpha").unwrap();
    let e = s.finish().unwrap_err();
    let err = e.message();
    assert!(err.contains("radius_px"), "{err}");
    assert!(
        err.contains("color, radius, alpha"),
        "did not list them: {err}"
    );
}

#[test]
fn a_taken_field_is_not_reported_as_unknown() {
    let mut s = spec("radius=12").unwrap();
    let _ = s.take_parsed::<Double>("radius").unwrap();
    s.finish().unwrap();
}

#[test]
fn the_wanted_list_cannot_contradict_itself() {
    // Supported names must come from the fields the caller consumes.
    let mut s = spec("radius=12").unwrap();
    let _ = s.take("color");
    let e = s.finish().unwrap_err();
    let err = e.message();
    assert!(err.contains("unknown field \"radius\""), "{err}");
    assert!(
        !err.contains("want color, radius"),
        "listed the field it just refused: {err}"
    );
}

#[test]
fn a_bare_value_must_come_first() {
    let e = spec("radius=12,#fff").unwrap_err();
    let err = e.message();
    assert!(err.contains("only the first value may be bare"), "{err}");
}

#[test]
fn the_same_key_twice_is_refused_rather_than_last_one_wins() {
    let e = spec("radius=12,radius=4").unwrap_err();
    let err = e.message();
    assert!(err.contains("more than once"), "{err}");
}

#[test]
fn empty_specs_and_empty_fields_are_refused() {
    for bad in ["", "   ", "a=1,,b=2", "a=1,", ",a=1"] {
        assert!(spec(bad).is_err(), "{bad:?} should be refused");
    }
}

#[test]
fn a_half_written_pair_is_refused() {
    for bad in ["=12", "radius="] {
        assert!(spec(bad).is_err(), "{bad:?} should be refused");
    }
}

#[test]
fn a_bad_number_names_the_field_it_was_for() {
    let mut s = spec("radius=wide").unwrap();
    let e = s.take_parsed::<Double>("radius").unwrap_err();
    let err = e.message();
    assert!(err.contains("radius"), "{err}");
    assert!(err.contains("wide"), "{err}");
}

#[test]
fn booleans_are_spelled_the_way_toml_spells_them() {
    let mut s = spec("cursor=false,scroll=true").unwrap();
    assert_eq!(s.take_bool("cursor").unwrap(), Some(false));
    assert_eq!(s.take_bool("scroll").unwrap(), Some(true));

    let mut s = spec("cursor=off").unwrap();
    let e = s.take_bool("cursor").unwrap_err();
    let err = e.message();
    assert!(err.contains("true or false"), "{err}");
}

#[test]
fn a_colour_with_commas_in_it_stays_one_field() {
    // CSS function arguments are part of the colour value.
    let mut s = spec("rgb(184, 187, 38),radius=4").unwrap();
    assert_eq!(s.headline("color").unwrap(), Some("rgb(184, 187, 38)"));
    assert_eq!(s.take_parsed::<Double>("radius").unwrap(), Some(d(4.0)));
    s.finish().unwrap();

    let mut s = spec("color=rgba(1,2,3,0.5)").unwrap();
    assert_eq!(s.headline("color").unwrap(), Some("rgba(1,2,3,0.5)"));
}

#[test]
fn the_old_colon_form_says_what_replaced_it() {
    // Report obsolete separators directly.
    let e = spec("#b8bb26:12").unwrap_err();
    let err = e.message();
    assert!(err.contains("old colon form"), "{err}");
    let e = spec("fade:250").unwrap_err();
    let err = e.message();
    assert!(err.contains("comma-separated"), "{err}");
}

#[test]
fn the_headline_field_reads_the_same_bare_or_named() {
    let mut bare = spec("fade,ms=250").unwrap();
    let mut named = spec("kind=fade,ms=250").unwrap();
    assert_eq!(bare.headline("kind").unwrap(), Some("fade"));
    assert_eq!(named.headline("kind").unwrap(), Some("fade"));
    assert_eq!(bare.take_parsed::<u64>("ms").unwrap(), Some(250));
    assert_eq!(named.take_parsed::<u64>("ms").unwrap(), Some(250));
    bare.finish().unwrap();
    named.finish().unwrap();
}

#[test]
fn the_headline_field_given_both_ways_is_refused() {
    let mut s = spec("#fff,color=#000").unwrap();
    let e = s.headline("color").unwrap_err();
    let err = e.message();
    assert!(err.contains("given twice"), "{err}");
}

#[test]
fn a_spec_with_no_headline_leaves_it_unset() {
    // An omitted colour leaves it to the caller to preserve the preset.
    let mut s = spec("radius=12").unwrap();
    assert_eq!(s.headline("color").unwrap(), None);
}

#[test]
fn a_missing_field_is_none_rather_than_an_error() {
    // Omitted fields must remain available for inheritance.
    let mut s = spec("radius=12").unwrap();
    assert_eq!(s.take_parsed::<Double>("alpha").unwrap(), None);
    assert_eq!(s.take_bool("cursor").unwrap(), None);
    assert_eq!(s.take("color"), None);
}

#[test]
fn every_refusal_reads_as_one_line() {
    let refused = |text: &str| spec(text).unwrap_err().message().to_string();
    assert_eq!(
        refused(" "),
        "--test needs a value, e.g. --test 'key=value'"
    );
    assert_eq!(
        refused("a=1,,b=2"),
        "--test: empty field in \"a=1,,b=2\"; commas separate fields, so a trailing or \
         doubled one has nothing to separate"
    );
    assert_eq!(refused("=12"), "--test: \"=12\" has no key before the =");
    assert_eq!(refused("radius= "), "--test: radius has no value after the =");
    assert_eq!(refused("a=1,a=2"), "--test: a given more than once");
    assert_eq!(
        refused("a:b"),
        "--test: \"a:b\" looks like the old colon form; fields are now comma-separated, \
         e.g. --test 'value,key=value'"
    );
    assert_eq!(
        refused("a=1,b"),
        "--test: \"b\" has no key; only the first value may be bare"
    );

    let mut s = spec("ms=-1,every=99999999999999999999,cursor=on,x=1").unwrap();
    assert_eq!(
        s.take_parsed::<u64>("ms").unwrap_err().message(),
        "--test: bad value \"-1\" for ms (invalid digit found in string)"
    );
    assert_eq!(
        s.take_parsed::<usize>("every").unwrap_err().message(),
        "--test: bad value \"99999999999999999999\" for every (number too large to fit \
         in target type)"
    );
    assert_eq!(
        s.take_bool("cursor").unwrap_err().message(),
        "--test: cursor wants true or false, got \"on\""
    );
    assert_eq!(
        s.finish().unwrap_err().message(),
        "--test: unknown field \"x\" (want ms, every, cursor)"
    );
    let mut s = spec("a,kind=b").unwrap();
    assert_eq!(
        s.headline("kind").unwrap_err().message(),
        "--test: kind given twice, as \"a\" and as kind=\"b\""
    );
    let mut s = spec("x=1.2.3").unwrap();
    assert_eq!(
        s.take_parsed::<Double>("x").unwrap_err().message(),
        "--test: bad value \"1.2.3\" for x (invalid float literal)"
    );
}

#[test]
fn numbers_are_read_as_whole_numbers_where_they_are_counts() {
    let mut s = spec("a=+7,b=18446744073709551615,c=18446744073709551616,d=007").unwrap();
    assert_eq!(s.take_parsed::<u64>("a").unwrap(), Some(7));
    assert_eq!(s.take_parsed::<u64>("b").unwrap(), Some(u64::MAX));
    assert!(s.take_parsed::<u64>("c").is_err());
    assert_eq!(s.take_parsed::<usize>("d").unwrap(), Some(7));
    s.finish().unwrap();
}

#[test]
fn fields_split_at_commas_outside_brackets() {
    assert_eq!(split_fields(""), vec![""]);
    assert_eq!(split_fields("a,b"), vec!["a", "b"]);
    assert_eq!(split_fields("f(a,b),c"), vec!["f(a,b)", "c"]);
    assert_eq!(split_fields("a),b(,c"), vec!["a)", "b(,c"]);
    assert_eq!(split_fields("((a,b),c),d"), vec!["((a,b),c)", "d"]);
    for text in ["", "a,b", "f(a,b),c", ",,", "ä(ö,ü),ß"] {
        assert_eq!(split_fields(text).join(","), text);
    }
}
