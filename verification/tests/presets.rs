//! Presets: merging, inheritance and where the file is.
use wayhud::config::{Style, StyleError};
use wayhud::paths::{config_path, socket_path};
use wayhud::presets::{check_presets, merge_into, preset_place, Config, PresetError};

fn table(text: &str) -> toml::Table {
    toml::from_str(text).unwrap()
}

fn merged(text: &str, name: &str) -> toml::Table {
    Config::parse(text).unwrap().merged(name)
}

#[test]
fn empty_config_yields_compiled_defaults() {
    let c = Config::parse("").unwrap();
    assert!(c.merged("default").is_empty());
    // An empty table decodes to the built-in style.
    let s = c.style("default", Ok(Style::default())).unwrap();
    assert_eq!(s.timeout_ms, 5000);
    assert!(c.names().is_empty());
    assert!(Config::default().names().is_empty());
}

#[test]
fn preset_overrides_only_named_fields() {
    let t = merged("[style.alert]\ncolor = \"#ff0000\"\n", "alert");
    assert_eq!(t, table("color = \"#ff0000\""));
}

#[test]
fn presets_inherit_from_style_default() {
    let t = merged(
        "[style.default]\nfont = \"Sans 40\"\ntimeout_ms = 1234\n\n\
         [style.alert]\ncolor = \"#ff0000\"\n",
        "alert",
    );
    assert_eq!(t["color"].as_str(), Some("#ff0000"), "own key must win");
    assert_eq!(
        t["font"].as_str(),
        Some("Sans 40"),
        "unset key must come from [style.default]"
    );
    assert_eq!(t["timeout_ms"].as_integer(), Some(1234));
    assert!(!t.contains_key("margin"));
}

#[test]
fn a_preset_can_override_a_base_key_back() {
    let text = "[style.default]\ncolor = \"#111111\"\n[style.a]\ncolor = \"#222222\"\n";
    assert_eq!(merged(text, "a")["color"].as_str(), Some("#222222"));
    assert_eq!(merged(text, "default")["color"].as_str(), Some("#111111"));
}

#[test]
fn sub_tables_merge_key_by_key() {
    // Sound fields merge without a variant discriminant.
    let t = merged(
        "[style.default]\nsound = { enabled = false, freq = 900.0 }\n\
         [style.a]\nsound = { freq = 1500.0 }\n",
        "a",
    );
    assert_eq!(t["sound"]["freq"].as_float(), Some(1500.0));
    assert_eq!(
        t["sound"]["enabled"].as_bool(),
        Some(false),
        "enabled must survive from the base"
    );
}

#[test]
fn changing_kind_replaces_the_table_instead_of_mixing_variants() {
    // Changing kind must discard fields specific to the old variant.
    let text = "[style.default]\nvanish = { kind = \"wash\", ms = 700, dir = \"up\" }\n\
                [style.a]\nvanish = { kind = \"collapse\" }\n\
                [style.b]\nvanish = { ms = 250 }\n";
    // A different kind leaves ms to the built-in default.
    assert_eq!(merged(text, "a"), table("vanish = { kind = \"collapse\" }"));
    // An omitted kind preserves the base variant and its fields.
    assert_eq!(
        merged(text, "b"),
        table("vanish = { kind = \"wash\", ms = 250, dir = \"up\" }")
    );
    // The same kind again merges too.
    let text = "[style.default]\nvanish = { kind = \"wash\", ms = 700 }\n\
                [style.a]\nvanish = { kind = \"wash\", dir = \"up\" }\n";
    assert_eq!(
        merged(text, "a"),
        table("vanish = { kind = \"wash\", ms = 700, dir = \"up\" }")
    );
}

#[test]
fn a_preset_inheriting_its_kind_survives_load() {
    // Validate after merging so presets can inherit `kind`.
    let text = "[style.default]\nvanish = { kind = \"wash\", ms = 700, dir = \"up\" }\n\
                [style.faster]\nvanish = { ms = 250 }\n";
    assert_eq!(
        merged(text, "faster"),
        table("vanish = { kind = \"wash\", ms = 250, dir = \"up\" }")
    );
    assert_eq!(
        merged(text, "default"),
        table("vanish = { kind = \"wash\", ms = 700, dir = \"up\" }")
    );
    let mut names = Config::parse(text).unwrap().names();
    names.sort();
    assert_eq!(names, ["default", "faster"]);
}

#[test]
fn scanlines_merge_field_by_field_like_the_other_tables() {
    let t = merged(
        "[style.default]\nscanlines = { period = 6.0, strength = 0.5 }\n\
         [style.a]\nscanlines = { strength = 0.2 }\n",
        "a",
    );
    assert_eq!(t["scanlines"]["strength"].as_float(), Some(0.2));
    assert_eq!(
        t["scanlines"]["period"].as_float(),
        Some(6.0),
        "period must survive from the base"
    );
    assert!(t["scanlines"].get("duty").is_none());
}

#[test]
fn a_preset_takes_back_an_inherited_raster_with_zero_strength() {
    // TOML has no null, the same reason `outline` needs the literal "none"
    // and a glow needs radius = 0.
    let t = merged(
        "[style.default]\nscanlines = { period = 4.0 }\n\
         [style.a]\nscanlines = { strength = 0.0 }\n",
        "a",
    );
    assert_eq!(t["scanlines"]["strength"].as_float(), Some(0.0));
    assert_eq!(t["scanlines"]["period"].as_float(), Some(4.0));
}

#[test]
fn unknown_preset_is_an_error() {
    let c = Config::parse("[style.alert]\n").unwrap();
    match c.style("alret", Ok(Style::default())) {
        Err(PresetError::Refused(e)) => {
            assert_eq!(e.message(), "no [style.alret] in the config")
        }
        other => panic!("{other:?}"),
    }
    assert!(c.style("alert", Ok(Style::default())).is_ok());
    // The base is there even when the file does not mention it.
    assert!(c.style("default", Ok(Style::default())).is_ok());
}

#[test]
fn a_typo_in_any_preset_is_caught_at_load_not_at_use() {
    // Raw tables reject unknown fields when they are decoded; the error says
    // where.
    let c = Config::parse("[style.unused]\ncolour = \"#fff\"\n").unwrap();
    match c.style("unused", Err("unknown field `colour`".to_string())) {
        Err(PresetError::Refused(e)) => {
            assert!(e.message().contains("style.unused"), "{}", e.message());
            assert_eq!(e.message(), "in [style.unused]: unknown field `colour`");
        }
        other => panic!("{other:?}"),
    }
    assert_eq!(preset_place("unused"), "in [style.unused]");
}

#[test]
fn a_broken_preset_does_not_poison_the_one_being_used() {
    let c = Config::parse("[style.bad]\ntimeout_ms = 99999999999\n[style.good]\n").unwrap();
    assert!(c.style("good", Ok(Style::default())).is_ok());
    let bad = Style {
        timeout_ms: 99999999999,
        ..Style::default()
    };
    assert!(matches!(
        c.style("bad", Ok(bad)),
        Err(PresetError::Range(StyleError::Timeout(99999999999)))
    ));
}

#[test]
fn a_config_holds_nothing_but_style_tables() {
    let refused = |text: &str| match Config::parse(text) {
        Err(e) => e.message().to_string(),
        Ok(_) => panic!("{text:?} was accepted"),
    };
    assert_eq!(
        refused("styles = 1"),
        "unknown field `styles`, expected `style`"
    );
    assert_eq!(refused("style = 1"), "style must be a table");
    assert_eq!(refused("[style]\na = 1"), "style.a must be a table");
    assert!(refused("[style.a").contains("TOML parse error"));
    assert!(Config::parse("[style]\n").is_ok());
    assert!(Config::parse("style = { a = { margin = 1 } }").is_ok());
}

#[test]
fn merging_is_what_it_says_on_both_sides() {
    let text = "a = 1\nb = { c = 2, d = { e = 3 } }\nkind = \"x\"";
    let mut t = table(text);
    merge_into(&mut t, &toml::Table::new());
    assert_eq!(t, table(text), "nothing over a table");
    let mut t = toml::Table::new();
    merge_into(&mut t, &table(text));
    assert_eq!(t, table(text), "a table over nothing");
    let mut t = table(text);
    merge_into(&mut t, &table("a = { z = 1 }\nb = { d = { f = 4 } }\nkind = \"y\""));
    assert_eq!(
        t,
        table("a = { z = 1 }\nb = { c = 2, d = { e = 3, f = 4 } }\nkind = \"y\"")
    );
    let mut t = table("b = { c = 2 }");
    merge_into(&mut t, &table("b = 7"));
    assert_eq!(t, table("b = 7"), "a value replaces a table");
    // Kinds that are not strings are compared as values.
    let mut t = table("b = { kind = 1, c = 2 }");
    merge_into(&mut t, &table("b = { kind = 1, d = 3 }"));
    assert_eq!(t, table("b = { kind = 1, c = 2, d = 3 }"));
    merge_into(&mut t, &table("b = { kind = 2 }"));
    assert_eq!(t, table("b = { kind = 2 }"));
}

#[test]
fn an_unusable_xdg_config_home_falls_back_to_home() {
    // Empty and relative XDG paths must fall back to HOME.
    let home = || Some(b"/home/u".to_vec());
    let want_home = b"/home/u/.config/wayhud/config.toml".to_vec();

    assert_eq!(
        config_path(&Some(b"/xdg".to_vec()), &home()),
        Some(b"/xdg/wayhud/config.toml".to_vec()),
        "an absolute XDG_CONFIG_HOME must win"
    );
    for unusable in ["", "relative/path", "."] {
        assert_eq!(
            config_path(&Some(unusable.as_bytes().to_vec()), &home()),
            Some(want_home.clone()),
            "XDG_CONFIG_HOME={unusable:?} must fall back to $HOME"
        );
    }
    assert_eq!(config_path(&None, &home()), Some(want_home));
    assert_eq!(config_path(&None, &None), None, "neither set: no path at all");
}

#[test]
fn the_default_path_needs_an_absolute_runtime_dir() {
    assert_eq!(
        socket_path(&Some(b"/run/user/1000".to_vec())).unwrap(),
        b"/run/user/1000/wayhud.sock".to_vec()
    );
    assert_eq!(
        socket_path(&Some(b"/run/".to_vec())).unwrap(),
        b"/run/wayhud.sock".to_vec()
    );
    // Empty, relative or absent: no silent fallback to a shared directory.
    assert!(socket_path(&Some(b"".to_vec())).is_err());
    assert!(socket_path(&Some(b"relative/path".to_vec())).is_err());
    assert_eq!(
        socket_path(&None).unwrap_err().message(),
        "XDG_RUNTIME_DIR is unset or not an absolute path; pass --socket to choose one \
         explicitly"
    );
}

#[test]
fn a_reveal_inheriting_its_kind_survives_load_too() {
    let t = merged(
        "[style.default]\nreveal = { kind = \"typewriter\", cps = 12 }\n\
         [style.fast]\nreveal = { cps = 40 }\n",
        "fast",
    );
    assert_eq!(t, table("reveal = { kind = \"typewriter\", cps = 40 }"));
}

#[test]
fn scroll_defaults_to_off_and_survives_a_preset_merge() {
    assert!(matches!(
        Style::default().reveal,
        wayhud::config::Reveal::Typewriter { scroll: false, .. }
    ));
    // Changing scroll must preserve the inherited speed.
    let t = merged(
        "[style.default]\nreveal = { kind = \"typewriter\", cps = 12 }\n\
         [style.a]\nreveal = { scroll = true }\n",
        "a",
    );
    assert_eq!(
        t,
        table("reveal = { kind = \"typewriter\", cps = 12, scroll = true }")
    );
}

#[test]
fn merging_the_same_table_again_changes_nothing() {
    let over = table("color = \"#fff\"\nvanish = { kind = \"wash\", ms = 250 }\nsound = { freq = 900.0 }\n");
    for base in [
        "",
        "vanish = { kind = \"wash\", dir = \"up\" }\nsound = { gain = 0.5 }\n",
        "vanish = { kind = \"fade\", ms = 9 }\nsound = 3\n",
        "vanish = \"none\"\nmargin = 4\n",
    ] {
        let mut once = table(base);
        merge_into(&mut once, &over);
        let mut twice = once.clone();
        merge_into(&mut twice, &over);
        assert_eq!(once, twice, "over {base:?}");
    }
    // A kind may be a table.
    let over = table("vanish = { kind = { a = 1, b = \"x\" }, ms = 250 }\n");
    for (base, fits) in [
        ("vanish = { kind = { b = \"x\", a = 1 }, dir = \"up\" }\n", true),
        ("vanish = { kind = { a = 1 }, dir = \"up\" }\n", false),
        ("vanish = { kind = { a = 2, b = \"x\" }, dir = \"up\" }\n", false),
        ("vanish = { kind = \"x\", dir = \"up\" }\n", false),
        ("vanish = { kind = 1, dir = \"up\" }\n", false),
    ] {
        let mut once = table(base);
        merge_into(&mut once, &over);
        let mut twice = once.clone();
        merge_into(&mut twice, &over);
        assert_eq!(once, twice, "over {base:?}");
        let kept = once["vanish"].as_table().unwrap().contains_key("dir");
        assert_eq!(kept, fits, "over {base:?}");
    }
    // A kind that is no number differs even from itself.
    let over = table("vanish = { kind = nan, ms = 250 }\n");
    let mut base = table("vanish = { dir = \"up\" }\n");
    merge_into(&mut base, &over);
    assert!(base["vanish"].as_table().unwrap().contains_key("dir"));
    merge_into(&mut base, &over);
    assert!(!base["vanish"].as_table().unwrap().contains_key("dir"));
}

#[test]
fn the_first_preset_that_does_not_decode_is_reported() {
    let names: Vec<String> = ["a", "b", "c"].map(String::from).to_vec();
    let fault = |s: &str| Some(s.to_string());
    assert!(check_presets(&names, &vec![None, None, None], "x.toml").is_ok());
    assert!(check_presets(&Vec::new(), &Vec::new(), "x.toml").is_ok());
    let e = check_presets(&names, &vec![None, fault("bad"), fault("worse")], "x.toml").unwrap_err();
    assert_eq!(e.message(), "in [style.b] of x.toml: bad");
    let e = check_presets(&names, &vec![fault("bad"), None, None], "y").unwrap_err();
    assert_eq!(e.message(), "in [style.a] of y: bad");
}
