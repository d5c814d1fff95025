use cmd::codec::ParseError;
use cmd::codec::parse_index;
use cmd::codec::serialize_index;
use cmd::registry::JsonCmd;

fn entry(alias: &str, rel_path: &str, description: &str) -> JsonCmd {
    JsonCmd {
        alias: alias.to_string(),
        rel_path: rel_path.to_string(),
        description: description.to_string(),
    }
}

fn triples(v: &[JsonCmd]) -> Vec<(String, String, String)> {
    v.iter()
        .map(|e| (e.alias.clone(), e.rel_path.clone(), e.description.clone()))
        .collect()
}

#[test]
fn empty_registry_serializes_to_bare_brackets() {
    assert_eq!(serialize_index(&Vec::new()), "[]");
}

#[test]
fn empty_index_parses_to_no_entries() {
    assert_eq!(parse_index("[]").unwrap().len(), 0);
    assert_eq!(parse_index("  [ ]\n").unwrap().len(), 0);
}

#[test]
fn one_entry_pretty_prints_exactly() {
    let v = vec![entry("build", "./.cmd/scripts/build.sh", "compile")];
    let expected = "[\n  {\n    \"alias\": \"build\",\n    \"rel_path\": \"./.cmd/scripts/build.sh\",\n    \"description\": \"compile\"\n  }\n]";
    assert_eq!(serialize_index(&v), expected);
}

#[test]
fn two_entries_round_trip_in_order() {
    let v = vec![
        entry("build", "./.cmd/scripts/build.sh", "compile"),
        entry("test", "./.cmd/scripts/test.sh", ""),
    ];
    let text = serialize_index(&v);
    let back = parse_index(&text).unwrap();
    assert_eq!(triples(&back), triples(&v));
}

#[test]
fn escaped_characters_round_trip() {
    let v = vec![entry(
        "odd\"alias\\",
        "./.cmd/scripts/odd.sh",
        "line one\nline two\ttabbed \u{8}\u{c}\r and \u{1f} control",
    )];
    let text = serialize_index(&v);
    assert!(text.contains("odd\\\"alias\\\\"));
    assert!(text.contains("line one\\nline two\\ttabbed \\b\\f\\r and \\u001f control"));
    let back = parse_index(&text).unwrap();
    assert_eq!(triples(&back), triples(&v));
}

#[test]
fn non_ascii_text_rides_through_unescaped() {
    let v = vec![entry("gr\u{fc}\u{df}e", "./.cmd/scripts/gr.sh", "caf\u{e9} \u{1f600}")];
    let text = serialize_index(&v);
    assert!(text.contains("caf\u{e9}"));
    let back = parse_index(&text).unwrap();
    assert_eq!(triples(&back), triples(&v));
}

#[test]
fn reader_accepts_loose_blank_space_and_short_escapes() {
    let text = "\n[ {\t\"alias\" : \"a\\n\",\n\"rel_path\": \"p\\/q\", \"description\": \"\\u001f\" } ]\n";
    let back = parse_index(text).unwrap();
    assert_eq!(back.len(), 1);
    assert_eq!(back[0].alias, "a\n");
    assert_eq!(back[0].rel_path, "p/q");
    assert_eq!(back[0].description, "\u{1f}");
}

#[test]
fn reader_accepts_upper_case_hex_in_control_escapes() {
    let text = "[{\"alias\": \"\\u000B\", \"rel_path\": \"p\", \"description\": \"d\"}]";
    let back = parse_index(text).unwrap();
    assert_eq!(back[0].alias, "\u{b}");
}

#[test]
fn malformed_texts_are_parse_errors() {
    let bad = [
        "",
        "[",
        "]",
        "{}",
        "[{]",
        "[{\"alias\": \"a\"}]",
        "[{\"alias\": \"a\", \"rel_path\": \"p\", \"description\": \"d\"},]",
        "[{\"alias\": \"a\", \"rel_path\": \"p\", \"description\": \"d\"}] trailing",
        "[{\"rel_path\": \"p\", \"alias\": \"a\", \"description\": \"d\"}]",
        "[{\"alias\": \"a\", \"rel_path\": \"p\", \"description\": \"d\"",
        "[{\"alias\": \"unterminated, \"rel_path\": \"p\", \"description\": \"d\"}]",
        "[{\"alias\": \"bad\\q\", \"rel_path\": \"p\", \"description\": \"d\"}]",
        "[{\"alias\": \"\\u0041\", \"rel_path\": \"p\", \"description\": \"d\"}]",
        "[{\"alias\": \"\\u00zz\", \"rel_path\": \"p\", \"description\": \"d\"}]",
        "[{\"alias\": \"raw\u{1}control\", \"rel_path\": \"p\", \"description\": \"d\"}]",
    ];
    for text in bad {
        assert_eq!(parse_index(text).unwrap_err(), ParseError, "accepted: {:?}", text);
    }
}
