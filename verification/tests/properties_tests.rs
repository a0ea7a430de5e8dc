use magicutil::errors::PropError;
use magicutil::errors::PropErrorKind;
use magicutil::properties::PropertiesMut;

#[test]
fn parse_key_of_plain_entry() {
    let p = PropertiesMut::new("config.properties");
    assert_eq!(p.get_key("alpha = 1"), Some(String::from("alpha")));
}

#[test]
fn parse_key_trims_whitespace() {
    let p = PropertiesMut::new("config.properties");
    assert_eq!(p.get_key("   alpha   =   1   "), Some(String::from("alpha")));
}

#[test]
fn parse_key_skips_comments_and_blanks() {
    let p = PropertiesMut::new("config.properties");
    assert_eq!(p.get_key("# alpha = 1"), None);
    assert_eq!(p.get_key("! alpha = 1"), None);
    assert_eq!(p.get_key(""), None);
    assert_eq!(p.get_key("   "), None);
}

#[test]
fn parse_key_needs_equals_and_key() {
    let p = PropertiesMut::new("config.properties");
    assert_eq!(p.get_key("no equals sign here"), None);
    assert_eq!(p.get_key("=foo"), None);
    assert_eq!(p.get_key("   = foo"), None);
}

#[test]
fn parse_value_keeps_later_equals() {
    let p = PropertiesMut::new("config.properties");
    let (key, value) = p.get_key_values("a=b=c").unwrap();
    assert_eq!(key, "a");
    assert_eq!(value, "b=c");
}

#[test]
fn parse_value_is_trimmed() {
    let p = PropertiesMut::new("config.properties");
    let (key, value) = p.get_key_values("url =  http://host/path?x=1  ").unwrap();
    assert_eq!(key, "url");
    assert_eq!(value, "http://host/path?x=1");
}

#[test]
fn parse_value_may_be_empty() {
    let p = PropertiesMut::new("config.properties");
    let (key, value) = p.get_key_values("empty = ").unwrap();
    assert_eq!(key, "empty");
    assert_eq!(value, "");
}

#[test]
fn free_parser_matches_methods() {
    assert_eq!(magicutil::parser::parse_key("a = 1"), Some(String::from("a")));
    assert_eq!(
        magicutil::parser::parse_line("a = 1"),
        Some((String::from("a"), String::from("1")))
    );
    assert_eq!(magicutil::parser::parse_line("# nope"), None);
}

#[test]
fn render_without_mutations_is_identity() {
    let p = PropertiesMut::new("config.properties");
    let content = "a = 1\n# comment\n\nb = 2\n";
    assert_eq!(p.get_mutated_content(content), content);
}

#[test]
fn render_normalizes_line_endings() {
    let p = PropertiesMut::new("config.properties");
    let content = "a = 1\r\n# comment\r\nb = 2\r\n";
    assert_eq!(p.get_mutated_content(content), "a = 1\n# comment\nb = 2\n");
}

#[test]
fn render_applies_set_and_appends_new_key() {
    // Replaced keys keep their line, new keys land at the tail, comments stay.
    let mut p = PropertiesMut::new("config.properties");
    p.set("b", "9");
    p.set("c", "3");
    let rendered = p.get_mutated_content("a = 1\n# comment\nb = 2\n");
    assert_eq!(rendered, "a = 1\n# comment\nb = 9\nc = 3\n");
}

#[test]
fn render_set_twice_last_write_wins() {
    let mut p = PropertiesMut::new("config.properties");
    p.set("a", "first");
    p.set("a", "second");
    assert_eq!(p.get_mutated_content("a = 0\n"), "a = second\n");
}

#[test]
fn render_remove_drops_the_line() {
    let mut p = PropertiesMut::new("config.properties");
    p.remove("b");
    assert_eq!(p.get_mutated_content("a = 1\nb = 2\nc = 3\n"), "a = 1\nc = 3\n");
}

#[test]
fn render_remove_missing_key_changes_nothing() {
    // No tombstone line ever appears for a key the file does not hold.
    let mut p = PropertiesMut::new("config.properties");
    p.remove("ghost");
    let content = "a = 1\n# comment\n";
    assert_eq!(p.get_mutated_content(content), content);
}

#[test]
fn render_set_then_remove_same_key() {
    let mut p = PropertiesMut::new("config.properties");
    p.set("a", "9");
    p.remove("a");
    assert_eq!(p.get_mutated_content("a = 1\nb = 2\n"), "b = 2\n");
}

#[test]
fn render_consumes_only_first_matching_line() {
    // The mutation rewrites the first occurrence; a later duplicate line
    // passes through untouched.
    let mut p = PropertiesMut::new("config.properties");
    p.set("a", "9");
    assert_eq!(p.get_mutated_content("a = 1\na = 2\n"), "a = 9\na = 2\n");
}

#[test]
fn render_keeps_opaque_lines_verbatim() {
    let p = PropertiesMut::new("config.properties");
    let content = "not an entry\n=bare equals\n# note\n";
    assert_eq!(p.get_mutated_content(content), content);
}

#[test]
fn set_then_snapshot_returns_value() {
    // The rendered content, read back, resolves the key to the new value.
    let mut p = PropertiesMut::new("config.properties");
    p.set("b", "9");
    let rendered = p.get_mutated_content("a = 1\nb = 2\n");
    let snapshot = p.get_hashmap_content(&rendered);
    assert_eq!(snapshot.get("b"), Some(String::from("9")));
    assert_eq!(snapshot.get("a"), Some(String::from("1")));
}

#[test]
fn snapshot_folds_duplicates_last_wins() {
    let p = PropertiesMut::new("config.properties");
    let snapshot = p.get_hashmap_content("a = 1\nb = 2\na = 3\n");
    assert_eq!(snapshot.get("a"), Some(String::from("3")));
    assert_eq!(snapshot.get("b"), Some(String::from("2")));
    assert_eq!(snapshot.len(), 2);
}

#[test]
fn snapshot_ignores_comments_and_bad_lines() {
    let p = PropertiesMut::new("config.properties");
    let snapshot = p.get_hashmap_content("# a = 1\nplain text\nb = 2\n=3\n");
    assert_eq!(snapshot.get("a"), None);
    assert_eq!(snapshot.get("b"), Some(String::from("2")));
    assert_eq!(snapshot.len(), 1);
}

#[test]
fn snapshot_ignores_pending_mutations() {
    let mut p = PropertiesMut::new("config.properties");
    p.set("a", "999");
    let snapshot = p.get_hashmap_content("a = 1\n");
    assert_eq!(snapshot.get("a"), Some(String::from("1")));
}

#[test]
fn snapshot_contains_key() {
    let p = PropertiesMut::new("config.properties");
    let snapshot = p.get_hashmap_content("a = 1\n");
    assert!(snapshot.contains_key("a"));
    assert!(!snapshot.contains_key("b"));
}

#[test]
fn mutator_remembers_its_source() {
    let p = PropertiesMut::new("/opt/app/conf/config.properties");
    assert_eq!(p.source(), "/opt/app/conf/config.properties");
}

#[test]
fn error_carries_kind_and_detail() {
    let e = PropError::new(PropErrorKind::NotFound, String::from("no such file"));
    assert_eq!(e.kind, PropErrorKind::NotFound);
    assert_eq!(e.message(), "no such file");
    let e = PropError::new(PropErrorKind::IoError, String::from("disk full"));
    assert_eq!(e.kind, PropErrorKind::IoError);
    let e = PropError::new(PropErrorKind::KeyNotSet, String::from("key x is not set"));
    assert_eq!(e.kind, PropErrorKind::KeyNotSet);
}
