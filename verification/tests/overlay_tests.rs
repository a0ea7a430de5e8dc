use magicutil::overlay::overlay;

#[test]
fn overlay_merges_values_and_appends_new_keys() {
    // The base file's layout survives; the overlay's values win; keys only
    // the overlay holds land at the tail.
    let merged = overlay("x = 1\ny = 2\n", "y = 20\nz = 30\n");
    assert_eq!(merged, "x = 1\ny = 20\nz = 30\n");
}

#[test]
fn overlay_keeps_base_comments_and_drops_overlay_comments() {
    let merged = overlay("# base comment\na = 1\n", "# overlay comment\na = 2\n");
    assert_eq!(merged, "# base comment\na = 2\n");
}

#[test]
fn overlay_with_empty_overlay_is_identity() {
    let merged = overlay("a = 1\n# note\n", "# only a comment\n");
    assert_eq!(merged, "a = 1\n# note\n");
}

#[test]
fn overlay_folds_overlay_duplicates_last_wins() {
    let merged = overlay("a = 1\n", "a = 2\na = 3\n");
    assert_eq!(merged, "a = 3\n");
}

#[test]
fn overlay_of_empty_base_lists_overlay_pairs() {
    let merged = overlay("", "a = 1\nb = 2\n");
    assert_eq!(merged, "a = 1\nb = 2\n");
}
