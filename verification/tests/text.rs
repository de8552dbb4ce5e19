use vmf_diff::text::{push_line, rejoin_value, FIELD_SEPARATOR};

#[test]
fn separator_is_the_unit_separator() {
    assert_eq!(FIELD_SEPARATOR, '\u{1f}');
    assert_eq!(FIELD_SEPARATOR as u32, 31);
}

#[test]
fn rejoin_value_replaces_every_separator() {
    assert_eq!(rejoin_value("door\u{1f}Open\u{1f}\u{1f}0\u{1f}-1"), "door,Open,,0,-1");
}

#[test]
fn rejoin_value_keeps_field_count_and_order() {
    let packed = "a\u{1f}b\u{1f}c\u{1f}d\u{1f}e";
    let joined = rejoin_value(packed);
    let before: Vec<&str> = packed.split(FIELD_SEPARATOR).collect();
    let after: Vec<&str> = joined.split(',').collect();
    assert_eq!(before, after);
    assert_eq!(after, vec!["a", "b", "c", "d", "e"]);
}

#[test]
fn rejoin_value_without_separator_is_unchanged() {
    assert_eq!(rejoin_value("0 0 0"), "0 0 0");
    assert_eq!(rejoin_value(""), "");
    assert_eq!(rejoin_value("already,joined"), "already,joined");
}

#[test]
fn rejoin_value_keeps_empty_fields() {
    let joined = rejoin_value("door1\u{1f}Open\u{1f}\u{1f}0\u{1f}-1");
    assert_eq!(joined, "door1,Open,,0,-1");
    assert_eq!(joined.split(',').collect::<Vec<&str>>(), vec!["door1", "Open", "", "0", "-1"]);
    assert!(!joined.contains('\u{1f}'));
    assert_eq!(rejoin_value("\u{1f}a\u{1f}"), ",a,");
}

#[test]
fn rejoin_value_of_separators_only() {
    assert_eq!(rejoin_value("\u{1f}"), ",");
    assert_eq!(rejoin_value("\u{1f}\u{1f}\u{1f}"), ",,,");
}

#[test]
fn rejoin_value_keeps_other_control_and_wide_characters() {
    assert_eq!(rejoin_value("t\u{e4}r\u{1f}\u{1b}\u{1f}\u{1f600}"), "t\u{e4}r,\u{1b},\u{1f600}");
}

#[test]
fn push_line_quotes_key_and_value() {
    let mut out = String::from("head\n");
    push_line(&mut out, "    ", "origin", "1 2 3");
    assert_eq!(out, "head\n    \"origin\" \"1 2 3\"\n");
    push_line(&mut out, "", "", "");
    assert_eq!(out, "head\n    \"origin\" \"1 2 3\"\n\"\" \"\"\n");
}
