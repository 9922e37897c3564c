use phonebook::strutil::{eq_ignore_case, privacy_marked, str_le};

#[test]
fn case_insensitive_equality() {
    assert!(eq_ignore_case("Telephone", "telephone"));
    assert!(eq_ignore_case("CALLSIGN", "callsign"));
    assert!(eq_ignore_case("", ""));
    assert!(!eq_ignore_case("name", "names"));
    assert!(!eq_ignore_case("name", "nape"));
}

#[test]
fn privacy_marker_trims_and_folds() {
    assert!(privacy_marked("y"));
    assert!(privacy_marked("Y"));
    assert!(privacy_marked("y "));
    assert!(privacy_marked(" Y"));
    assert!(privacy_marked("\ty\n"));
    assert!(!privacy_marked("n"));
    assert!(!privacy_marked(""));
    assert!(!privacy_marked("yes"));
}

#[test]
fn ordinal_string_order() {
    assert!(str_le("Amy", "Bob"));
    assert!(!str_le("Zed", "Bob"));
    assert!(str_le("abc", "abc"));
    assert!(str_le("ab", "abc"));
    assert!(!str_le("abc", "ab"));
    assert!(str_le("", "a"));
    // ordinal, not case-folded: upper-case letters come first
    assert!(str_le("Z", "a"));
}
