use icounter::hidden::{is_hidden, is_visible};

#[test]
fn dot_file_is_hidden() {
    assert!(is_hidden(".secret"));
    assert!(is_hidden(".git"));
}

#[test]
fn plain_name_is_not_hidden() {
    assert!(!is_hidden("visible"));
    assert!(!is_hidden("a.b"));
    assert!(!is_hidden("trailing."));
}

#[test]
fn single_dot_is_not_hidden() {
    assert!(!is_hidden("."));
}

#[test]
fn double_dot_is_hidden() {
    assert!(is_hidden(".."));
}

#[test]
fn empty_name_is_not_hidden() {
    assert!(!is_hidden(""));
}

#[test]
fn dot_followed_by_wide_character_is_hidden() {
    assert!(is_hidden(".é"));
    assert!(!is_hidden("é."));
}

#[test]
fn everything_is_visible_when_hidden_entries_are_shown() {
    assert!(is_visible(true, Some(".secret")));
    assert!(is_visible(true, Some("visible")));
    assert!(is_visible(true, None));
}

#[test]
fn hidden_names_are_held_back_when_not_shown() {
    assert!(!is_visible(false, Some(".secret")));
    assert!(is_visible(false, Some("visible")));
    assert!(is_visible(false, Some(".")));
}

#[test]
fn entry_without_a_readable_name_is_visible() {
    assert!(is_visible(false, None));
}
