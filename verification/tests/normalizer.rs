use menu_maker::normalize::general_cleanup;

#[test]
fn cleanup_collapses_spaces_and_newlines() {
    let out = general_cleanup(String::from("a  b\n\n\nc"));
    assert_eq!(out, "a b\nc");
}

#[test]
fn cleanup_strips_asterisks() {
    let out = general_cleanup(String::from("oysters* on the half shell"));
    assert_eq!(out, "oysters on the half shell");
}

#[test]
fn cleanup_drops_leading_space() {
    let out = general_cleanup(String::from("  menu"));
    assert_eq!(out, "menu");
}

#[test]
fn cleanup_is_idempotent() {
    let messy = String::from("  du*ck   breast\n\n\ncherry,  thyme   32\n");
    let once = general_cleanup(messy);
    let twice = general_cleanup(once.clone());
    assert_eq!(once, twice);
}

#[test]
fn cleanup_keeps_single_separators() {
    let tidy = String::from("duck breast\ncherry, thyme 32");
    assert_eq!(general_cleanup(tidy.clone()), tidy);
}
