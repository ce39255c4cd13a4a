use inventory::auth::authenticate;

#[test]
fn the_right_pair_is_let_in() {
    assert!(authenticate("azfar", "organic"));
}

#[test]
fn white_space_at_the_ends_is_ignored() {
    assert!(authenticate("azfar\n", "organic\n"));
    assert!(authenticate("  azfar\r\n", "\torganic  "));
    assert!(authenticate("\u{a0}azfar\u{3000}", "\u{2003}organic\u{85}"));
}

#[test]
fn anything_else_is_turned_away() {
    assert!(!authenticate("", ""));
    assert!(!authenticate("azfar", ""));
    assert!(!authenticate("", "organic"));
    assert!(!authenticate("azfar", "Organic"));
    assert!(!authenticate("Azfar", "organic"));
    assert!(!authenticate("organic", "azfar"));
    assert!(!authenticate("az far", "organic"));
    assert!(!authenticate("azfar", "organic!"));
    assert!(!authenticate("azfa", "organic"));
    assert!(!authenticate("azfarr", "organic"));
    assert!(!authenticate("\u{200b}azfar", "organic"));
}
