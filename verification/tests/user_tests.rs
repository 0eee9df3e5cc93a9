use basileus::user::check_username;

#[test]
fn ordinary_names_are_accepted() {
    assert!(check_username("alice"));
    assert!(check_username("bob42"));
    assert!(check_username("user_name-x.y"));
    assert!(check_username("!#$%&'()*+"));
}

#[test]
fn the_reserved_superuser_name_is_rejected() {
    assert!(!check_username("root"));
    // but names merely containing it are fine
    assert!(check_username("roots"));
    assert!(check_username("chroot"));
}

#[test]
fn empty_names_are_rejected() {
    assert!(!check_username(""));
}

#[test]
fn whitespace_is_rejected() {
    assert!(!check_username("a b"));
    assert!(!check_username(" alice"));
    assert!(!check_username("alice\t"));
    assert!(!check_username("\n"));
}

#[test]
fn non_ascii_and_control_characters_are_rejected() {
    assert!(!check_username("caf\u{e9}"));
    assert!(!check_username("\u{7f}"));
    assert!(!check_username("a\u{0}b"));
    assert!(!check_username("\u{1F600}"));
}
