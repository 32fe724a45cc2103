use sentinel::terminal::session::{terminal_size, DEFAULT_COLS, DEFAULT_ROWS};

#[test]
fn size_from_both_variables() {
    assert_eq!(terminal_size(Some("132"), Some("50")), (50, 132));
}

#[test]
fn size_defaults_to_80_by_24() {
    assert_eq!((DEFAULT_ROWS, DEFAULT_COLS), (24, 80));
    assert_eq!(terminal_size(None, None), (24, 80));
    assert_eq!(terminal_size(Some("132"), None), (24, 80));
    assert_eq!(terminal_size(None, Some("50")), (24, 80));
    assert_eq!(terminal_size(Some("0"), Some("50")), (24, 80));
    assert_eq!(terminal_size(Some("wide"), Some("50")), (24, 80));
    assert_eq!(terminal_size(Some("70000"), Some("50")), (24, 80));
    assert_eq!(terminal_size(Some("-5"), Some("50")), (24, 80));
}

#[test]
fn size_accepts_plus_sign_and_leading_zeros() {
    assert_eq!(terminal_size(Some("+132"), Some("050")), (50, 132));
    assert_eq!(terminal_size(Some("65535"), Some("1")), (1, 65535));
    assert_eq!(terminal_size(Some("+"), Some("50")), (24, 80));
    assert_eq!(terminal_size(Some(""), Some("50")), (24, 80));
    assert_eq!(terminal_size(Some(" 80"), Some("50")), (24, 80));
}
