use budgetchat::{
    chat_line, contents_line, entered_line, left_line, name_less, names_equal, validate_username,
    welcome_line,
};

#[test]
fn validation_accepts_letters_and_digits() {
    assert!(validate_username("bob"));
    assert!(validate_username("Bob42"));
    assert!(validate_username("7"));
}

#[test]
fn validation_rejects_others() {
    assert!(!validate_username(""));
    assert!(!validate_username("bob!"));
    assert!(!validate_username("bo b"));
    assert!(!validate_username("caf\u{e9}"));
    assert!(!validate_username("\u{661}"));
    assert!(!validate_username("bob\n"));
}

#[test]
fn name_order_is_lexicographic() {
    assert!(name_less("alice", "bob"));
    assert!(!name_less("bob", "alice"));
    assert!(name_less("bob", "bob2"));
    assert!(!name_less("bob", "bob"));
    assert!(name_less("Bob", "alice"));
    assert!(name_less("", "a"));
    assert!(name_less("9", "A"));
}

#[test]
fn name_equality() {
    assert!(names_equal("bob", "bob"));
    assert!(!names_equal("bob", "Bob"));
    assert!(!names_equal("bob", "bob2"));
}

#[test]
fn contents_line_joins_names() {
    assert_eq!(contents_line(&vec![]), "* The room contains: ");
    assert_eq!(contents_line(&vec!["bob".to_string()]), "* The room contains: bob");
    assert_eq!(
        contents_line(&vec!["a".to_string(), "b".to_string(), "c".to_string()]),
        "* The room contains: a, b, c"
    );
}

#[test]
fn announcement_and_chat_lines() {
    assert_eq!(entered_line("alice"), "* alice has entered the room");
    assert_eq!(left_line("bob"), "* bob has left the room");
    assert_eq!(chat_line("alice", "hello"), "[alice] hello");
    assert_eq!(chat_line("a", ""), "[a] ");
    assert_eq!(welcome_line(), "Welcome to budgetchat! What shall I call you?");
}
