use protohackers::budget_chat::{
    accept_name, line_notice, trim, validate_user_name, welcome_message, Room, UserNameError,
};

fn message_of(result: Result<(), UserNameError>) -> Option<&'static str> {
    match result {
        Ok(()) => None,
        Err(e) => Some(UserNameError::geenrate_error_message(e)),
    }
}

#[test]
fn user_name_rules() {
    assert!(validate_user_name("alice").is_ok());
    assert!(validate_user_name("Bob42").is_ok());
    assert!(validate_user_name("abcdefghijklmnop").is_ok());
    assert_eq!(message_of(validate_user_name("")), Some("Name too short (Minimum 1 character)"));
    assert_eq!(
        message_of(validate_user_name("abcdefghijklmnopq")),
        Some("Name too long (Maximum 16 characters)")
    );
    assert_eq!(
        message_of(validate_user_name("bob!")),
        Some("Invalid name. Please ensure name consists of only alphabets and digits")
    );
    assert_eq!(
        message_of(validate_user_name("two words")),
        Some("Invalid name. Please ensure name consists of only alphabets and digits")
    );
}

#[test]
fn length_is_counted_in_bytes() {
    assert!(matches!(validate_user_name("ééééééééé"), Err(UserNameError::NameTooLong)));
    assert!(validate_user_name("éé").is_ok());
}

#[test]
fn only_cased_letters_and_digits() {
    assert!(matches!(validate_user_name("名前"), Err(UserNameError::InvalidName)));
    assert!(validate_user_name("Élodie").is_ok());
    assert!(validate_user_name("Ωmega").is_ok());
    assert!(matches!(validate_user_name("٣"), Err(UserNameError::InvalidName)));
    assert!(matches!(validate_user_name("bob smith"), Err(UserNameError::InvalidName)));
    assert!(matches!(validate_user_name("bob_smith"), Err(UserNameError::InvalidName)));
    for b in 0u8..128 {
        let name = (b as char).to_string();
        assert_eq!(validate_user_name(&name).is_ok(), (b as char).is_ascii_alphanumeric(), "byte {}", b);
    }
}

#[test]
fn whitespace_is_unicode_white_space() {
    for c in (0u32..0x11_0000).filter_map(char::from_u32) {
        let text = c.to_string();
        assert_eq!(trim(&text).is_empty(), c.is_whitespace(), "U+{:04X}", c as u32);
    }
}

#[test]
fn line_end_is_trimmed() {
    assert_eq!(trim("hello\n"), trim("hello"));
    assert_eq!(trim(" a b \n"), "a b");
}

#[test]
fn trimming() {
    assert_eq!(trim("  hello world \r\n"), "hello world");
    assert_eq!(trim(" \t\n"), "");
    assert_eq!(trim(""), "");
    assert_eq!(trim("x"), "x");
    assert_eq!(trim("\u{3000}a b\u{3000}"), "a b");
}

#[test]
fn accepting_names() {
    assert_eq!(accept_name(b"alice\n".to_vec()).ok(), Some(String::from("alice")));
    assert!(matches!(accept_name(b"\n".to_vec()), Err(UserNameError::NameTooShort)));
    assert!(matches!(accept_name(b"al ice\n".to_vec()), Err(UserNameError::InvalidName)));
}

#[test]
fn long_lines_get_a_notice() {
    assert_eq!(line_notice(&vec![b'a'; 1000]), None);
    assert_eq!(line_notice(&vec![b'a'; 1001]), Some("Message too long (Maximum 1000 characters)"));
    assert_eq!(welcome_message(), "Welcome to budgetchat! What shall I call you?\n");
}

#[test]
fn a_chat_session() {
    let mut room = Room::new();
    let (told, listing) = room.join("alice");
    assert!(told.is_empty());
    assert_eq!(listing, "* The room contains: \n");

    let (told, listing) = room.join("bob");
    assert_eq!(listing, "* The room contains: alice\n");
    assert_eq!(told.len(), 1);
    assert_eq!(told[0].recipient, "alice");
    assert_eq!(told[0].text, "* bob has entered the room\n");

    let (told, listing) = room.join("carol");
    assert_eq!(listing, "* The room contains: alice, bob\n");
    assert_eq!(told.len(), 2);

    let sent = room.post("bob", b"  hi there \n".to_vec());
    let recipients: Vec<&str> = sent.iter().map(|o| o.recipient.as_str()).collect();
    assert_eq!(recipients, vec!["alice", "carol"]);
    assert!(sent.iter().all(|o| o.text == "[bob] hi there\n"));

    let left = room.leave("alice");
    let recipients: Vec<&str> = left.iter().map(|o| o.recipient.as_str()).collect();
    assert_eq!(recipients, vec!["bob", "carol"]);
    assert!(left.iter().all(|o| o.text == "* alice has left the room\n"));
    assert!(!room.contains("alice"));
    assert!(room.contains("bob"));
    assert_eq!(room.listing(), "* The room contains: bob, carol\n");
}

#[test]
fn joining_twice_keeps_one_entry() {
    let mut room = Room::new();
    room.join("dave");
    let (told, listing) = room.join("dave");
    assert_eq!(told.len(), 1);
    assert_eq!(listing, "* The room contains: dave\n");
    assert_eq!(room.listing(), "* The room contains: dave\n");
    room.leave("dave");
    assert_eq!(room.listing(), "* The room contains: \n");
}
