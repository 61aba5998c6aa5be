use pacman_core::users::{is_password_correct, parse_users, User};

fn pairs(users: &[User]) -> Vec<(String, String)> {
    users.iter().map(|u| (u.name.clone(), u.password.clone())).collect()
}

#[test]
fn reads_name_password_lines() {
    let text = "ana secret\n\n  bob\tpw2  \r\nbad line here\njust-one\ncid  x\n";
    let (users, bad) = parse_users(text);
    assert_eq!(
        pairs(&users),
        vec![
            ("ana".to_string(), "secret".to_string()),
            ("bob".to_string(), "pw2".to_string()),
            ("cid".to_string(), "x".to_string()),
        ]
    );
    assert_eq!(bad, vec![4, 5]);
}

#[test]
fn empty_and_blank_files_hold_no_users() {
    assert_eq!(parse_users("").0.len(), 0);
    let (users, bad) = parse_users(" \n\t\n\n");
    assert!(users.is_empty());
    assert!(bad.is_empty());
}

#[test]
fn last_line_needs_no_line_feed_and_unicode_spaces_separate() {
    let (users, bad) = parse_users("žana\u{3000}pässword");
    assert_eq!(pairs(&users), vec![("žana".to_string(), "pässword".to_string())]);
    assert!(bad.is_empty());
}

#[test]
fn password_check() {
    let users = vec![
        User { name: "labas".to_string(), password: "rytas".to_string() },
        User { name: "ana".to_string(), password: "pw".to_string() },
    ];
    assert!(is_password_correct(&users, "labas", "rytas"));
    assert!(is_password_correct(&users, "ana", "pw"));
    assert!(!is_password_correct(&users, "ana", "rytas"));
    assert!(!is_password_correct(&users, "bob", "pw"));
    assert!(!is_password_correct(&[].to_vec(), "ana", "pw"));
}
