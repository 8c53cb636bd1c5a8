use synac_client::typing::{summary, Typing, TYPING_TIMEOUT};

fn directory() -> Vec<(usize, String)> {
    vec![
        (1, "Alice".to_string()),
        (2, "Bob".to_string()),
        (3, "Carol".to_string()),
    ]
}

#[test]
fn typing_user_is_reported_until_timeout() {
    let mut typing = Typing::new();
    typing.insert(1, 7, 1000);
    assert_eq!(typing.typing_users(Some(7), 1000), vec![1]);
    assert_eq!(typing.typing_users(Some(7), 1000 + TYPING_TIMEOUT - 1), vec![1]);
    assert!(typing.typing_users(Some(7), 1000 + TYPING_TIMEOUT).is_empty());
    assert_eq!(
        typing.check(Some(7), 1005, &directory()),
        Some("Alice is typing…".to_string())
    );
    assert_eq!(typing.check(Some(7), 1000 + TYPING_TIMEOUT, &directory()), None);
}

#[test]
fn typing_in_other_channel_is_not_reported() {
    let mut typing = Typing::new();
    typing.insert(1, 7, 1000);
    assert!(typing.typing_users(Some(8), 1001).is_empty());
    assert!(typing.typing_users(None, 1001).is_empty());
    assert_eq!(typing.check(Some(8), 1001, &directory()), None);
}

#[test]
fn later_insert_moves_user_and_resets_timer() {
    let mut typing = Typing::new();
    typing.insert(1, 7, 1000);
    typing.insert(1, 8, 1008);
    assert!(typing.typing_users(Some(7), 1009).is_empty());
    assert_eq!(typing.typing_users(Some(8), 1015), vec![1]);
}

#[test]
fn two_and_three_users_are_summarised() {
    let mut typing = Typing::new();
    typing.insert(1, 7, 1000);
    typing.insert(2, 7, 1001);
    assert_eq!(
        typing.check(Some(7), 1002, &directory()),
        Some("Alice and Bob are typing…".to_string())
    );
    typing.insert(3, 7, 1002);
    assert_eq!(
        typing.check(Some(7), 1003, &directory()),
        Some("Alice, Bob and Carol are typing…".to_string())
    );
}

#[test]
fn unknown_users_are_left_out_of_summary() {
    let mut typing = Typing::new();
    typing.insert(99, 7, 1000);
    assert_eq!(typing.typing_users(Some(7), 1001), vec![99]);
    assert_eq!(typing.check(Some(7), 1001, &directory()), None);
}

#[test]
fn summary_of_names() {
    assert_eq!(summary(&vec![]), None);
    assert_eq!(summary(&vec!["X".to_string()]), Some("X is typing…".to_string()));
    assert_eq!(
        summary(&vec!["A".to_string(), "B".to_string(), "C".to_string(), "D".to_string()]),
        Some("A, B, C and D are typing…".to_string())
    );
}
