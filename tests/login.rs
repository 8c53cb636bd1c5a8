use synac_client::login::{
    after_password_prompt, after_password_reply, after_token_reply, dial_begin, ConnectionError,
    DialAction, LoginReply,
};

#[test]
fn valid_token_connects_without_password() {
    assert_eq!(dial_begin(true), DialAction::SendToken);
    let action = after_token_reply(LoginReply::Success { id: 4, token: "t".to_string() });
    assert_eq!(action, DialAction::Connected { user: 4, new_token: None });
}

#[test]
fn refused_token_falls_through_to_password() {
    assert_eq!(after_token_reply(LoginReply::UnknownUser), DialAction::AskPassword);
    assert_eq!(after_token_reply(LoginReply::LoginInvalid), DialAction::AskPassword);
    assert_eq!(after_password_prompt(true), DialAction::SendPassword);
    let action = after_password_reply(LoginReply::Success { id: 9, token: "new".to_string() });
    assert_eq!(action, DialAction::Connected { user: 9, new_token: Some("new".to_string()) });
}

#[test]
fn no_token_and_no_password_fails() {
    assert_eq!(dial_begin(false), DialAction::AskPassword);
    assert_eq!(after_password_prompt(false), DialAction::Fail(ConnectionError::InvalidToken));
}

#[test]
fn unexpected_replies_fail() {
    let other = || LoginReply::Other("MessageReceive".to_string());
    assert_eq!(after_token_reply(other()), DialAction::Fail(ConnectionError::InvalidPacket(other())));
    assert_eq!(
        after_password_reply(LoginReply::LoginInvalid),
        DialAction::Fail(ConnectionError::InvalidPassword)
    );
    assert_eq!(
        after_password_reply(LoginReply::UnknownUser),
        DialAction::Fail(ConnectionError::InvalidPacket(LoginReply::UnknownUser))
    );
    assert_eq!(after_password_reply(other()), DialAction::Fail(ConnectionError::InvalidPacket(other())));
}
