use vstd::prelude::*;

verus! {

/// Why a connection could not be had.
#[derive(Clone, Debug, PartialEq, Eq)]
pub enum ConnectionError {
    /// The server answered a login with a packet that makes no sense there.
    InvalidPacket(LoginReply),
    /// No usable credential: the token failed or was missing, and no password was given.
    InvalidToken,
    /// The server refused the password.
    InvalidPassword,
    /// The transport failed; the text says how.
    Transport(String),
}

/// The server's answer to a login attempt.
#[derive(Clone, Debug, PartialEq, Eq)]
pub enum LoginReply {
    /// Logged in as user `id`; `token` logs in next time.
    Success { id: usize, token: String },
    /// The server knows no such user.
    UnknownUser,
    /// The credential was refused.
    LoginInvalid,
    /// Any other packet, described.
    Other(String),
}

/// What the dialer does next.
#[derive(Clone, Debug, PartialEq, Eq)]
pub enum DialAction {
    /// Log in with the saved token.
    SendToken,
    /// Ask for a password.
    AskPassword,
    /// Log in with the password given.
    SendPassword,
    /// The session is authenticated as `user`; `new_token`, if any, is to be
    /// stored for the server.
    Connected { user: usize, new_token: Option<String> },
    /// The dial failed.
    Fail(ConnectionError),
}

pub open spec fn begin_action(has_token: bool) -> DialAction {
    if has_token {
        DialAction::SendToken
    } else {
        DialAction::AskPassword
    }
}

pub open spec fn token_reply_action(reply: LoginReply) -> DialAction {
    match reply {
        LoginReply::Success { id, token } => DialAction::Connected { user: id, new_token: None },
        LoginReply::UnknownUser => DialAction::AskPassword,
        LoginReply::LoginInvalid => DialAction::AskPassword,
        LoginReply::Other(d) => DialAction::Fail(ConnectionError::InvalidPacket(LoginReply::Other(d))),
    }
}

pub open spec fn prompt_action(password_given: bool) -> DialAction {
    if password_given {
        DialAction::SendPassword
    } else {
        DialAction::Fail(ConnectionError::InvalidToken)
    }
}

pub open spec fn password_reply_action(reply: LoginReply) -> DialAction {
    match reply {
        LoginReply::Success { id, token } => DialAction::Connected {
            user: id,
            new_token: Some(token),
        },
        LoginReply::LoginInvalid => DialAction::Fail(ConnectionError::InvalidPassword),
        LoginReply::UnknownUser => DialAction::Fail(ConnectionError::InvalidPacket(LoginReply::UnknownUser)),
        LoginReply::Other(d) => DialAction::Fail(ConnectionError::InvalidPacket(LoginReply::Other(d))),
    }
}

/// The first step of a dial: the token where there is one, else the password.
pub fn dial_begin(has_token: bool) -> (r: DialAction)
    ensures
        r == begin_action(has_token),
{
    if has_token {
        DialAction::SendToken
    } else {
        DialAction::AskPassword
    }
}

/// The step after the server answered a token login: connected, on to the
/// password where the user or the token is unknown, or failed.
pub fn after_token_reply(reply: LoginReply) -> (r: DialAction)
    ensures
        r == token_reply_action(reply),
{
    match reply {
        LoginReply::Success { id, token } => DialAction::Connected { user: id, new_token: None },
        LoginReply::UnknownUser => DialAction::AskPassword,
        LoginReply::LoginInvalid => DialAction::AskPassword,
        LoginReply::Other(d) => DialAction::Fail(ConnectionError::InvalidPacket(LoginReply::Other(d))),
    }
}

/// The step after asking for a password.
pub fn after_password_prompt(password_given: bool) -> (r: DialAction)
    ensures
        r == prompt_action(password_given),
{
    if password_given {
        DialAction::SendPassword
    } else {
        DialAction::Fail(ConnectionError::InvalidToken)
    }
}

/// The step after the server answered a password login: connected with a
/// new token to store, or failed.
pub fn after_password_reply(reply: LoginReply) -> (r: DialAction)
    ensures
        r == password_reply_action(reply),
{
    match reply {
        LoginReply::Success { id, token } => DialAction::Connected {
            user: id,
            new_token: Some(token),
        },
        LoginReply::LoginInvalid => DialAction::Fail(ConnectionError::InvalidPassword),
        LoginReply::UnknownUser => DialAction::Fail(ConnectionError::InvalidPacket(LoginReply::UnknownUser)),
        LoginReply::Other(d) => DialAction::Fail(ConnectionError::InvalidPacket(LoginReply::Other(d))),
    }
}

/// A whole dial, from whether a token is saved, the server's answer to the
/// token, and the password login's answer where a password is given: the
/// final action and whether a password was asked for.
pub open spec fn dial_outcome(
    has_token: bool,
    token_reply: LoginReply,
    password_reply: Option<LoginReply>,
) -> (DialAction, bool) {
    let after_token = if begin_action(has_token) == DialAction::SendToken {
        token_reply_action(token_reply)
    } else {
        DialAction::AskPassword
    };
    if after_token == DialAction::AskPassword {
        match password_reply {
            None => (prompt_action(false), true),
            Some(reply) => if prompt_action(true) == DialAction::SendPassword {
                (password_reply_action(reply), true)
            } else {
                (prompt_action(true), true)
            },
        }
    } else {
        (after_token, false)
    }
}

/// A valid token connects without asking for a password and stores no
/// token. A refused token followed by a valid password connects and stores
/// the one token that the password login issued. With neither a token nor a
/// password the dial fails for want of a usable credential.
pub proof fn lemma_dial_paths(
    token_reply: LoginReply,
    password_reply: Option<LoginReply>,
    id: usize,
    token: String,
)
    ensures
        dial_outcome(true, LoginReply::Success { id, token }, password_reply) == (
        DialAction::Connected { user: id, new_token: None }, false),
        (token_reply == LoginReply::UnknownUser || token_reply == LoginReply::LoginInvalid)
            ==> dial_outcome(true, token_reply, Some(LoginReply::Success { id, token })) == (
        DialAction::Connected { user: id, new_token: Some(token) }, true),
        dial_outcome(false, token_reply, None) == (
        DialAction::Fail(ConnectionError::InvalidToken), true),
{
}

} // verus!
