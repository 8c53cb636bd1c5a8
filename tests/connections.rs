use synac_client::connections::{Connection, Connections, Incoming, ServerAddr, Synac};
use synac_client::login::ConnectionError;
use synac_client::messages::Message;

fn addr(last: u128) -> ServerAddr {
    ServerAddr { ip: 0x7f00_0000 + last, v6: false, port: 8439 }
}

fn session(a: ServerAddr, user: usize) -> Synac<()> {
    Synac::new(a, (), user)
}

#[test]
fn empty_registry_has_nothing_to_poll() {
    let reg: Connections<(), u32> = Connections::new();
    assert_eq!(reg.len(), 0);
    assert!(reg.live_indices().is_empty());
    assert_eq!(reg.current_server(), None);
}

#[test]
fn insert_overwrites_and_remove_evicts() {
    let mut reg: Connections<(), u32> = Connections::new();
    reg.insert_pending(addr(1), 10);
    reg.insert(addr(2), session(addr(2), 5));
    assert_eq!(reg.len(), 2);
    assert_eq!(reg.live_indices(), vec![1]);
    reg.insert(addr(1), session(addr(1), 6));
    assert_eq!(reg.len(), 2);
    assert_eq!(reg.find(addr(1)), Some(0));
    assert_eq!(reg.live_indices(), vec![0, 1]);
    reg.remove(addr(1));
    assert_eq!(reg.len(), 1);
    assert_eq!(reg.find(addr(1)), None);
    assert_eq!(reg.address_at(0), addr(2));
    reg.remove(addr(3));
    assert_eq!(reg.len(), 1);
}

#[test]
fn current_server_may_be_stale() {
    let mut reg: Connections<(), u32> = Connections::new();
    reg.set_current(Some(addr(1)));
    assert_eq!(reg.current_server(), Some(addr(1)));
    assert_eq!(reg.find(addr(1)), None);
    reg.set_current(None);
    assert_eq!(reg.current_server(), None);
}

#[test]
fn join_resolves_once() {
    let mut c: Connection<(), u32> = Connection::Connecting(3);
    assert!(!c.resolved());
    let mut calls = 0;
    c.join(|h| {
        calls += 1;
        Ok(session(addr(h as u128), 1))
    });
    assert!(c.resolved());
    c.join(|_| {
        calls += 1;
        Err(ConnectionError::InvalidToken)
    });
    assert_eq!(calls, 1);
    match c {
        Connection::Connected(Ok(s)) => assert_eq!(s.addr, addr(3)),
        _ => panic!("expected a session"),
    }
}

#[test]
fn failed_dial_is_not_live() {
    let mut reg: Connections<(), u32> = Connections::new();
    reg.insert_pending(addr(1), 1);
    let mut c = reg.replace_at(0, Connection::Connected(Err(ConnectionError::InvalidToken)));
    c.join(|_| Err(ConnectionError::InvalidPassword));
    let _ = reg.replace_at(0, c);
    assert!(reg.live_indices().is_empty());
    assert!(matches!(
        reg.replace_at(0, Connection::Connecting(2)),
        Connection::Connected(Err(ConnectionError::InvalidPassword))
    ));
}

fn message(id: usize, channel: usize, timestamp: i64) -> Message {
    Message { id, channel, author: 2, timestamp, timestamp_edit: None, text: vec![] }
}

#[test]
fn apply_dispatches_packets() {
    let mut s = session(addr(1), 1);
    assert_eq!(s.apply(Incoming::MessageReceive(message(10, 4, 100)), 0), Some(4));
    assert_eq!(s.messages.get(4).len(), 1);
    assert_eq!(s.apply(Incoming::MessageDelete(10), 0), Some(4));
    assert!(s.messages.get(4).is_empty());
    assert_eq!(s.apply(Incoming::MessageDelete(10), 0), None);
    assert_eq!(s.apply(Incoming::Typing { author: 2, channel: 4 }, 50), Some(4));
    assert_eq!(s.typing.typing_users(Some(4), 51), vec![2]);
    assert_eq!(s.apply(Incoming::Typing { author: 1, channel: 4 }, 50), None);
    assert_eq!(s.typing.typing_users(Some(4), 51), vec![2]);
    assert_eq!(s.apply(Incoming::Other, 60), None);
    assert_eq!(s.current_channel, None);
    assert_eq!(s.user, 1);
}
