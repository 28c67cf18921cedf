use honeyssh::session::{Action, AuthVerdict, ConnectionCounter, Session, SessionEvent};

fn session_with_keys(keys: Vec<Vec<u8>>) -> Session {
    Session::new(7, "10.0.0.1:4242".to_string(), keys)
}

#[test]
fn none_is_rejected_and_user_kept() {
    let mut s = session_with_keys(vec![]);
    assert_eq!(s.auth_none("root".to_string()), AuthVerdict::Reject);
    let r = s.finish();
    assert_eq!(r.user, Some("root".to_string()));
    assert_eq!(r.password, None);
}

#[test]
fn password_always_accepted_and_overwritten() {
    let mut s = session_with_keys(vec![]);
    assert_eq!(s.auth_password("root".to_string(), "123456".to_string()), AuthVerdict::Accept);
    assert_eq!(s.auth_password("admin".to_string(), "hunter2".to_string()), AuthVerdict::Accept);
    let r = s.finish();
    assert_eq!(r.user, Some("admin".to_string()));
    assert_eq!(r.password, Some("hunter2".to_string()));
}

#[test]
fn publickey_exact_match_accepted() {
    let key = vec![0, 0, 0, 11, 115, 115, 104, 45, 101, 100, 50, 53, 53, 49, 57, 1, 2, 3];
    let mut s = session_with_keys(vec![vec![9, 9], key.clone()]);
    assert_eq!(s.auth_publickey("alice".to_string(), &key), AuthVerdict::Accept);
    let r = s.finish();
    assert_eq!(r.accepted_key, Some(key));
    assert_eq!(r.user, Some("alice".to_string()));
}

#[test]
fn publickey_same_prefix_rejected() {
    let key = vec![0, 0, 0, 11, 115, 115, 104, 45, 101, 100, 50, 53, 53, 49, 57, 1, 2, 3];
    let mut other = key.clone();
    other[17] = 4;
    let mut longer = key.clone();
    longer.push(0);
    let mut s = session_with_keys(vec![key]);
    assert_eq!(s.auth_publickey("mallory".to_string(), &other), AuthVerdict::Reject);
    assert_eq!(s.auth_publickey("mallory".to_string(), &longer), AuthVerdict::Reject);
    let r = s.finish();
    assert_eq!(r.accepted_key, None);
    assert_eq!(r.user, Some("mallory".to_string()));
}

#[test]
fn keyboard_interactive_rejected() {
    let mut s = session_with_keys(vec![]);
    assert_eq!(s.auth_keyboard_interactive("guest".to_string()), AuthVerdict::Reject);
    assert_eq!(s.finish().user, Some("guest".to_string()));
}

#[test]
fn data_is_recorded_and_echoed() {
    let mut s = session_with_keys(vec![]);
    let out = s.data(1, 0, 500, b"id\r".to_vec());
    assert_eq!(out, b"id\r\nuid=1000(user) gid=1000(user) groups=1000(user)\r\n$ ".to_vec());
    let r = s.finish();
    assert_eq!(r.events.len(), 1);
    assert_eq!(r.events[0].channel, 1);
    assert_eq!(r.events[0].nanos, 500);
    assert_eq!(r.events[0].data, b"id\r".to_vec());
}

#[test]
fn control_bytes_are_recorded_verbatim() {
    let mut s = session_with_keys(vec![]);
    s.data(0, 1, 0, b"ab\x7f".to_vec());
    s.data(0, 2, 0, b"\x03".to_vec());
    let r = s.finish();
    let all: Vec<u8> = r.events.iter().flat_map(|e| e.data.clone()).collect();
    assert_eq!(all, b"ab\x7f\x03".to_vec());
}

#[test]
fn shell_request_gives_fresh_prompt() {
    let mut s = session_with_keys(vec![]);
    s.data(3, 0, 0, b"echo".to_vec());
    match s.handle(SessionEvent::ShellRequest { channel: 3 }) {
        Action::Write { channel, data } => {
            assert_eq!(channel, 3);
            assert_eq!(data, b"\r\n$ ".to_vec());
        }
        _ => panic!("expected a write"),
    }
}

#[test]
fn handle_routes_every_event() {
    let mut s = session_with_keys(vec![vec![1, 2, 3]]);
    let v = s.handle(SessionEvent::AuthPublicKey { user: "u".to_string(), key: vec![1, 2, 3] });
    assert!(matches!(v, Action::Verdict(AuthVerdict::Accept)));
    let v = s.handle(SessionEvent::AuthNone { user: "n".to_string() });
    assert!(matches!(v, Action::Verdict(AuthVerdict::Reject)));
    let v = s.handle(SessionEvent::AuthPassword { user: "p".to_string(), password: "pw".to_string() });
    assert!(matches!(v, Action::Verdict(AuthVerdict::Accept)));
    let v = s.handle(SessionEvent::AuthKeyboardInteractive { user: "k".to_string() });
    assert!(matches!(v, Action::Verdict(AuthVerdict::Reject)));
    match s.handle(SessionEvent::Data { channel: 2, secs: 3, nanos: 4, data: b"x".to_vec() }) {
        Action::Write { channel, data } => {
            assert_eq!(channel, 2);
            assert_eq!(data, b"x".to_vec());
        }
        _ => panic!("expected a write"),
    }
    let r = s.finish();
    assert_eq!(r.id, 7);
    assert_eq!(r.peer, "10.0.0.1:4242");
    assert_eq!(r.user, Some("k".to_string()));
    assert_eq!(r.password, Some("pw".to_string()));
    assert_eq!(r.accepted_key, Some(vec![1, 2, 3]));
    assert_eq!(r.events.len(), 1);
    assert_eq!(r.events[0].secs, 3);
}

#[test]
fn log_matches_deliveries_per_channel() {
    let mut s = session_with_keys(vec![]);
    s.data(5, 0, 1, b"ec".to_vec());
    s.data(9, 0, 2, b"zz".to_vec());
    s.auth_none("x".to_string());
    s.data(5, 0, 3, b"ho\r".to_vec());
    let r = s.finish();
    assert_eq!(r.channel_ids(), vec![5, 9]);
    let on5 = r.events_on(5);
    assert_eq!(on5, vec![0, 2]);
    let bytes: Vec<u8> = on5.iter().flat_map(|&i| r.events[i].data.clone()).collect();
    assert_eq!(bytes, b"echo\r".to_vec());
    assert_eq!(r.events_on(9), vec![1]);
    assert_eq!(r.events_on(1), Vec::<usize>::new());
}

#[test]
fn connection_ids_count_up_from_one() {
    let mut counter = ConnectionCounter::new();
    assert_eq!(counter.next_id(), Some(1));
    assert_eq!(counter.next_id(), Some(2));
    assert_eq!(counter.next_id(), Some(3));
}

#[test]
fn logged_bytes_per_channel_follow_handle() {
    let mut s = session_with_keys(vec![]);
    s.handle(SessionEvent::Data { channel: 1, secs: 0, nanos: 0, data: b"ab".to_vec() });
    s.handle(SessionEvent::AuthNone { user: "x".to_string() });
    s.handle(SessionEvent::Data { channel: 2, secs: 0, nanos: 1, data: b"zz".to_vec() });
    s.handle(SessionEvent::Data { channel: 1, secs: 0, nanos: 2, data: b"c\r".to_vec() });
    let r = s.finish();
    let on1: Vec<u8> = r.events_on(1).iter().flat_map(|&i| r.events[i].data.clone()).collect();
    assert_eq!(on1, b"abc\r".to_vec());
}
