use blackbook::session::{Action, ConnState, Event, Signal, PONG_MSG};

fn text(frame: &str, signal: Option<Signal>) -> Event {
    Event::Text { frame: frame.to_string(), signal }
}

#[test]
fn ping_gets_pong() {
    let mut s = ConnState::new();
    match s.step(text(r#"{"type":"ping"}"#, Some(Signal::Ping))) {
        Action::Reply { text } => assert_eq!(text, r#"{"type":"pong"}"#),
        _ => panic!("expected a reply"),
    }
    assert_eq!(PONG_MSG, r#"{"type":"pong"}"#);
    assert!(!s.closed);
}

#[test]
fn publish_relays_frame_verbatim() {
    let mut s = ConnState::new();
    let frame = r#"{"type":"publish","topic":"room1","payload":"hello"}"#;
    let a = s.step(text(frame, Some(Signal::Publish { topic: "room1".to_string() })));
    match a {
        Action::Broadcast { topic, frame: f } => {
            assert_eq!(topic, "room1");
            assert_eq!(f, frame);
        }
        _ => panic!("expected a broadcast"),
    }
}

#[test]
fn subscribe_and_unsubscribe_actions() {
    let mut s = ConnState::new();
    let topics = vec!["a".to_string(), "b".to_string()];
    match s.step(text("", Some(Signal::Subscribe { topics: topics.clone() }))) {
        Action::Join { topics: t } => assert_eq!(t, topics),
        _ => panic!("expected a join"),
    }
    assert_eq!(s.joined, topics);
    match s.step(text("", Some(Signal::Unsubscribe { topics: vec!["a".to_string()] }))) {
        Action::Leave { topics: t } => assert_eq!(t, vec!["a".to_string()]),
        _ => panic!("expected a leave"),
    }
}

#[test]
fn silent_connection_closed_on_second_tick() {
    let mut s = ConnState::new();
    assert!(matches!(s.step(Event::Tick), Action::Probe));
    assert!(matches!(s.step(Event::Binary), Action::Ignore));
    assert!(matches!(s.step(Event::Tick), Action::Close));
    assert!(s.closed);
}

#[test]
fn answered_probe_keeps_connection() {
    let mut s = ConnState::new();
    for _ in 0..3 {
        assert!(matches!(s.step(Event::Tick), Action::Probe));
        assert!(matches!(s.step(Event::TransportPong), Action::Ignore));
    }
    assert!(matches!(s.step(Event::Tick), Action::Probe));
    assert!(matches!(s.step(text("", Some(Signal::Pong))), Action::Ignore));
    assert!(matches!(s.step(Event::Tick), Action::Probe));
    assert!(!s.closed);
}

#[test]
fn malformed_frame_closes_connection() {
    let mut s = ConnState::new();
    assert!(matches!(s.step(text("not json", None)), Action::Close));
    assert!(s.closed);
    assert!(matches!(s.step(Event::TransportPong), Action::Close));
}

#[test]
fn stream_end_and_read_error_close() {
    let mut s = ConnState::new();
    assert!(matches!(s.step(Event::StreamEnd), Action::Close));
    let mut t = ConnState::new();
    assert!(matches!(t.step(Event::ReadError), Action::Close));
    assert!(t.closed);
}

#[test]
fn control_frames_ignored() {
    let mut s = ConnState::new();
    assert!(matches!(s.step(Event::TransportPing), Action::Ignore));
    assert!(matches!(s.step(Event::TransportClose), Action::Ignore));
    assert!(matches!(s.step(Event::Binary), Action::Ignore));
    assert!(!s.closed);
}

#[test]
fn joined_topics_kept_once() {
    let mut s = ConnState::default();
    let _ = s.step(text("", Some(Signal::Subscribe { topics: vec!["a".to_string(), "a".to_string()] })));
    let _ = s.step(text("", Some(Signal::Subscribe { topics: vec!["b".to_string(), "a".to_string()] })));
    assert_eq!(s.joined, vec!["a".to_string(), "b".to_string()]);
}
