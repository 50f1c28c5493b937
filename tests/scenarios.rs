use blackbook::registry::{failed_deliveries, TopicRegistry};
use blackbook::session::{Action, ConnState, Event, Signal};
use blackbook::ConnId;

/// Applies one event of connection `id` to its session and the registry, and
/// returns the frames to deliver as (recipient, frame) pairs.
fn run(reg: &mut TopicRegistry, s: &mut ConnState, id: ConnId, ev: Event) -> Vec<(ConnId, String)> {
    match s.step(ev) {
        Action::Join { topics } => {
            reg.subscribe(&topics, id);
            vec![]
        }
        Action::Leave { topics } => {
            reg.unsubscribe(&topics, id);
            vec![]
        }
        Action::Broadcast { topic, frame } => reg
            .recipients(&topic, Some(id))
            .into_iter()
            .map(|c| (c, frame.clone()))
            .collect(),
        Action::Reply { text } => vec![(id, text)],
        _ => vec![],
    }
}

fn subscribe_event(topic: &str) -> Event {
    Event::Text {
        frame: format!(r#"{{"type":"subscribe","topics":["{topic}"]}}"#),
        signal: Some(Signal::Subscribe { topics: vec![topic.to_string()] }),
    }
}

#[test]
fn publish_reaches_other_subscriber_verbatim() {
    let mut reg = TopicRegistry::new();
    let (mut a, mut b) = (ConnState::new(), ConnState::new());
    run(&mut reg, &mut a, 1, subscribe_event("room1"));
    run(&mut reg, &mut b, 2, subscribe_event("room1"));
    let frame = r#"{"type":"publish","topic":"room1","payload":"hello"}"#;
    let out = run(
        &mut reg,
        &mut a,
        1,
        Event::Text { frame: frame.to_string(), signal: Some(Signal::Publish { topic: "room1".to_string() }) },
    );
    assert_eq!(out, vec![(2, frame.to_string())]);
}

#[test]
fn ping_scenario_replies_pong() {
    let mut reg = TopicRegistry::new();
    let mut a = ConnState::new();
    let out = run(
        &mut reg,
        &mut a,
        1,
        Event::Text { frame: r#"{"type":"ping"}"#.to_string(), signal: Some(Signal::Ping) },
    );
    assert_eq!(out, vec![(1, r#"{"type":"pong"}"#.to_string())]);
}

#[test]
fn abrupt_disconnect_pruned_on_publish() {
    let mut reg = TopicRegistry::new();
    let (mut a, mut b, mut c) = (ConnState::new(), ConnState::new(), ConnState::new());
    run(&mut reg, &mut a, 1, subscribe_event("x"));
    run(&mut reg, &mut b, 2, subscribe_event("x"));
    assert!(matches!(b.step(Event::ReadError), Action::Close));
    let frame = r#"{"type":"publish","topic":"x"}"#;
    let out = run(
        &mut reg,
        &mut c,
        3,
        Event::Text { frame: frame.to_string(), signal: Some(Signal::Publish { topic: "x".to_string() }) },
    );
    let targets: Vec<ConnId> = out.iter().map(|(id, _)| *id).collect();
    let delivered: Vec<bool> = targets.iter().map(|id| *id != 2).collect();
    assert_eq!(delivered.iter().filter(|d| **d).count(), 1);
    let failed = failed_deliveries(&targets, &delivered);
    reg.prune(&"x".to_string(), &failed);
    assert_eq!(reg.recipients(&"x".to_string(), None), vec![1]);
}
