use blackbook::registry::{failed_deliveries, TopicRegistry};

fn names(v: &[&str]) -> Vec<String> {
    v.iter().map(|s| s.to_string()).collect()
}

fn sorted(mut v: Vec<u64>) -> Vec<u64> {
    v.sort();
    v
}

#[test]
fn subscribe_twice_counts_once() {
    let mut r = TopicRegistry::new();
    r.subscribe(&names(&["a"]), 1);
    r.subscribe(&names(&["a"]), 1);
    assert_eq!(r.recipients(&"a".to_string(), None), vec![1]);
}

#[test]
fn subscribe_creates_topics() {
    let mut r = TopicRegistry::new();
    assert!(!r.topic_exists(&"a".to_string()));
    r.subscribe(&names(&["a", "b"]), 7);
    assert!(r.topic_exists(&"a".to_string()));
    assert!(r.topic_exists(&"b".to_string()));
    assert!(!r.topic_exists(&"c".to_string()));
    assert_eq!(r.recipients(&"b".to_string(), None), vec![7]);
}

#[test]
fn unsubscribe_absent_is_noop() {
    let mut r = TopicRegistry::new();
    r.subscribe(&names(&["a"]), 1);
    r.unsubscribe(&names(&["a", "missing"]), 2);
    r.unsubscribe(&names(&["missing"]), 1);
    assert!(!r.topic_exists(&"missing".to_string()));
    assert_eq!(r.recipients(&"a".to_string(), None), vec![1]);
}

#[test]
fn unsubscribe_keeps_empty_topic() {
    let mut r = TopicRegistry::new();
    r.subscribe(&names(&["a"]), 1);
    r.unsubscribe(&names(&["a"]), 1);
    assert!(r.topic_exists(&"a".to_string()));
    assert!(r.recipients(&"a".to_string(), None).is_empty());
}

#[test]
fn snapshot_excludes_later_joiner() {
    let mut r = TopicRegistry::new();
    r.subscribe(&names(&["t"]), 1);
    r.subscribe(&names(&["t"]), 2);
    let snapshot = r.recipients(&"t".to_string(), None);
    r.subscribe(&names(&["t"]), 3);
    assert_eq!(sorted(snapshot), vec![1, 2]);
    assert_eq!(sorted(r.recipients(&"t".to_string(), None)), vec![1, 2, 3]);
}

#[test]
fn recipients_of_missing_topic_empty() {
    let r = TopicRegistry::new();
    assert!(r.recipients(&"nowhere".to_string(), None).is_empty());
}

#[test]
fn publisher_gets_no_echo() {
    let mut r = TopicRegistry::new();
    r.subscribe(&names(&["room1"]), 10);
    r.subscribe(&names(&["room1"]), 20);
    assert_eq!(r.recipients(&"room1".to_string(), Some(10)), vec![20]);
}

#[test]
fn failed_deliveries_picks_failures() {
    assert_eq!(failed_deliveries(&vec![4, 5, 6], &vec![true, false, false]), vec![5, 6]);
    assert!(failed_deliveries(&vec![4, 5], &vec![true, true]).is_empty());
    assert_eq!(failed_deliveries(&vec![4, 4], &vec![false, false]), vec![4]);
}

#[test]
fn failed_subscriber_pruned() {
    let mut r = TopicRegistry::new();
    r.subscribe(&names(&["x"]), 1);
    r.subscribe(&names(&["x"]), 2);
    r.subscribe(&names(&["y"]), 2);
    let targets = r.recipients(&"x".to_string(), None);
    let delivered: Vec<bool> = targets.iter().map(|c| *c != 2).collect();
    let failed = failed_deliveries(&targets, &delivered);
    assert_eq!(failed, vec![2]);
    r.prune(&"x".to_string(), &failed);
    assert_eq!(r.recipients(&"x".to_string(), None), vec![1]);
    assert_eq!(r.recipients(&"y".to_string(), None), vec![2]);
}

#[test]
fn dead_client_pruned_on_next_publish() {
    let mut r = TopicRegistry::new();
    r.subscribe(&names(&["x"]), 1);
    r.subscribe(&names(&["x"]), 2);
    // client 2 went away without unsubscribing: sending to it fails
    let targets = r.recipients(&"x".to_string(), Some(1));
    assert_eq!(targets, vec![2]);
    let failed = failed_deliveries(&targets, &vec![false]);
    r.prune(&"x".to_string(), &failed);
    assert!(r.recipients(&"x".to_string(), None) == vec![1]);
    let targets = r.recipients(&"x".to_string(), Some(3));
    assert_eq!(targets, vec![1]);
}

#[test]
fn close_topic_returns_members() {
    let mut r = TopicRegistry::new();
    r.subscribe(&names(&["a", "b"]), 1);
    r.subscribe(&names(&["a"]), 2);
    let closed = r.close_topic(&"a".to_string());
    assert_eq!(sorted(closed), vec![1, 2]);
    assert!(!r.topic_exists(&"a".to_string()));
    assert!(r.topic_exists(&"b".to_string()));
    assert_eq!(r.recipients(&"b".to_string(), None), vec![1]);
    assert!(r.close_topic(&"a".to_string()).is_empty());
}

#[test]
fn close_all_closes_each_once() {
    let mut r = TopicRegistry::new();
    r.subscribe(&names(&["a", "b", "c"]), 1);
    r.subscribe(&names(&["b", "c"]), 2);
    r.subscribe(&names(&["c"]), 3);
    let closed = r.close_all();
    assert_eq!(sorted(closed), vec![1, 2, 3]);
    assert!(!r.topic_exists(&"a".to_string()));
    assert!(r.recipients(&"c".to_string(), None).is_empty());
    assert!(r.close_all().is_empty());
}

#[test]
fn default_registry_is_empty() {
    let r = TopicRegistry::default();
    assert!(!r.topic_exists(&"a".to_string()));
}
