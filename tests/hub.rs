use mdpreview::hub::Hub;

fn drain(hub: &mut Hub, id: u64) -> Vec<String> {
    let mut out = Vec::new();
    while let Some(s) = hub.take(id) {
        out.push(s);
    }
    out
}

#[test]
fn late_joiner_receives_latest_once() {
    let mut hub = Hub::new(4);
    hub.publish("readme".to_string());
    let id = hub.subscribe().unwrap();
    assert_eq!(drain(&mut hub, id), vec!["readme".to_string()]);
    assert_eq!(hub.take(id), None);
}

#[test]
fn replay_keeps_one_entry_per_stem() {
    let mut hub = Hub::new(4);
    hub.publish("a".to_string());
    hub.publish("b".to_string());
    hub.publish("a".to_string());
    let id = hub.subscribe().unwrap();
    assert_eq!(drain(&mut hub, id), vec!["b".to_string(), "a".to_string()]);
}

#[test]
fn replay_is_bounded_by_capacity() {
    let mut hub = Hub::new(2);
    for s in ["a", "b", "c"] {
        hub.publish(s.to_string());
    }
    let id = hub.subscribe().unwrap();
    assert_eq!(drain(&mut hub, id), vec!["b".to_string(), "c".to_string()]);
}

#[test]
fn full_inbox_drops_oldest_and_others_still_receive() {
    let mut hub = Hub::new(2);
    let slow = hub.subscribe().unwrap();
    let fast = hub.subscribe().unwrap();
    hub.publish("x".to_string());
    hub.publish("y".to_string());
    assert_eq!(drain(&mut hub, fast), vec!["x".to_string(), "y".to_string()]);
    hub.publish("z".to_string());
    assert_eq!(drain(&mut hub, fast), vec!["z".to_string()]);
    assert_eq!(drain(&mut hub, slow), vec!["y".to_string(), "z".to_string()]);
}

#[test]
fn closing_one_session_leaves_others() {
    let mut hub = Hub::new(4);
    let a = hub.subscribe().unwrap();
    let b = hub.subscribe().unwrap();
    hub.publish("one".to_string());
    assert!(hub.close(a));
    assert!(!hub.close(a));
    assert_eq!(hub.session_count(), 1);
    hub.publish("two".to_string());
    assert_eq!(drain(&mut hub, b), vec!["one".to_string(), "two".to_string()]);
    assert_eq!(hub.take(a), None);
}

#[test]
fn every_session_receives_each_publication() {
    let mut hub = Hub::new(8);
    let ids: Vec<u64> = (0..3).map(|_| hub.subscribe().unwrap()).collect();
    assert_eq!(ids, vec![0, 1, 2]);
    hub.publish("a".to_string());
    for id in ids {
        assert_eq!(drain(&mut hub, id), vec!["a".to_string()]);
    }
}
