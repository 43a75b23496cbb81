use chat_relay::registry::Registry;

#[test]
fn snapshot_after_unregister_drops_exactly_one() {
    let mut reg = Registry::new();
    reg.register(1, String::from("10.0.0.1:4000"));
    reg.register(2, String::from("10.0.0.2:4000"));
    reg.register(3, String::from("10.0.0.3:4000"));
    assert_eq!(reg.len(), 3);

    reg.unregister(2);

    let snap = reg.snapshot();
    assert_eq!(snap.len(), 2);
    assert!(!snap.contains(&2));
    assert!(snap.contains(&1));
    assert!(snap.contains(&3));
    assert!(!reg.contains(2));
}

#[test]
fn snapshot_keeps_registration_order() {
    let mut reg = Registry::new();
    reg.register(7, String::from("a"));
    reg.register(5, String::from("b"));
    reg.register(9, String::from("c"));
    assert_eq!(reg.snapshot(), vec![7, 5, 9]);
}

#[test]
fn unregister_absent_is_noop() {
    let mut reg = Registry::new();
    reg.register(1, String::from("a"));
    reg.register(2, String::from("b"));

    reg.unregister(42);
    assert_eq!(reg.snapshot(), vec![1, 2]);

    reg.unregister(1);
    assert_eq!(reg.snapshot(), vec![2]);

    // Removing the same peer again changes nothing.
    reg.unregister(1);
    assert_eq!(reg.snapshot(), vec![2]);
    assert_eq!(reg.len(), 1);
}

#[test]
fn unregistered_peer_stays_absent_from_later_snapshots() {
    let mut reg = Registry::new();
    reg.register(1, String::from("a"));
    reg.register(2, String::from("b"));
    reg.unregister(1);

    reg.register(3, String::from("c"));
    reg.register(4, String::from("d"));
    let snap = reg.snapshot();
    assert!(!snap.contains(&1));
    assert_eq!(snap, vec![2, 3, 4]);
}

#[test]
fn contains_and_find_addr_follow_membership() {
    let mut reg = Registry::new();
    assert!(!reg.contains(1));
    reg.register(1, String::from("127.0.0.1:9000"));
    assert!(reg.contains(1));
    assert_eq!(reg.find_addr(1), Some(String::from("127.0.0.1:9000")));
    assert_eq!(reg.find_addr(2), None);
    reg.unregister(1);
    assert_eq!(reg.find_addr(1), None);
}
