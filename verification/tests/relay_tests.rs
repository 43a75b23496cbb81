use chat_relay::broadcast::{deliver_all, Delivery};
use chat_relay::relay::Relay;

/// The frames a run of broadcast plans holds for one peer, in order.
fn frames_for(plans: &[Vec<Delivery>], peer: u64) -> Vec<String> {
    let mut out = Vec::new();
    for plan in plans {
        for d in plan {
            if d.peer == peer {
                out.push(d.frame.clone());
            }
        }
    }
    out
}

#[test]
fn broadcast_reaches_every_other_peer_once() {
    let mut relay = Relay::new();
    let a = relay.on_accept(String::from("127.0.0.1:5001"));
    let b = relay.on_accept(String::from("127.0.0.1:5002"));
    let c = relay.on_accept(String::from("127.0.0.1:5003"));

    let plan = relay.on_line(a, "hello");
    assert_eq!(plan.len(), 2);
    let to_a = plan.iter().filter(|d| d.peer == a).count();
    let to_b = plan.iter().filter(|d| d.peer == b).count();
    let to_c = plan.iter().filter(|d| d.peer == c).count();
    assert_eq!(to_a, 0);
    assert_eq!(to_b, 1);
    assert_eq!(to_c, 1);
    for d in &plan {
        assert_eq!(d.frame, "[127.0.0.1:5001]:hello\n");
    }
}

#[test]
fn empty_message_is_still_framed() {
    let mut relay = Relay::new();
    let a = relay.on_accept(String::from("a"));
    let _b = relay.on_accept(String::from("b"));
    let plan = relay.on_line(a, "");
    assert_eq!(plan.len(), 1);
    assert_eq!(plan[0].frame, "[a]:\n");
}

#[test]
fn one_failed_write_leaves_the_rest_delivered() {
    let mut relay = Relay::new();
    let a = relay.on_accept(String::from("a"));
    let b = relay.on_accept(String::from("b"));
    let c = relay.on_accept(String::from("c"));
    let d = relay.on_accept(String::from("d"));

    let plan = relay.on_line(a, "news");
    assert_eq!(plan.len(), 3);

    // The write to the middle recipient fails; the others succeed.
    let failed_at = 1;
    let outcomes: Vec<bool> = (0..plan.len()).map(|i| i != failed_at).collect();
    let delivered = deliver_all(&plan, &outcomes);

    assert_eq!(delivered.len(), 2);
    let lost = plan[failed_at].peer;
    for d in &delivered {
        assert_ne!(*d, lost);
    }
    let expected: Vec<u64> = vec![b, c, d].into_iter().filter(|p| *p != lost).collect();
    assert_eq!(delivered, expected);
}

#[test]
fn two_messages_from_one_sender_arrive_in_order() {
    let mut relay = Relay::new();
    let _a = relay.on_accept(String::from("a"));
    let b = relay.on_accept(String::from("b"));
    let c = relay.on_accept(String::from("c"));

    let first = relay.on_line(b, "one");
    let second = relay.on_line(b, "two");
    let plans = [first, second];

    assert_eq!(frames_for(&plans, c), vec!["[b]:one\n", "[b]:two\n"]);
    assert_eq!(frames_for(&plans, _a), vec!["[b]:one\n", "[b]:two\n"]);
    assert_eq!(frames_for(&plans, b), Vec::<String>::new());
}

#[test]
fn three_peer_session() {
    let mut relay = Relay::new();
    let a = relay.on_accept(String::from("addr-a"));
    let b = relay.on_accept(String::from("addr-b"));
    let c = relay.on_accept(String::from("addr-c"));

    // A sends "hello": B and C observe the framed line, A gets nothing back.
    let plan = relay.on_line(a, "hello");
    assert_eq!(frames_for(&[plan.clone()], b), vec!["[addr-a]:hello\n"]);
    assert_eq!(frames_for(&[plan.clone()], c), vec!["[addr-a]:hello\n"]);
    assert_eq!(frames_for(&[plan], a), Vec::<String>::new());

    // B sends "hi": A and C each receive it.
    let plan = relay.on_line(b, "hi");
    assert_eq!(frames_for(&[plan.clone()], a), vec!["[addr-b]:hi\n"]);
    assert_eq!(frames_for(&[plan.clone()], c), vec!["[addr-b]:hi\n"]);
    assert_eq!(frames_for(&[plan], b), Vec::<String>::new());

    // C disconnects; a further broadcast from A reaches only B.
    relay.on_disconnect(c);
    let plan = relay.on_line(a, "still there?");
    assert_eq!(plan.len(), 1);
    assert_eq!(plan[0].peer, b);
    assert_eq!(plan[0].frame, "[addr-a]:still there?\n");
    assert_eq!(relay.snapshot(), vec![a, b]);
}

#[test]
fn disconnect_is_idempotent_and_lasting() {
    let mut relay = Relay::new();
    let a = relay.on_accept(String::from("a"));
    let b = relay.on_accept(String::from("b"));

    relay.on_disconnect(a);
    assert!(!relay.contains(a));
    assert_eq!(relay.snapshot(), vec![b]);

    relay.on_disconnect(a);
    assert_eq!(relay.snapshot(), vec![b]);

    let c = relay.on_accept(String::from("c"));
    assert!(!relay.contains(a));
    assert_eq!(relay.snapshot(), vec![b, c]);
    assert_ne!(c, a, "identities are never reused");
}

#[test]
fn accept_assigns_fresh_identities_and_addresses() {
    let mut relay = Relay::new();
    assert!(relay.has_capacity());
    let a = relay.on_accept(String::from("first"));
    let b = relay.on_accept(String::from("second"));
    assert_ne!(a, b);
    assert_eq!(relay.len(), 2);
    assert_eq!(relay.find_addr(a), Some(String::from("first")));
    assert_eq!(relay.find_addr(b), Some(String::from("second")));
}
