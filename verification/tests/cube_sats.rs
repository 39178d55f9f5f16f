use action_kv::{CubeSat, GroundStation, Mailbox, Message};

fn sat(id: u64) -> CubeSat {
    CubeSat { id, mailbox: Mailbox { messages: vec![] } }
}

#[test]
fn send_then_recv_hands_the_message_over() {
    let base = GroundStation { age: 3 };
    let mut sat_a = sat(1);

    base.send(&mut sat_a, Message::from("Hello from base"));
    assert_eq!(sat_a.mailbox.messages.len(), 1);

    let from_sat_a = sat_a.recv();
    assert_eq!(from_sat_a, Some(Message::from("Hello from base")));

    let from_sat_a = sat_a.recv();
    assert_eq!(from_sat_a, None);
    assert_eq!(sat_a.id, 1);
}

#[test]
fn recv_on_an_empty_mailbox_gives_nothing() {
    let mut sat_a = sat(7);
    assert_eq!(sat_a.recv(), None);
    assert!(sat_a.mailbox.messages.is_empty());
}

#[test]
fn recv_takes_the_latest_message_first() {
    let base = GroundStation { age: 3 };
    let mut sat_a = sat(2);
    base.send(&mut sat_a, Message::from("one"));
    base.send(&mut sat_a, Message::from("two"));
    base.send(&mut sat_a, Message::from("three"));
    assert_eq!(sat_a.recv(), Some(Message::from("three")));
    assert_eq!(sat_a.recv(), Some(Message::from("two")));
    assert_eq!(sat_a.mailbox.messages, vec![Message::from("one")]);
}

#[test]
fn send_reaches_only_its_satellite() {
    let base = GroundStation { age: 3 };
    let mut sat_a = sat(1);
    let mut sat_b = sat(2);
    base.send(&mut sat_b, Message::from("for b"));
    assert_eq!(sat_a.recv(), None);
    assert_eq!(sat_b.recv(), Some(Message::from("for b")));
}

#[test]
fn a_ground_station_is_copied_when_handed_on() {
    let base = GroundStation { age: 3 };
    let copy = base;
    let mut sat_a = sat(1);
    copy.send(&mut sat_a, Message::from("from the copy"));
    base.send(&mut sat_a, Message::from("from the base"));
    assert_eq!(base.age, 3);
    assert_eq!(sat_a.mailbox.messages.len(), 2);
}
