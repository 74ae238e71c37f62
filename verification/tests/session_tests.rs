use maat_net::session::SessionTable;
use maat_net::NetworkMessage;

#[test]
fn first_requester_creates_and_becomes_host() {
    let mut table = SessionTable::new();
    let name = String::from("X");
    assert!(!table.contains_session(&name));

    let created = table.find_or_create(&name, 1);
    assert!(created);
    assert!(table.contains_session(&name));
    assert_eq!(table.host_of(&name), Some(1));
    assert!(table.has_member(&name, 1));
}

#[test]
fn later_requesters_join_one_session() {
    let mut table = SessionTable::new();
    let name = String::from("X");
    assert!(table.find_or_create(&name, 1));
    assert!(!table.find_or_create(&name, 2));
    assert!(!table.find_or_create(&name, 3));

    // still one session under that name, hosted by the first arrival
    assert_eq!(table.host_of(&name), Some(1));
    assert!(table.has_member(&name, 1));
    assert!(table.has_member(&name, 2));
    assert!(table.has_member(&name, 3));
}

#[test]
fn sessions_with_different_names_stay_apart() {
    let mut table = SessionTable::new();
    let a = String::from("a");
    let b = String::from("b");
    assert!(table.find_or_create(&a, 1));
    assert!(table.find_or_create(&b, 2));
    assert_eq!(table.host_of(&a), Some(1));
    assert_eq!(table.host_of(&b), Some(2));
    assert!(!table.has_member(&a, 2));
    assert!(!table.has_member(&b, 1));
}

#[test]
fn fifo_per_recipient() {
    let mut table = SessionTable::new();
    let name = String::from("S");
    table.find_or_create(&name, 1); // sender A
    table.find_or_create(&name, 2); // recipient B

    let m1 = NetworkMessage::Data(String::from("m1"));
    let m2 = NetworkMessage::Data(String::from("m2"));
    table.enqueue(&name, 1, &m1);
    table.enqueue(&name, 1, &m2);

    assert_eq!(table.dequeue_for(&name, 2), Some(m1));
    assert_eq!(table.dequeue_for(&name, 2), Some(m2));
    assert_eq!(table.dequeue_for(&name, 2), None);
}

#[test]
fn fifo_survives_interleaved_senders() {
    let mut table = SessionTable::new();
    let name = String::from("S");
    table.find_or_create(&name, 1);
    table.find_or_create(&name, 2);
    table.find_or_create(&name, 3);

    let m1 = NetworkMessage::Data(String::from("m1"));
    let other = NetworkMessage::Data(String::from("other"));
    let m2 = NetworkMessage::Data(String::from("m2"));
    table.enqueue(&name, 1, &m1); // for 2 and 3
    table.enqueue(&name, 3, &other); // for 1 and 2
    table.enqueue(&name, 1, &m2); // for 2 and 3

    // recipient 2 sees its entries oldest first, whoever sent them
    assert_eq!(table.dequeue_for(&name, 2), Some(m1.duplicate()));
    assert_eq!(table.dequeue_for(&name, 2), Some(other.duplicate()));
    assert_eq!(table.dequeue_for(&name, 2), Some(m2.duplicate()));
    // recipient 3 never saw what it sent
    assert_eq!(table.dequeue_for(&name, 3), Some(m1));
    assert_eq!(table.dequeue_for(&name, 3), Some(m2));
    assert_eq!(table.dequeue_for(&name, 3), None);
}

#[test]
fn no_self_delivery() {
    let mut table = SessionTable::new();
    let name = String::from("S");
    table.find_or_create(&name, 1);
    table.find_or_create(&name, 2);

    table.enqueue(&name, 1, &NetworkMessage::Data(String::from("hi")));
    assert_eq!(table.dequeue_for(&name, 1), None);
}

#[test]
fn enqueue_without_session_changes_nothing() {
    let mut table = SessionTable::new();
    let name = String::from("ghostless");
    table.enqueue(&name, 1, &NetworkMessage::Null);
    assert!(!table.contains_session(&name));
    assert_eq!(table.dequeue_for(&name, 1), None);
}

#[test]
fn last_member_leaving_collects_the_session() {
    let mut table = SessionTable::new();
    let name = String::from("S");
    table.find_or_create(&name, 1);

    let emptied = table.remove_member(&name, 1);
    assert!(emptied);
    assert!(!table.contains_session(&name));

    // a later request for the same name starts fresh with a new host
    assert!(table.find_or_create(&name, 9));
    assert_eq!(table.host_of(&name), Some(9));
    assert!(!table.has_member(&name, 1));
}

#[test]
fn removing_one_of_two_members_keeps_the_session() {
    let mut table = SessionTable::new();
    let name = String::from("S");
    table.find_or_create(&name, 1);
    table.find_or_create(&name, 2);

    let emptied = table.remove_member(&name, 2);
    assert!(!emptied);
    assert!(table.contains_session(&name));
    assert!(table.has_member(&name, 1));
    assert!(!table.has_member(&name, 2));
}

#[test]
fn removing_a_stranger_changes_nothing() {
    let mut table = SessionTable::new();
    let name = String::from("S");
    table.find_or_create(&name, 1);
    let emptied = table.remove_member(&name, 42);
    assert!(!emptied);
    assert!(table.has_member(&name, 1));
}

#[test]
fn notify_host_queues_only_for_the_host() {
    let mut table = SessionTable::new();
    let name = String::from("S");
    table.find_or_create(&name, 1);
    table.find_or_create(&name, 2);

    table.notify_host(&name, &NetworkMessage::ClientConnected);
    assert_eq!(table.dequeue_for(&name, 1), Some(NetworkMessage::ClientConnected));
    assert_eq!(table.dequeue_for(&name, 2), None);
}
