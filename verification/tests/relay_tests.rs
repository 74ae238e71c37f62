use maat_net::codec::decode_prefix;
use maat_net::codec::Decoded;
use maat_net::registry::ConnKind;
use maat_net::registry::InterestSet;
use maat_net::registry::RegStatus;
use maat_net::registry::Registry;
use maat_net::relay::handle_message;
use maat_net::relay::PeerPhase;
use maat_net::relay::ProcessOutcome;
use maat_net::relay::RelayServer;
use maat_net::session::SessionTable;
use maat_net::NetworkMessage;

/// Pops every whole message out of the connection's outbound buffer.
fn drain_outbox(server: &mut RelayServer, tok: u64) -> Vec<NetworkMessage> {
    let mut out = Vec::new();
    loop {
        let buffered = server.registry.peek_outbuf(tok).to_vec();
        match decode_prefix(&buffered) {
            Decoded::Message(m, n) => {
                out.push(m);
                server.registry.commit_write(tok, n);
            }
            _ => break,
        }
    }
    out
}

fn send(server: &mut RelayServer, tok: u64, m: &NetworkMessage) -> ProcessOutcome {
    let bytes = m.serialise();
    server.registry.feed_inbuf(tok, &bytes);
    server.process_one(tok)
}

#[test]
fn new_session_while_unjoined_replies_success() {
    let mut table = SessionTable::new();
    let msg = NetworkMessage::NewSession(String::from("r"));
    let outcome = handle_message(&mut table, 7, PeerPhase::Unjoined, &msg);
    assert!(matches!(outcome.phase, PeerPhase::Joined(_)));
    assert_eq!(outcome.reply, Some(NetworkMessage::Success));
    assert!(!outcome.close);
    assert!(table.contains_session(&String::from("r")));
}

#[test]
fn data_while_unjoined_is_ignored() {
    let mut table = SessionTable::new();
    let msg = NetworkMessage::Data(String::from("x"));
    let outcome = handle_message(&mut table, 7, PeerPhase::Unjoined, &msg);
    assert!(matches!(outcome.phase, PeerPhase::Unjoined));
    assert_eq!(outcome.reply, None);
    assert!(!outcome.close);
}

#[test]
fn shutdown_while_unjoined_replies_and_closes() {
    let mut table = SessionTable::new();
    let outcome = handle_message(&mut table, 7, PeerPhase::Unjoined, &NetworkMessage::Shutdown);
    assert!(matches!(outcome.phase, PeerPhase::Closed));
    assert_eq!(outcome.reply, Some(NetworkMessage::Shutdown));
    assert!(outcome.close);
}

#[test]
fn raw_data_is_acknowledged_but_data_is_not() {
    let mut table = SessionTable::new();
    let name = String::from("r");
    table.find_or_create(&name, 1);
    table.find_or_create(&name, 2);

    let outcome = handle_message(
        &mut table,
        2,
        PeerPhase::Joined(name.clone()),
        &NetworkMessage::RawData(vec![1, 2]),
    );
    assert_eq!(outcome.reply, Some(NetworkMessage::Success));

    let outcome = handle_message(
        &mut table,
        2,
        PeerPhase::Joined(name.clone()),
        &NetworkMessage::Data(String::from("x")),
    );
    assert_eq!(outcome.reply, None);
}

#[test]
fn end_session_queues_shutdown_for_every_member() {
    let mut table = SessionTable::new();
    let name = String::from("r");
    table.find_or_create(&name, 1);
    table.find_or_create(&name, 2);

    let outcome = handle_message(
        &mut table,
        1,
        PeerPhase::Joined(name.clone()),
        &NetworkMessage::EndSession,
    );
    assert_eq!(outcome.reply, Some(NetworkMessage::Success));
    assert!(!outcome.close);
    assert_eq!(table.dequeue_for(&name, 2), Some(NetworkMessage::Shutdown));
    // the requester is told to shut down as well
    assert_eq!(table.dequeue_for(&name, 1), Some(NetworkMessage::Shutdown));
    assert_eq!(table.dequeue_for(&name, 1), None);
}

#[test]
fn relay_scenario_room1() {
    let mut server = RelayServer::new();
    let _listener = server.add_listener();
    let a = server.accept_peer();
    let b = server.accept_peer();
    server.registry.mark_registered(a);
    server.registry.mark_registered(b);

    // client A creates the room and is acknowledged
    let room = String::from("room1");
    assert!(matches!(
        send(&mut server, a, &NetworkMessage::NewSession(room.clone())),
        ProcessOutcome::Handled(false)
    ));
    assert_eq!(drain_outbox(&mut server, a), vec![NetworkMessage::Success]);

    // client B joins: B is acknowledged, and A (the host) hears about it
    assert!(matches!(
        send(&mut server, b, &NetworkMessage::NewSession(room.clone())),
        ProcessOutcome::Handled(false)
    ));
    server.deliver_for(a);
    server.deliver_for(b);
    assert_eq!(drain_outbox(&mut server, b), vec![NetworkMessage::Success]);
    assert_eq!(drain_outbox(&mut server, a), vec![NetworkMessage::ClientConnected]);

    // B sends text: A receives it, B gets nothing back
    assert!(matches!(
        send(&mut server, b, &NetworkMessage::Data(String::from("hi"))),
        ProcessOutcome::Handled(false)
    ));
    server.deliver_for(a);
    server.deliver_for(b);
    assert_eq!(
        drain_outbox(&mut server, a),
        vec![NetworkMessage::Data(String::from("hi"))]
    );
    assert_eq!(drain_outbox(&mut server, b), Vec::new());

    // A disconnects: B's next read is Shutdown
    server.disconnect(a);
    server.deliver_for(b);
    assert_eq!(drain_outbox(&mut server, b), vec![NetworkMessage::Shutdown]);

    // B, told to shut down, disconnects too; the room is gone
    server.disconnect(b);
    assert!(!server.table.contains_session(&room));

    // a fresh session under the same name starts over with a new host
    let c = server.accept_peer();
    server.registry.mark_registered(c);
    assert!(matches!(
        send(&mut server, c, &NetworkMessage::NewSession(room.clone())),
        ProcessOutcome::Handled(false)
    ));
    assert_eq!(server.table.host_of(&room), Some(c));
}

#[test]
fn malformed_bytes_are_reported() {
    let mut server = RelayServer::new();
    let a = server.accept_peer();
    server.registry.mark_registered(a);
    server.registry.feed_inbuf(a, &[1, 0, 0, 0, 0, 0, 0, 0, 99]);
    assert!(matches!(server.process_one(a), ProcessOutcome::Corrupt));
}

#[test]
fn partial_frame_waits_for_more_bytes() {
    let mut server = RelayServer::new();
    let a = server.accept_peer();
    server.registry.mark_registered(a);

    let bytes = NetworkMessage::NewSession(String::from("r")).serialise();
    let (head, tail) = bytes.split_at(5);
    server.registry.feed_inbuf(a, head);
    assert!(matches!(server.process_one(a), ProcessOutcome::Idle));
    server.registry.feed_inbuf(a, tail);
    assert!(matches!(server.process_one(a), ProcessOutcome::Handled(false)));
    assert_eq!(drain_outbox(&mut server, a), vec![NetworkMessage::Success]);
}

#[test]
fn partial_write_keeps_the_remainder() {
    let mut reg = Registry::new();
    let tok = reg.stage(ConnKind::Stream, InterestSet { readable: true, writable: true });
    let payload: Vec<u8> = (0u8..100).collect();
    reg.queue_write(tok, &payload);
    assert_eq!(reg.peek_outbuf(tok), &payload[..]);

    // the socket accepted only 37 bytes: exactly the rest stays queued
    reg.commit_write(tok, 37);
    assert_eq!(reg.peek_outbuf(tok), &payload[37..]);

    // the next writable event completes the delivery: nothing lost, nothing twice
    let remaining = reg.peek_outbuf(tok).len();
    reg.commit_write(tok, remaining);
    assert_eq!(reg.peek_outbuf(tok), &[] as &[u8]);
}

#[test]
fn bytes_stashed_before_registration_are_absorbed() {
    let mut reg = Registry::new();
    // the token 0 will be handed to the first staged connection
    reg.queue_write(0, &[10, 20]);
    reg.queue_write(0, &[30]);
    let tok = reg.stage(ConnKind::Stream, InterestSet { readable: true, writable: true });
    assert_eq!(tok, 0);
    reg.absorb_pending(tok);
    assert_eq!(reg.peek_outbuf(tok), &[10, 20, 30][..]);
}

#[test]
fn sweep_reports_and_drops_deregistered_slots() {
    let mut reg = Registry::new();
    let a = reg.stage(ConnKind::Stream, InterestSet { readable: true, writable: true });
    let b = reg.stage(ConnKind::Stream, InterestSet { readable: true, writable: true });
    reg.mark_registered(a);
    reg.mark_registered(b);
    reg.mark_deregistered(a);

    let removed = reg.sweep_deregistered();
    assert_eq!(removed, vec![a]);
    assert_eq!(reg.status_of(a), None);
    assert_eq!(reg.status_of(b), Some(RegStatus::Registered));
}

#[test]
fn tokens_are_never_reused() {
    let mut reg = Registry::new();
    let a = reg.stage(ConnKind::Stream, InterestSet { readable: true, writable: true });
    reg.mark_registered(a);
    reg.mark_deregistered(a);
    let _ = reg.sweep_deregistered();
    let b = reg.stage(ConnKind::Stream, InterestSet { readable: true, writable: true });
    assert_ne!(a, b);
}
