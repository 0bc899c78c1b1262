use budgetchat::{ClientCommand, Handled, JoinOutcome, Room, RoomCommand};
use tokio::sync::mpsc::{channel, Receiver, Sender};

fn peer() -> (Sender<ClientCommand>, Receiver<ClientCommand>) {
    channel(100)
}

fn next_line(rx: &mut Receiver<ClientCommand>) -> Option<String> {
    match rx.try_recv() {
        Ok(ClientCommand::Message(text)) => Some(text),
        _ => None,
    }
}

fn join(room: &mut Room, name: &str) -> Receiver<ClientCommand> {
    let (tx, rx) = peer();
    room.handle(RoomCommand::Join(name.to_string(), tx));
    rx
}

#[test]
fn scenario_join_listing_and_announcement() {
    let mut room = Room::new();
    let mut bob = join(&mut room, "bob");
    assert_eq!(next_line(&mut bob), Some("* The room contains: ".to_string()));
    assert!(bob.try_recv().is_err());
    let mut alice = join(&mut room, "alice");
    assert_eq!(next_line(&mut alice), Some("* The room contains: bob".to_string()));
    assert_eq!(next_line(&mut bob), Some("* alice has entered the room".to_string()));
    assert!(alice.try_recv().is_err());
}

#[test]
fn scenario_message_not_echoed() {
    let mut room = Room::new();
    let mut bob = join(&mut room, "bob");
    let mut alice = join(&mut room, "alice");
    while bob.try_recv().is_ok() {}
    while alice.try_recv().is_ok() {}
    room.handle(RoomCommand::Message("alice".to_string(), "hello".to_string()));
    assert_eq!(next_line(&mut bob), Some("[alice] hello".to_string()));
    assert!(alice.try_recv().is_err());
}

#[test]
fn scenario_invalid_name_terminated() {
    let mut room = Room::new();
    let mut bob = join(&mut room, "bob!");
    assert_eq!(bob.try_recv().ok(), Some(ClientCommand::Disconnect));
    assert_eq!(room.len(), 0);
}

#[test]
fn scenario_duplicate_name_terminated() {
    let mut room = Room::new();
    let mut first = join(&mut room, "bob");
    assert!(next_line(&mut first).is_some());
    let mut second = join(&mut room, "bob");
    assert_eq!(second.try_recv().ok(), Some(ClientCommand::Disconnect));
    assert_eq!(room.names(), vec!["bob".to_string()]);
    assert!(first.try_recv().is_err());
    room.handle(RoomCommand::Message("x".to_string(), "hi".to_string()));
    assert_eq!(next_line(&mut first), Some("[x] hi".to_string()));
}

#[test]
fn scenario_departure_announced_and_name_reusable() {
    let mut room = Room::new();
    let _bob = join(&mut room, "bob");
    let mut alice = join(&mut room, "alice");
    while alice.try_recv().is_ok() {}
    room.handle(RoomCommand::Disconnect("bob".to_string()));
    assert_eq!(next_line(&mut alice), Some("* bob has left the room".to_string()));
    assert!(!room.contains("bob"));
    let mut again = join(&mut room, "bob");
    assert_eq!(next_line(&mut again), Some("* The room contains: alice".to_string()));
    assert!(room.contains("bob"));
}

#[test]
fn join_outcome_reports_listing_and_recipients() {
    let mut room = Room::new();
    let _c = join(&mut room, "charlie");
    let _a = join(&mut room, "alice");
    let (tx, _rx) = peer();
    match room.join("bob".to_string(), tx) {
        JoinOutcome::Joined { contents, announcement } => {
            assert_eq!(contents, "* The room contains: alice, charlie");
            assert_eq!(announcement.text, "* bob has entered the room");
            assert_eq!(announcement.recipients, vec!["alice".to_string(), "charlie".to_string()]);
            assert!(announcement.dropped.is_empty());
        }
        _ => panic!("bob should have been admitted"),
    }
    assert_eq!(
        room.names(),
        vec!["alice".to_string(), "bob".to_string(), "charlie".to_string()]
    );
}

#[test]
fn snapshot_is_sorted_and_excludes_joiner() {
    let mut room = Room::new();
    let mut rxs = Vec::new();
    for name in ["zed", "Bob", "alice", "bob2", "bob"] {
        rxs.push(join(&mut room, name));
    }
    let mut dave = join(&mut room, "dave");
    assert_eq!(
        next_line(&mut dave),
        Some("* The room contains: Bob, alice, bob, bob2, zed".to_string())
    );
}

#[test]
fn names_never_repeat() {
    let mut room = Room::new();
    let mut rxs = Vec::new();
    for name in ["bob", "alice", "bob", "alice", "carol", "bob"] {
        rxs.push(join(&mut room, name));
    }
    assert_eq!(
        room.names(),
        vec!["alice".to_string(), "bob".to_string(), "carol".to_string()]
    );
}

#[test]
fn only_valid_names_are_admitted() {
    let mut room = Room::new();
    let mut rxs = Vec::new();
    for name in ["", "a b", "caf\u{e9}", "x\r", "-", "Ok9"] {
        rxs.push(join(&mut room, name));
    }
    assert_eq!(room.names(), vec!["Ok9".to_string()]);
    let (tx, mut rx) = peer();
    assert!(matches!(room.join("".to_string(), tx), JoinOutcome::Rejected));
    assert_eq!(rx.try_recv().ok(), Some(ClientCommand::Disconnect));
}

#[test]
fn sender_never_receives_own_broadcast() {
    let mut room = Room::new();
    let mut a = join(&mut room, "a");
    let mut b = join(&mut room, "b");
    let mut c = join(&mut room, "c");
    for rx in [&mut a, &mut b, &mut c] {
        while rx.try_recv().is_ok() {}
    }
    let d = room.message("b".to_string(), "yo".to_string());
    assert_eq!(d.text, "[b] yo");
    assert_eq!(d.recipients, vec!["a".to_string(), "c".to_string()]);
    assert!(b.try_recv().is_err());
    assert_eq!(next_line(&mut a), Some("[b] yo".to_string()));
    assert_eq!(next_line(&mut c), Some("[b] yo".to_string()));
    let d = room.disconnect("c".to_string());
    assert_eq!(d.text, "* c has left the room");
    assert_eq!(d.recipients, vec!["a".to_string(), "b".to_string()]);
    assert!(c.try_recv().is_err());
}

#[test]
fn stale_message_from_departed_name_still_relayed() {
    let mut room = Room::new();
    let _bob = join(&mut room, "bob");
    let mut alice = join(&mut room, "alice");
    room.handle(RoomCommand::Disconnect("bob".to_string()));
    while alice.try_recv().is_ok() {}
    room.handle(RoomCommand::Message("bob".to_string(), "late".to_string()));
    assert_eq!(next_line(&mut alice), Some("[bob] late".to_string()));
}

#[test]
fn departure_of_absent_name_still_announced() {
    let mut room = Room::new();
    let mut alice = join(&mut room, "alice");
    while alice.try_recv().is_ok() {}
    let d = room.disconnect("ghost".to_string());
    assert!(d.recipients == vec!["alice".to_string()]);
    assert_eq!(next_line(&mut alice), Some("* ghost has left the room".to_string()));
    assert_eq!(room.names(), vec!["alice".to_string()]);
}

#[test]
fn slow_peer_does_not_stall_others() {
    let mut room = Room::new();
    let mut alice = join(&mut room, "alice");
    let mut carol = join(&mut room, "carol");
    let (slow_tx, mut slow_rx) = channel(1);
    room.handle(RoomCommand::Join("slow".to_string(), slow_tx));
    while alice.try_recv().is_ok() {}
    while carol.try_recv().is_ok() {}
    // the slow peer's queue holds its listing and is now full
    let d = room.message("carol".to_string(), "one".to_string());
    assert_eq!(d.recipients, vec!["alice".to_string(), "slow".to_string()]);
    assert_eq!(d.delivered, vec![true, false]);
    assert_eq!(d.dropped, vec!["slow".to_string()]);
    assert!(room.contains("alice"));
    assert!(room.contains("carol"));
    assert_eq!(next_line(&mut alice), Some("[carol] one".to_string()));
    assert!(!room.contains("slow"));
    let d = room.message("carol".to_string(), "two".to_string());
    assert_eq!(d.recipients, vec!["alice".to_string()]);
    assert_eq!(next_line(&mut alice), Some("[carol] two".to_string()));
    assert_eq!(
        next_line(&mut slow_rx),
        Some("* The room contains: alice, carol".to_string())
    );
}

#[test]
fn closed_peer_is_dropped() {
    let mut room = Room::new();
    let gone = join(&mut room, "gone");
    let mut alice = join(&mut room, "alice");
    drop(gone);
    while alice.try_recv().is_ok() {}
    let d = room.message("alice".to_string(), "hi".to_string());
    assert_eq!(d.recipients, vec!["gone".to_string()]);
    assert_eq!(d.dropped, vec!["gone".to_string()]);
    assert_eq!(room.names(), vec!["alice".to_string()]);
}

#[test]
fn unreachable_joiner_not_admitted() {
    let mut room = Room::new();
    let mut alice = join(&mut room, "alice");
    while alice.try_recv().is_ok() {}
    let (tx, rx) = peer();
    drop(rx);
    assert!(matches!(room.join("bob".to_string(), tx), JoinOutcome::Unreachable { .. }));
    assert!(!room.contains("bob"));
    assert!(alice.try_recv().is_err());
}

#[test]
fn handle_reports_what_it_did() {
    let mut room = Room::new();
    let (tx, _bob) = peer();
    match room.handle(RoomCommand::Join("bob".to_string(), tx)) {
        Handled::Join(JoinOutcome::Joined { contents, announcement }) => {
            assert_eq!(contents, "* The room contains: ");
            assert!(announcement.recipients.is_empty());
        }
        _ => panic!("bob should have been admitted"),
    }
    let (tx, _alice) = peer();
    match room.handle(RoomCommand::Join("alice".to_string(), tx)) {
        Handled::Join(JoinOutcome::Joined { contents, announcement }) => {
            assert_eq!(contents, "* The room contains: bob");
            assert_eq!(announcement.text, "* alice has entered the room");
            assert_eq!(announcement.recipients, vec!["bob".to_string()]);
            assert_eq!(announcement.delivered, vec![true]);
        }
        _ => panic!("alice should have been admitted"),
    }
    let (tx, _dup) = peer();
    assert!(matches!(
        room.handle(RoomCommand::Join("bob".to_string(), tx)),
        Handled::Join(JoinOutcome::Rejected)
    ));
    match room.handle(RoomCommand::Message("alice".to_string(), "hello".to_string())) {
        Handled::Relay(d) => {
            assert_eq!(d.text, "[alice] hello");
            assert_eq!(d.recipients, vec!["bob".to_string()]);
            assert_eq!(d.delivered, vec![true]);
            assert!(d.dropped.is_empty());
        }
        _ => panic!("a message is relayed"),
    }
    assert_eq!(room.names(), vec!["alice".to_string(), "bob".to_string()]);
    match room.handle(RoomCommand::Disconnect("bob".to_string())) {
        Handled::Relay(d) => {
            assert_eq!(d.text, "* bob has left the room");
            assert_eq!(d.recipients, vec!["alice".to_string()]);
            assert!(d.dropped.is_empty());
        }
        _ => panic!("a departure is relayed"),
    }
    assert_eq!(room.names(), vec!["alice".to_string()]);
}

#[test]
fn complete_join_follows_the_listing_answer() {
    let mut room = Room::new();
    let mut bob = join(&mut room, "bob");
    while bob.try_recv().is_ok() {}
    let listing = "* The room contains: bob".to_string();
    let (tx, _alice) = peer();
    assert!(matches!(
        room.complete_join("alice".to_string(), tx, listing.clone(), false),
        JoinOutcome::Unreachable { .. }
    ));
    assert_eq!(room.names(), vec!["bob".to_string()]);
    assert!(bob.try_recv().is_err());
    let (tx, _alice) = peer();
    match room.complete_join("alice".to_string(), tx, listing, true) {
        JoinOutcome::Joined { contents, announcement } => {
            assert_eq!(contents, "* The room contains: bob");
            assert_eq!(announcement.recipients, vec!["bob".to_string()]);
        }
        _ => panic!("alice should have been admitted"),
    }
    assert_eq!(room.names(), vec!["alice".to_string(), "bob".to_string()]);
    assert_eq!(next_line(&mut bob), Some("* alice has entered the room".to_string()));
}

#[test]
fn rejected_duplicate_keeps_first_session_channel() {
    let mut room = Room::new();
    let mut first = join(&mut room, "bob");
    let mut alice = join(&mut room, "alice");
    while first.try_recv().is_ok() {}
    while alice.try_recv().is_ok() {}
    let (tx, mut second) = peer();
    assert!(matches!(
        room.handle(RoomCommand::Join("bob".to_string(), tx)),
        Handled::Join(JoinOutcome::Rejected)
    ));
    assert_eq!(second.try_recv().ok(), Some(ClientCommand::Disconnect));
    assert!(alice.try_recv().is_err());
    room.handle(RoomCommand::Message("alice".to_string(), "still there?".to_string()));
    assert_eq!(next_line(&mut first), Some("[alice] still there?".to_string()));
    assert!(second.try_recv().is_err());
}
