use eirc::relay::Relay;

fn inbox(r: &Relay, id: u64) -> Vec<Vec<u8>> {
    r.inbox_of(id).expect("peer should be connected").clone()
}

#[test]
fn a_sends_hello_b_receives_hello() {
    let mut relay = Relay::new();
    let a = relay.connect();
    let b = relay.connect();

    relay.send(a, b"hello");

    assert_eq!(inbox(&relay, b), vec![b"hello".to_vec()]);
    // The chosen policy: the sender is excluded from its own broadcast.
    assert!(inbox(&relay, a).is_empty());
}

#[test]
fn connect_then_immediate_disconnect_restores_membership() {
    let mut relay = Relay::new();
    let a = relay.connect();
    let _ = a;
    let before = relay.registered_count();

    // Peer connects and immediately disconnects (zero-byte read).
    let b = relay.connect();
    assert_eq!(relay.registered_count(), before + 1);
    relay.disconnect(b);

    assert_eq!(relay.registered_count(), before);
    assert!(!relay.is_connected(b));
    assert!(!relay.is_registered(b));
}

#[test]
fn dead_recipient_does_not_stop_delivery_to_the_rest() {
    let mut relay = Relay::new();
    let a = relay.connect();
    let b = relay.connect();
    let c = relay.connect();

    // B's link fails before the broadcast; the write to it will fail.
    relay.fail_link(b);
    relay.send(a, b"news");

    // The live recipient still got the message, byte for byte.
    assert_eq!(inbox(&relay, c), vec![b"news".to_vec()]);
    // The dead handle received nothing and was scheduled out of the registry,
    // though its handler task has not torn it down yet.
    assert!(inbox(&relay, b).is_empty());
    assert!(!relay.is_registered(b));
    assert!(relay.is_connected(b));
    // The sender itself stays registered.
    assert!(relay.is_registered(a));
}

#[test]
fn disconnecting_one_peer_leaves_the_others_delivering() {
    let mut relay = Relay::new();
    let a = relay.connect();
    let b = relay.connect();
    let c = relay.connect();

    relay.send(a, b"first");
    relay.disconnect(b);
    relay.send(c, b"second");

    assert_eq!(
        inbox(&relay, a),
        vec![b"second".to_vec()],
    );
    assert_eq!(
        inbox(&relay, c),
        vec![b"first".to_vec()],
    );
    assert!(!relay.is_connected(b));
}

#[test]
fn delivery_is_in_read_order_per_sender() {
    let mut relay = Relay::new();
    let a = relay.connect();
    let b = relay.connect();

    relay.send(a, b"one");
    relay.send(a, b"two");
    relay.send(a, b"three");

    assert_eq!(
        inbox(&relay, b),
        vec![b"one".to_vec(), b"two".to_vec(), b"three".to_vec()],
    );
}

#[test]
fn raw_bytes_are_forwarded_unchanged() {
    let mut relay = Relay::new();
    let a = relay.connect();
    let b = relay.connect();

    // No framing, no validation: arbitrary bytes, including a partial line.
    let payload: Vec<u8> = vec![0, 255, 10, 13, 104, 105];
    relay.send(a, &payload);

    assert_eq!(inbox(&relay, b), vec![payload]);
}

#[test]
fn peer_registered_before_sending_receives_broadcasts() {
    let mut relay = Relay::new();
    let a = relay.connect();
    // B has never sent anything; it is registered on accept and must still
    // receive what others broadcast.
    let b = relay.connect();

    relay.send(a, b"welcome");
    assert_eq!(inbox(&relay, b), vec![b"welcome".to_vec()]);
}

#[test]
fn unknown_peer_has_no_inbox() {
    let mut relay = Relay::new();
    let a = relay.connect();
    assert!(relay.inbox_of(a + 1).is_none());
    assert!(!relay.is_connected(a + 1));
    assert!(!relay.is_registered(a + 1));
}

#[test]
fn identifiers_are_never_reused() {
    let mut relay = Relay::new();
    let a = relay.connect();
    relay.disconnect(a);
    let b = relay.connect();
    assert_ne!(a, b);
    assert!(!relay.is_connected(a));
    assert!(relay.is_connected(b));
}

#[test]
fn fifty_peers_each_receive_the_other_forty_nine() {
    let mut relay = Relay::new();
    let peers: Vec<u64> = (0..50).map(|_| relay.connect()).collect();

    // Each peer sends one distinct message.
    for (i, &p) in peers.iter().enumerate() {
        let msg = format!("message from peer {}", i).into_bytes();
        relay.send(p, &msg);
    }

    for (i, &p) in peers.iter().enumerate() {
        let got = inbox(&relay, p);
        assert_eq!(got.len(), 49);
        // Every other sender's message arrived, bytes intact; its own did not.
        for (j, _) in peers.iter().enumerate() {
            let msg = format!("message from peer {}", j).into_bytes();
            if i == j {
                assert!(!got.contains(&msg));
            } else {
                assert!(got.contains(&msg));
            }
        }
    }
}
