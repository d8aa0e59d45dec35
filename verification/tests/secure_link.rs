use voudp::crypto::derive_key_from_phrase;
use voudp::link::{Endpoint, Opened, RecvError, SecureLink};
use voudp::protocol::VOUDP_SALT;

fn key() -> Vec<u8> {
    // A low round count would be nicer for tests, but the library derives
    // with its fixed transport parameters, so exercise exactly those.
    derive_key_from_phrase(b"voudp", &VOUDP_SALT)
}

fn addr() -> Endpoint {
    Endpoint { ip: 0x7f000001, port: 37549 }
}

#[test]
fn key_derivation_is_deterministic() {
    let k1 = key();
    let k2 = key();
    assert_eq!(k1.len(), 32);
    assert_eq!(k1, k2);
    let other = derive_key_from_phrase(b"not-voudp", &VOUDP_SALT);
    assert_ne!(k1, other);
}

#[test]
fn seal_and_open_round_trip() {
    let k = key();
    let mut tx = SecureLink::create(k.clone());
    let mut rx = SecureLink::create(k);
    let wire = tx.seal_datagram(b"hello voice");
    assert_eq!(wire.len(), 11 + 28);
    match rx.open_datagram(&wire).expect("authentic frame") {
        Opened::Payload(p) => assert_eq!(p, b"hello voice".to_vec()),
        _ => panic!("expected a plain payload"),
    }
}

#[test]
fn nonces_never_repeat_across_sends() {
    let k = key();
    let mut tx = SecureLink::create(k);
    let w1 = tx.seal_datagram(b"one");
    let w2 = tx.seal_datagram(b"one");
    let w3 = tx.seal_datagram(b"one");
    assert_ne!(&w1[..12], &w2[..12]);
    assert_ne!(&w2[..12], &w3[..12]);
    assert_ne!(&w1[..12], &w3[..12]);
}

#[test]
fn tampered_and_short_frames_are_rejected() {
    let k = key();
    let mut tx = SecureLink::create(k.clone());
    let mut rx = SecureLink::create(k);
    let mut wire = tx.seal_datagram(b"secret");
    let last = wire.len() - 1;
    wire[last] ^= 0x40;
    assert!(matches!(rx.open_datagram(&wire), Err(RecvError::DecryptionFailure)));
    assert!(matches!(rx.open_datagram(&wire[..5]), Err(RecvError::FrameTooSmall)));
    let wrong_key = derive_key_from_phrase(b"other", &VOUDP_SALT);
    let mut rx2 = SecureLink::create(wrong_key);
    let wire2 = tx.seal_datagram(b"secret");
    assert!(matches!(rx2.open_datagram(&wire2), Err(RecvError::DecryptionFailure)));
}

#[test]
fn reliable_send_acks_back_to_empty() {
    let k = key();
    let mut server = SecureLink::create(k.clone());
    let mut client = SecureLink::create(k);
    // A reliable CMD_SUCCESS from the server.
    let payload = {
        let mut p = vec![0x0e];
        p.extend_from_slice(b"done");
        p
    };
    let wire = server.send_payload(&payload, addr(), 0).expect("nonempty payload");
    assert_eq!(server.pending_len(), 1);
    let ack_wire = match client.open_datagram(&wire).expect("authentic frame") {
        Opened::Reliable { payload: inner, ack } => {
            assert_eq!(inner, payload);
            ack
        }
        _ => panic!("expected a reliable payload"),
    };
    match server.open_datagram(&ack_wire).expect("authentic ack") {
        Opened::AckProcessed(_) => {}
        _ => panic!("expected an ack"),
    }
    assert_eq!(server.pending_len(), 0);
}

#[test]
fn audio_stays_best_effort() {
    let k = key();
    let mut server = SecureLink::create(k);
    let payload = vec![0x02, 1, 2, 3];
    server.send_payload(&payload, addr(), 0).expect("nonempty payload");
    assert_eq!(server.pending_len(), 0);
    assert!(server.send_payload(&[], addr(), 0).is_none());
}

#[test]
fn retransmit_until_delivery_through_a_lossy_path() {
    let k = key();
    let mut server = SecureLink::create(k.clone());
    let mut client = SecureLink::create(k);
    let payload = {
        let mut p = vec![0x0e];
        p.extend_from_slice(b"reliable hello");
        p
    };
    // First transmission at t=0 is dropped by the network.
    let _lost1 = server.send_payload(&payload, addr(), 0).expect("nonempty payload");
    assert_eq!(server.pending_len(), 1);
    // Nothing is due before the 200 ms retry window.
    assert_eq!(server.tick_reliable(100).len(), 0);
    // First retransmission at t=250 is dropped too.
    let resends = server.tick_reliable(250);
    assert_eq!(resends.len(), 1);
    assert_eq!(server.pending_len(), 1);
    // The second retransmission at t=500 gets through: the third attempt.
    let resends = server.tick_reliable(500);
    assert_eq!(resends.len(), 1);
    let (to, wire) = &resends[0];
    assert_eq!(*to, addr());
    let ack_wire = match client.open_datagram(wire).expect("authentic frame") {
        Opened::Reliable { payload: inner, ack } => {
            assert_eq!(inner, payload);
            ack
        }
        _ => panic!("expected a reliable payload"),
    };
    match server.open_datagram(&ack_wire).expect("authentic ack") {
        Opened::AckProcessed(_) => {}
        _ => panic!("expected an ack"),
    }
    // Pending is clear well inside 600 ms, and later ticks resend nothing.
    assert_eq!(server.pending_len(), 0);
    assert_eq!(server.tick_reliable(800).len(), 0);
}

#[test]
fn reliable_send_is_abandoned_after_five_retries() {
    let k = key();
    let mut server = SecureLink::create(k);
    let payload = vec![0x0e, b'x'];
    server.send_payload(&payload, addr(), 0).expect("nonempty payload");
    let mut t = 0u64;
    let mut resends = 0usize;
    for _ in 0..10 {
        t += 250;
        resends += server.tick_reliable(t).len();
    }
    // Five retries go out, then the entry is dropped for good.
    assert_eq!(resends, 5);
    assert_eq!(server.pending_len(), 0);
}
