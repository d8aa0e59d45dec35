//! Drives the verified server state and two client links through whole
//! encrypted exchanges, the way the runtime loop wires them together.

use voudp::console::{Console, MAX_LOGS};
use voudp::crypto::derive_key_from_phrase;
use voudp::link::{Endpoint, Opened, SecureLink};
use voudp::protocol::{decode_chat_forward, encode_join, VOUDP_SALT};
use voudp::server::{plan_mix, ServerConfig, ServerState};

const A: Endpoint = Endpoint { ip: 0x0a000001, port: 40001 };
const B: Endpoint = Endpoint { ip: 0x0a000002, port: 40002 };

struct Harness {
    server_link: SecureLink,
    state: ServerState,
}

impl Harness {
    fn new() -> (Harness, SecureLink, SecureLink) {
        let key = derive_key_from_phrase(b"voudp", &VOUDP_SALT);
        let harness = Harness {
            server_link: SecureLink::create(key.clone()),
            state: ServerState::new(ServerConfig::default(), b"password".to_vec()),
        };
        (harness, SecureLink::create(key.clone()), SecureLink::create(key))
    }

    /// One client datagram through the wire into the server, returning what
    /// the server sends back, still sealed.
    fn deliver(
        &mut self,
        client: &mut SecureLink,
        from: Endpoint,
        payload: &[u8],
        now_ms: u64,
    ) -> Vec<(Endpoint, Vec<u8>)> {
        let wire = client.seal_datagram(payload);
        let opened = self.server_link.open_datagram(&wire).expect("authentic frame");
        let payload = match opened {
            Opened::Payload(p) => p,
            _ => panic!("plain client traffic expected"),
        };
        let outgoing = self.state.handle_packet(from, &payload, now_ms);
        outgoing
            .into_iter()
            .map(|(to, packet)| {
                let wire = self.server_link.send_payload(&packet, to, now_ms).unwrap();
                (to, wire)
            })
            .collect()
    }
}

fn open_payload(client: &mut SecureLink, wire: &[u8]) -> Vec<u8> {
    match client.open_datagram(wire).expect("authentic frame") {
        Opened::Payload(p) => p,
        Opened::Reliable { payload, .. } => payload,
        Opened::AckProcessed(_) => panic!("unexpected ack"),
    }
}

#[test]
fn two_peers_join_mask_and_chat_over_the_wire() {
    let (mut h, mut a, mut b) = Harness::new();
    assert!(h.deliver(&mut a, A, &encode_join(1), 0).is_empty());
    assert!(h.deliver(&mut b, B, &encode_join(1), 0).is_empty());
    let mut mask = vec![0x04];
    mask.extend_from_slice(b"alice");
    assert!(h.deliver(&mut a, A, &mask, 1).is_empty());
    let mut mask = vec![0x04];
    mask.extend_from_slice(b"bob");
    assert!(h.deliver(&mut b, B, &mask, 1).is_empty());

    // A chats; both peers get the sealed forward and can open it.
    let mut chat = vec![0x06];
    chat.extend_from_slice(b"hello channel");
    let out = h.deliver(&mut a, A, &chat, 2);
    assert_eq!(out.len(), 2);
    for (to, wire) in out {
        let client = if to == A { &mut a } else { &mut b };
        let payload = open_payload(client, &wire);
        let (sender, is_self, msg) = decode_chat_forward(&payload).expect("chat forward");
        assert_eq!(sender, b"alice".to_vec());
        assert_eq!(msg, b"hello channel".to_vec());
        assert_eq!(is_self, to == A);
    }

    // The mix plan over the same state: A talks, B listens, A hears nothing.
    let ci = h.state.find_channel(1).unwrap();
    let members = h.state.channels[ci].members.clone();
    assert_eq!(members, vec![A, B]);
    let plan = plan_mix(&members, &vec![false, true], &vec![false, false]);
    assert_eq!(plan.len(), 1);
    assert_eq!(plan[0].listener, B);
    assert_eq!(plan[0].talkers, vec![A]);
}

#[test]
fn deafen_gate_over_the_wire() {
    let (mut h, mut a, mut b) = Harness::new();
    h.deliver(&mut a, A, &encode_join(1), 0);
    h.deliver(&mut b, B, &encode_join(1), 0);
    // B deafens; the next plan gives B nothing even while A talks.
    h.deliver(&mut b, B, &[0x08, 0x01], 1);
    let ci = h.state.find_channel(1).unwrap();
    let members = h.state.channels[ci].members.clone();
    let deafened: Vec<bool> = members
        .iter()
        .map(|m| h.state.remotes[h.state.find_remote(*m).unwrap()].deafened)
        .collect();
    assert_eq!(deafened, vec![false, true]);
    let plan = plan_mix(&members, &vec![false, false], &deafened);
    assert!(plan.iter().all(|e| e.listener != B));
    // Undeafening restores B's entry.
    h.deliver(&mut b, B, &[0x08, 0x02], 2);
    let deafened: Vec<bool> = members
        .iter()
        .map(|m| h.state.remotes[h.state.find_remote(*m).unwrap()].deafened)
        .collect();
    let plan = plan_mix(&members, &vec![false, false], &deafened);
    assert!(plan.iter().any(|e| e.listener == B));
}

#[test]
fn console_log_buffer_stays_bounded() {
    let mut console = Console::new();
    console.push_log("first".to_owned());
    assert_eq!(console.logs, vec!["first".to_owned()]);
    for i in 0..MAX_LOGS + 5 {
        console.push_log(format!("line {i}"));
    }
    assert_eq!(console.logs.len(), MAX_LOGS);
    // The oldest lines were dropped first.
    assert_eq!(console.logs[0], "line 5");
}
