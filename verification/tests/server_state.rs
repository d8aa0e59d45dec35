use voudp::link::Endpoint;
use voudp::protocol::{decode_chat_forward, decode_renick};
use voudp::parse::parse_list_packet;
use voudp::server::{
    plan_mix, JoinResult, ServerConfig, ServerState, JITTER_MAX,
};

fn ep(n: u16) -> Endpoint {
    Endpoint { ip: 0x0a000000 + n as u32, port: 40000 + n }
}

fn fresh_server() -> ServerState {
    ServerState::new(ServerConfig::default(), b"password".to_vec())
}

fn frame_of(state: &ServerState, value: u32) -> Vec<u32> {
    let frame_len = state.config.get_framesize() * 2;
    vec![value; frame_len]
}

#[test]
fn default_config_values() {
    let c = ServerConfig::default();
    assert_eq!(c.max_users, 1024);
    assert!(c.should_normalize);
    assert!(c.should_compress);
    assert_eq!(c.compress_threshold_milli, 500);
    assert_eq!(c.compress_ratio_milli, 800);
    assert_eq!(c.timeout_secs, 5);
    assert_eq!(c.throttle_millis, 1);
    assert_eq!(c.sample_rate, 48000);
    assert_eq!(c.tickrate, 50);
    assert_eq!(c.get_framesize(), 960);
}

#[test]
fn join_creates_moves_and_rejects() {
    let mut s = fresh_server();
    assert_eq!(s.join(ep(1), 1, 0), JoinResult::Created);
    assert_eq!(s.join(ep(1), 2, 5), JoinResult::Moved);
    assert_eq!(s.remotes.len(), 1);
    assert_eq!(s.remotes[0].channel_id, 2);
    // Channel 2 was created lazily and holds the member slots in parallel.
    let ci = s.find_channel(2).expect("lazily created");
    assert_eq!(s.channels[ci].members, vec![ep(1)]);
    assert_eq!(s.channels[ci].inputs.len(), 1);
    assert_eq!(s.channels[ci].filters.len(), 1);
    // The old channel no longer lists the mover.
    let c1 = s.find_channel(1).expect("default channel");
    assert!(s.channels[c1].members.is_empty());

    let mut limited = ServerState::new(
        ServerConfig { max_users: 1, ..ServerConfig::default() },
        b"password".to_vec(),
    );
    assert_eq!(limited.join(ep(1), 1, 0), JoinResult::Created);
    assert_eq!(limited.join(ep(2), 1, 0), JoinResult::Rejected);
    assert_eq!(limited.remotes.len(), 1);
}

#[test]
fn rejoin_keeps_mask_and_flags() {
    let mut s = fresh_server();
    s.join(ep(1), 1, 0);
    s.handle_mask(ep(1), b"alice");
    s.handle_ctrl(ep(1), &[0x03]);
    let framesize = s.config.get_framesize();
    let frame = vec![3u32; framesize * 2];
    assert!(s.deposit_decoded_frame(ep(1), frame.clone(), framesize));
    s.join(ep(1), 2, 10);
    assert_eq!(s.remotes[0].mask, Some(b"alice".to_vec()));
    assert!(s.remotes[0].muted);
    // Re-joining never rebuilds buffered audio either.
    assert_eq!(s.remotes[0].jitter_buffer, vec![frame]);
}

#[test]
fn eof_removes_remote_and_slots() {
    let mut s = fresh_server();
    s.join(ep(1), 1, 0);
    s.join(ep(2), 1, 0);
    s.handle_eof(ep(1));
    assert_eq!(s.remotes.len(), 1);
    assert_eq!(s.remotes[0].addr, ep(2));
    let c1 = s.find_channel(1).unwrap();
    assert_eq!(s.channels[c1].members, vec![ep(2)]);
    assert_eq!(s.channels[c1].inputs.len(), 1);
    assert_eq!(s.channels[c1].filters.len(), 1);
    // Removing an unknown endpoint is a no-op.
    s.handle_eof(ep(9));
    assert_eq!(s.remotes.len(), 1);
}

#[test]
fn intake_queue_bounds_and_order() {
    let mut s = ServerState::new(
        ServerConfig { max_users: 2, ..ServerConfig::default() },
        b"password".to_vec(),
    );
    s.join(ep(1), 1, 0);
    // Unknown senders are ignored.
    assert!(!s.handle_audio(ep(9), vec![1], 0));
    assert!(s.handle_audio(ep(1), vec![1], 1));
    assert!(s.handle_audio(ep(1), vec![2], 2));
    // Capacity equals max_users; the newest overflowing frame is dropped.
    assert!(!s.handle_audio(ep(1), vec![3], 3));
    assert_eq!(s.pop_intake(), Some((ep(1), vec![1])));
    assert_eq!(s.pop_intake(), Some((ep(1), vec![2])));
    assert_eq!(s.pop_intake(), None);
}

#[test]
fn jitter_buffer_never_exceeds_its_bound() {
    let mut s = fresh_server();
    s.join(ep(1), 1, 0);
    let framesize = s.config.get_framesize();
    for i in 0..JITTER_MAX {
        let accepted = s.deposit_decoded_frame(ep(1), frame_of(&s, i as u32), framesize);
        assert!(accepted);
    }
    // The bound holds: one more frame is dropped.
    assert!(!s.deposit_decoded_frame(ep(1), frame_of(&s, 99), framesize));
    assert_eq!(s.remotes[0].jitter_buffer.len(), JITTER_MAX);
    // A frame of the wrong decoded length is dropped too.
    let mut s2 = fresh_server();
    s2.join(ep(1), 1, 0);
    assert!(!s2.deposit_decoded_frame(ep(1), frame_of(&s2, 1), framesize - 1));
}

#[test]
fn advance_frames_moves_one_frame_per_tick() {
    let mut s = fresh_server();
    s.join(ep(1), 1, 0);
    let framesize = s.config.get_framesize();
    assert!(s.deposit_decoded_frame(ep(1), frame_of(&s, 7), framesize));
    assert!(s.deposit_decoded_frame(ep(1), frame_of(&s, 8), framesize));
    s.advance_frames();
    let c1 = s.find_channel(1).unwrap();
    assert_eq!(s.channels[c1].inputs[0][0], 7);
    assert_eq!(s.remotes[0].jitter_buffer.len(), 1);
    s.advance_frames();
    let c1 = s.find_channel(1).unwrap();
    assert_eq!(s.channels[c1].inputs[0][0], 8);
    assert_eq!(s.remotes[0].jitter_buffer.len(), 0);
    // An empty buffer contributes silence.
    s.advance_frames();
    let c1 = s.find_channel(1).unwrap();
    assert!(s.channels[c1].inputs[0].iter().all(|&x| x == 0));
    // Clearing zeroes every slot in place; the key never goes missing.
    s.clear_inputs();
    let c1 = s.find_channel(1).unwrap();
    assert_eq!(s.channels[c1].inputs.len(), 1);
    assert!(s.channels[c1].inputs[0].iter().all(|&x| x == 0));
}

#[test]
fn mix_plan_single_talker() {
    // A streams, B listens: B hears exactly A at unit denominator, and A
    // gets no frame at all.
    let members = vec![ep(1), ep(2)];
    let silent = vec![false, true];
    let deafened = vec![false, false];
    let plan = plan_mix(&members, &silent, &deafened);
    assert_eq!(plan.len(), 1);
    assert_eq!(plan[0].listener, ep(2));
    assert_eq!(plan[0].talkers, vec![ep(1)]);
    assert_eq!(plan[0].talker_count, 1);
}

#[test]
fn mix_plan_silence_in_silence_out() {
    let members = vec![ep(1), ep(2), ep(3)];
    let silent = vec![true, true, true];
    let deafened = vec![false, false, false];
    assert!(plan_mix(&members, &silent, &deafened).is_empty());
}

#[test]
fn mix_plan_excludes_listener_and_deafened() {
    let members = vec![ep(1), ep(2), ep(3)];
    let silent = vec![false, false, false];
    let deafened = vec![false, true, false];
    let plan = plan_mix(&members, &silent, &deafened);
    // B is deafened: no entry for it, but the others still hear B talk.
    assert_eq!(plan.len(), 2);
    for entry in plan.iter() {
        assert_ne!(entry.listener, ep(2));
        assert!(!entry.talkers.contains(&entry.listener));
        assert_eq!(entry.talker_count, 2);
    }
    // Undeafening restores the entry within the next plan.
    let deafened = vec![false, false, false];
    let plan = plan_mix(&members, &silent, &deafened);
    assert_eq!(plan.len(), 3);
}

#[test]
fn mask_lifecycle_unauth_then_chat() {
    let mut s = fresh_server();
    s.join(ep(3), 2, 0);
    s.join(ep(4), 2, 0);
    // Chat before masking earns only the unauthorized notice.
    let out = s.handle_chat(ep(3), b"hi");
    assert_eq!(out.len(), 1);
    assert_eq!(out[0].0, ep(3));
    assert_eq!(out[0].1, vec![0x07]);
    // Masking, then chatting, reaches the whole channel with is_self set
    // only on the sender's own copy.
    assert!(s.handle_mask(ep(3), b"carol").is_empty());
    let out = s.handle_chat(ep(3), b"hi2");
    assert_eq!(out.len(), 2);
    for (to, packet) in out.iter() {
        let (sender, is_self, msg) = decode_chat_forward(packet).expect("well-formed forward");
        assert_eq!(sender, b"carol".to_vec());
        assert_eq!(msg, b"hi2".to_vec());
        assert_eq!(is_self, *to == ep(3));
    }
}

#[test]
fn renick_broadcasts_to_the_channel() {
    let mut s = fresh_server();
    s.join(ep(3), 2, 0);
    s.join(ep(4), 2, 0);
    assert!(s.handle_mask(ep(3), b"carol").is_empty());
    let out = s.handle_mask(ep(3), b"carlos");
    assert_eq!(out.len(), 2);
    for (_, packet) in out.iter() {
        let (old_mask, new_mask) = decode_renick(packet).expect("well-formed renick");
        assert_eq!(old_mask, b"carol".to_vec());
        assert_eq!(new_mask, b"carlos".to_vec());
    }
    // Invalid masks change nothing: empty, separator-bearing, non-UTF-8.
    assert!(s.handle_mask(ep(3), b"").is_empty());
    assert!(s.handle_mask(ep(3), &[b'a', 0x01, b'b']).is_empty());
    assert!(s.handle_mask(ep(3), &[0xff, 0xfe]).is_empty());
    assert_eq!(s.remotes[0].mask, Some(b"carlos".to_vec()));
}

#[test]
fn idle_timeout_reaps_and_announces() {
    let mut s = fresh_server();
    s.join(ep(1), 1, 0);
    s.join(ep(2), 1, 0);
    s.handle_mask(ep(1), b"alice");
    s.handle_mask(ep(2), b"bob");
    // B stays active; A goes quiet.
    assert!(s.handle_audio(ep(2), vec![0], 6000));
    let out = s.cleanup(6001);
    assert_eq!(s.remotes.len(), 1);
    assert_eq!(s.remotes[0].addr, ep(2));
    // The survivor gets FLOW_LEAVE carrying the leaver's mask.
    assert_eq!(out.len(), 1);
    assert_eq!(out[0].0, ep(2));
    let mut expected = vec![0x0b];
    expected.extend_from_slice(b"alice");
    assert_eq!(out[0].1, expected);
    // Cleanup is idempotent.
    assert!(s.cleanup(6001).is_empty());
    assert_eq!(s.remotes.len(), 1);
}

#[test]
fn list_reply_reflects_masks_and_flags() {
    let mut s = fresh_server();
    s.join(ep(1), 1, 0);
    s.join(ep(2), 1, 0);
    s.handle_mask(ep(1), b"alice");
    s.handle_ctrl(ep(1), &[0x01]);
    let out = s.handle_list(ep(1));
    assert_eq!(out.len(), 1);
    assert_eq!(out[0].0, ep(1));
    let (current_id, chan_count, channels) = parse_list_packet(&out[0].1).expect("parseable");
    assert_eq!(current_id, 1);
    assert_eq!(chan_count, 1);
    assert_eq!(channels.len(), 1);
    assert_eq!(channels[0].chan_id, 1);
    assert_eq!(channels[0].unmasked, 1);
    assert_eq!(channels[0].members.len(), 1);
    assert_eq!(channels[0].members[0].0, "alice");
    assert!(!channels[0].members[0].1);
    assert!(channels[0].members[0].2);
    // Unknown requesters get nothing.
    assert!(s.handle_list(ep(9)).is_empty());
}

#[test]
fn ctrl_flags_follow_requests() {
    let mut s = fresh_server();
    s.join(ep(1), 1, 0);
    assert!(s.handle_ctrl(ep(1), &[0x01]));
    assert!(s.remotes[0].deafened);
    assert!(s.handle_ctrl(ep(1), &[0x02]));
    assert!(!s.remotes[0].deafened);
    assert!(s.handle_ctrl(ep(1), &[0x03]));
    assert!(s.remotes[0].muted);
    assert!(s.handle_ctrl(ep(1), &[0x04]));
    assert!(!s.remotes[0].muted);
    // Malformed bodies and unknown endpoints change nothing.
    assert!(!s.handle_ctrl(ep(1), &[]));
    assert!(!s.handle_ctrl(ep(1), &[0x77]));
    assert!(!s.handle_ctrl(ep(9), &[0x01]));
}

#[test]
fn packet_dispatch_routes_by_tag() {
    let mut s = fresh_server();
    let join = voudp::protocol::encode_join(1);
    s.handle_packet(ep(1), &join, 0);
    assert_eq!(s.remotes.len(), 1);
    let mut mask = vec![0x04];
    mask.extend_from_slice(b"alice");
    s.handle_packet(ep(1), &mask, 1);
    assert_eq!(s.remotes[0].mask, Some(b"alice".to_vec()));
    let mut chat = vec![0x06];
    chat.extend_from_slice(b"hello");
    let out = s.handle_packet(ep(1), &chat, 2);
    assert_eq!(out.len(), 1);
    // Empty payloads and unknown tags are dropped.
    assert!(s.handle_packet(ep(1), &[], 3).is_empty());
    assert!(s.handle_packet(ep(1), &[0x99], 3).is_empty());
    // An unknown endpoint is ignored for every tag but JOIN and console
    // registration.
    let out = s.handle_packet(ep(7), &chat, 4);
    assert!(out.is_empty());
    assert_eq!(s.remotes.len(), 1);
}

#[test]
fn console_registration_and_liveness() {
    let mut s = fresh_server();
    assert!(!s.register_console(ep(5), b"wrong", 0));
    assert!(!s.is_console(ep(5)));
    assert!(s.register_console(ep(5), b"password", 0));
    assert!(s.is_console(ep(5)));
    s.touch_console(ep(5), 6000);
    s.cleanup(6001);
    assert!(s.is_console(ep(5)));
    s.cleanup(20000);
    assert!(!s.is_console(ep(5)));
    assert!(s.register_console(ep(5), b"password", 21000));
    s.remove_console(ep(5));
    assert!(!s.is_console(ep(5)));
}
