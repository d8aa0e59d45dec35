use voudp::listing::{decode_list_reply, encode_list_reply, ChannelEntry, ListReply, MemberEntry};
use voudp::protocol::{
    classify_plaintext, create_audio_packet, create_list_request, create_sync_commands_request,
    decode_chat_forward, decode_join, decode_renick, encode_ack, encode_chat_forward, encode_ctrl,
    encode_join, encode_reliable_wrap, encode_renick, is_client_ready, is_client_to_server_only,
    is_flow_packet, ClientPacketType, ConsolePacketType, ControlRequest, PacketSerializer,
    PlainClass,
};
use voudp::sync::{decode_sync_reply, encode_sync_reply, SyncedCommand};
use voudp::commands::CommandCategory;

#[test]
fn tag_mapping_round_trips() {
    let tags = [
        0x01u8, 0x02, 0x03, 0x04, 0x05, 0x06, 0x08, 0x0a, 0x0b, 0x0c, 0x0d, 0x0e, 0x0f, 0x10,
        0x11, 0xff,
    ];
    for &t in tags.iter() {
        let ty = ClientPacketType::try_from(t).expect("known tag");
        assert_eq!(ty.to_bytes(), vec![t]);
    }
    assert_eq!(ClientPacketType::try_from(0x07), Err(0x07));
    assert_eq!(ClientPacketType::try_from(0x09), Err(0x09));
    assert_eq!(ConsolePacketType::try_from(0x0d), Ok(ConsolePacketType::Cmd));
    assert_eq!(ConsolePacketType::try_from(0x99), Err(0x99));
}

#[test]
fn reliability_classes() {
    assert!(ClientPacketType::Chat.is_reliable());
    assert!(ClientPacketType::FlowJoin.is_reliable());
    assert!(ClientPacketType::FlowLeave.is_reliable());
    assert!(ClientPacketType::FlowRenick.is_reliable());
    assert!(ClientPacketType::CommandResponse.is_reliable());
    assert!(ClientPacketType::CmdError.is_reliable());
    assert!(ClientPacketType::Dm.is_reliable());
    assert!(!ClientPacketType::Audio.is_reliable());
    assert!(!ClientPacketType::List.is_reliable());
}

#[test]
fn flow_and_direction_predicates() {
    assert!(is_flow_packet(ClientPacketType::FlowJoin));
    assert!(is_flow_packet(ClientPacketType::Dm));
    assert!(!is_flow_packet(ClientPacketType::Audio));
    assert!(is_client_to_server_only(ClientPacketType::Join));
    assert!(is_client_to_server_only(ClientPacketType::RegisterConsole));
    assert!(!is_client_to_server_only(ClientPacketType::Chat));
    assert!(is_client_ready());
}

#[test]
fn simple_builders() {
    assert_eq!(create_audio_packet(&[9, 8, 7]), vec![0x02, 9, 8, 7]);
    assert_eq!(create_list_request(), vec![0x05]);
    assert_eq!(create_sync_commands_request(), vec![0x0c]);
}

#[test]
fn join_round_trip() {
    let p = encode_join(37549);
    assert_eq!(p[0], 0x01);
    assert_eq!(p.len(), 5);
    assert_eq!(decode_join(&p), Some(37549));
    assert_eq!(decode_join(&[0x01, 0, 0]), None);
    assert_eq!(decode_join(&[0x02, 0, 0, 0, 1]), None);
}

#[test]
fn chat_forward_round_trip() {
    let p = encode_chat_forward(b"carol", true, b"hi2");
    let (sender, is_self, msg) = decode_chat_forward(&p).expect("well-formed");
    assert_eq!(sender, b"carol".to_vec());
    assert!(is_self);
    assert_eq!(msg, b"hi2".to_vec());

    let p2 = encode_chat_forward(b"bob", false, b"hello there");
    let (sender2, is_self2, msg2) = decode_chat_forward(&p2).expect("well-formed");
    assert_eq!(sender2, b"bob".to_vec());
    assert!(!is_self2);
    assert_eq!(msg2, b"hello there".to_vec());

    // Missing separator, or empty sender, is refused.
    assert!(decode_chat_forward(&[0x06, b'x', b'y']).is_none());
    assert!(decode_chat_forward(&[0x06, 0x01, 1, b'm']).is_none());
}

#[test]
fn renick_round_trip() {
    let p = encode_renick(b"carol", b"carlos");
    let (old_mask, new_mask) = decode_renick(&p).expect("well-formed");
    assert_eq!(old_mask, b"carol".to_vec());
    assert_eq!(new_mask, b"carlos".to_vec());
    // A truncated packet is refused.
    assert!(decode_renick(&p[..p.len() - 1]).is_none());
}

#[test]
fn ctrl_round_trip() {
    let reqs = [
        ControlRequest::SetDeafen,
        ControlRequest::SetUndeafen,
        ControlRequest::SetMute,
        ControlRequest::SetUnmute,
        ControlRequest::SetVolume(190),
    ];
    for &r in reqs.iter() {
        let p = encode_ctrl(r);
        assert_eq!(p[0], 0x08);
    }
    assert_eq!(encode_ctrl(ControlRequest::SetDeafen), vec![0x08, 0x01]);
    assert_eq!(encode_ctrl(ControlRequest::SetVolume(5)), vec![0x08, 0x05, 5]);
}

#[test]
fn reliable_wrap_and_ack_classify() {
    let wrapped = encode_reliable_wrap(77, b"payload");
    match classify_plaintext(&wrapped) {
        PlainClass::Reliable(seq, inner) => {
            assert_eq!(seq, 77);
            assert_eq!(inner, b"payload".to_vec());
        }
        _ => panic!("expected a reliable wrap"),
    }
    let ack = encode_ack(77);
    assert_eq!(ack.len(), 5);
    match classify_plaintext(&ack) {
        PlainClass::Ack(seq) => assert_eq!(seq, 77),
        _ => panic!("expected an ack"),
    }
    match classify_plaintext(b"ordinary") {
        PlainClass::Plain => {}
        _ => panic!("expected a plain payload"),
    }
}

#[test]
fn list_reply_round_trip() {
    let reply = ListReply {
        current_id: 1,
        channels: vec![
            ChannelEntry {
                name: b"lobby".to_vec(),
                chan_id: 1,
                unmasked: 2,
                members: vec![
                    MemberEntry { mask: b"alice".to_vec(), muted: false, deafened: false },
                    MemberEntry { mask: b"bob".to_vec(), muted: true, deafened: true },
                ],
            },
            ChannelEntry { name: Vec::new(), chan_id: 9, unmasked: 0, members: Vec::new() },
        ],
    };
    let packet = encode_list_reply(&reply);
    assert_eq!(packet[0], 0x05);
    let back = decode_list_reply(&packet).expect("round trip");
    assert_eq!(back.current_id, 1);
    assert_eq!(back.channels.len(), 2);
    assert_eq!(back.channels[0].name, b"lobby".to_vec());
    assert_eq!(back.channels[0].chan_id, 1);
    assert_eq!(back.channels[0].unmasked, 2);
    assert_eq!(back.channels[0].members.len(), 2);
    assert_eq!(back.channels[0].members[0].mask, b"alice".to_vec());
    assert!(!back.channels[0].members[0].muted);
    assert!(back.channels[0].members[1].muted);
    assert!(back.channels[0].members[1].deafened);
    assert_eq!(back.channels[1].chan_id, 9);
    assert_eq!(back.channels[1].members.len(), 0);
    // Trailing garbage is refused.
    let mut longer = packet.clone();
    longer.push(0);
    assert!(decode_list_reply(&longer).is_none());
}

#[test]
fn sync_reply_round_trip() {
    let cmds = vec![SyncedCommand {
        name: b"/test".to_vec(),
        description: b"Test command".to_vec(),
        usage: b"/test <args>".to_vec(),
        category: CommandCategory::Fun,
        requires_auth: true,
        admin_only: false,
        aliases: vec![b"/".to_vec()],
    }];
    let packet = encode_sync_reply(&cmds);
    assert_eq!(packet[0], 0x0c);
    let back = decode_sync_reply(&packet).expect("round trip");
    assert_eq!(back.len(), 1);
    assert_eq!(back[0].name, b"/test".to_vec());
    assert_eq!(back[0].description, b"Test command".to_vec());
    assert_eq!(back[0].usage, b"/test <args>".to_vec());
    assert!(back[0].requires_auth);
    assert!(!back[0].admin_only);
    assert_eq!(back[0].aliases, vec![b"/".to_vec()]);
    // A bad category byte is refused.
    let mut bad = packet.clone();
    let cat_pos = 3 + 1 + 5 + 1 + 12 + 1 + 12;
    bad[cat_pos] = 9;
    assert!(decode_sync_reply(&bad).is_none());
}
