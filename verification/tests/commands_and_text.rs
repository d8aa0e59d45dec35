use voudp::commands::{
    gate_command, tokenize, CommandCategory, CommandResult, CommandSystem, ServerCommand,
};
use voudp::console_cmd::{handle_command, parse_u32, ConsoleCommandResult};
use voudp::parse::{classify_server_packet, parse_chat_message, parse_control_packet,
    parse_msg_packet, parse_system_message, ChannelList, ClientEvent};
use voudp::protocol::{encode_chat_forward, ControlRequest};
use voudp::server::{ServerConfig, ServerState};

#[test]
fn registry_lookup_and_aliases() {
    let system = CommandSystem::new();
    let cmd = system.get_command("/test").expect("registered");
    assert_eq!(cmd.name, "/test");
    assert_eq!(cmd.description, "Test command");
    assert!(cmd.requires_auth);
    assert!(!cmd.admin_only);
    // The alias resolves to the same command.
    let via_alias = system.get_command("/").expect("aliased");
    assert_eq!(via_alias.name, "/test");
    assert!(system.get_command("/nope").is_none());
}

#[test]
fn register_replaces_by_name() {
    let mut system = CommandSystem::new();
    system.register_command(ServerCommand {
        name: String::from("/test"),
        description: String::from("Replaced"),
        usage: String::from("/test"),
        category: CommandCategory::Utility,
        aliases: Vec::new(),
        requires_auth: false,
        admin_only: true,
    });
    assert_eq!(system.commands.len(), 1);
    let cmd = system.get_command("/test").expect("still registered");
    assert_eq!(cmd.description, "Replaced");
    assert!(cmd.admin_only);
    let visible = system.get_commands_for_user(false);
    assert!(visible.is_empty());
    let visible = system.get_commands_for_user(true);
    assert_eq!(visible.len(), 1);
    assert_eq!(system.get_all_commands().len(), 1);
}

#[test]
fn parse_command_splits_on_whitespace() {
    let system = CommandSystem::new();
    let (cmd, args) = system.parse_command("/test one  two\tthree").expect("parses");
    assert_eq!(cmd.name, "/test");
    assert_eq!(args, vec!["one".to_owned(), "two".to_owned(), "three".to_owned()]);
    let (_, args) = system.parse_command("  /test  ").expect("parses after trim");
    assert!(args.is_empty());
    assert!(system.parse_command("hello").is_none());
    assert!(system.parse_command("").is_none());
    assert!(system.parse_command("/unknown arg").is_none());
}

#[test]
fn tokenizer_keeps_token_order() {
    let toks = tokenize(b"  a bb  ccc ");
    assert_eq!(toks, vec![b"a".to_vec(), b"bb".to_vec(), b"ccc".to_vec()]);
    assert!(tokenize(b"   ").is_empty());
    assert!(tokenize(b"").is_empty());
}

#[test]
fn gating_checks_mask_and_admin() {
    let auth_cmd = ServerCommand {
        name: String::from("/me"),
        description: String::new(),
        usage: String::new(),
        category: CommandCategory::Chat,
        aliases: Vec::new(),
        requires_auth: true,
        admin_only: false,
    };
    assert!(matches!(gate_command(&auth_cmd, false, false), Some(CommandResult::Error(_))));
    assert!(gate_command(&auth_cmd, true, false).is_none());
    let admin_cmd = ServerCommand {
        name: String::from("/kick"),
        description: String::new(),
        usage: String::new(),
        category: CommandCategory::Admin,
        aliases: Vec::new(),
        requires_auth: true,
        admin_only: true,
    };
    assert!(matches!(gate_command(&admin_cmd, true, false), Some(CommandResult::Error(_))));
    assert!(gate_command(&admin_cmd, true, true).is_none());
}

#[test]
fn decimal_parsing() {
    assert_eq!(parse_u32(b"0"), Some(0));
    assert_eq!(parse_u32(b"37549"), Some(37549));
    assert_eq!(parse_u32(b"4294967295"), Some(u32::MAX));
    assert_eq!(parse_u32(b"4294967296"), None);
    assert_eq!(parse_u32(b""), None);
    assert_eq!(parse_u32(b"12a"), None);
    assert_eq!(parse_u32(b"-3"), None);
}

#[test]
fn console_commands_manage_channels() {
    let mut s = ServerState::new(ServerConfig::default(), b"password".to_vec());
    let reply = |r: ConsoleCommandResult| -> String {
        let ConsoleCommandResult::Reply(text) = r;
        text
    };
    assert_eq!(reply(handle_command("ping", &Vec::new(), &mut s)), "pong");
    let parts = vec!["create".to_owned(), "music".to_owned()];
    assert_eq!(reply(handle_command("create", &parts, &mut s)), "channel created");
    assert_eq!(s.channels.len(), 2);
    assert_eq!(s.channels[1].name, Some(b"music".to_vec()));
    let parts = vec!["rename".to_owned(), "music".to_owned(), "jazz".to_owned()];
    assert_eq!(reply(handle_command("rename", &parts, &mut s)), "channel renamed");
    assert_eq!(s.channels[1].name, Some(b"jazz".to_vec()));
    // The default channel can never be deleted.
    let parts = vec!["del".to_owned(), "1".to_owned()];
    assert_eq!(
        reply(handle_command("del", &parts, &mut s)),
        "cannot delete the default channel"
    );
    // A channel that still has members is refused.
    s.join(voudp::link::Endpoint { ip: 1, port: 1 }, s.channels[1].id, 0);
    let parts = vec!["del".to_owned(), "jazz".to_owned()];
    assert_eq!(reply(handle_command("del", &parts, &mut s)), "channel still has members");
    s.handle_eof(voudp::link::Endpoint { ip: 1, port: 1 });
    let parts = vec!["del".to_owned(), "jazz".to_owned()];
    assert_eq!(reply(handle_command("del", &parts, &mut s)), "channel deleted");
    assert_eq!(s.channels.len(), 1);
    let parts = vec!["del".to_owned(), "jazz".to_owned()];
    assert_eq!(reply(handle_command("del", &parts, &mut s)), "channel not found");
    assert_eq!(
        reply(handle_command("bogus", &Vec::new(), &mut s)),
        "unknown command. read the manual on executing remote commands"
    );
}

#[test]
fn chat_forward_parses_to_text() {
    let packet = encode_chat_forward(b"carol", true, b"hi2");
    let (username, message, is_self) = parse_msg_packet(&packet).expect("well-formed");
    assert_eq!(username, "carol");
    assert_eq!(message, "hi2");
    assert!(is_self);
    assert!(parse_msg_packet(&[0x05, 1, 2]).is_err());
    assert!(parse_msg_packet(&[0x06, b'a', b'b']).is_err());
}

#[test]
fn control_bodies_parse() {
    assert_eq!(parse_control_packet(&[0x01]), Ok(ControlRequest::SetDeafen));
    assert_eq!(parse_control_packet(&[0x02]), Ok(ControlRequest::SetUndeafen));
    assert_eq!(parse_control_packet(&[0x03]), Ok(ControlRequest::SetMute));
    assert_eq!(parse_control_packet(&[0x04]), Ok(ControlRequest::SetUnmute));
    assert_eq!(parse_control_packet(&[0x05, 128]), Ok(ControlRequest::SetVolume(128)));
    assert!(parse_control_packet(&[]).is_err());
    assert!(parse_control_packet(&[0x09]).is_err());
    assert!(parse_control_packet(&[0x01, 0x02]).is_err());
}

#[test]
fn chat_and_system_lines_split() {
    let parsed = parse_chat_message("[#2] carol: hello there").expect("chat shape");
    assert_eq!(parsed.0, "2");
    assert_eq!(parsed.1, "carol");
    assert_eq!(parsed.2, "hello there");
    assert!(parse_chat_message("no brackets").is_none());
    assert!(parse_chat_message("[#2] no colon").is_none());

    let parsed = parse_system_message("[server] going down").expect("system shape");
    assert_eq!(parsed.0, "server");
    assert_eq!(parsed.1, "going down");
    assert!(parse_system_message("plain").is_none());
}

#[test]
fn channel_list_defaults_empty() {
    let list = ChannelList::default();
    assert_eq!(list.unmasked, 0);
    assert!(list.masked.is_empty());
}

#[test]
fn client_loop_classifies_payloads() {
    match classify_server_packet(&[0x02, 1, 2, 3]) {
        ClientEvent::Audio(frame) => assert_eq!(frame, vec![1, 2, 3]),
        _ => panic!("expected audio"),
    }
    let forward = encode_chat_forward(b"bob", false, b"yo");
    match classify_server_packet(&forward) {
        ClientEvent::Message(username, message, is_self) => {
            assert_eq!(username, "bob");
            assert_eq!(message, "yo");
            assert!(!is_self);
        }
        _ => panic!("expected a message"),
    }
    assert!(matches!(classify_server_packet(&[0x99, 0]), ClientEvent::Ignored));
    assert!(matches!(classify_server_packet(&[]), ClientEvent::Ignored));
}
