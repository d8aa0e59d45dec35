//! Typed packet framing: every application message is a plaintext datagram
//! whose first byte is a type tag and whose remaining bytes are type-specific.
//! Each message has one canonical encoder and one canonical decoder, and the
//! decoder inverts the encoder on every well-formed value.

use vstd::prelude::*;

use crate::bytes::{
    copy_range, find_byte, lemma_find_byte, lemma_u32_be_round_trip, push_u32_be, read_u32_be,
    spec_find_byte, spec_u32_be, spec_u32_from_be,
};

verus! {

/// Shared key-derivation salt for the transport.
pub const VOUDP_SALT: [u8; 5] = [0x76, 0x6f, 0x75, 0x64, 0x70];

/// First plaintext byte of a reliable-wrapped payload.
pub const RELIABLE_FLAG: u8 = 0x80;

/// First plaintext byte of an acknowledgement.
pub const ACK_FLAG: u8 = 0x81;

pub const TAG_JOIN: u8 = 0x01;

pub const TAG_AUDIO: u8 = 0x02;

pub const TAG_EOF: u8 = 0x03;

pub const TAG_MASK: u8 = 0x04;

pub const TAG_LIST: u8 = 0x05;

pub const TAG_CHAT: u8 = 0x06;

pub const TAG_UNAUTH_CHAT: u8 = 0x07;

pub const TAG_CTRL: u8 = 0x08;

pub const TAG_FLOW_JOIN: u8 = 0x0a;

pub const TAG_FLOW_LEAVE: u8 = 0x0b;

pub const TAG_SYNC_COMMANDS: u8 = 0x0c;

pub const TAG_CMD: u8 = 0x0d;

pub const TAG_CMD_SUCCESS: u8 = 0x0e;

pub const TAG_CMD_ERROR: u8 = 0x0f;

pub const TAG_FLOW_RENICK: u8 = 0x10;

pub const TAG_DM: u8 = 0x11;

pub const TAG_REGISTER_CONSOLE: u8 = 0xff;

/// Message kinds a voice peer can exchange with the server.
#[derive(Clone, Copy, PartialEq, Eq, Structural, Debug)]
pub enum ClientPacketType {
    Join,
    Audio,
    Eof,
    Mask,
    List,
    Chat,
    Ctrl,
    FlowJoin,
    FlowLeave,
    SyncCommands,
    Cmd,
    CommandResponse,
    CmdError,
    FlowRenick,
    Dm,
    RegisterConsole,
}

/// Message kinds an administrative console can exchange with the server.
#[derive(Clone, Copy, PartialEq, Eq, Structural, Debug)]
pub enum ConsolePacketType {
    Cmd,
    Eof,
    Keepalive,
}

/// A peer's request to change its own mute or deafen state, or a member's
/// playback volume.
#[derive(Clone, Copy, PartialEq, Eq, Structural, Debug)]
pub enum ControlRequest {
    SetDeafen,
    SetUndeafen,
    SetMute,
    SetUnmute,
    SetVolume(u8),
}

impl ClientPacketType {
    /// The on-wire tag of this packet type.
    pub open spec fn tag(self) -> u8 {
        match self {
            ClientPacketType::Join => TAG_JOIN,
            ClientPacketType::Audio => TAG_AUDIO,
            ClientPacketType::Eof => TAG_EOF,
            ClientPacketType::Mask => TAG_MASK,
            ClientPacketType::List => TAG_LIST,
            ClientPacketType::Chat => TAG_CHAT,
            ClientPacketType::Ctrl => TAG_CTRL,
            ClientPacketType::FlowJoin => TAG_FLOW_JOIN,
            ClientPacketType::FlowLeave => TAG_FLOW_LEAVE,
            ClientPacketType::SyncCommands => TAG_SYNC_COMMANDS,
            ClientPacketType::Cmd => TAG_CMD,
            ClientPacketType::CommandResponse => TAG_CMD_SUCCESS,
            ClientPacketType::CmdError => TAG_CMD_ERROR,
            ClientPacketType::FlowRenick => TAG_FLOW_RENICK,
            ClientPacketType::Dm => TAG_DM,
            ClientPacketType::RegisterConsole => TAG_REGISTER_CONSOLE,
        }
    }

    /// The packet type a tag byte names, if any.
    pub open spec fn spec_try_from(value: u8) -> Option<ClientPacketType> {
        if value == TAG_JOIN {
            Some(ClientPacketType::Join)
        } else if value == TAG_AUDIO {
            Some(ClientPacketType::Audio)
        } else if value == TAG_EOF {
            Some(ClientPacketType::Eof)
        } else if value == TAG_MASK {
            Some(ClientPacketType::Mask)
        } else if value == TAG_LIST {
            Some(ClientPacketType::List)
        } else if value == TAG_CHAT {
            Some(ClientPacketType::Chat)
        } else if value == TAG_CTRL {
            Some(ClientPacketType::Ctrl)
        } else if value == TAG_FLOW_JOIN {
            Some(ClientPacketType::FlowJoin)
        } else if value == TAG_FLOW_LEAVE {
            Some(ClientPacketType::FlowLeave)
        } else if value == TAG_SYNC_COMMANDS {
            Some(ClientPacketType::SyncCommands)
        } else if value == TAG_CMD {
            Some(ClientPacketType::Cmd)
        } else if value == TAG_CMD_SUCCESS {
            Some(ClientPacketType::CommandResponse)
        } else if value == TAG_CMD_ERROR {
            Some(ClientPacketType::CmdError)
        } else if value == TAG_FLOW_RENICK {
            Some(ClientPacketType::FlowRenick)
        } else if value == TAG_DM {
            Some(ClientPacketType::Dm)
        } else if value == TAG_REGISTER_CONSOLE {
            Some(ClientPacketType::RegisterConsole)
        } else {
            None
        }
    }

    /// Maps a tag byte to its packet type; unknown tags come back unchanged
    /// as the error.
    pub fn try_from(value: u8) -> (r: Result<ClientPacketType, u8>)
        ensures
            match r {
                Ok(t) => Self::spec_try_from(value) == Some(t) && t.tag() == value,
                Err(e) => e == value && Self::spec_try_from(value) is None,
            },
    {
        if value == TAG_JOIN {
            Ok(ClientPacketType::Join)
        } else if value == TAG_AUDIO {
            Ok(ClientPacketType::Audio)
        } else if value == TAG_EOF {
            Ok(ClientPacketType::Eof)
        } else if value == TAG_MASK {
            Ok(ClientPacketType::Mask)
        } else if value == TAG_LIST {
            Ok(ClientPacketType::List)
        } else if value == TAG_CHAT {
            Ok(ClientPacketType::Chat)
        } else if value == TAG_CTRL {
            Ok(ClientPacketType::Ctrl)
        } else if value == TAG_FLOW_JOIN {
            Ok(ClientPacketType::FlowJoin)
        } else if value == TAG_FLOW_LEAVE {
            Ok(ClientPacketType::FlowLeave)
        } else if value == TAG_SYNC_COMMANDS {
            Ok(ClientPacketType::SyncCommands)
        } else if value == TAG_CMD {
            Ok(ClientPacketType::Cmd)
        } else if value == TAG_CMD_SUCCESS {
            Ok(ClientPacketType::CommandResponse)
        } else if value == TAG_CMD_ERROR {
            Ok(ClientPacketType::CmdError)
        } else if value == TAG_FLOW_RENICK {
            Ok(ClientPacketType::FlowRenick)
        } else if value == TAG_DM {
            Ok(ClientPacketType::Dm)
        } else if value == TAG_REGISTER_CONSOLE {
            Ok(ClientPacketType::RegisterConsole)
        } else {
            Err(value)
        }
    }

    /// Tag bytes round-trip through the packet type they name.
    pub proof fn lemma_tag_round_trip(t: ClientPacketType)
        ensures
            Self::spec_try_from(t.tag()) == Some(t),
    {
    }

    /// Whether this packet type travels on the reliable sub-channel: command
    /// success and error replies, presence flows, direct messages and chat
    /// forwards do; audio and list traffic stays best-effort.
    pub fn is_reliable(&self) -> (r: bool)
        ensures
            r == self.spec_is_reliable(),
    {
        match self {
            ClientPacketType::Chat => true,
            ClientPacketType::FlowJoin => true,
            ClientPacketType::FlowLeave => true,
            ClientPacketType::FlowRenick => true,
            ClientPacketType::CommandResponse => true,
            ClientPacketType::CmdError => true,
            ClientPacketType::Dm => true,
            _ => false,
        }
    }

    pub open spec fn spec_is_reliable(self) -> bool {
        match self {
            ClientPacketType::Chat => true,
            ClientPacketType::FlowJoin => true,
            ClientPacketType::FlowLeave => true,
            ClientPacketType::FlowRenick => true,
            ClientPacketType::CommandResponse => true,
            ClientPacketType::CmdError => true,
            ClientPacketType::Dm => true,
            _ => false,
        }
    }
}

impl ConsolePacketType {
    pub open spec fn tag(self) -> u8 {
        match self {
            ConsolePacketType::Cmd => TAG_CMD,
            ConsolePacketType::Eof => TAG_EOF,
            ConsolePacketType::Keepalive => TAG_MASK,
        }
    }

    pub open spec fn spec_try_from(value: u8) -> Option<ConsolePacketType> {
        if value == TAG_EOF {
            Some(ConsolePacketType::Eof)
        } else if value == TAG_MASK {
            Some(ConsolePacketType::Keepalive)
        } else if value == TAG_CMD {
            Some(ConsolePacketType::Cmd)
        } else {
            None
        }
    }

    /// Maps a tag byte to its console packet type; unknown tags come back
    /// unchanged as the error.
    pub fn try_from(value: u8) -> (r: Result<ConsolePacketType, u8>)
        ensures
            match r {
                Ok(t) => Self::spec_try_from(value) == Some(t) && t.tag() == value,
                Err(e) => e == value && Self::spec_try_from(value) is None,
            },
    {
        if value == TAG_EOF {
            Ok(ConsolePacketType::Eof)
        } else if value == TAG_MASK {
            Ok(ConsolePacketType::Keepalive)
        } else if value == TAG_CMD {
            Ok(ConsolePacketType::Cmd)
        } else {
            Err(value)
        }
    }
}

impl ControlRequest {
    /// Body bytes of this request, tag excluded.
    pub open spec fn spec_body(self) -> Seq<u8> {
        match self {
            ControlRequest::SetDeafen => seq![0x01u8],
            ControlRequest::SetUndeafen => seq![0x02u8],
            ControlRequest::SetMute => seq![0x03u8],
            ControlRequest::SetUnmute => seq![0x04u8],
            ControlRequest::SetVolume(v) => seq![0x05u8, v],
        }
    }
}

/// The control request encoded in a CTRL body, if the body is well-formed.
pub open spec fn spec_parse_control(data: Seq<u8>) -> Option<ControlRequest> {
    if data.len() == 1 && data[0] == 0x01 {
        Some(ControlRequest::SetDeafen)
    } else if data.len() == 1 && data[0] == 0x02 {
        Some(ControlRequest::SetUndeafen)
    } else if data.len() == 1 && data[0] == 0x03 {
        Some(ControlRequest::SetMute)
    } else if data.len() == 1 && data[0] == 0x04 {
        Some(ControlRequest::SetUnmute)
    } else if data.len() == 2 && data[0] == 0x05 {
        Some(ControlRequest::SetVolume(data[1]))
    } else {
        None
    }
}

/// Every control request decodes back from its own body bytes.
pub proof fn lemma_control_round_trip(req: ControlRequest)
    ensures
        spec_parse_control(req.spec_body()) == Some(req),
{
}

/// Serialization into a standalone wire packet.
pub trait PacketSerializer {
    /// The bytes this value serializes to.
    spec fn spec_bytes_of(&self) -> Seq<u8>;

    fn to_bytes(&self) -> (r: Vec<u8>)
        ensures
            r@ == self.spec_bytes_of(),
    ;
}

impl PacketSerializer for ClientPacketType {
    open spec fn spec_bytes_of(&self) -> Seq<u8> {
        seq![self.tag()]
    }

    fn to_bytes(&self) -> (r: Vec<u8>)
        ensures
            r@ == self.spec_bytes_of(),
    {
        let tag: u8 = match self {
            ClientPacketType::Join => TAG_JOIN,
            ClientPacketType::Audio => TAG_AUDIO,
            ClientPacketType::Eof => TAG_EOF,
            ClientPacketType::Mask => TAG_MASK,
            ClientPacketType::List => TAG_LIST,
            ClientPacketType::Chat => TAG_CHAT,
            ClientPacketType::Ctrl => TAG_CTRL,
            ClientPacketType::FlowJoin => TAG_FLOW_JOIN,
            ClientPacketType::FlowLeave => TAG_FLOW_LEAVE,
            ClientPacketType::SyncCommands => TAG_SYNC_COMMANDS,
            ClientPacketType::Cmd => TAG_CMD,
            ClientPacketType::CommandResponse => TAG_CMD_SUCCESS,
            ClientPacketType::CmdError => TAG_CMD_ERROR,
            ClientPacketType::FlowRenick => TAG_FLOW_RENICK,
            ClientPacketType::Dm => TAG_DM,
            ClientPacketType::RegisterConsole => TAG_REGISTER_CONSOLE,
        };
        let mut out: Vec<u8> = Vec::new();
        out.push(tag);
        assert(out@ =~= seq![self.tag()]);
        out
    }
}

/// A packet made of a tag byte followed by a raw body.
pub open spec fn spec_tagged(tag: u8, body: Seq<u8>) -> Seq<u8> {
    seq![tag] + body
}

/// The body behind `tag`, if the packet starts with that tag.
pub open spec fn spec_body_after_tag(tag: u8, packet: Seq<u8>) -> Option<Seq<u8>> {
    if packet.len() >= 1 && packet[0] == tag {
        Some(packet.subrange(1, packet.len() as int))
    } else {
        None
    }
}

/// A tagged packet always yields back exactly its body.
pub proof fn lemma_tagged_round_trip(tag: u8, body: Seq<u8>)
    ensures
        spec_body_after_tag(tag, spec_tagged(tag, body)) == Some(body),
{
    assert(spec_tagged(tag, body).subrange(1, spec_tagged(tag, body).len() as int) =~= body);
}

/// Builds `[tag] ++ body`.
pub fn encode_tagged(tag: u8, body: &[u8]) -> (r: Vec<u8>)
    ensures
        r@ == spec_tagged(tag, body@),
{
    let mut out: Vec<u8> = Vec::new();
    out.push(tag);
    out.extend_from_slice(body);
    assert(out@ =~= spec_tagged(tag, body@));
    out
}

/// Returns the body of `packet` when its first byte is `tag`.
pub fn decode_tagged(tag: u8, packet: &[u8]) -> (r: Option<Vec<u8>>)
    ensures
        match r {
            Some(body) => spec_body_after_tag(tag, packet@) == Some(body@),
            None => spec_body_after_tag(tag, packet@) is None,
        },
{
    if packet.len() >= 1 && packet[0] == tag {
        Some(copy_range(packet, 1, packet.len()))
    } else {
        None
    }
}

/// AUDIO packet: tag then a raw Opus frame.
pub fn create_audio_packet(opus_data: &[u8]) -> (r: Vec<u8>)
    ensures
        r@ == spec_tagged(TAG_AUDIO, opus_data@),
{
    encode_tagged(TAG_AUDIO, opus_data)
}

/// LIST request: the bare tag.
pub fn create_list_request() -> (r: Vec<u8>)
    ensures
        r@ == seq![TAG_LIST],
{
    let mut out: Vec<u8> = Vec::new();
    out.push(TAG_LIST);
    assert(out@ =~= seq![TAG_LIST]);
    out
}

/// SYNC_COMMANDS request: the bare tag.
pub fn create_sync_commands_request() -> (r: Vec<u8>)
    ensures
        r@ == seq![TAG_SYNC_COMMANDS],
{
    let mut out: Vec<u8> = Vec::new();
    out.push(TAG_SYNC_COMMANDS);
    assert(out@ =~= seq![TAG_SYNC_COMMANDS]);
    out
}

/// Whether a packet type is an asynchronous presence or direct-message flow.
pub fn is_flow_packet(packet_type: ClientPacketType) -> (r: bool)
    ensures
        r == (packet_type == ClientPacketType::FlowJoin || packet_type
            == ClientPacketType::FlowLeave || packet_type == ClientPacketType::FlowRenick
            || packet_type == ClientPacketType::Dm),
{
    match packet_type {
        ClientPacketType::FlowJoin => true,
        ClientPacketType::FlowLeave => true,
        ClientPacketType::FlowRenick => true,
        ClientPacketType::Dm => true,
        _ => false,
    }
}

/// Whether a packet type may only travel from a client to the server.
pub fn is_client_to_server_only(packet_type: ClientPacketType) -> (r: bool)
    ensures
        r == (packet_type == ClientPacketType::Join || packet_type == ClientPacketType::Mask
            || packet_type == ClientPacketType::Ctrl || packet_type
            == ClientPacketType::RegisterConsole),
{
    match packet_type {
        ClientPacketType::Join => true,
        ClientPacketType::Mask => true,
        ClientPacketType::Ctrl => true,
        ClientPacketType::RegisterConsole => true,
        _ => false,
    }
}

/// Peers speaking this protocol revision are ready for audio as soon as they
/// have joined; the probe kept for older clients always affirms.
pub fn is_client_ready() -> (r: bool)
    ensures
        r,
{
    true
}

/// JOIN packet bytes for a channel id.
pub open spec fn spec_encode_join(channel_id: u32) -> Seq<u8> {
    seq![TAG_JOIN] + spec_u32_be(channel_id)
}

/// The channel id of a well-formed JOIN packet.
pub open spec fn spec_decode_join(packet: Seq<u8>) -> Option<u32> {
    if packet.len() == 5 && packet[0] == TAG_JOIN {
        Some(spec_u32_from_be(packet[1], packet[2], packet[3], packet[4]))
    } else {
        None
    }
}

/// JOIN packets round-trip.
pub proof fn lemma_join_round_trip(channel_id: u32)
    ensures
        spec_decode_join(spec_encode_join(channel_id)) == Some(channel_id),
{
    lemma_u32_be_round_trip(channel_id);
}

pub fn encode_join(channel_id: u32) -> (r: Vec<u8>)
    ensures
        r@ == spec_encode_join(channel_id),
{
    let mut out: Vec<u8> = Vec::new();
    out.push(TAG_JOIN);
    push_u32_be(&mut out, channel_id);
    assert(out@ =~= spec_encode_join(channel_id));
    out
}

pub fn decode_join(packet: &[u8]) -> (r: Option<u32>)
    ensures
        r == spec_decode_join(packet@),
{
    if packet.len() == 5 && packet[0] == TAG_JOIN {
        Some(read_u32_be(packet, 1))
    } else {
        None
    }
}

/// CHAT forward from the server: sender mask, a 0x01 separator, an is-self
/// marker byte, then the message.
pub open spec fn spec_encode_chat_forward(sender: Seq<u8>, is_self: bool, msg: Seq<u8>) -> Seq<
    u8,
> {
    seq![TAG_CHAT] + sender + seq![0x01u8, (if is_self { 1u8 } else { 0u8 })] + msg
}

/// A sender mask fit for a chat forward: nonempty and free of the separator.
pub open spec fn valid_sender_mask(sender: Seq<u8>) -> bool {
    &&& sender.len() >= 1
    &&& forall|i: int| 0 <= i < sender.len() ==> sender[i] != 0x01u8
}

/// Fields of a well-formed chat forward: the sender runs to the first 0x01,
/// the next byte marks whether the recipient is the sender, the rest is the
/// message.
pub open spec fn spec_decode_chat_forward(packet: Seq<u8>) -> Option<(Seq<u8>, bool, Seq<u8>)> {
    if packet.len() >= 1 && packet[0] == TAG_CHAT {
        match spec_find_byte(packet, 0x01u8, 1) {
            Some(sep) => {
                if sep > 1 && sep + 1 < packet.len() {
                    Some(
                        (
                            packet.subrange(1, sep),
                            packet[sep + 1] != 0u8,
                            packet.subrange(sep + 2, packet.len() as int),
                        ),
                    )
                } else {
                    None
                }
            },
            None => None,
        }
    } else {
        None
    }
}

pub fn encode_chat_forward(sender: &[u8], is_self: bool, msg: &[u8]) -> (r: Vec<u8>)
    ensures
        r@ == spec_encode_chat_forward(sender@, is_self, msg@),
{
    let mut out: Vec<u8> = Vec::new();
    out.push(TAG_CHAT);
    out.extend_from_slice(sender);
    out.push(0x01);
    out.push(if is_self {
        1
    } else {
        0
    });
    out.extend_from_slice(msg);
    assert(out@ =~= spec_encode_chat_forward(sender@, is_self, msg@));
    out
}

pub fn decode_chat_forward(packet: &[u8]) -> (r: Option<(Vec<u8>, bool, Vec<u8>)>)
    ensures
        match r {
            Some((sender, is_self, msg)) => spec_decode_chat_forward(packet@) == Some(
                (sender@, is_self, msg@),
            ),
            None => spec_decode_chat_forward(packet@) is None,
        },
{
    if packet.len() >= 1 && packet[0] == TAG_CHAT {
        match find_byte(packet, 0x01, 1) {
            Some(sep) => {
                if sep > 1 && sep + 1 < packet.len() {
                    let sender = copy_range(packet, 1, sep);
                    let is_self = packet[sep + 1] != 0;
                    let msg = copy_range(packet, sep + 2, packet.len());
                    Some((sender, is_self, msg))
                } else {
                    None
                }
            },
            None => None,
        }
    } else {
        None
    }
}

/// Chat forwards round-trip for every valid sender mask.
pub proof fn lemma_chat_forward_round_trip(sender: Seq<u8>, is_self: bool, msg: Seq<u8>)
    requires
        valid_sender_mask(sender),
    ensures
        spec_decode_chat_forward(spec_encode_chat_forward(sender, is_self, msg)) == Some(
            (sender, is_self, msg),
        ),
{
    let p = spec_encode_chat_forward(sender, is_self, msg);
    let sep = 1 + sender.len() as int;
    assert(p[sep] == 0x01u8);
    lemma_find_byte(p, 0x01u8, 1);
    match spec_find_byte(p, 0x01u8, 1) {
        Some(i) => {
            assert(forall|j: int| 1 <= j < sep ==> p[j] == sender[j - 1] && p[j] != 0x01u8);
            assert(i == sep);
            assert(p.subrange(1, sep) =~= sender);
            assert(p[sep + 1] == (if is_self { 1u8 } else { 0u8 }));
            assert(p.subrange(sep + 2, p.len() as int) =~= msg);
        },
        None => {
            assert(false);
        },
    }
}

/// FLOW_RENICK: one-byte-length-prefixed old and new masks.
pub open spec fn spec_encode_renick(old_mask: Seq<u8>, new_mask: Seq<u8>) -> Seq<u8> {
    seq![TAG_FLOW_RENICK, old_mask.len() as u8] + old_mask + seq![new_mask.len() as u8]
        + new_mask
}

/// The old and new masks of a well-formed FLOW_RENICK packet.
pub open spec fn spec_decode_renick(packet: Seq<u8>) -> Option<(Seq<u8>, Seq<u8>)> {
    if packet.len() >= 2 && packet[0] == TAG_FLOW_RENICK {
        let old_len = packet[1] as int;
        if packet.len() >= 3 + old_len {
            let new_len = packet[2 + old_len] as int;
            if packet.len() == 3 + old_len + new_len {
                Some(
                    (
                        packet.subrange(2, 2 + old_len),
                        packet.subrange(3 + old_len, 3 + old_len + new_len),
                    ),
                )
            } else {
                None
            }
        } else {
            None
        }
    } else {
        None
    }
}

pub fn encode_renick(old_mask: &[u8], new_mask: &[u8]) -> (r: Vec<u8>)
    requires
        old_mask@.len() <= 255,
        new_mask@.len() <= 255,
    ensures
        r@ == spec_encode_renick(old_mask@, new_mask@),
{
    let mut out: Vec<u8> = Vec::new();
    out.push(TAG_FLOW_RENICK);
    out.push(old_mask.len() as u8);
    out.extend_from_slice(old_mask);
    out.push(new_mask.len() as u8);
    out.extend_from_slice(new_mask);
    assert(out@ =~= spec_encode_renick(old_mask@, new_mask@));
    out
}

pub fn decode_renick(packet: &[u8]) -> (r: Option<(Vec<u8>, Vec<u8>)>)
    ensures
        match r {
            Some((old_mask, new_mask)) => spec_decode_renick(packet@) == Some(
                (old_mask@, new_mask@),
            ),
            None => spec_decode_renick(packet@) is None,
        },
{
    if packet.len() >= 2 && packet[0] == TAG_FLOW_RENICK {
        let old_len = packet[1] as usize;
        if packet.len() >= 3 + old_len {
            let new_len = packet[2 + old_len] as usize;
            if packet.len() == 3 + old_len + new_len {
                let old_mask = copy_range(packet, 2, 2 + old_len);
                let new_mask = copy_range(packet, 3 + old_len, 3 + old_len + new_len);
                return Some((old_mask, new_mask));
            }
        }
        None
    } else {
        None
    }
}

/// FLOW_RENICK packets round-trip whenever both masks fit their length bytes.
pub proof fn lemma_renick_round_trip(old_mask: Seq<u8>, new_mask: Seq<u8>)
    requires
        old_mask.len() <= 255,
        new_mask.len() <= 255,
    ensures
        spec_decode_renick(spec_encode_renick(old_mask, new_mask)) == Some(
            (old_mask, new_mask),
        ),
{
    let p = spec_encode_renick(old_mask, new_mask);
    let old_len = old_mask.len() as int;
    let new_len = new_mask.len() as int;
    assert(p.len() == 3 + old_len + new_len);
    assert(p[1] == old_mask.len() as u8);
    assert(p[2 + old_len] == new_mask.len() as u8);
    assert(p.subrange(2, 2 + old_len) =~= old_mask);
    assert(p.subrange(3 + old_len, 3 + old_len + new_len) =~= new_mask);
}

/// CTRL packet bytes for a control request.
pub open spec fn spec_encode_ctrl(req: ControlRequest) -> Seq<u8> {
    seq![TAG_CTRL] + req.spec_body()
}

/// The request of a well-formed CTRL packet.
pub open spec fn spec_decode_ctrl(packet: Seq<u8>) -> Option<ControlRequest> {
    if packet.len() >= 1 && packet[0] == TAG_CTRL {
        spec_parse_control(packet.subrange(1, packet.len() as int))
    } else {
        None
    }
}

pub fn encode_ctrl(req: ControlRequest) -> (r: Vec<u8>)
    ensures
        r@ == spec_encode_ctrl(req),
{
    let mut out: Vec<u8> = Vec::new();
    out.push(TAG_CTRL);
    match req {
        ControlRequest::SetDeafen => out.push(0x01),
        ControlRequest::SetUndeafen => out.push(0x02),
        ControlRequest::SetMute => out.push(0x03),
        ControlRequest::SetUnmute => out.push(0x04),
        ControlRequest::SetVolume(v) => {
            out.push(0x05);
            out.push(v);
        },
    }
    assert(out@ =~= spec_encode_ctrl(req));
    out
}

/// CTRL packets round-trip for every control request.
pub proof fn lemma_ctrl_round_trip(req: ControlRequest)
    ensures
        spec_decode_ctrl(spec_encode_ctrl(req)) == Some(req),
{
    let p = spec_encode_ctrl(req);
    assert(p.subrange(1, p.len() as int) =~= req.spec_body());
}

/// Reliable wrap: flag byte, big-endian sequence number, then the payload.
pub open spec fn spec_encode_reliable_wrap(sequence: u32, inner: Seq<u8>) -> Seq<u8> {
    seq![RELIABLE_FLAG] + spec_u32_be(sequence) + inner
}

/// Acknowledgement: flag byte then the big-endian sequence number.
pub open spec fn spec_encode_ack(sequence: u32) -> Seq<u8> {
    seq![ACK_FLAG] + spec_u32_be(sequence)
}

pub fn encode_reliable_wrap(sequence: u32, inner: &[u8]) -> (r: Vec<u8>)
    requires
        inner@.len() >= 1,
    ensures
        r@ == spec_encode_reliable_wrap(sequence, inner@),
{
    let mut out: Vec<u8> = Vec::new();
    out.push(RELIABLE_FLAG);
    push_u32_be(&mut out, sequence);
    out.extend_from_slice(inner);
    assert(out@ =~= spec_encode_reliable_wrap(sequence, inner@));
    out
}

pub fn encode_ack(sequence: u32) -> (r: Vec<u8>)
    ensures
        r@ == spec_encode_ack(sequence),
{
    let mut out: Vec<u8> = Vec::new();
    out.push(ACK_FLAG);
    push_u32_be(&mut out, sequence);
    assert(out@ =~= spec_encode_ack(sequence));
    out
}

/// How the reliable sub-channel reads one decrypted plaintext.
pub enum PlainClass {
    /// An acknowledgement for an outstanding reliable send.
    Ack(u32),
    /// A reliable-wrapped payload: sequence number and inner payload.
    Reliable(u32, Vec<u8>),
    /// An ordinary payload, handed through unchanged.
    Plain,
}

/// Classification of a decrypted plaintext: a 5-byte 0x81 frame is an ack, a
/// longer 0x80 frame is a reliable wrap, all else passes through.
pub open spec fn spec_classify_plaintext(p: Seq<u8>) -> Option<(u32, Option<Seq<u8>>)> {
    if p.len() == 5 && p[0] == ACK_FLAG {
        Some((spec_u32_from_be(p[1], p[2], p[3], p[4]), None))
    } else if p.len() >= 6 && p[0] == RELIABLE_FLAG {
        Some((spec_u32_from_be(p[1], p[2], p[3], p[4]), Some(p.subrange(5, p.len() as int))))
    } else {
        None
    }
}

pub fn classify_plaintext(p: &[u8]) -> (r: PlainClass)
    ensures
        match r {
            PlainClass::Ack(sequence) => spec_classify_plaintext(p@) == Some(
                (sequence, Option::<Seq<u8>>::None),
            ),
            PlainClass::Reliable(sequence, inner) => spec_classify_plaintext(p@) == Some(
                (sequence, Some(inner@)),
            ),
            PlainClass::Plain => spec_classify_plaintext(p@) is None,
        },
{
    if p.len() == 5 && p[0] == ACK_FLAG {
        PlainClass::Ack(read_u32_be(p, 1))
    } else if p.len() >= 6 && p[0] == RELIABLE_FLAG {
        PlainClass::Reliable(read_u32_be(p, 1), copy_range(p, 5, p.len()))
    } else {
        PlainClass::Plain
    }
}

/// A reliable wrap of a nonempty payload classifies back to its own sequence
/// number and payload, and an ack to its sequence number.
pub proof fn lemma_reliable_round_trip(sequence: u32, inner: Seq<u8>)
    requires
        inner.len() >= 1,
    ensures
        spec_classify_plaintext(spec_encode_reliable_wrap(sequence, inner)) == Some(
            (sequence, Some(inner)),
        ),
        spec_classify_plaintext(spec_encode_ack(sequence)) == Some(
            (sequence, Option::<Seq<u8>>::None),
        ),
{
    lemma_u32_be_round_trip(sequence);
    let w = spec_encode_reliable_wrap(sequence, inner);
    assert(w.subrange(5, w.len() as int) =~= inner);
}

} // verus!
