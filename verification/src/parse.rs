//! Client-side views of server packets and messages: the LIST reply, chat
//! forwards, control bodies, and the text shapes the front-ends split chat
//! and system lines into.

use vstd::prelude::*;

use crate::listing::{decode_list_reply, spec_decode_list_reply, ListReply};
use crate::protocol::{
    decode_chat_forward, spec_decode_chat_forward, spec_parse_control, ControlRequest,
};
use crate::strutil::{bytes_to_string, str_bytes};
use vstd::utf8::{decode_utf8, valid_utf8};

verus! {

/// The channel roster a client keeps from the last LIST reply.
pub struct ChannelList {
    pub unmasked: u32,
    pub masked: Vec<String>,
}

impl Default for ChannelList {
    /// An empty roster.
    fn default() -> (r: ChannelList)
        ensures
            r.unmasked == 0,
            r.masked@.len() == 0,
    {
        ChannelList { unmasked: 0, masked: Vec::new() }
    }
}

/// One channel of a parsed LIST reply.
pub struct ParsedChannel {
    pub name: String,
    pub chan_id: u32,
    pub unmasked: u32,
    pub members: Vec<(String, bool, bool)>,
}

/// Whether every name and mask of a decoded LIST reply is valid UTF-8.
pub open spec fn spec_list_text_ok(
    rep: (u32, Seq<(Seq<u8>, u32, u32, Seq<(Seq<u8>, bool, bool)>)>),
) -> bool {
    forall|j: int|
        0 <= j < rep.1.len() ==> valid_utf8((#[trigger] rep.1[j]).0) && forall|k: int|
            0 <= k < rep.1[j].3.len() ==> valid_utf8((#[trigger] rep.1[j].3[k]).0)
}

/// Parses a LIST reply into text form: the requester's current channel id,
/// the channel count, and per channel its name, id, unmasked count and
/// masked members with their flags. `None` when the packet is malformed or
/// any name or mask is not UTF-8.
pub fn parse_list_packet(bytes: &[u8]) -> (r: Option<(u32, u32, Vec<ParsedChannel>)>)
    ensures
        r matches Some((current_id, chan_count, channels)) ==> (spec_decode_list_reply(bytes@)
            matches Some(rep) && {
            &&& current_id == rep.0
            &&& chan_count as int == rep.1.len()
            &&& channels@.len() == rep.1.len()
            &&& forall|j: int|
                0 <= j < channels@.len() ==> {
                    let c = #[trigger] channels@[j];
                    &&& c.chan_id == rep.1[j].1
                    &&& c.unmasked == rep.1[j].2
                    &&& c.name@ == decode_utf8(rep.1[j].0)
                    &&& c.members@.len() == rep.1[j].3.len()
                    &&& forall|k: int|
                        0 <= k < c.members@.len() ==> (#[trigger] c.members@[k]).0@
                            == decode_utf8(rep.1[j].3[k].0) && c.members@[k].1 == rep.1[j].3[k].1
                            && c.members@[k].2 == rep.1[j].3[k].2
                }
        }),
        r is None ==> (spec_decode_list_reply(bytes@) is None || (spec_decode_list_reply(bytes@)
            matches Some(rep) && !spec_list_text_ok(rep))),
{
    let reply: ListReply = match decode_list_reply(bytes) {
        Some(rep) => rep,
        None => {
            return None;
        },
    };
    let ghost rep = reply@;
    let mut channels: Vec<ParsedChannel> = Vec::new();
    let cn = reply.channels.len();
    let mut j: usize = 0;
    while j < cn
        invariant
            cn == reply.channels@.len(),
            rep == reply@,
            spec_decode_list_reply(bytes@) == Some(rep),
            j <= cn,
            channels@.len() == j,
            forall|t: int|
                0 <= t < j ==> {
                    let c = #[trigger] channels@[t];
                    &&& c.chan_id == rep.1[t].1
                    &&& c.unmasked == rep.1[t].2
                    &&& c.name@ == decode_utf8(rep.1[t].0)
                    &&& c.members@.len() == rep.1[t].3.len()
                    &&& forall|k: int|
                        0 <= k < c.members@.len() ==> (#[trigger] c.members@[k]).0@
                            == decode_utf8(rep.1[t].3[k].0) && c.members@[k].1 == rep.1[t].3[k].1
                            && c.members@[k].2 == rep.1[t].3[k].2
                },
        decreases cn - j,
    {
        proof {
            assert(reply.channels@[j as int]@ == rep.1[j as int]);
        }
        let name_bytes = crate::bytes::copy_range(
            reply.channels[j].name.as_slice(),
            0,
            reply.channels[j].name.len(),
        );
        proof {
            assert(name_bytes@ =~= rep.1[j as int].0);
        }
        let name = match bytes_to_string(name_bytes) {
            Some(s) => s,
            None => {
                proof {
                    if spec_list_text_ok(rep) {
                        assert(valid_utf8(rep.1[j as int].0));
                    }
                }
                return None;
            },
        };
        let mn = reply.channels[j].members.len();
        let mut members: Vec<(String, bool, bool)> = Vec::new();
        let mut k: usize = 0;
        while k < mn
            invariant
                j < reply.channels@.len(),
                rep == reply@,
                spec_decode_list_reply(bytes@) == Some(rep),
                mn == reply.channels@[j as int].members@.len(),
                mn == rep.1[j as int].3.len(),
                k <= mn,
                members@.len() == k,
                forall|x: int|
                    0 <= x < members@.len() ==> (#[trigger] members@[x]).0@ == decode_utf8(
                        rep.1[j as int].3[x].0,
                    ) && members@[x].1 == rep.1[j as int].3[x].1 && members@[x].2 == rep.1[
                        j as int
                    ].3[x].2,
            decreases mn - k,
        {
            proof {
                assert(reply.channels@[j as int]@ == rep.1[j as int]);
                assert(reply.channels@[j as int].members@[k as int]@ == rep.1[j as int].3[
                    k as int
                ]);
            }
            let mask_bytes = crate::bytes::copy_range(
                reply.channels[j].members[k].mask.as_slice(),
                0,
                reply.channels[j].members[k].mask.len(),
            );
            proof {
                assert(mask_bytes@ =~= rep.1[j as int].3[k as int].0);
            }
            let mask = match bytes_to_string(mask_bytes) {
                Some(s) => s,
                None => {
                    proof {
                        if spec_list_text_ok(rep) {
                            assert(valid_utf8(rep.1[j as int].0) && forall|x: int|
                                0 <= x < rep.1[j as int].3.len() ==> valid_utf8(
                                    (#[trigger] rep.1[j as int].3[x]).0,
                                ));
                            assert(valid_utf8(rep.1[j as int].3[k as int].0));
                        }
                    }
                    return None;
                },
            };
            members.push(
                (mask, reply.channels[j].members[k].muted, reply.channels[j].members[k].deafened),
            );
            k = k + 1;
        }
        channels.push(
            ParsedChannel {
                name,
                chan_id: reply.channels[j].chan_id,
                unmasked: reply.channels[j].unmasked,
                members,
            },
        );
        j = j + 1;
    }
    let current_id = reply.current_id;
    proof {
        crate::listing::lemma_decode_channels_count(bytes@);
        assert(rep.1.len() <= 0xffffffff);
    }
    let chan_count = reply.channels.len() as u32;
    Some((current_id, chan_count, channels))
}

/// Splits a chat forward into sender mask, message text and the is-self
/// marker. The error text names what was malformed.
pub fn parse_msg_packet(data: &[u8]) -> (r: Result<(String, String, bool), String>)
    ensures
        r matches Ok((username, message, is_self)) ==> (spec_decode_chat_forward(data@)
            matches Some(parts) && username@ == decode_utf8(parts.0) && is_self == parts.1
            && message@ == decode_utf8(parts.2)),
        r is Err ==> (spec_decode_chat_forward(data@) is None || (spec_decode_chat_forward(
            data@,
        ) matches Some(parts) && !(valid_utf8(parts.0) && valid_utf8(parts.2)))),
{
    if data.len() == 0 || data[0] != 0x06 {
        return Err(String::from_str("packet does not start with the chat tag"));
    }
    match decode_chat_forward(data) {
        Some((sender, is_self, msg)) => {
            let username = match bytes_to_string(sender) {
                Some(s) => s,
                None => {
                    return Err(String::from_str("invalid UTF-8 in username"));
                },
            };
            let message = match bytes_to_string(msg) {
                Some(s) => s,
                None => {
                    return Err(String::from_str("invalid UTF-8 in message"));
                },
            };
            Ok((username, message, is_self))
        },
        None => Err(String::from_str("no separator after the username")),
    }
}

/// Reads a control body: deafen, undeafen, mute, unmute, or a volume byte.
pub fn parse_control_packet(data: &[u8]) -> (r: Result<ControlRequest, String>)
    ensures
        r matches Ok(req) ==> spec_parse_control(data@) == Some(req),
        r is Err <==> spec_parse_control(data@) is None,
{
    if data.len() == 1 && data[0] == 0x01 {
        Ok(ControlRequest::SetDeafen)
    } else if data.len() == 1 && data[0] == 0x02 {
        Ok(ControlRequest::SetUndeafen)
    } else if data.len() == 1 && data[0] == 0x03 {
        Ok(ControlRequest::SetMute)
    } else if data.len() == 1 && data[0] == 0x04 {
        Ok(ControlRequest::SetUnmute)
    } else if data.len() == 2 && data[0] == 0x05 {
        Ok(ControlRequest::SetVolume(data[1]))
    } else {
        Err(String::from_str("invalid control packet"))
    }
}

/// Index of the first two-byte pattern `b0 b1` at or after `from`.
pub open spec fn spec_find2(data: Seq<u8>, b0: u8, b1: u8, from: int) -> Option<int>
    decreases data.len() - from,
{
    if from < 0 || from + 1 >= data.len() {
        None
    } else if data[from] == b0 && data[from + 1] == b1 {
        Some(from)
    } else {
        spec_find2(data, b0, b1, from + 1)
    }
}

pub proof fn lemma_find2(data: Seq<u8>, b0: u8, b1: u8, from: int)
    requires
        0 <= from,
    ensures
        match spec_find2(data, b0, b1, from) {
            Some(i) => from <= i && i + 1 < data.len() && data[i] == b0 && data[i + 1] == b1,
            None => true,
        },
    decreases data.len() - from,
{
    if from + 1 < data.len() {
        if !(data[from] == b0 && data[from + 1] == b1) {
            lemma_find2(data, b0, b1, from + 1);
        }
    }
}

/// First occurrence of the two-byte pattern `b0 b1` at or after `from`.
pub fn find2(data: &[u8], b0: u8, b1: u8, from: usize) -> (r: Option<usize>)
    requires
        from <= data@.len(),
    ensures
        match r {
            Some(i) => spec_find2(data@, b0, b1, from as int) == Some(i as int) && from <= i && i
                + 1 < data@.len(),
            None => spec_find2(data@, b0, b1, from as int) is None,
        },
{
    if data.len() == 0 {
        return None;
    }
    let mut i = from;
    while i < data.len() - 1
        invariant
            from <= i,
            data@.len() >= 1,
            i <= data@.len(),
            spec_find2(data@, b0, b1, from as int) == spec_find2(data@, b0, b1, i as int),
        decreases data@.len() - i,
    {
        if data[i] == b0 && data[i + 1] == b1 {
            return Some(i);
        }
        i = i + 1;
    }
    None
}

/// The decomposition of a chat line `[#channel] name: content`.
pub open spec fn spec_chat_parts(b: Seq<u8>) -> Option<(Seq<u8>, Seq<u8>, Seq<u8>)> {
    if b.len() >= 2 && b[0] == 0x5bu8 && b[1] == 0x23u8 {
        match spec_find2(b, 0x5du8, 0x20u8, 2) {
            Some(i) => {
                match spec_find2(b, 0x3au8, 0x20u8, i + 2) {
                    Some(j) => Some(
                        (b.subrange(2, i), b.subrange(i + 2, j), b.subrange(j + 2, b.len() as int)),
                    ),
                    None => None,
                }
            },
            None => None,
        }
    } else {
        None
    }
}

/// Splits a rendered chat line `[#channel] name: content` into its channel,
/// sender name and content.
pub fn parse_chat_message(msg: &str) -> (r: Option<(String, String, String)>)
    ensures
        r matches Some((channel, name, content)) ==> (spec_chat_parts(str_bytes(msg@))
            matches Some(parts) && channel@ == decode_utf8(parts.0) && name@ == decode_utf8(
            parts.1,
        ) && content@ == decode_utf8(parts.2)),
        spec_chat_parts(str_bytes(msg@)) is None ==> r is None,
        (spec_chat_parts(str_bytes(msg@)) matches Some(parts) && valid_utf8(parts.0)
            && valid_utf8(parts.1) && valid_utf8(parts.2)) ==> r is Some,
{
    let bytes = msg.as_bytes();
    if bytes.len() < 2 || bytes[0] != 0x5b || bytes[1] != 0x23 {
        return None;
    }
    let i = match find2(bytes, 0x5d, 0x20, 2) {
        Some(i) => i,
        None => {
            return None;
        },
    };
    let j = match find2(bytes, 0x3a, 0x20, i + 2) {
        Some(j) => j,
        None => {
            return None;
        },
    };
    proof {
        lemma_find2(bytes@, 0x5du8, 0x20u8, 2);
        lemma_find2(bytes@, 0x3au8, 0x20u8, i as int + 2);
    }
    if j < i + 2 {
        proof {
            assert(false);
        }
        return None;
    }
    proof {
        match spec_chat_parts(str_bytes(msg@)) {
            Some(parts) => {
                assert(parts.0 == bytes@.subrange(2, i as int));
                assert(parts.1 == bytes@.subrange(i as int + 2, j as int));
                assert(parts.2 == bytes@.subrange(j as int + 2, bytes@.len() as int));
            },
            None => {
                assert(false);
            },
        }
    }
    let channel = match bytes_to_string(crate::bytes::copy_range(bytes, 2, i)) {
        Some(s) => s,
        None => {
            return None;
        },
    };
    let name = match bytes_to_string(crate::bytes::copy_range(bytes, i + 2, j)) {
        Some(s) => s,
        None => {
            return None;
        },
    };
    let content = match bytes_to_string(crate::bytes::copy_range(bytes, j + 2, bytes.len())) {
        Some(s) => s,
        None => {
            return None;
        },
    };
    Some((channel, name, content))
}

/// The decomposition of a system line `[source] rest`.
pub open spec fn spec_system_parts(b: Seq<u8>) -> Option<(Seq<u8>, Seq<u8>)> {
    if b.len() >= 1 && b[0] == 0x5bu8 {
        match spec_find2(b, 0x5du8, 0x20u8, 1) {
            Some(i) => Some((b.subrange(1, i), b.subrange(i + 2, b.len() as int))),
            None => None,
        }
    } else {
        None
    }
}

/// Splits a system line `[source] rest` into its source and remainder.
pub fn parse_system_message(msg: &str) -> (r: Option<(String, String)>)
    ensures
        r matches Some((src, rest)) ==> (spec_system_parts(str_bytes(msg@)) matches Some(parts)
            && src@ == decode_utf8(parts.0) && rest@ == decode_utf8(parts.1)),
        spec_system_parts(str_bytes(msg@)) is None ==> r is None,
        (spec_system_parts(str_bytes(msg@)) matches Some(parts) && valid_utf8(parts.0)
            && valid_utf8(parts.1)) ==> r is Some,
{
    let bytes = msg.as_bytes();
    if bytes.len() < 1 || bytes[0] != 0x5b {
        return None;
    }
    let i = match find2(bytes, 0x5d, 0x20, 1) {
        Some(i) => i,
        None => {
            return None;
        },
    };
    proof {
        lemma_find2(bytes@, 0x5du8, 0x20u8, 1);
    }
    proof {
        match spec_system_parts(str_bytes(msg@)) {
            Some(parts) => {
                assert(parts.0 == bytes@.subrange(1, i as int));
                assert(parts.1 == bytes@.subrange(i as int + 2, bytes@.len() as int));
            },
            None => {
                assert(false);
            },
        }
    }
    let src = match bytes_to_string(crate::bytes::copy_range(bytes, 1, i)) {
        Some(s) => s,
        None => {
            return None;
        },
    };
    let rest = match bytes_to_string(crate::bytes::copy_range(bytes, i + 2, bytes.len())) {
        Some(s) => s,
        None => {
            return None;
        },
    };
    Some((src, rest))
}

/// What the client's network loop does with one received payload.
pub enum ClientEvent {
    /// An encoded audio frame for the playback path.
    Audio(Vec<u8>),
    /// A LIST reply for the roster cache.
    Roster(u32, u32, Vec<ParsedChannel>),
    /// A chat forward for the message feed.
    Message(String, String, bool),
    /// Anything else: unknown, malformed, or not meant for this loop.
    Ignored,
}

/// The client network loop's dispatch: audio payloads feed playback, LIST
/// replies refresh the roster, chat forwards join the message feed, and
/// every other or malformed payload is ignored.
pub fn classify_server_packet(payload: &[u8]) -> (r: ClientEvent)
    ensures
        r matches ClientEvent::Audio(frame) ==> payload@.len() >= 2 && payload@[0] == 0x02u8
            && frame@ == payload@.subrange(1, payload@.len() as int),
        r matches ClientEvent::Message(username, message, is_self) ==> (spec_decode_chat_forward(
            payload@,
        ) matches Some(parts) && username@ == decode_utf8(parts.0) && message@ == decode_utf8(
            parts.2,
        ) && is_self == parts.1),
        payload@.len() >= 2 && payload@[0] == 0x02u8 ==> r is Audio,
        payload@.len() >= 2 && payload@[0] == 0x05u8 && (spec_decode_list_reply(payload@)
            matches Some(rep) && spec_list_text_ok(rep)) ==> r is Roster,
        (spec_decode_chat_forward(payload@) matches Some(parts) && valid_utf8(parts.0)
            && valid_utf8(parts.2)) ==> r is Message,
{
    if payload.len() < 2 {
        proof {
            if spec_decode_chat_forward(payload@) is Some {
                assert(false);
            }
        }
        return ClientEvent::Ignored;
    }
    if payload[0] == 0x02 {
        return ClientEvent::Audio(crate::bytes::copy_range(payload, 1, payload.len()));
    }
    if payload[0] == 0x05 {
        return match parse_list_packet(payload) {
            Some((current_id, chan_count, channels)) => ClientEvent::Roster(
                current_id,
                chan_count,
                channels,
            ),
            None => ClientEvent::Ignored,
        };
    }
    if payload[0] == 0x06 {
        return match parse_msg_packet(payload) {
            Ok((username, message, is_self)) => ClientEvent::Message(username, message, is_self),
            Err(_) => ClientEvent::Ignored,
        };
    }
    ClientEvent::Ignored
}

} // verus!
