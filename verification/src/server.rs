//! The server's channel and remote state machine: membership, masks, mute
//! and deafen flags, jitter buffering, the audio intake queue, per-tick frame
//! advancement, the personalized mix plan, and idle cleanup.
//!
//! The state owns no socket and no codec: handlers turn an incoming payload
//! into state changes plus the packets to send, and the tick functions hand
//! the caller exactly which frames to decode, mix and encode. Audio samples
//! pass through as opaque 32-bit sample images; all sample arithmetic lives
//! with the caller.

use vstd::prelude::*;

use crate::link::Endpoint;
use crate::listing::{encode_list_reply, ChannelEntry, ListReply, MemberEntry};
use crate::protocol::{
    decode_join, encode_chat_forward, encode_renick, encode_tagged, spec_decode_join,
    spec_encode_chat_forward, spec_encode_renick, spec_parse_control, valid_sender_mask,
    ControlRequest, TAG_AUDIO, TAG_CHAT, TAG_CTRL, TAG_EOF, TAG_FLOW_LEAVE, TAG_JOIN, TAG_LIST,
    TAG_MASK, TAG_UNAUTH_CHAT,
};
use crate::strutil::is_utf8;

verus! {

/// Upper bound on buffered decoded frames per remote.
pub const JITTER_MAX: usize = 50;

/// How mix output is kept inside the representable sample range.
#[derive(Clone, Copy, PartialEq, Eq, Structural, Debug)]
pub enum Clipping {
    Soft,
    Hard,
}

/// Immutable server configuration. The compression threshold and ratio are
/// kept in thousandths, so the mix arithmetic outside this crate reads them
/// as fractions.
#[derive(Clone, Copy)]
pub struct ServerConfig {
    pub max_users: usize,
    pub should_normalize: bool,
    pub should_compress: bool,
    pub clipping: Clipping,
    pub compress_threshold_milli: u32,
    pub compress_ratio_milli: u32,
    pub bind_port: u16,
    pub timeout_secs: u64,
    pub throttle_millis: u64,
    pub sample_rate: u32,
    pub tickrate: u32,
}

impl ServerConfig {
    /// A configuration the server can run with.
    pub open spec fn wf(self) -> bool {
        &&& self.tickrate >= 1
        &&& self.sample_rate <= 0x3fffffff
        &&& self.timeout_secs <= 0xffffffff
    }

    /// Samples per tick per audio channel.
    pub open spec fn spec_framesize(self) -> int {
        self.sample_rate as int / self.tickrate as int
    }

    /// Length of a stereo interleaved frame.
    pub open spec fn spec_frame_len(self) -> int {
        self.spec_framesize() * 2
    }

    pub fn get_framesize(&self) -> (r: usize)
        requires
            self.wf(),
        ensures
            r == self.spec_framesize(),
    {
        (self.sample_rate / self.tickrate) as usize
    }
}

impl Default for ServerConfig {
    /// The stock configuration: 1024 peers, normalization and compression on
    /// (threshold 0.5, ratio 0.8), soft clipping, 5 s idle timeout, 1 ms
    /// throttle, 48 kHz stereo at 50 ticks per second.
    fn default() -> (r: ServerConfig)
        ensures
            r.max_users == 1024,
            r.should_normalize,
            r.should_compress,
            r.clipping == Clipping::Soft,
            r.compress_threshold_milli == 500,
            r.compress_ratio_milli == 800,
            r.bind_port == 0,
            r.timeout_secs == 5,
            r.throttle_millis == 1,
            r.sample_rate == 48000,
            r.tickrate == 50,
            r.wf(),
    {
        ServerConfig {
            max_users: 1024,
            should_normalize: true,
            should_compress: true,
            clipping: Clipping::Soft,
            compress_threshold_milli: 500,
            compress_ratio_milli: 800,
            bind_port: 0,
            timeout_secs: 5,
            throttle_millis: 1,
            sample_rate: 48000,
            tickrate: 50,
        }
    }
}

/// A display name fit for the wire: nonempty, at most 255 bytes, free of the
/// 0x01 separator.
pub open spec fn spec_valid_mask(m: Seq<u8>) -> bool {
    &&& valid_sender_mask(m)
    &&& m.len() <= 255
}

/// Server-side record of one connected peer.
pub struct Remote {
    pub addr: Endpoint,
    pub channel_id: u32,
    pub last_active_ms: u64,
    pub mask: Option<Vec<u8>>,
    pub muted: bool,
    pub deafened: bool,
    /// Decoded frames awaiting their tick, oldest first, as 32-bit sample
    /// images.
    pub jitter_buffer: Vec<Vec<u32>>,
}

/// One voice channel. `members`, `inputs` and `filters` run in parallel:
/// entry `i` of each belongs to member `i`, so every member always has a
/// current input frame and a carried filter state.
pub struct Channel {
    pub id: u32,
    pub name: Option<Vec<u8>>,
    pub members: Vec<Endpoint>,
    /// The member's input frame for the current tick; zeros mean silence.
    pub inputs: Vec<Vec<u32>>,
    /// Per-member DC-removal filter state, one 32-bit image per stereo side.
    pub filters: Vec<(u32, u32)>,
}

impl Channel {
    /// Structural soundness of one channel for a given frame length.
    pub open spec fn wf(self, frame_len: int) -> bool {
        &&& self.inputs@.len() == self.members@.len()
        &&& self.filters@.len() == self.members@.len()
        &&& forall|i: int|
            0 <= i < self.inputs@.len() ==> (#[trigger] self.inputs@[i])@.len() == frame_len
        &&& forall|i: int, j: int|
            0 <= i < j < self.members@.len() ==> self.members@[i] != self.members@[j]
        &&& (self.name matches Some(n) ==> 1 <= n@.len() <= 255)
    }

    /// Index of an endpoint in the member list.
    pub open spec fn spec_member_index(self, addr: Endpoint) -> Option<int> {
        spec_index_of(self.members@, addr, 0)
    }

    pub open spec fn spec_has_member(self, addr: Endpoint) -> bool {
        self.members@.contains(addr)
    }
}

/// Index of the first occurrence of `x` in `s` at or after `from`.
pub open spec fn spec_index_of<T>(s: Seq<T>, x: T, from: int) -> Option<int>
    decreases s.len() - from,
{
    if from < 0 || from >= s.len() {
        None
    } else if s[from] == x {
        Some(from)
    } else {
        spec_index_of(s, x, from + 1)
    }
}

/// What `spec_index_of` returns is the first occurrence, and `None` means
/// there is none.
pub proof fn lemma_index_of<T>(s: Seq<T>, x: T, from: int)
    requires
        0 <= from <= s.len(),
    ensures
        match spec_index_of(s, x, from) {
            Some(i) => from <= i < s.len() && s[i] == x && forall|j: int|
                from <= j < i ==> s[j] != x,
            None => forall|j: int| from <= j < s.len() ==> s[j] != x,
        },
    decreases s.len() - from,
{
    if from < s.len() {
        if s[from] != x {
            lemma_index_of(s, x, from + 1);
        }
    }
}

/// Member `k` of channel `j` is backed by a live remote assigned there.
pub open spec fn spec_member_backed_at(s: ServerState, j: int, k: int) -> bool {
    exists|i: int|
        0 <= i < s.remotes@.len() && (#[trigger] s.remotes@[i]).addr == s.channels@[
        j].members@[k] && s.remotes@[i].channel_id == s.channels@[j].id
}

/// Every listed member is backed by a live remote assigned to that channel:
/// the direction of the membership invariant that rules out stale entries.
pub open spec fn spec_members_backed(s: ServerState) -> bool {
    forall|j: int, k: int|
        0 <= j < s.channels@.len() && 0 <= k < s.channels@[j].members@.len()
            ==> #[trigger] spec_member_backed_at(s, j, k)
}

/// Member backing survives any step that keeps every channel's member list
/// and id, and every remote's endpoint and channel assignment.
pub proof fn lemma_members_backed_preserved(s0: ServerState, s1: ServerState)
    requires
        spec_members_backed(s0),
        s1.channels@.len() == s0.channels@.len(),
        forall|j: int|
            0 <= j < s1.channels@.len() ==> (#[trigger] s1.channels@[j]).members == s0.channels@[
            j].members && s1.channels@[j].id == s0.channels@[j].id,
        s1.remotes@.len() == s0.remotes@.len(),
        forall|i: int|
            0 <= i < s1.remotes@.len() ==> (#[trigger] s1.remotes@[i]).addr == s0.remotes@[
            i].addr && s1.remotes@[i].channel_id == s0.remotes@[i].channel_id,
    ensures
        spec_members_backed(s1),
{
    assert forall|j: int, k: int|
        0 <= j < s1.channels@.len() && 0 <= k < s1.channels@[j].members@.len() implies
        #[trigger] spec_member_backed_at(s1, j, k) by {
        assert(spec_member_backed_at(s0, j, k));
        assert(s1.channels@[j].members@[k] == s0.channels@[j].members@[k]);
        let i0 = choose|i: int|
            0 <= i < s0.remotes@.len() && (#[trigger] s0.remotes@[i]).addr == s0.channels@[
            j].members@[k] && s0.remotes@[i].channel_id == s0.channels@[j].id;
        assert(0 <= i0 < s1.remotes@.len() && s1.remotes@[i0].addr == s1.channels@[
        j].members@[k] && s1.remotes@[i0].channel_id == s1.channels@[j].id);
    }
}

/// Whole state of one running server, apart from sockets and codecs.
pub struct ServerState {
    pub config: ServerConfig,
    pub remotes: Vec<Remote>,
    pub channels: Vec<Channel>,
    /// The bounded audio intake queue: encoded frames awaiting the tick,
    /// oldest first.
    pub intake: Vec<(Endpoint, Vec<u8>)>,
    /// Registered administrative consoles with their last activity.
    pub consoles: Vec<(Endpoint, u64)>,
    /// Shared secret a console must present to register.
    pub console_password: Vec<u8>,
}

impl ServerState {
    /// The invariants the server maintains across every packet and tick:
    /// channel ids and remote endpoints are unique; every remote's channel
    /// exists and lists it as a member (so it owns an input-frame slot and a
    /// filter slot there); conversely every listed member is a live remote
    /// assigned to exactly that channel, so memberships never go stale;
    /// every stored mask is wire-fit; no jitter buffer exceeds its bound;
    /// buffered frames have the configured length; the intake queue respects
    /// its capacity.
    pub open spec fn wf(self) -> bool {
        &&& self.config.wf()
        &&& forall|i: int, j: int|
            0 <= i < j < self.channels@.len() ==> (#[trigger] self.channels@[i]).id != (
            #[trigger] self.channels@[j]).id
        &&& forall|i: int|
            0 <= i < self.channels@.len() ==> (#[trigger] self.channels@[i]).wf(
                self.config.spec_frame_len(),
            )
        &&& forall|i: int, j: int|
            0 <= i < j < self.remotes@.len() ==> (#[trigger] self.remotes@[i]).addr != (
            #[trigger] self.remotes@[j]).addr
        &&& forall|i: int|
            0 <= i < self.remotes@.len() ==> exists|j: int|
                0 <= j < self.channels@.len() && (#[trigger] self.channels@[j]).id == (
                #[trigger] self.remotes@[i]).channel_id && self.channels@[j].spec_has_member(
                    self.remotes@[i].addr,
                )
        &&& spec_members_backed(self)
        &&& forall|i: int|
            0 <= i < self.remotes@.len() ==> (#[trigger] self.remotes@[i]).jitter_buffer@.len()
                <= JITTER_MAX
        &&& forall|i: int, k: int|
            0 <= i < self.remotes@.len() && 0 <= k < self.remotes@[i].jitter_buffer@.len() ==> ((
            #[trigger] self.remotes@[i].jitter_buffer@[k])@.len()
                == self.config.spec_frame_len())
        &&& forall|i: int|
            0 <= i < self.remotes@.len() ==> ((#[trigger] self.remotes@[i]).mask matches Some(m)
                ==> spec_valid_mask(m@))
        &&& self.intake@.len() <= self.config.max_users
    }

    pub open spec fn spec_has_remote(self, addr: Endpoint) -> bool {
        exists|i: int| 0 <= i < self.remotes@.len() && (#[trigger] self.remotes@[i]).addr == addr
    }

    pub open spec fn spec_remote_index(self, addr: Endpoint) -> Option<int> {
        spec_index_of(self.remotes@.map_values(|r: Remote| r.addr), addr, 0)
    }

    /// A fresh server: the default channel (id 1) exists, nobody is
    /// connected, nothing is queued.
    pub fn new(config: ServerConfig, console_password: Vec<u8>) -> (r: ServerState)
        requires
            config.wf(),
        ensures
            r.wf(),
            r.config == config,
            r.remotes@.len() == 0,
            r.channels@.len() == 1,
            r.channels@[0].id == 1,
            r.intake@.len() == 0,
            r.consoles@.len() == 0,
    {
        let default_channel = Channel {
            id: 1,
            name: None,
            members: Vec::new(),
            inputs: Vec::new(),
            filters: Vec::new(),
        };
        let mut channels: Vec<Channel> = Vec::new();
        channels.push(default_channel);
        ServerState {
            config,
            remotes: Vec::new(),
            channels,
            intake: Vec::new(),
            consoles: Vec::new(),
            console_password,
        }
    }

    /// Index of the remote for an endpoint.
    pub fn find_remote(&self, addr: Endpoint) -> (r: Option<usize>)
        ensures
            match r {
                Some(i) => i < self.remotes@.len() && self.remotes@[i as int].addr == addr,
                None => !self.spec_has_remote(addr),
            },
    {
        let n = self.remotes.len();
        let mut i: usize = 0;
        while i < n
            invariant
                n == self.remotes@.len(),
                i <= n,
                forall|j: int| 0 <= j < i ==> (#[trigger] self.remotes@[j]).addr != addr,
            decreases n - i,
        {
            if self.remotes[i].addr == addr {
                return Some(i);
            }
            i = i + 1;
        }
        None
    }

    /// Index of the channel with an id.
    pub fn find_channel(&self, id: u32) -> (r: Option<usize>)
        ensures
            match r {
                Some(i) => i < self.channels@.len() && self.channels@[i as int].id == id,
                None => forall|j: int|
                    0 <= j < self.channels@.len() ==> (#[trigger] self.channels@[j]).id != id,
            },
    {
        let n = self.channels.len();
        let mut i: usize = 0;
        while i < n
            invariant
                n == self.channels@.len(),
                i <= n,
                forall|j: int| 0 <= j < i ==> (#[trigger] self.channels@[j]).id != id,
            decreases n - i,
        {
            if self.channels[i].id == id {
                return Some(i);
            }
            i = i + 1;
        }
        None
    }

    /// Index of `addr` in channel `ci`'s member list.
    fn find_member(&self, ci: usize, addr: Endpoint) -> (r: Option<usize>)
        requires
            ci < self.channels@.len(),
        ensures
            match r {
                Some(k) => k < self.channels@[ci as int].members@.len()
                    && self.channels@[ci as int].members@[k as int] == addr,
                None => !self.channels@[ci as int].spec_has_member(addr),
            },
    {
        let n = self.channels[ci].members.len();
        let mut k: usize = 0;
        while k < n
            invariant
                ci < self.channels@.len(),
                n == self.channels@[ci as int].members@.len(),
                k <= n,
                forall|j: int| 0 <= j < k ==> self.channels@[ci as int].members@[j] != addr,
            decreases n - k,
        {
            if self.channels[ci].members[k] == addr {
                return Some(k);
            }
            k = k + 1;
        }
        proof {
            assert(forall|j: int|
                0 <= j < self.channels@[ci as int].members@.len()
                    ==> self.channels@[ci as int].members@[j] != addr);
            if self.channels@[ci as int].spec_has_member(addr) {
                let j = choose|j: int|
                    0 <= j < self.channels@[ci as int].members@.len()
                        && self.channels@[ci as int].members@[j] == addr;
                assert(false);
            }
        }
        None
    }
}

/// A frame of silence: all sample images zero.
pub fn zero_frame(len: usize) -> (r: Vec<u32>)
    ensures
        r@.len() == len,
        forall|i: int| 0 <= i < r@.len() ==> r@[i] == 0u32,
{
    let mut out: Vec<u32> = Vec::new();
    let mut i: usize = 0;
    while i < len
        invariant
            i <= len,
            out@.len() == i,
            forall|j: int| 0 <= j < out@.len() ==> out@[j] == 0u32,
        decreases len - i,
    {
        out.push(0);
        i = i + 1;
    }
    out
}

impl Remote {
    /// A freshly connected peer: unmasked, unmuted, undeafened, channel not
    /// yet assigned, empty jitter buffer. (The caller owns the matching Opus
    /// codec pair; rejoining never rebuilds it.)
    pub fn new(addr: Endpoint, now_ms: u64) -> (r: Remote)
        ensures
            r.addr == addr,
            r.channel_id == 0,
            r.last_active_ms == now_ms,
            r.mask is None,
            !r.muted,
            !r.deafened,
            r.jitter_buffer@.len() == 0,
    {
        Remote {
            addr,
            channel_id: 0,
            last_active_ms: now_ms,
            mask: None,
            muted: false,
            deafened: false,
            jitter_buffer: Vec::new(),
        }
    }

    /// Puts on or changes the display name.
    pub fn mask(&mut self, mask: &[u8])
        requires
            spec_valid_mask(mask@),
        ensures
            final(self).mask == Some(final(self).mask.unwrap()),
            final(self).mask.unwrap()@ == mask@,
            final(self).addr == old(self).addr,
            final(self).channel_id == old(self).channel_id,
            final(self).last_active_ms == old(self).last_active_ms,
            final(self).muted == old(self).muted,
            final(self).deafened == old(self).deafened,
            final(self).jitter_buffer == old(self).jitter_buffer,
    {
        let mut m: Vec<u8> = Vec::new();
        m.extend_from_slice(mask);
        assert(m@ =~= mask@);
        self.mask = Some(m);
    }
}

impl Channel {
    /// An empty channel.
    pub fn new(id: u32, name: Option<Vec<u8>>) -> (r: Channel)
        requires
            name matches Some(n) ==> 1 <= n@.len() <= 255,
        ensures
            r.id == id,
            r.name == name,
            r.members@.len() == 0,
            r.inputs@.len() == 0,
            r.filters@.len() == 0,
            forall|fl: int| r.wf(fl),
    {
        Channel { id, name, members: Vec::new(), inputs: Vec::new(), filters: Vec::new() }
    }
}

/// Why a JOIN did or did not take effect.
#[derive(Clone, Copy, PartialEq, Eq, Structural, Debug)]
pub enum JoinResult {
    /// A new remote was created for the endpoint; the caller should set up
    /// its codec pair.
    Created,
    /// A known remote moved channels; its codec state is kept.
    Moved,
    /// The server is at its peer limit; nothing changed.
    Rejected,
}

impl ServerState {
    /// Removes member `k` of channel `ci` together with its input-frame and
    /// filter slots.
    fn remove_member_at(&mut self, ci: usize, k: usize)
        requires
            ci < old(self).channels@.len(),
            old(self).channels@[ci as int].wf(old(self).config.spec_frame_len()),
            k < old(self).channels@[ci as int].members@.len(),
        ensures
            final(self).channels@.len() == old(self).channels@.len(),
            final(self).channels@[ci as int].members@ == old(self).channels@[
                ci as int
            ].members@.remove(k as int),
            final(self).channels@[ci as int].inputs@ == old(self).channels@[
                ci as int
            ].inputs@.remove(k as int),
            final(self).channels@[ci as int].filters@ == old(self).channels@[
                ci as int
            ].filters@.remove(k as int),
            final(self).channels@[ci as int].id == old(self).channels@[ci as int].id,
            final(self).channels@[ci as int].name == old(self).channels@[ci as int].name,
            final(self).channels@[ci as int].wf(old(self).config.spec_frame_len()),
            forall|j: int|
                0 <= j < old(self).channels@.len() && j != ci ==> final(self).channels@[j] == old(self).channels@[j],
            final(self).remotes == old(self).remotes,
            final(self).config == old(self).config,
            final(self).intake == old(self).intake,
            final(self).consoles == old(self).consoles,
            final(self).console_password == old(self).console_password,
    {
        let mut c = self.channels.remove(ci);
        c.members.remove(k);
        c.inputs.remove(k);
        c.filters.remove(k);
        self.channels.insert(ci, c);
        proof {
            assert(final(self).channels@ =~= old(self).channels@.update(
                ci as int,
                final(self).channels@[ci as int],
            ));
        }
    }

    /// Adds an endpoint to channel `ci` with a silent input frame and a
    /// cleared filter state.
    fn add_member(&mut self, ci: usize, addr: Endpoint)
        requires
            ci < old(self).channels@.len(),
            old(self).config.wf(),
            old(self).channels@[ci as int].wf(old(self).config.spec_frame_len()),
            !old(self).channels@[ci as int].spec_has_member(addr),
        ensures
            final(self).channels@.len() == old(self).channels@.len(),
            final(self).channels@[ci as int].members@ == old(self).channels@[
                ci as int
            ].members@.push(addr),
            final(self).channels@[ci as int].inputs@.len() == old(self).channels@[
                ci as int
            ].inputs@.len() + 1,
            forall|x: int|
                0 <= x < old(self).channels@[ci as int].inputs@.len() ==> #[trigger] final(self).channels@[ci as int].inputs@[x] == old(self).channels@[ci as int].inputs@[x],
            is_zero_frame(final(self).channels@[ci as int].inputs@.last()@),
            final(self).channels@[ci as int].filters@ == old(self).channels@[
                ci as int
            ].filters@.push((0u32, 0u32)),
            final(self).channels@[ci as int].id == old(self).channels@[ci as int].id,
            final(self).channels@[ci as int].name == old(self).channels@[ci as int].name,
            final(self).channels@[ci as int].wf(old(self).config.spec_frame_len()),
            final(self).channels@[ci as int].spec_has_member(addr),
            forall|j: int|
                0 <= j < old(self).channels@.len() && j != ci ==> final(self).channels@[j] == old(self).channels@[j],
            final(self).remotes == old(self).remotes,
            final(self).config == old(self).config,
            final(self).intake == old(self).intake,
            final(self).consoles == old(self).consoles,
            final(self).console_password == old(self).console_password,
    {
        let frame_len = self.config.get_framesize() * 2;
        let mut c = self.channels.remove(ci);
        c.members.push(addr);
        c.inputs.push(zero_frame(frame_len));
        c.filters.push((0, 0));
        self.channels.insert(ci, c);
        proof {
            assert(final(self).channels@ =~= old(self).channels@.update(
                ci as int,
                final(self).channels@[ci as int],
            ));
            let cnew = final(self).channels@[ci as int];
            let cold = old(self).channels@[ci as int];
            assert(cnew.members@.last() == addr);
            assert(forall|i: int, j: int|
                0 <= i < j < cnew.members@.len() ==> cnew.members@[i] != cnew.members@[j]) by {
                assert(forall|i: int|
                    0 <= i < cold.members@.len() ==> cnew.members@[i] == cold.members@[i]);
                assert(forall|i: int|
                    0 <= i < cold.members@.len() ==> cold.members@.contains(cold.members@[i]));
            }
            assert(cnew.spec_has_member(addr));
        }
    }

    /// Moves an endpoint into a channel, creating the remote (if room
    /// permits) and the channel (if unknown) on the way, and granting the
    /// member its input-frame and filter slots there. Rejoining never touches
    /// the remote's mask or flags.
    pub fn join(&mut self, addr: Endpoint, chan_id: u32, now_ms: u64) -> (r: JoinResult)
        requires
            old(self).wf(),
        ensures
            final(self).wf(),
            final(self).config == old(self).config,
            final(self).intake == old(self).intake,
            r == JoinResult::Rejected <==> (!old(self).spec_has_remote(addr) && old(self).remotes@.len() >= old(self).config.max_users),
            r == JoinResult::Created <==> (!old(self).spec_has_remote(addr) && old(self).remotes@.len() < old(self).config.max_users),
            r != JoinResult::Rejected ==> final(self).spec_has_remote(addr),
            r != JoinResult::Rejected ==> forall|j: int|
                0 <= j < final(self).remotes@.len() && (#[trigger] final(self).remotes@[j]).addr
                    == addr ==> final(self).remotes@[j].channel_id == chan_id && final(self).remotes@[j].last_active_ms == now_ms,
            forall|i: int, j: int|
                (0 <= i < old(self).remotes@.len() && 0 <= j < final(self).remotes@.len() && (
                #[trigger] old(self).remotes@[i]).addr == addr && (#[trigger] final(self).remotes@[j]).addr == addr) ==> final(self).remotes@[j].mask == old(self).remotes@[i].mask && final(self).remotes@[j].muted == old(self).remotes@[i].muted
                    && final(self).remotes@[j].deafened == old(self).remotes@[i].deafened
                    && final(self).remotes@[j].jitter_buffer == old(self).remotes@[
                    i].jitter_buffer,
            r == JoinResult::Created ==> forall|j: int|
                0 <= j < final(self).remotes@.len() && (#[trigger] final(self).remotes@[j]).addr
                    == addr ==> final(self).remotes@[j].mask is None && final(self).remotes@[j].jitter_buffer@.len() == 0 && !final(self).remotes@[j].muted
                    && !final(self).remotes@[j].deafened,
            r != JoinResult::Rejected ==> forall|j: int|
                0 <= j < final(self).channels@.len() && (#[trigger] final(self).channels@[j]).id
                    != chan_id ==> !final(self).channels@[j].spec_has_member(addr),
            r != JoinResult::Rejected ==> exists|j: int, k: int|
                0 <= j < final(self).channels@.len() && final(self).channels@[j].id == chan_id
                    && 0 <= k < final(self).channels@[j].members@.len() && #[trigger] final(self).channels@[j].members@[k] == addr && is_zero_frame(
                    final(self).channels@[j].inputs@[k]@,
                ) && final(self).channels@[j].filters@[k] == (0u32, 0u32),
            r == JoinResult::Rejected ==> *final(self) == *old(self),
    {
        let ghost s0 = *self;
        let ghost mut detach: (int, int) = (0, 0);
        let created: bool;
        let ri: usize;
        match self.find_remote(addr) {
            Some(i) => {
                created = false;
                // Leave the previous channel before switching; under the
                // invariant it exists and lists this remote.
                let prev = self.channels_of_remote(i);
                match prev {
                    Some(ci) => {
                        match self.find_member(ci, addr) {
                            Some(k) => {
                                proof {
                                    detach = (ci as int, k as int);
                                    lemma_remove_keeps_others(
                                        self.channels@[ci as int].members@,
                                        k as int,
                                        addr,
                                    );
                                }
                                self.remove_member_at(ci, k);
                            },
                            None => {
                                proof {
                                    let j = choose|j: int|
                                        0 <= j < self.channels@.len() && (
                                        #[trigger] self.channels@[j]).id == self.remotes@[
                                        i as int].channel_id && self.channels@[
                                        j].spec_has_member(self.remotes@[i as int].addr);
                                    assert(j == ci) by {
                                        if j != ci {
                                            assert(self.channels@[j].id == self.channels@[
                                            ci as int].id);
                                        }
                                    }
                                    assert(false);
                                }
                            },
                        }
                    },
                    None => {
                        proof {
                            let j = choose|j: int|
                                0 <= j < self.channels@.len() && (#[trigger] self.channels@[
                                j]).id == self.remotes@[i as int].channel_id && self.channels@[
                                j].spec_has_member(self.remotes@[i as int].addr);
                            assert(false);
                        }
                    },
                }
                // Point the remote at its new channel.
                let mut r = self.remotes.remove(i);
                r.channel_id = chan_id;
                r.last_active_ms = now_ms;
                self.remotes.insert(i, r);
                ri = i;
                proof {
                    assert(self.remotes@ =~= s0.remotes@.update(i as int, self.remotes@[i as int]));
                }
            },
            None => {
                if self.remotes.len() >= self.config.max_users {
                    return JoinResult::Rejected;
                }
                created = true;
                let mut nr = Remote::new(addr, now_ms);
                nr.channel_id = chan_id;
                ri = self.remotes.len();
                self.remotes.push(nr);
            },
        }
        let ghost s1 = *self;
        proof {
            // After the detach-and-update phase: remotes are unique, only the
            // target's membership may be missing, and every channel is intact
            // but for the removed slot.
            assert(self.remotes@[ri as int].addr == addr);
            assert(forall|i: int, j: int|
                0 <= i < j < s1.remotes@.len() ==> (#[trigger] s1.remotes@[i]).addr != (
                #[trigger] s1.remotes@[j]).addr);
            assert forall|i: int| 0 <= i < s1.remotes@.len() && i != ri implies exists|i0: int|
                0 <= i0 < s0.remotes@.len() && (#[trigger] s1.remotes@[i]) == s0.remotes@[i0] by {
                assert(0 <= i < s0.remotes@.len() && s1.remotes@[i] == s0.remotes@[i]);
            }
            // The moving endpoint now sits in no member list at all, and
            // every remaining member is still backed by its remote.
            assert forall|j: int| 0 <= j < s1.channels@.len() implies !(
            #[trigger] s1.channels@[j]).spec_has_member(addr) by {
                if s1.channels@[j].spec_has_member(addr) {
                    let k2 = choose|k2: int|
                        0 <= k2 < s1.channels@[j].members@.len() && s1.channels@[j].members@[k2]
                            == addr;
                    if created {
                        assert(s1.channels@[j] == s0.channels@[j]);
                        assert(spec_member_backed_at(s0, j, k2));
                        let iw = choose|i: int|
                            0 <= i < s0.remotes@.len() && (#[trigger] s0.remotes@[i]).addr
                                == s0.channels@[j].members@[k2] && s0.remotes@[i].channel_id
                                == s0.channels@[j].id;
                        assert(s0.spec_has_remote(addr));
                        assert(false);
                    } else {
                        if j != detach.0 {
                            assert(s1.channels@[j] == s0.channels@[j]);
                            assert(spec_member_backed_at(s0, j, k2));
                            let iw = choose|i: int|
                                0 <= i < s0.remotes@.len() && (#[trigger] s0.remotes@[i]).addr
                                    == s0.channels@[j].members@[k2] && s0.remotes@[i].channel_id
                                    == s0.channels@[j].id;
                            assert(iw == ri) by {
                                if iw != ri {
                                    assert(s0.remotes@[iw].addr != s0.remotes@[ri as int].addr);
                                }
                            }
                            assert(s0.channels@[j].id == s0.channels@[detach.0].id);
                            assert(false);
                        } else {
                            let k_orig: int = if k2 < detach.1 {
                                k2
                            } else {
                                k2 + 1
                            };
                            assert(s1.channels@[j].members@ == s0.channels@[j].members@.remove(
                                detach.1,
                            ));
                            assert(s0.channels@[j].members@[k_orig] == addr);
                            assert(s0.channels@[j].members@[detach.1] == addr);
                            assert(k_orig != detach.1);
                            assert(false);
                        }
                    }
                }
            }
            assert forall|j: int, k: int|
                0 <= j < s1.channels@.len() && 0 <= k < s1.channels@[j].members@.len() implies
                #[trigger] spec_member_backed_at(s1, j, k) by {
                let m = s1.channels@[j].members@[k];
                assert(m != addr) by {
                    if m == addr {
                        assert(s1.channels@[j].spec_has_member(addr));
                    }
                }
                if created {
                    assert(s1.channels@[j] == s0.channels@[j]);
                    assert(spec_member_backed_at(s0, j, k));
                    let i0 = choose|i: int|
                        0 <= i < s0.remotes@.len() && (#[trigger] s0.remotes@[i]).addr
                            == s0.channels@[j].members@[k] && s0.remotes@[i].channel_id
                            == s0.channels@[j].id;
                    assert(s1.remotes@[i0] == s0.remotes@[i0]);
                    assert(0 <= i0 < s1.remotes@.len() && s1.remotes@[i0].addr == s1.channels@[
                    j].members@[k] && s1.remotes@[i0].channel_id == s1.channels@[j].id);
                } else {
                    let k_orig: int = if j == detach.0 && k >= detach.1 {
                        k + 1
                    } else {
                        k
                    };
                    assert(s0.channels@[j].members@[k_orig] == m) by {
                        if j == detach.0 {
                            assert(s1.channels@[j].members@ == s0.channels@[
                            j].members@.remove(detach.1));
                        } else {
                            assert(s1.channels@[j] == s0.channels@[j]);
                        }
                    }
                    assert(spec_member_backed_at(s0, j, k_orig));
                    let i0 = choose|i: int|
                        0 <= i < s0.remotes@.len() && (#[trigger] s0.remotes@[i]).addr
                            == s0.channels@[j].members@[k_orig] && s0.remotes@[i].channel_id
                            == s0.channels@[j].id;
                    assert(i0 != ri) by {
                        if i0 == ri {
                            assert(m == addr);
                        }
                    }
                    assert(s1.remotes@[i0] == s0.remotes@[i0]);
                    assert(s1.channels@[j].id == s0.channels@[j].id);
                    assert(0 <= i0 < s1.remotes@.len() && s1.remotes@[i0].addr == s1.channels@[
                    j].members@[k] && s1.remotes@[i0].channel_id == s1.channels@[j].id);
                }
            }
        }
        // Find or create the channel, then take the member slots.
        let ci = match self.find_channel(chan_id) {
            Some(ci) => ci,
            None => {
                let c = Channel::new(chan_id, None);
                self.channels.push(c);
                self.channels.len() - 1
            },
        };
        let ghost s2 = *self;
        proof {
            assert(forall|j: int|
                0 <= j < s1.channels@.len() ==> s2.channels@[j] == s1.channels@[j]);
            assert(s2.remotes == s1.remotes);
            assert forall|j: int| 0 <= j < s2.channels@.len() implies !(
            #[trigger] s2.channels@[j]).spec_has_member(addr) by {
                if j < s1.channels@.len() {
                    assert(s2.channels@[j] == s1.channels@[j]);
                } else {
                    assert(s2.channels@[j].members@.len() == 0);
                    if s2.channels@[j].spec_has_member(addr) {
                        let k2 = choose|k2: int|
                            0 <= k2 < s2.channels@[j].members@.len() && s2.channels@[
                            j].members@[k2] == addr;
                        assert(false);
                    }
                }
            }
            assert forall|j: int, k: int|
                0 <= j < s2.channels@.len() && 0 <= k < s2.channels@[j].members@.len() implies
                #[trigger] spec_member_backed_at(s2, j, k) by {
                assert(j < s1.channels@.len());
                assert(spec_member_backed_at(s1, j, k));
                let i0 = choose|i: int|
                    0 <= i < s1.remotes@.len() && (#[trigger] s1.remotes@[i]).addr
                        == s1.channels@[j].members@[k] && s1.remotes@[i].channel_id
                        == s1.channels@[j].id;
                assert(0 <= i0 < s2.remotes@.len() && s2.remotes@[i0].addr == s2.channels@[
                j].members@[k] && s2.remotes@[i0].channel_id == s2.channels@[j].id);
            }
        }
        match self.find_member(ci, addr) {
            Some(_) => {
                proof {
                    assert(s2.channels@[ci as int].spec_has_member(addr));
                    assert(false);
                }
            },
            None => {
                self.add_member(ci, addr);
            },
        }
        proof {
            let sf = *self;
            assert(sf.channels@[ci as int].spec_has_member(addr));
            assert(forall|j: int|
                0 <= j < sf.channels@.len() && j != ci ==> sf.channels@[j] == s2.channels@[j]);
            // Channel ids are unchanged everywhere (a pushed channel carries
            // the new id, which find_channel showed absent).
            assert(forall|j: int|
                0 <= j < sf.channels@.len() ==> (#[trigger] sf.channels@[j]).id == s2.channels@[
                j].id);
            assert(forall|i: int, j: int|
                0 <= i < j < sf.channels@.len() ==> (#[trigger] sf.channels@[i]).id != (
                #[trigger] sf.channels@[j]).id);
            // Per-channel well-formedness.
            assert(forall|j: int|
                0 <= j < sf.channels@.len() ==> (#[trigger] sf.channels@[j]).wf(
                    sf.config.spec_frame_len(),
                ));
            // Membership of everything but `addr` survived the detach, the
            // possible channel push, and the attach.
            assert(forall|j: int, y: Endpoint|
                0 <= j < s1.channels@.len() && y != addr && #[trigger] s0.channels@[
                j].spec_has_member(y) ==> #[trigger] s1.channels@[j].spec_has_member(y));
            assert forall|y: Endpoint|
                #[trigger] s2.channels@[ci as int].spec_has_member(y) implies sf.channels@[
                ci as int].spec_has_member(y) by {
                assert(forall|k: int|
                    0 <= k < s2.channels@[ci as int].members@.len() ==> sf.channels@[
                    ci as int].members@[k] == s2.channels@[ci as int].members@[k]);
                let k = choose|k: int|
                    0 <= k < s2.channels@[ci as int].members@.len() && s2.channels@[
                    ci as int].members@[k] == y;
                assert(sf.channels@[ci as int].members@[k] == y);
            }
            // Every remote still sits in a channel that lists it.
            assert forall|i: int| 0 <= i < sf.remotes@.len() implies exists|j: int|
                0 <= j < sf.channels@.len() && (#[trigger] sf.channels@[j]).id == (
                #[trigger] sf.remotes@[i]).channel_id && sf.channels@[j].spec_has_member(
                sf.remotes@[i].addr,
            ) by {
                if i == ri {
                    assert(sf.channels@[ci as int].id == chan_id);
                    assert(sf.channels@[ci as int].spec_has_member(addr));
                } else {
                    let i0 = choose|i0: int|
                        0 <= i0 < s0.remotes@.len() && (#[trigger] s1.remotes@[i]) == s0.remotes@[
                        i0];
                    assert(s0.remotes@[i0].addr != addr) by {
                        assert(s1.remotes@[i].addr != addr);
                    }
                    let j0 = choose|j: int|
                        0 <= j < s0.channels@.len() && (#[trigger] s0.channels@[j]).id
                            == s0.remotes@[i0].channel_id && s0.channels@[j].spec_has_member(
                            s0.remotes@[i0].addr,
                        );
                    assert(s1.channels@[j0].spec_has_member(s0.remotes@[i0].addr));
                    assert(s2.channels@[j0] == s1.channels@[j0]);
                    if j0 == ci {
                        assert(sf.channels@[j0].spec_has_member(s0.remotes@[i0].addr));
                    } else {
                        assert(sf.channels@[j0] == s2.channels@[j0]);
                    }
                    assert(sf.channels@[j0].id == sf.remotes@[i].channel_id);
                    assert(sf.channels@[j0].spec_has_member(sf.remotes@[i].addr));
                }
            }
            // Jitter bounds, frame sizes and mask validity carry over.
            assert(forall|i: int|
                0 <= i < sf.remotes@.len() ==> (#[trigger] sf.remotes@[i]).jitter_buffer@.len()
                    <= JITTER_MAX);
            assert(forall|i: int, k: int|
                0 <= i < sf.remotes@.len() && 0 <= k < sf.remotes@[i].jitter_buffer@.len() ==> ((
                #[trigger] sf.remotes@[i].jitter_buffer@[k])@.len()
                    == sf.config.spec_frame_len()));
            assert(forall|i: int|
                0 <= i < sf.remotes@.len() ==> ((#[trigger] sf.remotes@[i]).mask matches Some(m)
                    ==> spec_valid_mask(m@)));
            // Every member is backed: the appended slot by the joining
            // remote, every other by its old backer.
            let last: int = sf.channels@[ci as int].members@.len() - 1;
            assert(sf.channels@[ci as int].members@[last] == addr);
            assert(sf.remotes@[ri as int].addr == addr && sf.remotes@[ri as int].channel_id
                == chan_id);
            assert(sf.channels@[ci as int].id == chan_id);
            assert forall|j: int, k: int|
                0 <= j < sf.channels@.len() && 0 <= k < sf.channels@[j].members@.len() implies
                #[trigger] spec_member_backed_at(sf, j, k) by {
                if j == ci && k == last {
                    assert(0 <= ri < sf.remotes@.len() && sf.remotes@[ri as int].addr
                        == sf.channels@[j].members@[k] && sf.remotes@[ri as int].channel_id
                        == sf.channels@[j].id);
                } else {
                    assert(sf.channels@[j].members@[k] == s2.channels@[j].members@[k]) by {
                        if j == ci {
                            assert(sf.channels@[ci as int].members@ == s2.channels@[
                            ci as int].members@.push(addr));
                        }
                    }
                    assert(0 <= k < s2.channels@[j].members@.len());
                    assert(spec_member_backed_at(s2, j, k));
                    let i0 = choose|i: int|
                        0 <= i < s2.remotes@.len() && (#[trigger] s2.remotes@[i]).addr
                            == s2.channels@[j].members@[k] && s2.remotes@[i].channel_id
                            == s2.channels@[j].id;
                    assert(sf.remotes@[i0] == s2.remotes@[i0]);
                    assert(0 <= i0 < sf.remotes@.len() && sf.remotes@[i0].addr == sf.channels@[
                    j].members@[k] && sf.remotes@[i0].channel_id == sf.channels@[j].id);
                }
            }
            // Only the target channel lists the endpoint.
            assert forall|j: int|
                0 <= j < sf.channels@.len() && (#[trigger] sf.channels@[j]).id != chan_id
                    implies !sf.channels@[j].spec_has_member(addr) by {
                assert(j != ci);
                assert(sf.channels@[j] == s2.channels@[j]);
            }
            // The fresh member slot is silent with a cleared filter.
            assert(is_zero_frame(sf.channels@[ci as int].inputs@[last]@));
            assert(sf.channels@[ci as int].filters@[last] == (0u32, 0u32));
        }
        if created {
            JoinResult::Created
        } else {
            JoinResult::Moved
        }
    }

    /// The channel index a remote currently belongs to.
    fn channels_of_remote(&self, ri: usize) -> (r: Option<usize>)
        requires
            ri < self.remotes@.len(),
        ensures
            match r {
                Some(ci) => ci < self.channels@.len() && self.channels@[ci as int].id
                    == self.remotes@[ri as int].channel_id,
                None => forall|j: int|
                    0 <= j < self.channels@.len() ==> (#[trigger] self.channels@[j]).id
                        != self.remotes@[ri as int].channel_id,
            },
    {
        let id = self.remotes[ri].channel_id;
        self.find_channel(id)
    }
}

/// Removing one occurrence of `x` keeps every other value's membership.
pub proof fn lemma_remove_keeps_others<T>(s: Seq<T>, k: int, x: T)
    requires
        0 <= k < s.len(),
        s[k] == x,
    ensures
        forall|y: T| y != x ==> (s.remove(k).contains(y) <==> s.contains(y)),
        forall|y: T| s.remove(k).contains(y) ==> s.contains(y),
{
    let t = s.remove(k);
    assert forall|y: T| t.contains(y) implies s.contains(y) by {
        let i = choose|i: int| 0 <= i < t.len() && t[i] == y;
        if i < k {
            assert(s[i] == y);
        } else {
            assert(s[i + 1] == y);
        }
    }
    assert forall|y: T| y != x && s.contains(y) implies t.contains(y) by {
        let i = choose|i: int| 0 <= i < s.len() && s[i] == y;
        if i < k {
            assert(t[i] == y);
        } else {
            assert(i != k);
            assert(t[i - 1] == y);
        }
    }
}


impl ServerState {
    /// Removes a departing peer and its membership, input-frame and filter
    /// slots. Unknown endpoints are ignored.
    pub fn handle_eof(&mut self, addr: Endpoint)
        requires
            old(self).wf(),
        ensures
            final(self).wf(),
            final(self).config == old(self).config,
            final(self).intake == old(self).intake,
            final(self).consoles == old(self).consoles,
            final(self).console_password == old(self).console_password,
            !final(self).spec_has_remote(addr),
            forall|y: Endpoint|
                #[trigger] final(self).spec_has_remote(y) ==> old(self).spec_has_remote(y),
            forall|j: int|
                0 <= j < final(self).channels@.len() ==> !(#[trigger] final(self).channels@[j]).spec_has_member(addr),
            old(self).spec_has_remote(addr) ==> exists|i0: int|
                0 <= i0 < old(self).remotes@.len() && (#[trigger] old(self).remotes@[i0]).addr
                    == addr && final(self).remotes@ == old(self).remotes@.remove(i0),
            final(self).channels@.len() == old(self).channels@.len(),
            forall|j: int|
                0 <= j < final(self).channels@.len() ==> (#[trigger] final(self).channels@[j]).id
                    == old(self).channels@[j].id && final(self).channels@[j].name == old(self).channels@[j].name,
            forall|j: int, y: Endpoint|
                0 <= j < final(self).channels@.len() && y != addr ==> (#[trigger] final(self).channels@[j].spec_has_member(y) <==> #[trigger] old(self).channels@[j].spec_has_member(y)),
            old(self).spec_has_remote(addr) ==> final(self).remotes@.len() == old(self).remotes@.len() - 1,
            !old(self).spec_has_remote(addr) ==> *final(self) == *old(self),
    {
        let ghost s0 = *self;
        let ghost mut detach: (int, int) = (0, 0);
        match self.find_remote(addr) {
            Some(ri) => {
                match self.channels_of_remote(ri) {
                    Some(ci) => {
                        match self.find_member(ci, addr) {
                            Some(k) => {
                                proof {
                                    detach = (ci as int, k as int);
                                    lemma_remove_keeps_others(
                                        self.channels@[ci as int].members@,
                                        k as int,
                                        addr,
                                    );
                                }
                                self.remove_member_at(ci, k);
                            },
                            None => {
                                proof {
                                    let j = choose|j: int|
                                        0 <= j < self.channels@.len() && (
                                        #[trigger] self.channels@[j]).id == self.remotes@[
                                        ri as int].channel_id && self.channels@[
                                        j].spec_has_member(self.remotes@[ri as int].addr);
                                    assert(j == ci) by {
                                        if j != ci {
                                            assert(self.channels@[j].id == self.channels@[
                                            ci as int].id);
                                        }
                                    }
                                    assert(false);
                                }
                            },
                        }
                    },
                    None => {
                        proof {
                            let j = choose|j: int|
                                0 <= j < self.channels@.len() && (#[trigger] self.channels@[
                                j]).id == self.remotes@[ri as int].channel_id && self.channels@[
                                j].spec_has_member(self.remotes@[ri as int].addr);
                            assert(false);
                        }
                    },
                }
                self.remotes.remove(ri);
                proof {
                    let sf = *self;
                    assert(sf.remotes@ =~= s0.remotes@.remove(ri as int));
                    lemma_remove_keeps_others(s0.remotes@.map_values(|r: Remote| r.addr), ri as int, addr);
                    assert(s0 == *old(self));
                    assert forall|y: Endpoint| #[trigger] sf.spec_has_remote(y) implies old(self).spec_has_remote(y) by {
                        let i = choose|i: int|
                            0 <= i < sf.remotes@.len() && (#[trigger] sf.remotes@[i]).addr == y;
                        let i0: int = if i < ri {
                            i
                        } else {
                            i + 1
                        };
                        assert(sf.remotes@[i] == old(self).remotes@[i0]);
                        assert((old(self).remotes@[i0]).addr == y);
                    }
                    assert forall|i: int| 0 <= i < sf.remotes@.len() implies (
                    #[trigger] sf.remotes@[i]).addr != addr by {
                        if i < ri {
                            assert(sf.remotes@[i] == s0.remotes@[i]);
                        } else {
                            assert(sf.remotes@[i] == s0.remotes@[i + 1]);
                        }
                    }
                    assert forall|i: int, j: int| 0 <= i < j < sf.remotes@.len() implies (
                    #[trigger] sf.remotes@[i]).addr != (#[trigger] sf.remotes@[j]).addr by {
                        let i0: int = if i < ri { i } else { i + 1 };
                        let j0: int = if j < ri { j } else { j + 1 };
                        assert(sf.remotes@[i] == s0.remotes@[i0]);
                        assert(sf.remotes@[j] == s0.remotes@[j0]);
                    }
                    assert forall|i: int| 0 <= i < sf.remotes@.len() implies exists|j: int|
                        0 <= j < sf.channels@.len() && (#[trigger] sf.channels@[j]).id == (
                        #[trigger] sf.remotes@[i]).channel_id && sf.channels@[j].spec_has_member(
                        sf.remotes@[i].addr,
                    ) by {
                        let i0: int = if i < ri { i } else { i + 1 };
                        assert(sf.remotes@[i] == s0.remotes@[i0]);
                        let j0 = choose|j: int|
                            0 <= j < s0.channels@.len() && (#[trigger] s0.channels@[j]).id
                                == s0.remotes@[i0].channel_id && s0.channels@[j].spec_has_member(
                                s0.remotes@[i0].addr,
                            );
                        assert(sf.channels@[j0].spec_has_member(s0.remotes@[i0].addr));
                        assert(sf.channels@[j0].id == s0.channels@[j0].id);
                    }
                    if sf.spec_has_remote(addr) {
                        let w = choose|i: int|
                            0 <= i < sf.remotes@.len() && (#[trigger] sf.remotes@[i]).addr == addr;
                        assert(false);
                    }
                    // The departed endpoint sits in no member list, and every
                    // remaining member keeps its backing remote.
                    assert forall|j: int| 0 <= j < sf.channels@.len() implies !(
                    #[trigger] sf.channels@[j]).spec_has_member(addr) by {
                        if sf.channels@[j].spec_has_member(addr) {
                            let k2 = choose|k2: int|
                                0 <= k2 < sf.channels@[j].members@.len() && sf.channels@[
                                j].members@[k2] == addr;
                            if j != detach.0 {
                                assert(sf.channels@[j] == s0.channels@[j]);
                                assert(spec_member_backed_at(s0, j, k2));
                                let iw = choose|i: int|
                                    0 <= i < s0.remotes@.len() && (#[trigger] s0.remotes@[
                                    i]).addr == s0.channels@[j].members@[k2] && s0.remotes@[
                                    i].channel_id == s0.channels@[j].id;
                                assert(iw == ri) by {
                                    if iw != ri {
                                        assert(s0.remotes@[iw].addr != s0.remotes@[
                                        ri as int].addr);
                                    }
                                }
                                assert(s0.channels@[j].id == s0.channels@[detach.0].id);
                                assert(false);
                            } else {
                                let k_orig: int = if k2 < detach.1 {
                                    k2
                                } else {
                                    k2 + 1
                                };
                                assert(sf.channels@[j].members@ == s0.channels@[
                                j].members@.remove(detach.1));
                                assert(s0.channels@[j].members@[k_orig] == addr);
                                assert(s0.channels@[j].members@[detach.1] == addr);
                                assert(false);
                            }
                        }
                    }
                    assert forall|j: int, k: int|
                        0 <= j < sf.channels@.len() && 0 <= k < sf.channels@[j].members@.len()
                        implies #[trigger] spec_member_backed_at(sf, j, k) by {
                        let m = sf.channels@[j].members@[k];
                        assert(m != addr) by {
                            if m == addr {
                                assert(sf.channels@[j].spec_has_member(addr));
                            }
                        }
                        let k_orig: int = if j == detach.0 && k >= detach.1 {
                            k + 1
                        } else {
                            k
                        };
                        assert(s0.channels@[j].members@[k_orig] == m) by {
                            if j == detach.0 {
                                assert(sf.channels@[j].members@ == s0.channels@[
                                j].members@.remove(detach.1));
                            } else {
                                assert(sf.channels@[j] == s0.channels@[j]);
                            }
                        }
                        assert(spec_member_backed_at(s0, j, k_orig));
                        let i0 = choose|i: int|
                            0 <= i < s0.remotes@.len() && (#[trigger] s0.remotes@[i]).addr
                                == s0.channels@[j].members@[k_orig] && s0.remotes@[i].channel_id
                                == s0.channels@[j].id;
                        assert(i0 != ri) by {
                            if i0 == ri {
                                assert(m == addr);
                            }
                        }
                        let i1: int = if i0 < ri {
                            i0
                        } else {
                            i0 - 1
                        };
                        assert(sf.remotes@[i1] == s0.remotes@[i0]);
                        assert(0 <= i1 < sf.remotes@.len() && sf.remotes@[i1].addr
                            == sf.channels@[j].members@[k] && sf.remotes@[i1].channel_id
                            == sf.channels@[j].id);
                    }
                    // The removal index names the departing remote.
                    assert(exists|i0: int|
                        0 <= i0 < s0.remotes@.len() && (#[trigger] s0.remotes@[i0]).addr == addr
                            && sf.remotes@ == s0.remotes@.remove(i0)) by {
                        assert(0 <= ri < s0.remotes@.len() && s0.remotes@[ri as int].addr == addr
                            && sf.remotes@ == s0.remotes@.remove(ri as int));
                    }
                    // Membership of every other endpoint is untouched.
                    assert forall|j: int, y: Endpoint|
                        0 <= j < sf.channels@.len() && y != addr implies (
                        #[trigger] sf.channels@[j].spec_has_member(y)
                            <==> #[trigger] s0.channels@[j].spec_has_member(y)) by {
                        if j == detach.0 {
                            assert(sf.channels@[j].members@ == s0.channels@[j].members@.remove(
                                detach.1,
                            ));
                            lemma_remove_keeps_others(
                                s0.channels@[j].members@,
                                detach.1,
                                addr,
                            );
                        } else {
                            assert(sf.channels@[j] == s0.channels@[j]);
                        }
                    }
                }
            },
            None => {
                proof {
                    // An unknown endpoint is listed nowhere: every member is
                    // backed by a live remote, and none carries this address.
                    assert forall|j: int| 0 <= j < self.channels@.len() implies !(
                    #[trigger] self.channels@[j]).spec_has_member(addr) by {
                        if self.channels@[j].spec_has_member(addr) {
                            let k2 = choose|k2: int|
                                0 <= k2 < self.channels@[j].members@.len() && self.channels@[
                                j].members@[k2] == addr;
                            assert(spec_member_backed_at(*self, j, k2));
                            let iw = choose|i: int|
                                0 <= i < self.remotes@.len() && (#[trigger] self.remotes@[
                                i]).addr == self.channels@[j].members@[k2] && self.remotes@[
                                i].channel_id == self.channels@[j].id;
                            assert(self.spec_has_remote(addr));
                            assert(false);
                        }
                    }
                }
            },
        }
    }

    /// Queues one encoded audio frame for the next tick and refreshes the
    /// sender's liveness. Frames from unknown endpoints are ignored; when the
    /// intake queue is full the newest frame is dropped.
    pub fn handle_audio(&mut self, addr: Endpoint, data: Vec<u8>, now_ms: u64) -> (accepted:
        bool)
        requires
            old(self).wf(),
        ensures
            final(self).wf(),
            final(self).config == old(self).config,
            accepted <==> (old(self).spec_has_remote(addr) && old(self).intake@.len() < old(self).config.max_users),
            accepted ==> final(self).intake@ == old(self).intake@.push((addr, data)),
            !accepted ==> final(self).intake == old(self).intake,
            final(self).remotes@.len() == old(self).remotes@.len(),
            forall|j: int|
                0 <= j < final(self).remotes@.len() && (#[trigger] final(self).remotes@[j]).addr
                    != addr ==> final(self).remotes@[j] == old(self).remotes@[j],
            old(self).spec_has_remote(addr) ==> forall|j: int|
                0 <= j < final(self).remotes@.len() && (#[trigger] final(self).remotes@[j]).addr
                    == addr ==> final(self).remotes@[j].last_active_ms == now_ms && final(self).remotes@[j].channel_id == old(self).remotes@[j].channel_id && final(self).remotes@[j].mask == old(self).remotes@[j].mask && final(self).remotes@[j].muted
                    == old(self).remotes@[j].muted && final(self).remotes@[j].deafened == old(self).remotes@[j].deafened && final(self).remotes@[j].jitter_buffer == old(self).remotes@[j].jitter_buffer,
            final(self).channels == old(self).channels,
            final(self).consoles == old(self).consoles,
            !old(self).spec_has_remote(addr) ==> *final(self) == *old(self),
    {
        let ghost s0 = *self;
        match self.find_remote(addr) {
            Some(ri) => {
                let mut r = self.remotes.remove(ri);
                r.last_active_ms = now_ms;
                self.remotes.insert(ri, r);
                proof {
                    let s1 = *self;
                    assert(s1.remotes@ =~= s0.remotes@.update(ri as int, s1.remotes@[ri as int]));
                    assert(s1.wf()) by {
                        assert forall|i: int| 0 <= i < s1.remotes@.len() implies exists|j: int|
                            0 <= j < s1.channels@.len() && (#[trigger] s1.channels@[j]).id == (
                            #[trigger] s1.remotes@[i]).channel_id
                                && s1.channels@[j].spec_has_member(s1.remotes@[i].addr) by {
                            if i == ri {
                                let j0 = choose|j: int|
                                    0 <= j < s0.channels@.len() && (#[trigger] s0.channels@[
                                    j]).id == s0.remotes@[ri as int].channel_id && s0.channels@[
                                    j].spec_has_member(s0.remotes@[ri as int].addr);
                                assert(s1.channels@[j0].spec_has_member(s1.remotes@[i].addr));
                            } else {
                                assert(s1.remotes@[i] == s0.remotes@[i]);
                                let j0 = choose|j: int|
                                    0 <= j < s0.channels@.len() && (#[trigger] s0.channels@[
                                    j]).id == s0.remotes@[i].channel_id && s0.channels@[
                                    j].spec_has_member(s0.remotes@[i].addr);
                                assert(s1.channels@[j0].spec_has_member(s1.remotes@[i].addr));
                            }
                        }
                    assert(s1.channels == s0.channels);
                    assert(forall|i: int|
                        0 <= i < s1.remotes@.len() ==> (#[trigger] s1.remotes@[i]).addr
                            == s0.remotes@[i].addr && s1.remotes@[i].channel_id == s0.remotes@[
                        i].channel_id);
                    lemma_members_backed_preserved(s0, s1);
                    }
                }
                let ghost s1g = *self;
                if self.intake.len() < self.config.max_users {
                    self.intake.push((addr, data));
                    proof {
                        lemma_members_backed_preserved(s1g, *self);
                    }
                    true
                } else {
                    false
                }
            },
            None => false,
        }
    }

    /// Takes the oldest queued audio frame, if any.
    pub fn pop_intake(&mut self) -> (r: Option<(Endpoint, Vec<u8>)>)
        requires
            old(self).wf(),
        ensures
            final(self).wf(),
            final(self).config == old(self).config,
            final(self).remotes == old(self).remotes,
            final(self).channels == old(self).channels,
            old(self).intake@.len() == 0 ==> r is None && final(self).intake == old(self).intake,
            old(self).intake@.len() > 0 ==> (r matches Some(e) && e == old(self).intake@[0]
                && final(self).intake@ == old(self).intake@.skip(1)),
    {
        if self.intake.len() > 0 {
            let e = self.intake.remove(0);
            proof {
                assert(self.intake@ =~= old(self).intake@.skip(1));
                lemma_members_backed_preserved(*old(self), *self);
            }
            Some(e)
        } else {
            None
        }
    }

    /// Buffers one decoded frame for its sender's next ticks. The frame is
    /// accepted only from a known endpoint, only at the configured frame
    /// length, and only while the jitter buffer has room — so the buffer
    /// never exceeds its bound.
    pub fn deposit_decoded_frame(
        &mut self,
        addr: Endpoint,
        frame: Vec<u32>,
        decoded_samples: usize,
    ) -> (accepted: bool)
        requires
            old(self).wf(),
        ensures
            final(self).wf(),
            final(self).config == old(self).config,
            final(self).channels == old(self).channels,
            final(self).intake == old(self).intake,
            accepted <==> (old(self).spec_has_remote(addr) && decoded_samples == old(self).config.spec_framesize() && frame@.len() == old(self).config.spec_frame_len()
                && (forall|i: int|
                0 <= i < old(self).remotes@.len() && (#[trigger] old(self).remotes@[i]).addr
                    == addr ==> old(self).remotes@[i].jitter_buffer@.len() < JITTER_MAX)),
            accepted ==> forall|i: int|
                0 <= i < final(self).remotes@.len() && (#[trigger] final(self).remotes@[i]).addr
                    == addr ==> final(self).remotes@[i].jitter_buffer@ == old(self).remotes@[
                i].jitter_buffer@.push(frame),
            !accepted ==> *final(self) == *old(self),
    {
        let ghost s0 = *self;
        let framesize = self.config.get_framesize();
        match self.find_remote(addr) {
            Some(ri) => {
                if decoded_samples != framesize || frame.len() != framesize * 2 {
                    return false;
                }
                if self.remotes[ri].jitter_buffer.len() >= JITTER_MAX {
                    return false;
                }
                let mut r = self.remotes.remove(ri);
                r.jitter_buffer.push(frame);
                self.remotes.insert(ri, r);
                proof {
                    let s1 = *self;
                    assert(s1.remotes@ =~= s0.remotes@.update(ri as int, s1.remotes@[ri as int]));
                    assert forall|i: int| 0 <= i < s1.remotes@.len() implies exists|j: int|
                        0 <= j < s1.channels@.len() && (#[trigger] s1.channels@[j]).id == (
                        #[trigger] s1.remotes@[i]).channel_id && s1.channels@[j].spec_has_member(
                        s1.remotes@[i].addr,
                    ) by {
                        let i0 = i;
                        assert(s1.remotes@[i].channel_id == s0.remotes@[i0].channel_id
                            && s1.remotes@[i].addr == s0.remotes@[i0].addr);
                        let j0 = choose|j: int|
                            0 <= j < s0.channels@.len() && (#[trigger] s0.channels@[j]).id
                                == s0.remotes@[i0].channel_id && s0.channels@[j].spec_has_member(
                                s0.remotes@[i0].addr,
                            );
                        assert(s1.channels@[j0].spec_has_member(s1.remotes@[i].addr));
                    }
                    assert(s1.channels == s0.channels);
                    assert(forall|i: int|
                        0 <= i < s1.remotes@.len() ==> (#[trigger] s1.remotes@[i]).addr
                            == s0.remotes@[i].addr && s1.remotes@[i].channel_id == s0.remotes@[
                        i].channel_id);
                    lemma_members_backed_preserved(s0, s1);
                }
                true
            },
            None => false,
        }
    }

    /// Writes back one member's DC-filter state after the caller's filter
    /// pass.
    pub fn set_filter_state(&mut self, ci: usize, k: usize, state: (u32, u32))
        requires
            old(self).wf(),
            ci < old(self).channels@.len(),
            k < old(self).channels@[ci as int].filters@.len(),
        ensures
            final(self).wf(),
            final(self).config == old(self).config,
            final(self).remotes == old(self).remotes,
            final(self).intake == old(self).intake,
            final(self).channels@.len() == old(self).channels@.len(),
            final(self).channels@[ci as int].filters@ == old(self).channels@[
                ci as int
            ].filters@.update(k as int, state),
            final(self).channels@[ci as int].members == old(self).channels@[ci as int].members,
            final(self).channels@[ci as int].inputs == old(self).channels@[ci as int].inputs,
            final(self).channels@[ci as int].id == old(self).channels@[ci as int].id,
            forall|j: int|
                0 <= j < old(self).channels@.len() && j != ci ==> final(self).channels@[j] == old(self).channels@[j],
    {
        let ghost s0 = *self;
        let mut c = self.channels.remove(ci);
        c.filters.remove(k);
        c.filters.insert(k, state);
        self.channels.insert(ci, c);
        proof {
            let sf = *self;
            assert(sf.channels@ =~= s0.channels@.update(ci as int, sf.channels@[ci as int]));
            assert(sf.channels@[ci as int].filters@ =~= s0.channels@[ci as int].filters@.update(
                k as int,
                state,
            ));
            assert forall|i: int| 0 <= i < sf.remotes@.len() implies exists|j: int|
                0 <= j < sf.channels@.len() && (#[trigger] sf.channels@[j]).id == (
                #[trigger] sf.remotes@[i]).channel_id && sf.channels@[j].spec_has_member(
                sf.remotes@[i].addr,
            ) by {
                let j0 = choose|j: int|
                    0 <= j < s0.channels@.len() && (#[trigger] s0.channels@[j]).id == s0.remotes@[
                    i].channel_id && s0.channels@[j].spec_has_member(s0.remotes@[i].addr);
                assert(sf.channels@[j0].id == s0.channels@[j0].id);
                assert(sf.channels@[j0].members == s0.channels@[j0].members);
                assert(sf.channels@[j0].spec_has_member(sf.remotes@[i].addr));
            }
            assert(forall|j2: int|
                0 <= j2 < sf.channels@.len() ==> (#[trigger] sf.channels@[j2]).members
                    == s0.channels@[j2].members && sf.channels@[j2].id == s0.channels@[j2].id);
            lemma_members_backed_preserved(s0, sf);
        }
    }
}


/// A frame of pure silence.
pub open spec fn is_zero_frame(f: Seq<u32>) -> bool {
    forall|x: int| 0 <= x < f.len() ==> f[x] == 0u32
}

/// Everything about a remote except its jitter buffer.
pub open spec fn same_remote_shell(a: Remote, b: Remote) -> bool {
    &&& a.addr == b.addr
    &&& a.channel_id == b.channel_id
    &&& a.last_active_ms == b.last_active_ms
    &&& a.mask == b.mask
    &&& a.muted == b.muted
    &&& a.deafened == b.deafened
}

/// Everything about a channel except its input frames.
pub open spec fn same_channel_shell(a: Channel, b: Channel) -> bool {
    &&& a.id == b.id
    &&& a.name == b.name
    &&& a.members == b.members
    &&& a.filters == b.filters
    &&& a.inputs@.len() == b.inputs@.len()
}

/// The remote's contribution this tick reached its slot: the channel it
/// belongs to holds, at the remote's member index, the front of its old
/// jitter buffer — or silence if the buffer was empty.
pub open spec fn spec_frame_placed(s: ServerState, r_old: Remote, frame_len: int) -> bool {
    exists|j: int, k: int|
        0 <= j < s.channels@.len() && (#[trigger] s.channels@[j]).id == r_old.channel_id && 0 <= k
            < s.channels@[j].members@.len() && s.channels@[j].members@[k] == r_old.addr && (
        #[trigger] s.channels@[j].inputs@[k])@ == (if r_old.jitter_buffer@.len() > 0 {
            r_old.jitter_buffer@[0]@
        } else {
            Seq::new(frame_len as nat, |x: int| 0u32)
        })
}

impl ServerState {
    /// One tick's frame advancement: every remote's oldest buffered frame
    /// (or silence) becomes its current input frame in its channel, and
    /// leaves the jitter buffer.
    #[verifier::rlimit(80)]
    pub fn advance_frames(&mut self)
        requires
            old(self).wf(),
        ensures
            final(self).wf(),
            final(self).config == old(self).config,
            final(self).intake == old(self).intake,
            final(self).consoles == old(self).consoles,
            final(self).remotes@.len() == old(self).remotes@.len(),
            forall|i: int|
                0 <= i < final(self).remotes@.len() ==> same_remote_shell(
                    #[trigger] final(self).remotes@[i],
                    old(self).remotes@[i],
                ),
            forall|i: int|
                0 <= i < final(self).remotes@.len() ==> (#[trigger] final(self).remotes@[i]).jitter_buffer@ == (if old(self).remotes@[i].jitter_buffer@.len()
                    > 0 {
                    old(self).remotes@[i].jitter_buffer@.skip(1)
                } else {
                    old(self).remotes@[i].jitter_buffer@
                }),
            final(self).channels@.len() == old(self).channels@.len(),
            forall|j: int|
                0 <= j < final(self).channels@.len() ==> same_channel_shell(
                    #[trigger] final(self).channels@[j],
                    old(self).channels@[j],
                ),
            forall|i: int|
                0 <= i < old(self).remotes@.len() ==> spec_frame_placed(
                    *final(self),
                    #[trigger] old(self).remotes@[i],
                    old(self).config.spec_frame_len(),
                ),
    {
        let ghost s0 = *self;
        let frame_len = self.config.get_framesize() * 2;
        let n = self.remotes.len();
        let mut i: usize = 0;
        while i < n
            invariant
                self.wf(),
                s0.wf(),
                s0 == *old(self),
                frame_len == s0.config.spec_frame_len(),
                n == s0.remotes@.len(),
                i <= n,
                self.config == s0.config,
                self.intake == s0.intake,
                self.consoles == s0.consoles,
                self.remotes@.len() == n,
                forall|t: int|
                    0 <= t < n ==> same_remote_shell(#[trigger] self.remotes@[t], s0.remotes@[t]),
                forall|t: int|
                    i <= t < n ==> (#[trigger] self.remotes@[t]) == s0.remotes@[t],
                forall|t: int|
                    0 <= t < i ==> (#[trigger] self.remotes@[t]).jitter_buffer@ == (if s0.remotes@[
                        t
                    ].jitter_buffer@.len() > 0 {
                        s0.remotes@[t].jitter_buffer@.skip(1)
                    } else {
                        s0.remotes@[t].jitter_buffer@
                    }),
                self.channels@.len() == s0.channels@.len(),
                forall|j: int|
                    0 <= j < self.channels@.len() ==> same_channel_shell(
                        #[trigger] self.channels@[j],
                        s0.channels@[j],
                    ),
                forall|t: int|
                    0 <= t < i ==> spec_frame_placed(
                        *self,
                        #[trigger] s0.remotes@[t],
                        frame_len as int,
                    ),
            decreases n - i,
        {
            let ghost s_iter = *self;
            let mut r = self.remotes.remove(i);
            let ghost r_old = r;
            let frame: Vec<u32> = if r.jitter_buffer.len() > 0 {
                r.jitter_buffer.remove(0)
            } else {
                zero_frame(frame_len)
            };
            proof {
                if r_old.jitter_buffer@.len() > 0 {
                    assert(r.jitter_buffer@ =~= r_old.jitter_buffer@.skip(1));
                }
                assert(frame@ =~= (if s0.remotes@[i as int].jitter_buffer@.len() > 0 {
                    s0.remotes@[i as int].jitter_buffer@[0]@
                } else {
                    Seq::new(frame_len as nat, |x: int| 0u32)
                }));
            }
            let addr = r.addr;
            let chan_id = r.channel_id;
            self.remotes.insert(i, r);
            proof {
                assert(self.remotes@ =~= s_iter.remotes@.update(i as int, self.remotes@[i as int]));
            }
            let ci = match self.find_channel(chan_id) {
                Some(ci) => ci,
                None => {
                    proof {
                        let j = choose|j: int|
                            0 <= j < self.channels@.len() && (#[trigger] self.channels@[j]).id
                                == self.remotes@[i as int].channel_id && self.channels@[
                            j].spec_has_member(self.remotes@[i as int].addr);
                        assert(false);
                    }
                    0
                },
            };
            let k = match self.find_member(ci, addr) {
                Some(k) => k,
                None => {
                    proof {
                        let j = choose|j: int|
                            0 <= j < self.channels@.len() && (#[trigger] self.channels@[j]).id
                                == self.remotes@[i as int].channel_id && self.channels@[
                            j].spec_has_member(self.remotes@[i as int].addr);
                        assert(j == ci) by {
                            assert(self.channels@[j].id == self.channels@[ci as int].id);
                            if j != ci {
                                assert(false);
                            }
                        }
                        assert(false);
                    }
                    0
                },
            };
            let ghost s_mid = *self;
            let mut c = self.channels.remove(ci);
            c.inputs.remove(k);
            c.inputs.insert(k, frame);
            self.channels.insert(ci, c);
            proof {
                let s_new = *self;
                assert(s_new.channels@ =~= s_mid.channels@.update(
                    ci as int,
                    s_new.channels@[ci as int],
                ));
                assert(s_new.channels@[ci as int].inputs@ =~= s_mid.channels@[
                    ci as int
                ].inputs@.update(k as int, frame));
                // The freshly placed slot carries this remote's frame.
                assert(spec_frame_placed(s_new, s0.remotes@[i as int], frame_len as int)) by {
                    assert(s_new.channels@[ci as int].id == s0.remotes@[i as int].channel_id);
                    assert(s_new.channels@[ci as int].members@[k as int] == s0.remotes@[
                        i as int
                    ].addr);
                    assert(s_new.channels@[ci as int].inputs@[k as int] == frame);
                }
                // Slots already placed belong to other members and are intact.
                assert forall|t: int| 0 <= t < i implies spec_frame_placed(
                    s_new,
                    #[trigger] s0.remotes@[t],
                    frame_len as int,
                ) by {
                    let (j2, k2): (int, int) = choose|j2: int, k2: int|
                        0 <= j2 < s_mid.channels@.len() && (#[trigger] s_mid.channels@[j2]).id
                            == s0.remotes@[t].channel_id && 0 <= k2 < s_mid.channels@[
                        j2].members@.len() && s_mid.channels@[j2].members@[k2] == s0.remotes@[
                        t].addr && (#[trigger] s_mid.channels@[j2].inputs@[k2])@ == (if s0.remotes@[
                            t
                        ].jitter_buffer@.len() > 0 {
                            s0.remotes@[t].jitter_buffer@[0]@
                        } else {
                            Seq::new(frame_len as nat, |x: int| 0u32)
                        });
                    assert(s0.remotes@[t].addr != s0.remotes@[i as int].addr);
                    if j2 == ci {
                        assert(s_mid.channels@[j2].members@[k2] != s_mid.channels@[
                            ci as int
                        ].members@[k as int]);
                        assert(k2 != k);
                        assert(s_new.channels@[j2].inputs@[k2] == s_mid.channels@[j2].inputs@[k2]);
                    } else {
                        assert(s_new.channels@[j2] == s_mid.channels@[j2]);
                    }
                    assert(s_new.channels@[j2].id == s0.remotes@[t].channel_id);
                    assert(s_new.channels@[j2].members@[k2] == s0.remotes@[t].addr);
                }
                // Well-formedness survives the slot update.
                assert forall|j2: int| 0 <= j2 < s_new.channels@.len() implies (
                #[trigger] s_new.channels@[j2]).wf(s_new.config.spec_frame_len()) by {
                    if j2 == ci {
                        assert(s_new.channels@[j2].inputs@.len() == s_mid.channels@[
                            j2
                        ].inputs@.len());
                        assert(forall|x: int|
                            0 <= x < s_new.channels@[j2].inputs@.len() && x != k ==> (
                            #[trigger] s_new.channels@[j2].inputs@[x]) == s_mid.channels@[
                            j2].inputs@[x]);
                    }
                }
                assert forall|t: int| 0 <= t < s_new.remotes@.len() implies exists|j2: int|
                    0 <= j2 < s_new.channels@.len() && (#[trigger] s_new.channels@[j2]).id == (
                    #[trigger] s_new.remotes@[t]).channel_id && s_new.channels@[
                j2].spec_has_member(s_new.remotes@[t].addr) by {
                    let j0 = choose|j2: int|
                        0 <= j2 < s_mid.channels@.len() && (#[trigger] s_mid.channels@[j2]).id
                            == s_mid.remotes@[t].channel_id && s_mid.channels@[
                        j2].spec_has_member(s_mid.remotes@[t].addr);
                    assert(s_new.channels@[j0].id == s_mid.channels@[j0].id);
                    assert(s_new.channels@[j0].members == s_mid.channels@[j0].members);
                    assert(s_new.channels@[j0].spec_has_member(s_new.remotes@[t].addr));
                }
                assert(forall|j2: int|
                    0 <= j2 < s_new.channels@.len() ==> (#[trigger] s_new.channels@[j2]).members
                        == s_iter.channels@[j2].members && s_new.channels@[j2].id
                        == s_iter.channels@[j2].id);
                assert(forall|t: int|
                    0 <= t < s_new.remotes@.len() ==> (#[trigger] s_new.remotes@[t]).addr
                        == s_iter.remotes@[t].addr && s_new.remotes@[t].channel_id
                        == s_iter.remotes@[t].channel_id);
                lemma_members_backed_preserved(s_iter, s_new);
            }
            i = i + 1;
        }
    }

    /// Zeroes every member's input frame for the next tick; silence is
    /// always a present frame of zeros, never a missing slot.
    #[verifier::rlimit(60)]
    pub fn clear_inputs(&mut self)
        requires
            old(self).wf(),
        ensures
            final(self).wf(),
            final(self).config == old(self).config,
            final(self).remotes == old(self).remotes,
            final(self).intake == old(self).intake,
            final(self).consoles == old(self).consoles,
            final(self).channels@.len() == old(self).channels@.len(),
            forall|j: int|
                0 <= j < final(self).channels@.len() ==> same_channel_shell(
                    #[trigger] final(self).channels@[j],
                    old(self).channels@[j],
                ),
            forall|j: int, k: int|
                0 <= j < final(self).channels@.len() && 0 <= k < final(self).channels@[
                    j
                ].inputs@.len() ==> is_zero_frame((#[trigger] final(self).channels@[j].inputs@[k])@),
    {
        let ghost s0 = *self;
        let frame_len = self.config.get_framesize() * 2;
        let n = self.channels.len();
        let mut j: usize = 0;
        while j < n
            invariant
                self.wf(),
                s0.wf(),
                s0 == *old(self),
                frame_len == s0.config.spec_frame_len(),
                n == s0.channels@.len(),
                j <= n,
                self.config == s0.config,
                self.remotes == s0.remotes,
                self.intake == s0.intake,
                self.consoles == s0.consoles,
                self.channels@.len() == n,
                forall|t: int|
                    0 <= t < n ==> same_channel_shell(
                        #[trigger] self.channels@[t],
                        s0.channels@[t],
                    ),
                forall|t: int, k: int|
                    0 <= t < j && 0 <= k < self.channels@[t].inputs@.len() ==> is_zero_frame((
                    #[trigger] self.channels@[t].inputs@[k])@),
            decreases n - j,
        {
            let ghost s_iter = *self;
            let mut c = self.channels.remove(j);
            let members_len = c.members.len();
            let mut fresh: Vec<Vec<u32>> = Vec::new();
            let mut k: usize = 0;
            while k < members_len
                invariant
                    k <= members_len,
                    fresh@.len() == k,
                    forall|x: int|
                        0 <= x < fresh@.len() ==> (#[trigger] fresh@[x])@.len()
                            == frame_len && is_zero_frame(fresh@[x]@),
                decreases members_len - k,
            {
                fresh.push(zero_frame(frame_len));
                k = k + 1;
            }
            c.inputs = fresh;
            self.channels.insert(j, c);
            proof {
                assert(self.channels@ =~= s_iter.channels@.update(
                    j as int,
                    self.channels@[j as int],
                ));
                assert forall|t: int| 0 <= t < self.remotes@.len() implies exists|j2: int|
                    0 <= j2 < self.channels@.len() && (#[trigger] self.channels@[j2]).id == (
                    #[trigger] self.remotes@[t]).channel_id && self.channels@[
                j2].spec_has_member(self.remotes@[t].addr) by {
                    let j0 = choose|j2: int|
                        0 <= j2 < s_iter.channels@.len() && (#[trigger] s_iter.channels@[j2]).id
                            == s_iter.remotes@[t].channel_id && s_iter.channels@[
                        j2].spec_has_member(s_iter.remotes@[t].addr);
                    assert(self.channels@[j0].id == s_iter.channels@[j0].id);
                    assert(self.channels@[j0].members == s_iter.channels@[j0].members);
                    assert(self.channels@[j0].spec_has_member(self.remotes@[t].addr));
                }
                assert(forall|j2: int|
                    0 <= j2 < self.channels@.len() ==> (#[trigger] self.channels@[j2]).members
                        == s_iter.channels@[j2].members && self.channels@[j2].id
                        == s_iter.channels@[j2].id);
                lemma_members_backed_preserved(s_iter, *self);
                assert(forall|t: int|
                    0 <= t < self.channels@.len() && t != j ==> #[trigger] self.channels@[t]
                        == s_iter.channels@[t]);
                assert forall|t: int, k: int|
                    0 <= t <= j && 0 <= k < self.channels@[t].inputs@.len() implies is_zero_frame(
                    (#[trigger] self.channels@[t].inputs@[k])@) by {
                    if t < j {
                        assert(self.channels@[t].inputs@[k] == s_iter.channels@[t].inputs@[k]);
                    }
                }
            }
            j = j + 1;
        }
    }
}

/// One listener's personalized mix: who hears, whom they hear, and the
/// equal-loudness denominator (the talker count, whose square root divides
/// the gain).
pub struct MixEntry {
    pub listener: Endpoint,
    pub talkers: Vec<Endpoint>,
    pub talker_count: usize,
}

/// The members a listener at index `excl` hears: every other member whose
/// input frame is audible, in member order, among the first `upto` members.
pub open spec fn spec_talkers_upto(
    members: Seq<Endpoint>,
    silent: Seq<bool>,
    excl: int,
    upto: int,
) -> Seq<Endpoint>
    decreases upto,
{
    if upto <= 0 {
        Seq::empty()
    } else {
        spec_talkers_upto(members, silent, excl, upto - 1) + (if upto - 1 != excl && upto - 1
            < silent.len() && !silent[upto - 1] && upto - 1 < members.len() {
            seq![members[upto - 1]]
        } else {
            Seq::empty()
        })
    }
}

/// The full mix plan: one entry per undeafened member with at least one
/// talker to hear.
pub open spec fn spec_mix_plan_upto(
    members: Seq<Endpoint>,
    silent: Seq<bool>,
    deafened: Seq<bool>,
    upto: int,
) -> Seq<(Endpoint, Seq<Endpoint>)>
    decreases upto,
{
    if upto <= 0 {
        Seq::empty()
    } else {
        let head = spec_mix_plan_upto(members, silent, deafened, upto - 1);
        let i = upto - 1;
        if 0 <= i < members.len() && i < deafened.len() && !deafened[i] && spec_talkers_upto(
            members,
            silent,
            i,
            members.len() as int,
        ).len() > 0 {
            head + seq![
                (members[i], spec_talkers_upto(members, silent, i, members.len() as int)),
            ]
        } else {
            head
        }
    }
}

/// Builds one channel's personalized mix plan from its member list and the
/// members' silence and deafen states. Deafened members get no entry, nobody
/// ever appears among their own talkers, and a fully silent channel produces
/// an empty plan — no audio packet at all.
pub fn plan_mix(members: &Vec<Endpoint>, silent: &Vec<bool>, deafened: &Vec<bool>) -> (r: Vec<
    MixEntry,
>)
    requires
        silent@.len() == members@.len(),
        deafened@.len() == members@.len(),
    ensures
        r@.map_values(|e: MixEntry| (e.listener, e.talkers@)) == spec_mix_plan_upto(
            members@,
            silent@,
            deafened@,
            members@.len() as int,
        ),
        forall|x: int|
            0 <= x < r@.len() ==> (#[trigger] r@[x]).talker_count == r@[x].talkers@.len(),
{
    let n = members.len();
    let mut out: Vec<MixEntry> = Vec::new();
    let mut i: usize = 0;
    while i < n
        invariant
            n == members@.len(),
            silent@.len() == n,
            deafened@.len() == n,
            i <= n,
            out@.map_values(|e: MixEntry| (e.listener, e.talkers@)) == spec_mix_plan_upto(
                members@,
                silent@,
                deafened@,
                i as int,
            ),
            forall|x: int|
                0 <= x < out@.len() ==> (#[trigger] out@[x]).talker_count == out@[x].talkers@.len(),
        decreases n - i,
    {
        if !deafened[i] {
            let talkers = collect_talkers(members, silent, i);
            if talkers.len() > 0 {
                let count = talkers.len();
                let entry = MixEntry { listener: members[i], talkers, talker_count: count };
                proof {
                    let ghost prev = out@.map_values(|e: MixEntry| (e.listener, e.talkers@));
                    assert(out@.push(entry).map_values(|e: MixEntry| (e.listener, e.talkers@))
                        =~= prev.push((entry.listener, entry.talkers@)));
                }
                out.push(entry);
                proof {
                    assert(out@.map_values(|e: MixEntry| (e.listener, e.talkers@))
                        =~= spec_mix_plan_upto(members@, silent@, deafened@, i + 1));
                }
            } else {
                proof {
                    assert(out@.map_values(|e: MixEntry| (e.listener, e.talkers@))
                        =~= spec_mix_plan_upto(members@, silent@, deafened@, i + 1));
                }
            }
        } else {
            proof {
                assert(out@.map_values(|e: MixEntry| (e.listener, e.talkers@))
                    =~= spec_mix_plan_upto(members@, silent@, deafened@, i + 1));
            }
        }
        i = i + 1;
    }
    out
}

/// The talkers a listener at index `excl` hears, in member order.
fn collect_talkers(members: &Vec<Endpoint>, silent: &Vec<bool>, excl: usize) -> (r: Vec<Endpoint>)
    requires
        silent@.len() == members@.len(),
        excl < members@.len(),
    ensures
        r@ == spec_talkers_upto(members@, silent@, excl as int, members@.len() as int),
{
    let n = members.len();
    let mut out: Vec<Endpoint> = Vec::new();
    let mut j: usize = 0;
    while j < n
        invariant
            n == members@.len(),
            silent@.len() == n,
            j <= n,
            out@ == spec_talkers_upto(members@, silent@, excl as int, j as int),
        decreases n - j,
    {
        if j != excl && !silent[j] {
            out.push(members[j]);
        }
        proof {
            assert(out@ =~= spec_talkers_upto(members@, silent@, excl as int, j + 1));
        }
        j = j + 1;
    }
    out
}

/// Silence in, silence out: when every member's input is silent, the mix
/// plan is empty and no audio packet is produced.
pub proof fn lemma_silence_in_silence_out(
    members: Seq<Endpoint>,
    silent: Seq<bool>,
    deafened: Seq<bool>,
    upto: int,
)
    requires
        silent.len() == members.len(),
        deafened.len() == members.len(),
        forall|i: int| 0 <= i < silent.len() ==> silent[i],
    ensures
        spec_mix_plan_upto(members, silent, deafened, upto).len() == 0,
    decreases (if upto > 0 { upto } else { 0 }),
{
    if upto > 0 {
        lemma_silence_in_silence_out(members, silent, deafened, upto - 1);
        let i = upto - 1;
        if 0 <= i < members.len() && i < deafened.len() && !deafened[i] {
            lemma_all_silent_no_talkers(members, silent, i, members.len() as int);
        }
    }
}

/// Nobody talks when everybody is silent.
pub proof fn lemma_all_silent_no_talkers(
    members: Seq<Endpoint>,
    silent: Seq<bool>,
    excl: int,
    upto: int,
)
    requires
        silent.len() == members.len(),
        forall|i: int| 0 <= i < silent.len() ==> silent[i],
    ensures
        spec_talkers_upto(members, silent, excl, upto).len() == 0,
    decreases (if upto > 0 { upto } else { 0 }),
{
    if upto > 0 {
        lemma_all_silent_no_talkers(members, silent, excl, upto - 1);
    }
}

/// Listener exclusion: a listener never appears among its own talkers, so
/// nobody hears their own voice back. With exactly one other audible talker,
/// the plan pairs the listener with that talker alone, at unit denominator.
pub proof fn lemma_listener_exclusion(
    members: Seq<Endpoint>,
    silent: Seq<bool>,
    excl: int,
    upto: int,
)
    requires
        silent.len() == members.len(),
        forall|i: int, j: int| 0 <= i < j < members.len() ==> members[i] != members[j],
        0 <= excl < members.len(),
        upto <= members.len(),
    ensures
        forall|x: int|
            0 <= x < spec_talkers_upto(members, silent, excl, upto).len() ==> (
            #[trigger] spec_talkers_upto(members, silent, excl, upto)[x]) != members[excl],
    decreases (if upto > 0 { upto } else { 0 }),
{
    if upto > 0 {
        lemma_listener_exclusion(members, silent, excl, upto - 1);
        let prefix = spec_talkers_upto(members, silent, excl, upto - 1);
        let cur = spec_talkers_upto(members, silent, excl, upto);
        if upto - 1 != excl && upto - 1 < silent.len() && !silent[upto - 1] {
            assert(members[upto - 1] != members[excl]) by {
                if upto - 1 < excl {
                    assert(members[upto - 1] != members[excl]);
                } else {
                    assert(members[excl] != members[upto - 1]);
                }
            }
            assert(cur =~= prefix.push(members[upto - 1]));
            assert forall|x: int| 0 <= x < cur.len() implies (#[trigger] cur[x]) != members[
                excl
            ] by {
                if x < prefix.len() {
                    assert(cur[x] == prefix[x]);
                } else {
                    assert(cur[x] == members[upto - 1]);
                }
            }
        } else {
            assert(cur =~= prefix);
        }
    } else {
        assert(spec_talkers_upto(members, silent, excl, upto) =~= Seq::<Endpoint>::empty());
    }
}

/// With exactly one audible member `t` (and everyone else silent), every
/// listener other than `t` hears exactly `t`, with gain denominator one.
pub proof fn lemma_single_talker(
    members: Seq<Endpoint>,
    silent: Seq<bool>,
    excl: int,
    t: int,
    upto: int,
)
    requires
        silent.len() == members.len(),
        0 <= t < members.len(),
        !silent[t],
        forall|i: int| 0 <= i < silent.len() && i != t ==> silent[i],
        0 <= excl < members.len(),
        excl != t,
        upto <= members.len(),
    ensures
        spec_talkers_upto(members, silent, excl, upto) == (if upto > t {
            seq![members[t]]
        } else {
            Seq::<Endpoint>::empty()
        }),
    decreases (if upto > 0 { upto } else { 0 }),
{
    if upto > 0 {
        lemma_single_talker(members, silent, excl, t, upto - 1);
        if upto - 1 == t {
            assert(spec_talkers_upto(members, silent, excl, upto)
                =~= Seq::<Endpoint>::empty() + seq![members[t]]);
            assert(Seq::<Endpoint>::empty() + seq![members[t]] =~= seq![members[t]]);
        } else {
            assert(spec_talkers_upto(members, silent, excl, upto) =~= spec_talkers_upto(
                members,
                silent,
                excl,
                upto - 1,
            ));
        }
    } else {
        assert(spec_talkers_upto(members, silent, excl, upto) =~= Seq::<Endpoint>::empty());
    }
}


/// A mask update the server accepts: wire-fit and valid UTF-8.
pub open spec fn spec_mask_ok(m: Seq<u8>) -> bool {
    &&& spec_valid_mask(m)
    &&& vstd::utf8::valid_utf8(m)
}

/// The first remote for an endpoint, if any.
pub open spec fn spec_remote_of(rs: Seq<Remote>, addr: Endpoint) -> Option<Remote>
    decreases rs.len(),
{
    if rs.len() == 0 {
        None
    } else if rs[0].addr == addr {
        Some(rs[0])
    } else {
        spec_remote_of(rs.drop_first(), addr)
    }
}

/// A packet list only grows: anything already served stays served.
pub proof fn lemma_leave_served_push(
    out: Seq<(Endpoint, Vec<u8>)>,
    e: (Endpoint, Vec<u8>),
    to: Endpoint,
    mask: Seq<u8>,
)
    requires
        spec_leave_served(out, to, mask),
    ensures
        spec_leave_served(out.push(e), to, mask),
{
    let x = choose|x: int|
        0 <= x < out.len() && (#[trigger] out[x]).0 == to && out[x].1@
            == crate::protocol::spec_tagged(TAG_FLOW_LEAVE, mask);
    assert(out.push(e)[x] == out[x]);
}

/// A reap-log entry records the mask and channel of a then-idle remote.
pub open spec fn spec_reap_entry_ok(
    s0: ServerState,
    e: (Vec<u8>, u32),
    now_ms: u64,
    timeout: u64,
) -> bool {
    exists|i: int|
        0 <= i < s0.remotes@.len() && spec_idle(#[trigger] s0.remotes@[i], now_ms, timeout)
            && e.0@ == spec_mask_bytes(s0.remotes@[i].mask) && e.1 == s0.remotes@[i].channel_id
}

/// A leave announcement for a reaped peer of `s0`, addressed to a current
/// member of that peer's channel in `sf`.
pub open spec fn spec_leave_packet_ok(
    s0: ServerState,
    sf: ServerState,
    e: (Endpoint, Vec<u8>),
    now_ms: u64,
    timeout: u64,
) -> bool {
    exists|i: int|
        0 <= i < s0.remotes@.len() && spec_idle(#[trigger] s0.remotes@[i], now_ms, timeout)
            && e.1@ == crate::protocol::spec_tagged(
            TAG_FLOW_LEAVE,
            spec_mask_bytes(s0.remotes@[i].mask),
        ) && sf.spec_is_member_of(s0.remotes@[i].channel_id, e.0)
}

/// Some packet of `out` carries this leave announcement to this endpoint.
pub open spec fn spec_leave_served(out: Seq<(Endpoint, Vec<u8>)>, to: Endpoint, mask: Seq<u8>) -> bool {
    exists|x: int|
        0 <= x < out.len() && (#[trigger] out[x]).0 == to && out[x].1@
            == crate::protocol::spec_tagged(TAG_FLOW_LEAVE, mask)
}

/// The mask bytes a leave announcement carries: the mask, or empty for an
/// unmasked peer.
pub open spec fn spec_mask_bytes(m: Option<Vec<u8>>) -> Seq<u8> {
    match m {
        Some(v) => v@,
        None => Seq::empty(),
    }
}

/// Whether a remote has sat idle past the timeout.
pub open spec fn spec_idle(r: Remote, now_ms: u64, timeout_secs: u64) -> bool {
    r.last_active_ms + timeout_secs * 1000 < now_ms
}

impl ServerState {
    /// Sets or changes a peer's display name. The first valid mask readies
    /// the peer for chat silently; a change while already masked is a renick
    /// and is announced to the peer's whole channel. Invalid names (empty,
    /// over 255 bytes, containing the separator, or not UTF-8) and unknown
    /// endpoints change nothing.
    pub fn handle_mask(&mut self, addr: Endpoint, data: &[u8]) -> (out: Vec<(Endpoint, Vec<u8>)>)
        requires
            old(self).wf(),
        ensures
            final(self).wf(),
            final(self).config == old(self).config,
            final(self).channels == old(self).channels,
            final(self).intake == old(self).intake,
            final(self).consoles == old(self).consoles,
            !(old(self).spec_has_remote(addr) && spec_mask_ok(data@)) ==> *final(self) == *old(self) && out@.len() == 0,
            (old(self).spec_has_remote(addr) && spec_mask_ok(data@)) ==> forall|j: int|
                0 <= j < final(self).remotes@.len() && (#[trigger] final(self).remotes@[j]).addr
                    == addr ==> (final(self).remotes@[j].mask matches Some(m) && m@ == data@),
            forall|j: int|
                0 <= j < final(self).remotes@.len() && (#[trigger] final(self).remotes@[j]).addr
                    != addr ==> final(self).remotes@[j] == old(self).remotes@[j],
            final(self).remotes@.len() == old(self).remotes@.len(),
            forall|j: int|
                0 <= j < final(self).remotes@.len() && (#[trigger] final(self).remotes@[j]).addr
                    == addr ==> final(self).remotes@[j].channel_id == old(self).remotes@[j].channel_id && final(self).remotes@[j].last_active_ms == old(self).remotes@[j].last_active_ms && final(self).remotes@[j].muted == old(self).remotes@[j].muted && final(self).remotes@[j].deafened == old(self).remotes@[j].deafened && final(self).remotes@[j].jitter_buffer == old(self).remotes@[j].jitter_buffer,
            (old(self).spec_has_remote(addr) && spec_mask_ok(data@)) ==> forall|i: int|
                0 <= i < old(self).remotes@.len() && (#[trigger] old(self).remotes@[i]).addr
                    == addr ==> match old(self).remotes@[i].mask {
                    None => out@.len() == 0,
                    Some(om) => exists|j: int|
                        0 <= j < old(self).channels@.len() && (#[trigger] old(self).channels@[j]).id == old(self).remotes@[i].channel_id && out@.len() == old(self).channels@[j].members@.len() && forall|x: int|
                            0 <= x < out@.len() ==> (#[trigger] out@[x]).0 == old(self).channels@[j].members@[x] && out@[x].1@ == spec_encode_renick(
                                om@,
                                data@,
                            ),
                },
    {
        let ghost s0 = *self;
        let ri = match self.find_remote(addr) {
            Some(ri) => ri,
            None => {
                return Vec::new();
            },
        };
        if data.len() == 0 || data.len() > 255 {
            return Vec::new();
        }
        proof {
            crate::bytes::lemma_find_byte(data@, 0x01u8, 0);
        }
        match crate::bytes::find_byte(data, 0x01, 0) {
            Some(_) => {
                return Vec::new();
            },
            None => {},
        }
        if !is_utf8(data) {
            return Vec::new();
        }
        assert(spec_mask_ok(data@));
        let old_mask: Option<Vec<u8>> = {
            let mut r = self.remotes.remove(ri);
            let prior = r.mask;
            r.mask = None;
            r.mask(data);
            self.remotes.insert(ri, r);
            prior
        };
        proof {
            let s1 = *self;
            assert(s1.remotes@ =~= s0.remotes@.update(ri as int, s1.remotes@[ri as int]));
            assert forall|t: int| 0 <= t < s1.remotes@.len() implies exists|j: int|
                0 <= j < s1.channels@.len() && (#[trigger] s1.channels@[j]).id == (
                #[trigger] s1.remotes@[t]).channel_id && s1.channels@[j].spec_has_member(
                s1.remotes@[t].addr,
            ) by {
                let j0 = choose|j: int|
                    0 <= j < s0.channels@.len() && (#[trigger] s0.channels@[j]).id == s0.remotes@[
                    t].channel_id && s0.channels@[j].spec_has_member(s0.remotes@[t].addr);
                assert(s1.channels@[j0].spec_has_member(s1.remotes@[t].addr));
            }
            assert(s1.channels == s0.channels);
            assert(forall|i: int|
                0 <= i < s1.remotes@.len() ==> (#[trigger] s1.remotes@[i]).addr
                    == s0.remotes@[i].addr && s1.remotes@[i].channel_id == s0.remotes@[
                i].channel_id);
            lemma_members_backed_preserved(s0, s1);
        }
        let mut out: Vec<(Endpoint, Vec<u8>)> = Vec::new();
        match old_mask {
            None => out,
            Some(om) => {
                let chan_id = self.remotes[ri].channel_id;
                let ci = match self.find_channel(chan_id) {
                    Some(ci) => ci,
                    None => {
                        proof {
                            let j = choose|j: int|
                                0 <= j < self.channels@.len() && (#[trigger] self.channels@[
                                j]).id == self.remotes@[ri as int].channel_id && self.channels@[
                                j].spec_has_member(self.remotes@[ri as int].addr);
                            assert(false);
                        }
                        return out;
                    },
                };
                assert(spec_valid_mask(om@));
                let n = self.channels[ci].members.len();
                let mut x: usize = 0;
                while x < n
                    invariant
                        ci < self.channels@.len(),
                        n == self.channels@[ci as int].members@.len(),
                        x <= n,
                        om@.len() <= 255,
                        data@.len() <= 255,
                        out@.len() == x,
                        forall|y: int|
                            0 <= y < x ==> (#[trigger] out@[y]).0 == self.channels@[
                            ci as int].members@[y] && out@[y].1@ == spec_encode_renick(om@, data@),
                    decreases n - x,
                {
                    let member = self.channels[ci].members[x];
                    let packet = encode_renick(om.as_slice(), data);
                    out.push((member, packet));
                    x = x + 1;
                }
                proof {
                    assert(self.channels@[ci as int].id == old(self).remotes@[ri as int].channel_id);
                }
                out
            },
        }
    }

    /// Forwards a chat message from a masked sender to every member of the
    /// sender's channel, marking the sender's own copy; an unmasked sender
    /// gets only the unauthorized-chat notice. Unknown endpoints, unknown
    /// channels and non-UTF-8 text produce nothing. The state never changes.
    pub fn handle_chat(&self, addr: Endpoint, data: &[u8]) -> (out: Vec<(Endpoint, Vec<u8>)>)
        requires
            self.wf(),
        ensures
            forall|i: int|
                0 <= i < self.remotes@.len() && (#[trigger] self.remotes@[i]).addr == addr ==> {
                    match self.remotes@[i].mask {
                        None => out@.len() == 1 && out@[0].0 == addr && out@[0].1@ == seq![
                            TAG_UNAUTH_CHAT,
                        ],
                        Some(m) => vstd::utf8::valid_utf8(data@) ==> exists|j: int|
                            0 <= j < self.channels@.len() && (#[trigger] self.channels@[j]).id
                                == self.remotes@[i].channel_id && out@.len() == self.channels@[
                                j
                            ].members@.len() && forall|x: int|
                                0 <= x < out@.len() ==> (#[trigger] out@[x]).0 == self.channels@[
                                    j
                                ].members@[x] && out@[x].1@ == spec_encode_chat_forward(
                                    m@,
                                    self.channels@[j].members@[x] == addr,
                                    data@,
                                ),
                    }
                },
            !self.spec_has_remote(addr) ==> out@.len() == 0,
            forall|i: int|
                0 <= i < self.remotes@.len() && (#[trigger] self.remotes@[i]).addr == addr
                    && self.remotes@[i].mask is Some && !vstd::utf8::valid_utf8(data@)
                    ==> out@.len() == 0,
    {
        let ri = match self.find_remote(addr) {
            Some(ri) => ri,
            None => {
                return Vec::new();
            },
        };
        let mut out: Vec<(Endpoint, Vec<u8>)> = Vec::new();
        let has_mask = match &self.remotes[ri].mask {
            Some(_) => true,
            None => false,
        };
        if !has_mask {
            let mut notice: Vec<u8> = Vec::new();
            notice.push(TAG_UNAUTH_CHAT);
            assert(notice@ =~= seq![TAG_UNAUTH_CHAT]);
            out.push((addr, notice));
            return out;
        }
        if !is_utf8(data) {
            return Vec::new();
        }
        let chan_id = self.remotes[ri].channel_id;
        let ci = match self.find_channel(chan_id) {
            Some(ci) => ci,
            None => {
                proof {
                    let j = choose|j: int|
                        0 <= j < self.channels@.len() && (#[trigger] self.channels@[j]).id
                            == self.remotes@[ri as int].channel_id && self.channels@[
                        j].spec_has_member(self.remotes@[ri as int].addr);
                    assert(false);
                }
                return Vec::new();
            },
        };
        let ghost m = self.remotes@[ri as int].mask.unwrap();
        let n = self.channels[ci].members.len();
        let mut x: usize = 0;
        while x < n
            invariant
                self.wf(),
                ri < self.remotes@.len(),
                self.remotes@[ri as int].addr == addr,
                self.remotes@[ri as int].mask == Some(m),
                spec_valid_mask(m@),
                ci < self.channels@.len(),
                n == self.channels@[ci as int].members@.len(),
                x <= n,
                out@.len() == x,
                forall|y: int|
                    0 <= y < x ==> (#[trigger] out@[y]).0 == self.channels@[ci as int].members@[y]
                        && out@[y].1@ == spec_encode_chat_forward(
                        m@,
                        self.channels@[ci as int].members@[y] == addr,
                        data@,
                    ),
            decreases n - x,
        {
            let member = self.channels[ci].members[x];
            let mask_bytes = match &self.remotes[ri].mask {
                Some(mb) => mb.as_slice(),
                None => {
                    proof {
                        assert(false);
                    }
                    data
                },
            };
            let packet = encode_chat_forward(mask_bytes, member == addr, data);
            out.push((member, packet));
            x = x + 1;
        }
        out
    }

    /// Applies a control request: deafen, undeafen, mute or unmute. Volume
    /// control is accepted and ignored; malformed bodies and unknown
    /// endpoints change nothing.
    pub fn handle_ctrl(&mut self, addr: Endpoint, data: &[u8]) -> (changed: bool)
        requires
            old(self).wf(),
        ensures
            final(self).wf(),
            final(self).config == old(self).config,
            final(self).channels == old(self).channels,
            final(self).intake == old(self).intake,
            final(self).consoles == old(self).consoles,
            !changed ==> *final(self) == *old(self),
            forall|j: int|
                0 <= j < final(self).remotes@.len() && (#[trigger] final(self).remotes@[j]).addr
                    != addr ==> final(self).remotes@[j] == old(self).remotes@[j],
            final(self).remotes@.len() == old(self).remotes@.len(),
            forall|j: int|
                0 <= j < final(self).remotes@.len() && (#[trigger] final(self).remotes@[j]).addr
                    == addr ==> final(self).remotes@[j].channel_id == old(self).remotes@[j].channel_id && final(self).remotes@[j].mask == old(self).remotes@[j].mask && final(self).remotes@[j].last_active_ms == old(self).remotes@[j].last_active_ms && final(self).remotes@[j].jitter_buffer == old(self).remotes@[j].jitter_buffer,
            changed ==> old(self).spec_has_remote(addr),
            forall|j: int|
                0 <= j < final(self).remotes@.len() && (#[trigger] final(self).remotes@[j]).addr
                    == addr ==> {
                    let prior = old(self).remotes@[j];
                    let cur = final(self).remotes@[j];
                    match spec_parse_control(data@) {
                        Some(ControlRequest::SetDeafen) => cur.deafened && cur.muted
                            == prior.muted,
                        Some(ControlRequest::SetUndeafen) => !cur.deafened && cur.muted
                            == prior.muted,
                        Some(ControlRequest::SetMute) => cur.muted && cur.deafened
                            == prior.deafened,
                        Some(ControlRequest::SetUnmute) => !cur.muted && cur.deafened
                            == prior.deafened,
                        _ => cur == prior,
                    }
                },
    {
        let ghost s0 = *self;
        let ri = match self.find_remote(addr) {
            Some(ri) => ri,
            None => {
                return false;
            },
        };
        if data.len() == 0 {
            return false;
        }
        let code = data[0];
        if code == 0x01 || code == 0x02 || code == 0x03 || code == 0x04 {
            if data.len() != 1 {
                return false;
            }
            let mut r = self.remotes.remove(ri);
            if code == 0x01 {
                r.deafened = true;
            } else if code == 0x02 {
                r.deafened = false;
            } else if code == 0x03 {
                r.muted = true;
            } else {
                r.muted = false;
            }
            self.remotes.insert(ri, r);
            proof {
                let s1 = *self;
                assert(s1.remotes@ =~= s0.remotes@.update(ri as int, s1.remotes@[ri as int]));
                assert forall|t: int| 0 <= t < s1.remotes@.len() implies exists|j: int|
                    0 <= j < s1.channels@.len() && (#[trigger] s1.channels@[j]).id == (
                    #[trigger] s1.remotes@[t]).channel_id && s1.channels@[j].spec_has_member(
                    s1.remotes@[t].addr,
                ) by {
                    let j0 = choose|j: int|
                        0 <= j < s0.channels@.len() && (#[trigger] s0.channels@[j]).id
                            == s0.remotes@[t].channel_id && s0.channels@[j].spec_has_member(
                            s0.remotes@[t].addr,
                        );
                    assert(s1.channels@[j0].spec_has_member(s1.remotes@[t].addr));
                }
                assert(s1.channels == s0.channels);
                assert(forall|i: int|
                    0 <= i < s1.remotes@.len() ==> (#[trigger] s1.remotes@[i]).addr
                        == s0.remotes@[i].addr && s1.remotes@[i].channel_id == s0.remotes@[
                    i].channel_id);
                lemma_members_backed_preserved(s0, s1);
            }
            true
        } else {
            false
        }
    }
}


/// The masked members among the first `upto` members, in member order, each
/// with its mute and deafen flags.
pub open spec fn spec_masked_upto(
    rs: Seq<Remote>,
    members: Seq<Endpoint>,
    upto: int,
) -> Seq<(Seq<u8>, bool, bool)>
    decreases (if upto > 0 { upto } else { 0 }),
{
    if upto <= 0 || upto > members.len() {
        Seq::empty()
    } else {
        spec_masked_upto(rs, members, upto - 1) + (match spec_remote_of(rs, members[upto - 1]) {
            Some(r) => match r.mask {
                Some(m) => seq![(m@, r.muted, r.deafened)],
                None => Seq::empty(),
            },
            None => Seq::empty(),
        })
    }
}

/// How many of the first `upto` members have no mask (or no remote record).
pub open spec fn spec_unmasked_upto(rs: Seq<Remote>, members: Seq<Endpoint>, upto: int) -> int
    decreases (if upto > 0 { upto } else { 0 }),
{
    if upto <= 0 || upto > members.len() {
        0
    } else {
        spec_unmasked_upto(rs, members, upto - 1) + (match spec_remote_of(rs, members[upto - 1]) {
            Some(r) => match r.mask {
                Some(m) => 0int,
                None => 1int,
            },
            None => 1int,
        })
    }
}

/// With unique endpoints, the remote a search finds is the one the spec
/// lookup names; and a fruitless search means the spec lookup is empty.
pub proof fn lemma_remote_of(rs: Seq<Remote>, addr: Endpoint)
    requires
        forall|i: int, j: int|
            0 <= i < j < rs.len() ==> (#[trigger] rs[i]).addr != (#[trigger] rs[j]).addr,
    ensures
        forall|i: int|
            0 <= i < rs.len() && (#[trigger] rs[i]).addr == addr ==> spec_remote_of(rs, addr)
                == Some(rs[i]),
        (forall|i: int| 0 <= i < rs.len() ==> (#[trigger] rs[i]).addr != addr) ==> spec_remote_of(
            rs,
            addr,
        ) is None,
    decreases rs.len(),
{
    if rs.len() > 0 {
        let tail = rs.drop_first();
        assert(forall|i: int, j: int|
            0 <= i < j < tail.len() ==> (#[trigger] tail[i]).addr != (#[trigger] tail[j]).addr)
            by {
            assert(forall|i: int| 0 <= i < tail.len() ==> tail[i] == rs[i + 1]);
        }
        lemma_remote_of(tail, addr);
        assert forall|i: int| 0 <= i < rs.len() && (#[trigger] rs[i]).addr == addr implies
            spec_remote_of(rs, addr) == Some(rs[i]) by {
            if rs[0].addr == addr {
                assert(i == 0);
            } else {
                assert(i >= 1);
                assert(tail[i - 1] == rs[i]);
                assert(spec_remote_of(rs, addr) == spec_remote_of(tail, addr));
            }
        }
        if forall|i: int| 0 <= i < rs.len() ==> (#[trigger] rs[i]).addr != addr {
            assert(forall|i: int| 0 <= i < tail.len() ==> (#[trigger] tail[i]).addr != addr) by {
                assert(forall|i: int| 0 <= i < tail.len() ==> tail[i] == rs[i + 1]);
            }
        }
    }
}

/// The spec-level LIST reply a server builds for a requester: per channel
/// its name (empty when unset), id, unmasked count and masked members.
pub open spec fn spec_listing(s: ServerState, current_id: u32) -> (
    u32,
    Seq<(Seq<u8>, u32, u32, Seq<(Seq<u8>, bool, bool)>)>,
) {
    (
        current_id,
        Seq::new(
            s.channels@.len(),
            |j: int|
                (
                    match s.channels@[j].name {
                        Some(n) => n@,
                        None => Seq::<u8>::empty(),
                    },
                    s.channels@[j].id,
                    spec_unmasked_upto(
                        s.remotes@,
                        s.channels@[j].members@,
                        s.channels@[j].members@.len() as int,
                    ) as u32,
                    spec_masked_upto(
                        s.remotes@,
                        s.channels@[j].members@,
                        s.channels@[j].members@.len() as int,
                    ),
                ),
        ),
    )
}

impl ServerState {
    /// Builds the LIST reply body for one requester: every channel with its
    /// name, id, unmasked-member count, and each masked member's mask and
    /// flags, in member order.
    pub fn build_listing(&self, current_id: u32) -> (r: ListReply)
        requires
            self.wf(),
            forall|j: int|
                0 <= j < self.channels@.len() ==> (#[trigger] self.channels@[j]).members@.len()
                    <= 0xffffffff,
        ensures
            r.current_id == current_id,
            r.channels@.len() == self.channels@.len(),
            forall|j: int|
                0 <= j < r.channels@.len() ==> {
                    let c = self.channels@[j];
                    let e = #[trigger] r.channels@[j];
                    &&& e.chan_id == c.id
                    &&& e.name@ == (match c.name {
                        Some(n) => n@,
                        None => Seq::<u8>::empty(),
                    })
                    &&& e.unmasked as int == spec_unmasked_upto(
                        self.remotes@,
                        c.members@,
                        c.members@.len() as int,
                    )
                    &&& e.members@.map_values(|m: MemberEntry| m@) == spec_masked_upto(
                        self.remotes@,
                        c.members@,
                        c.members@.len() as int,
                    )
                    &&& e.name@.len() <= 255
                    &&& e.members@.len() <= c.members@.len()
                },
            r@ == spec_listing(*self, current_id),
    {
        let mut channels: Vec<ChannelEntry> = Vec::new();
        let cn = self.channels.len();
        let mut j: usize = 0;
        while j < cn
            invariant
                self.wf(),
                forall|t: int|
                    0 <= t < self.channels@.len() ==> (#[trigger] self.channels@[
                    t]).members@.len() <= 0xffffffff,
                cn == self.channels@.len(),
                j <= cn,
                channels@.len() == j,
                forall|t: int|
                    0 <= t < j ==> {
                        let c = self.channels@[t];
                        let e = #[trigger] channels@[t];
                        &&& e.chan_id == c.id
                        &&& e.name@ == (match c.name {
                            Some(n) => n@,
                            None => Seq::<u8>::empty(),
                        })
                        &&& e.unmasked as int == spec_unmasked_upto(
                            self.remotes@,
                            c.members@,
                            c.members@.len() as int,
                        )
                        &&& e.members@.map_values(|m: MemberEntry| m@) == spec_masked_upto(
                            self.remotes@,
                            c.members@,
                            c.members@.len() as int,
                        )
                        &&& e.name@.len() <= 255
                        &&& e.members@.len() <= c.members@.len()
                    },
            decreases cn - j,
        {
            let name: Vec<u8> = match &self.channels[j].name {
                Some(n) => {
                    let mut copy: Vec<u8> = Vec::new();
                    copy.extend_from_slice(n.as_slice());
                    proof {
                        assert(copy@ =~= n@);
                    }
                    copy
                },
                None => Vec::new(),
            };
            let mn = self.channels[j].members.len();
            let mut entries: Vec<MemberEntry> = Vec::new();
            let mut unmasked: u32 = 0;
            let mut k: usize = 0;
            while k < mn
                invariant
                    self.wf(),
                    j < self.channels@.len(),
                    mn == self.channels@[j as int].members@.len(),
                    mn <= 0xffffffff,
                    k <= mn,
                    entries@.len() + unmasked as int == k as int,
                    unmasked as int == spec_unmasked_upto(
                        self.remotes@,
                        self.channels@[j as int].members@,
                        k as int,
                    ),
                    entries@.map_values(|m: MemberEntry| m@) == spec_masked_upto(
                        self.remotes@,
                        self.channels@[j as int].members@,
                        k as int,
                    ),
                decreases mn - k,
            {
                let member = self.channels[j].members[k];
                proof {
                    lemma_remote_of(self.remotes@, member);
                }
                let ghost prev = entries@.map_values(|m: MemberEntry| m@);
                match self.find_remote(member) {
                    Some(ri) => {
                        match &self.remotes[ri].mask {
                            Some(mb) => {
                                let mut mask: Vec<u8> = Vec::new();
                                mask.extend_from_slice(mb.as_slice());
                                proof {
                                    assert(mask@ =~= mb@);
                                }
                                let e = MemberEntry {
                                    mask,
                                    muted: self.remotes[ri].muted,
                                    deafened: self.remotes[ri].deafened,
                                };
                                proof {
                                    assert(entries@.push(e).map_values(|m: MemberEntry| m@)
                                        =~= prev.push(e@));
                                    assert(prev.push(e@) =~= spec_masked_upto(
                                        self.remotes@,
                                        self.channels@[j as int].members@,
                                        k + 1,
                                    ));
                                }
                                entries.push(e);
                            },
                            None => {
                                unmasked = unmasked + 1;
                                proof {
                                    assert(prev =~= spec_masked_upto(
                                        self.remotes@,
                                        self.channels@[j as int].members@,
                                        k + 1,
                                    ));
                                }
                            },
                        }
                    },
                    None => {
                        unmasked = unmasked + 1;
                        proof {
                            assert(prev =~= spec_masked_upto(
                                self.remotes@,
                                self.channels@[j as int].members@,
                                k + 1,
                            ));
                        }
                    },
                }
                k = k + 1;
            }
            let entry = ChannelEntry {
                name,
                chan_id: self.channels[j].id,
                unmasked,
                members: entries,
            };
            channels.push(entry);
            j = j + 1;
        }
        let reply = ListReply { current_id, channels };
        proof {
            assert(reply@.1 =~~= spec_listing(*self, current_id).1);
        }
        reply
    }

    /// Answers a LIST request: the requester (if known) gets one packet
    /// carrying the full per-channel listing, with its own channel first in
    /// the header. The state never changes.
    pub fn handle_list(&self, addr: Endpoint) -> (out: Vec<(Endpoint, Vec<u8>)>)
        requires
            self.wf(),
            forall|j: int|
                0 <= j < self.channels@.len() ==> (#[trigger] self.channels@[j]).members@.len()
                    <= 0xffffffff,
            self.channels@.len() <= 0xffffffff,
        ensures
            !self.spec_has_remote(addr) ==> out@.len() == 0,
            self.spec_has_remote(addr) ==> out@.len() == 1 && out@[0].0 == addr,
            self.spec_has_remote(addr) ==> forall|i: int|
                0 <= i < self.remotes@.len() && (#[trigger] self.remotes@[i]).addr == addr
                    ==> out@[0].1@ == crate::listing::spec_encode_list_reply(
                    spec_listing(*self, self.remotes@[i].channel_id),
                ),
    {
        let ri = match self.find_remote(addr) {
            Some(ri) => ri,
            None => {
                return Vec::new();
            },
        };
        let reply = self.build_listing(self.remotes[ri].channel_id);
        let packet = encode_list_reply(&reply);
        let mut out: Vec<(Endpoint, Vec<u8>)> = Vec::new();
        out.push((addr, packet));
        out
    }
}


impl ServerState {
    /// Index of some remote that has idled past the timeout.
    fn find_idle(&self, now_ms: u64) -> (r: Option<usize>)
        requires
            self.wf(),
        ensures
            match r {
                Some(i) => i < self.remotes@.len() && spec_idle(
                    self.remotes@[i as int],
                    now_ms,
                    self.config.timeout_secs,
                ),
                None => forall|i: int|
                    0 <= i < self.remotes@.len() ==> !spec_idle(
                        #[trigger] self.remotes@[i],
                        now_ms,
                        self.config.timeout_secs,
                    ),
            },
    {
        let lim: u64 = self.config.timeout_secs * 1000;
        let n = self.remotes.len();
        let mut i: usize = 0;
        while i < n
            invariant
                self.wf(),
                lim == self.config.timeout_secs * 1000,
                n == self.remotes@.len(),
                i <= n,
                forall|j: int|
                    0 <= j < i ==> !spec_idle(
                        #[trigger] self.remotes@[j],
                        now_ms,
                        self.config.timeout_secs,
                    ),
            decreases n - i,
        {
            let last = self.remotes[i].last_active_ms;
            if last < now_ms && now_ms - last > lim {
                return Some(i);
            }
            i = i + 1;
        }
        None
    }

    /// Whether `y` is a member of the channel with this id.
    pub open spec fn spec_is_member_of(self, id: u32, y: Endpoint) -> bool {
        exists|j: int|
            0 <= j < self.channels@.len() && (#[trigger] self.channels@[j]).id == id
                && self.channels@[j].spec_has_member(y)
    }

    /// Reaps every remote whose last activity lies past the idle timeout,
    /// freeing its membership and slots, and then announces each departure
    /// to every member its channel still has — so survivors like the
    /// remaining peers of a reaped talker each get one FLOW_LEAVE carrying
    /// the leaver's mask. Remotes inside the timeout, and consoles still
    /// fresh, are kept untouched, which makes a back-to-back second run a
    /// no-op. Idle consoles are reaped silently.
    #[verifier::rlimit(100)]
    pub fn cleanup(&mut self, now_ms: u64) -> (out: Vec<(Endpoint, Vec<u8>)>)
        requires
            old(self).wf(),
        ensures
            final(self).wf(),
            final(self).config == old(self).config,
            final(self).intake == old(self).intake,
            forall|i: int|
                0 <= i < final(self).remotes@.len() ==> !spec_idle(
                    #[trigger] final(self).remotes@[i],
                    now_ms,
                    final(self).config.timeout_secs,
                ),
            forall|y: Endpoint|
                #[trigger] final(self).spec_has_remote(y) ==> old(self).spec_has_remote(y),
            forall|i: int|
                0 <= i < old(self).remotes@.len() && spec_idle(
                    #[trigger] old(self).remotes@[i],
                    now_ms,
                    old(self).config.timeout_secs,
                ) ==> !final(self).spec_has_remote(old(self).remotes@[i].addr),
            forall|i: int|
                0 <= i < old(self).remotes@.len() && !spec_idle(
                    #[trigger] old(self).remotes@[i],
                    now_ms,
                    old(self).config.timeout_secs,
                ) ==> final(self).remotes@.contains(old(self).remotes@[i]),
            forall|i: int|
                0 <= i < old(self).consoles@.len() && (#[trigger] old(self).consoles@[i]).1
                    + old(self).config.timeout_secs * 1000 >= now_ms ==> final(self).consoles@.contains(old(self).consoles@[i]),
            forall|i: int|
                0 <= i < final(self).consoles@.len() ==> (#[trigger] final(self).consoles@[i]).1 + final(self).config.timeout_secs * 1000 >= now_ms,
            forall|x: int|
                0 <= x < out@.len() ==> #[trigger] spec_leave_packet_ok(
                    *old(self),
                    *final(self),
                    out@[x],
                    now_ms,
                    old(self).config.timeout_secs,
                ),
            forall|i: int, j: int, k: int|
                0 <= i < old(self).remotes@.len() && spec_idle(
                    #[trigger] old(self).remotes@[i],
                    now_ms,
                    old(self).config.timeout_secs,
                ) && 0 <= j < final(self).channels@.len() && final(self).channels@[j].id == old(self).remotes@[i].channel_id && 0 <= k < final(self).channels@[j].members@.len()
                    ==> #[trigger] spec_leave_served(
                    out@,
                    final(self).channels@[j].members@[k],
                    spec_mask_bytes(old(self).remotes@[i].mask),
                ),
    {
        let ghost s0 = *self;
        let ghost timeout = s0.config.timeout_secs;
        // Phase one: reap every idle remote, remembering its mask and
        // channel for the announcements.
        let mut reaped: Vec<(Vec<u8>, u32)> = Vec::new();
        let mut reap_done = false;
        while !reap_done
            invariant
                reap_done ==> forall|i: int|
                    0 <= i < self.remotes@.len() ==> !spec_idle(
                        #[trigger] self.remotes@[i],
                        now_ms,
                        timeout,
                    ),
                self.wf(),
                s0.wf(),
                timeout == s0.config.timeout_secs,
                self.config == s0.config,
                self.intake == s0.intake,
                self.consoles == s0.consoles,
                forall|y: Endpoint|
                    #[trigger] self.spec_has_remote(y) ==> s0.spec_has_remote(y),
                forall|i2: int|
                    0 <= i2 < self.remotes@.len() ==> s0.remotes@.contains(
                        #[trigger] self.remotes@[i2],
                    ),
                forall|i: int|
                    0 <= i < s0.remotes@.len() && !spec_idle(
                        #[trigger] s0.remotes@[i],
                        now_ms,
                        timeout,
                    ) ==> self.remotes@.contains(s0.remotes@[i]),
                forall|t: int|
                    0 <= t < reaped@.len() ==> #[trigger] spec_reap_entry_ok(
                        s0,
                        reaped@[t],
                        now_ms,
                        timeout,
                    ),
                forall|i: int|
                    0 <= i < s0.remotes@.len() && spec_idle(#[trigger] s0.remotes@[i], now_ms, timeout)
                        && !self.spec_has_remote(s0.remotes@[i].addr) ==> exists|t: int|
                        0 <= t < reaped@.len() && (#[trigger] reaped@[t]).0@ == spec_mask_bytes(
                            s0.remotes@[i].mask,
                        ) && reaped@[t].1 == s0.remotes@[i].channel_id,
            decreases self.remotes@.len() * 2 + (if reap_done {
                0int
            } else {
                1
            }),
        {
            let idle = self.find_idle(now_ms);
            match idle {
                None => {
                    proof {
                        assert(timeout == self.config.timeout_secs);
                    }
                    reap_done = true;
                },
                Some(ri) => {
                    let ghost s_pre = *self;
                    let addr = self.remotes[ri].addr;
                    let chan_id = self.remotes[ri].channel_id;
                    let mask: Vec<u8> = match &self.remotes[ri].mask {
                        Some(m) => {
                            let mut copy: Vec<u8> = Vec::new();
                            copy.extend_from_slice(m.as_slice());
                            proof {
                                assert(copy@ =~= m@);
                            }
                            copy
                        },
                        None => Vec::new(),
                    };
                    proof {
                        assert(mask@ == spec_mask_bytes(s_pre.remotes@[ri as int].mask));
                        assert(s0.remotes@.contains(s_pre.remotes@[ri as int]));
                    }
                    let ghost reaped_remote = s_pre.remotes@[ri as int];
                    proof {
                        assert(timeout == s_pre.config.timeout_secs);
                        assert(spec_idle(reaped_remote, now_ms, timeout));
                    }
                    assert(self.spec_has_remote(addr));
                    self.handle_eof(addr);
                    let ghost done = reaped@;
                    reaped.push((mask, chan_id));
                    proof {
                        let i_src = choose|i: int|
                            0 <= i < s0.remotes@.len() && s0.remotes@[i] == reaped_remote;
                        assert(s0.remotes@[i_src] == reaped_remote);
                        assert(spec_idle(s0.remotes@[i_src], now_ms, timeout));
                        assert(reaped@[done.len() as int].0@ == spec_mask_bytes(
                            s0.remotes@[i_src].mask,
                        ));
                        assert(reaped@[done.len() as int].1 == s0.remotes@[i_src].channel_id);
                        assert(forall|t: int| 0 <= t < done.len() ==> reaped@[t] == done[t]);
                        assert forall|t: int| 0 <= t < reaped@.len() implies
                            #[trigger] spec_reap_entry_ok(s0, reaped@[t], now_ms, timeout) by {
                            if t < done.len() {
                                assert(spec_reap_entry_ok(s0, done[t], now_ms, timeout));
                                assert(reaped@[t] == done[t]);
                            } else {
                                assert(0 <= i_src < s0.remotes@.len() && spec_idle(
                                    s0.remotes@[i_src],
                                    now_ms,
                                    timeout,
                                ) && reaped@[t].0@ == spec_mask_bytes(s0.remotes@[i_src].mask)
                                    && reaped@[t].1 == s0.remotes@[i_src].channel_id);
                            }
                        }
                        // Non-idle survivors: the reaped element differs from
                        // every non-idle one, so removal keeps them.
                        assert forall|i: int|
                            0 <= i < s0.remotes@.len() && !spec_idle(
                                #[trigger] s0.remotes@[i],
                                now_ms,
                                timeout,
                            ) implies self.remotes@.contains(s0.remotes@[i]) by {
                            let m0 = choose|m0: int|
                                0 <= m0 < s_pre.remotes@.len() && s_pre.remotes@[m0]
                                    == s0.remotes@[i];
                            let iw = choose|i0: int|
                                0 <= i0 < s_pre.remotes@.len() && (#[trigger] s_pre.remotes@[
                                i0]).addr == addr && self.remotes@ == s_pre.remotes@.remove(i0);
                            assert(m0 != iw) by {
                                if m0 == iw {
                                    assert(s0.remotes@[i].addr == addr);
                                    assert(s_pre.remotes@[iw] == s_pre.remotes@[ri as int]) by {
                                        if iw != ri {
                                            assert(s_pre.remotes@[iw].addr != s_pre.remotes@[
                                            ri as int].addr);
                                        }
                                    }
                                    assert(spec_idle(s0.remotes@[i], now_ms, timeout));
                                }
                            }
                            if m0 < iw {
                                assert(self.remotes@[m0] == s0.remotes@[i]);
                            } else {
                                assert(self.remotes@[m0 - 1] == s0.remotes@[i]);
                            }
                        }
                        // Newly unreachable idle remotes are recorded.
                        let iw = choose|i0: int|
                            0 <= i0 < s_pre.remotes@.len() && (#[trigger] s_pre.remotes@[
                            i0]).addr == addr && self.remotes@ == s_pre.remotes@.remove(i0);
                        assert forall|i: int|
                            0 <= i < s0.remotes@.len() && spec_idle(
                                #[trigger] s0.remotes@[i],
                                now_ms,
                                timeout,
                            ) && !self.spec_has_remote(s0.remotes@[i].addr) implies exists|
                        t: int|
                            0 <= t < reaped@.len() && (#[trigger] reaped@[t]).0@
                                == spec_mask_bytes(s0.remotes@[i].mask) && reaped@[t].1
                                == s0.remotes@[i].channel_id by {
                            if s_pre.spec_has_remote(s0.remotes@[i].addr) {
                                // It was present a moment ago, so the one
                                // removal this pass must have taken it.
                                let mp = choose|mp: int|
                                    0 <= mp < s_pre.remotes@.len() && (#[trigger] s_pre.remotes@[
                                    mp]).addr == s0.remotes@[i].addr;
                                assert(mp == iw) by {
                                    if mp != iw {
                                        // Any other index survives the removal.
                                        let m1: int = if mp < iw {
                                            mp
                                        } else {
                                            mp - 1
                                        };
                                        assert(self.remotes@[m1] == s_pre.remotes@[mp]);
                                        assert(self.spec_has_remote(s0.remotes@[i].addr));
                                    }
                                }
                                assert(iw == ri) by {
                                    if iw != ri {
                                        assert(s_pre.remotes@[iw].addr != s_pre.remotes@[
                                        ri as int].addr);
                                    }
                                }
                                assert(s_pre.remotes@[mp] == reaped_remote);
                                assert(s0.remotes@.contains(reaped_remote));
                                let ms = choose|ms: int|
                                    0 <= ms < s0.remotes@.len() && s0.remotes@[ms]
                                        == reaped_remote;
                                assert(ms == i) by {
                                    if ms != i {
                                        if ms < i {
                                            assert(s0.remotes@[ms].addr != s0.remotes@[i].addr);
                                        } else {
                                            assert(s0.remotes@[i].addr != s0.remotes@[ms].addr);
                                        }
                                    }
                                }
                                assert(s0.remotes@[i] == reaped_remote);
                                assert(reaped@[done.len() as int].0@ == spec_mask_bytes(
                                    s0.remotes@[i].mask,
                                ) && reaped@[done.len() as int].1 == s0.remotes@[i].channel_id);
                            } else {
                                let t0 = choose|t: int|
                                    0 <= t < done.len() && (#[trigger] done[t]).0@
                                        == spec_mask_bytes(s0.remotes@[i].mask) && done[t].1
                                        == s0.remotes@[i].channel_id;
                                assert(reaped@[t0].0@ == spec_mask_bytes(s0.remotes@[i].mask)
                                    && reaped@[t0].1 == s0.remotes@[i].channel_id);
                            }
                        }
                    }
                },
            }
        }
        let ghost s_mid = *self;
        // Phase two: announce each departure to its channel's surviving
        // members; the state no longer changes, so these are the final
        // member lists.
        let mut out: Vec<(Endpoint, Vec<u8>)> = Vec::new();
        let rn = reaped.len();
        let mut t: usize = 0;
        while t < rn
            invariant
                *self == s_mid,
                self.wf(),
                s0.wf(),
                timeout == s0.config.timeout_secs,
                rn == reaped@.len(),
                t <= rn,
                forall|t2: int|
                    0 <= t2 < reaped@.len() ==> #[trigger] spec_reap_entry_ok(
                        s0,
                        reaped@[t2],
                        now_ms,
                        timeout,
                    ),
                forall|x: int|
                    0 <= x < out@.len() ==> #[trigger] spec_leave_packet_ok(
                        s0,
                        *self,
                        out@[x],
                        now_ms,
                        timeout,
                    ),
                forall|t2: int, j: int, k: int|
                    0 <= t2 < t && 0 <= j < self.channels@.len() && self.channels@[j].id == (
                    #[trigger] reaped@[t2]).1 && 0 <= k < self.channels@[j].members@.len()
                        ==> #[trigger] spec_leave_served(
                        out@,
                        self.channels@[j].members@[k],
                        reaped@[t2].0@,
                    ),
            decreases rn - t,
        {
            match self.find_channel(reaped[t].1) {
                Some(ci) => {
                    let n = self.channels[ci].members.len();
                    let mut x: usize = 0;
                    while x < n
                        invariant
                            *self == s_mid,
                            self.wf(),
                            rn == reaped@.len(),
                            t < rn,
                            ci < self.channels@.len(),
                            self.channels@[ci as int].id == reaped@[t as int].1,
                            n == self.channels@[ci as int].members@.len(),
                            x <= n,
                            s0.wf(),
                            timeout == s0.config.timeout_secs,
                            forall|t2: int|
                                0 <= t2 < reaped@.len() ==> #[trigger] spec_reap_entry_ok(
                                    s0,
                                    reaped@[t2],
                                    now_ms,
                                    timeout,
                                ),
                            forall|x2: int|
                                0 <= x2 < out@.len() ==> #[trigger] spec_leave_packet_ok(
                                    s0,
                                    *self,
                                    out@[x2],
                                    now_ms,
                                    timeout,
                                ),
                            forall|t2: int, j: int, k: int|
                                0 <= t2 < t && 0 <= j < self.channels@.len() && self.channels@[
                                j].id == (#[trigger] reaped@[t2]).1 && 0 <= k < self.channels@[
                                j].members@.len() ==> #[trigger] spec_leave_served(
                                    out@,
                                    self.channels@[j].members@[k],
                                    reaped@[t2].0@,
                                ),
                            forall|k: int|
                                0 <= k < x ==> #[trigger] spec_leave_served(
                                    out@,
                                    self.channels@[ci as int].members@[k],
                                    reaped@[t as int].0@,
                                ),
                        decreases n - x,
                    {
                        let member = self.channels[ci].members[x];
                        let packet = encode_tagged(TAG_FLOW_LEAVE, reaped[t].0.as_slice());
                        let ghost out_old = out@;
                        out.push((member, packet));
                        proof {
                            assert(out@[out_old.len() as int].0 == self.channels@[
                            ci as int].members@[x as int] && out@[out_old.len() as int].1@
                                == crate::protocol::spec_tagged(
                                TAG_FLOW_LEAVE,
                                reaped@[t as int].0@,
                            ));
                            assert(forall|x2: int|
                                0 <= x2 < out_old.len() ==> out@[x2] == out_old[x2]);
                            // The fresh packet announces the reaped peer to a
                            // current member of its channel.
                            assert(spec_reap_entry_ok(s0, reaped@[t as int], now_ms, timeout));
                            let iw = choose|i: int|
                                0 <= i < s0.remotes@.len() && spec_idle(
                                    #[trigger] s0.remotes@[i],
                                    now_ms,
                                    timeout,
                                ) && reaped@[t as int].0@ == spec_mask_bytes(s0.remotes@[i].mask)
                                    && reaped@[t as int].1 == s0.remotes@[i].channel_id;
                            assert(self.spec_is_member_of(s0.remotes@[iw].channel_id, member))
                                by {
                                assert(self.channels@[ci as int].id == s0.remotes@[
                                iw].channel_id);
                                assert(self.channels@[ci as int].spec_has_member(member));
                            }
                            assert(spec_leave_packet_ok(
                                s0,
                                *self,
                                out@[out_old.len() as int],
                                now_ms,
                                timeout,
                            ));
                            assert forall|x2: int| 0 <= x2 < out@.len() implies
                                #[trigger] spec_leave_packet_ok(
                                s0,
                                *self,
                                out@[x2],
                                now_ms,
                                timeout,
                            ) by {
                                if x2 < out_old.len() {
                                    assert(out@[x2] == out_old[x2]);
                                    assert(spec_leave_packet_ok(
                                        s0,
                                        *self,
                                        out_old[x2],
                                        now_ms,
                                        timeout,
                                    ));
                                }
                            }
                            assert forall|t2: int, j: int, k: int|
                                0 <= t2 < t && 0 <= j < self.channels@.len() && self.channels@[
                                j].id == (#[trigger] reaped@[t2]).1 && 0 <= k < self.channels@[
                                j].members@.len() implies #[trigger] spec_leave_served(
                                out@,
                                self.channels@[j].members@[k],
                                reaped@[t2].0@,
                            ) by {
                                lemma_leave_served_push(
                                    out_old,
                                    out@[out_old.len() as int],
                                    self.channels@[j].members@[k],
                                    reaped@[t2].0@,
                                );
                                assert(out@ =~= out_old.push(out@[out_old.len() as int]));
                            }
                            assert forall|k: int| 0 <= k < x + 1 implies
                                #[trigger] spec_leave_served(
                                out@,
                                self.channels@[ci as int].members@[k],
                                reaped@[t as int].0@,
                            ) by {
                                if k < x {
                                    lemma_leave_served_push(
                                        out_old,
                                        out@[out_old.len() as int],
                                        self.channels@[ci as int].members@[k],
                                        reaped@[t as int].0@,
                                    );
                                    assert(out@ =~= out_old.push(out@[out_old.len() as int]));
                                } else {
                                    assert(out@[out_old.len() as int].0 == self.channels@[
                                    ci as int].members@[k]);
                                }
                            }
                        }
                        x = x + 1;
                    }
                    proof {
                        assert forall|t2: int, j: int, k: int|
                            0 <= t2 < t + 1 && 0 <= j < self.channels@.len() && self.channels@[
                            j].id == (#[trigger] reaped@[t2]).1 && 0 <= k < self.channels@[
                            j].members@.len() implies #[trigger] spec_leave_served(
                            out@,
                            self.channels@[j].members@[k],
                            reaped@[t2].0@,
                        ) by {
                            if t2 == t {
                                assert(j == ci) by {
                                    if j != ci {
                                        assert(self.channels@[j].id == self.channels@[
                                        ci as int].id);
                                    }
                                }
                                assert(spec_leave_served(
                                    out@,
                                    self.channels@[ci as int].members@[k],
                                    reaped@[t as int].0@,
                                ));
                                assert(self.channels@[j].members@[k] == self.channels@[
                                ci as int].members@[k]);
                            }
                        }
                    }
                },
                None => {
                    proof {
                        assert forall|t2: int, j: int, k: int|
                            0 <= t2 < t + 1 && 0 <= j < self.channels@.len() && self.channels@[
                            j].id == (#[trigger] reaped@[t2]).1 && 0 <= k < self.channels@[
                            j].members@.len() implies #[trigger] spec_leave_served(
                            out@,
                            self.channels@[j].members@[k],
                            reaped@[t2].0@,
                        ) by {
                            if t2 == t {
                                assert(false);
                            }
                        }
                    }
                },
            }
            t = t + 1;
        }
        // Reap idle consoles the same way, silently.
        let ghost cs0 = self.consoles@;
        let mut kept: Vec<(Endpoint, u64)> = Vec::new();
        let lim: u64 = self.config.timeout_secs * 1000;
        while self.consoles.len() > 0
            invariant
                lim == s_mid.config.timeout_secs * 1000,
                self.config == s_mid.config,
                self.remotes == s_mid.remotes,
                self.channels == s_mid.channels,
                self.intake == s_mid.intake,
                self.console_password == s_mid.console_password,
                cs0 == s_mid.consoles@,
                self.consoles@.len() <= cs0.len(),
                self.consoles@ =~= cs0.skip(cs0.len() - self.consoles@.len()),
                forall|i: int|
                    0 <= i < kept@.len() ==> (#[trigger] kept@[i]).1 + lim >= now_ms,
                forall|i: int|
                    0 <= i < cs0.len() - self.consoles@.len() && (#[trigger] cs0[i]).1 + lim
                        >= now_ms ==> kept@.contains(cs0[i]),
            decreases self.consoles@.len(),
        {
            let ghost taken: int = cs0.len() - self.consoles@.len();
            let entry = self.consoles.remove(0);
            proof {
                assert(entry == cs0[taken]);
                assert(self.consoles@ =~= cs0.skip(taken + 1));
            }
            let ghost kept_old = kept@;
            if !(entry.1 < now_ms && now_ms - entry.1 > lim) {
                kept.push(entry);
            }
            proof {
                assert forall|i: int|
                    0 <= i < taken + 1 && (#[trigger] cs0[i]).1 + lim >= now_ms implies
                    kept@.contains(cs0[i]) by {
                    if i < taken {
                        let w = choose|w: int|
                            0 <= w < kept_old.len() && kept_old[w] == cs0[i];
                        assert(kept@[w] == cs0[i]);
                    } else {
                        assert(kept@[kept@.len() - 1] == cs0[i]);
                    }
                }
            }
        }
        self.consoles = kept;
        proof {
            assert(self.wf()) by {
                assert(s_mid.wf());
                lemma_members_backed_preserved(s_mid, *self);
            }
            assert forall|y: Endpoint| #[trigger] self.spec_has_remote(y) implies s0
                .spec_has_remote(y) by {
                let i = choose|i: int|
                    0 <= i < self.remotes@.len() && (#[trigger] self.remotes@[i]).addr == y;
                assert(s_mid.remotes@[i].addr == y);
                assert(s_mid.spec_has_remote(y));
            }
            // The announcements survive the console sweep: the channels are
            // untouched, so membership and packets read the same.
            assert forall|x: int| 0 <= x < out@.len() implies #[trigger] spec_leave_packet_ok(
                s0,
                *self,
                out@[x],
                now_ms,
                timeout,
            ) by {
                assert(spec_leave_packet_ok(s0, s_mid, out@[x], now_ms, timeout));
                let iw = choose|i: int|
                    0 <= i < s0.remotes@.len() && spec_idle(
                        #[trigger] s0.remotes@[i],
                        now_ms,
                        timeout,
                    ) && out@[x].1@ == crate::protocol::spec_tagged(
                        TAG_FLOW_LEAVE,
                        spec_mask_bytes(s0.remotes@[i].mask),
                    ) && s_mid.spec_is_member_of(s0.remotes@[i].channel_id, out@[x].0);
                let jw = choose|j: int|
                    0 <= j < s_mid.channels@.len() && (#[trigger] s_mid.channels@[j]).id
                        == s0.remotes@[iw].channel_id && s_mid.channels@[j].spec_has_member(
                        out@[x].0,
                    );
                assert(self.channels@[jw].id == s0.remotes@[iw].channel_id);
                assert(self.channels@[jw].spec_has_member(out@[x].0));
                assert(self.spec_is_member_of(s0.remotes@[iw].channel_id, out@[x].0));
            }
            // A reaped endpoint is gone: any survivor with its address
            // would be that same idle remote, which no longer exists.
            assert forall|i: int|
                0 <= i < s0.remotes@.len() && spec_idle(#[trigger] s0.remotes@[i], now_ms, timeout)
                implies !self.spec_has_remote(s0.remotes@[i].addr) by {
                if self.spec_has_remote(s0.remotes@[i].addr) {
                    let m = choose|m: int|
                        0 <= m < self.remotes@.len() && (#[trigger] self.remotes@[m]).addr
                            == s0.remotes@[i].addr;
                    assert(s_mid.remotes@[m].addr == s0.remotes@[i].addr);
                    assert(s0.remotes@.contains(s_mid.remotes@[m]));
                    let ms = choose|ms: int|
                        0 <= ms < s0.remotes@.len() && s0.remotes@[ms] == s_mid.remotes@[m];
                    assert(ms == i) by {
                        if ms != i {
                            if ms < i {
                                assert(s0.remotes@[ms].addr != s0.remotes@[i].addr);
                            } else {
                                assert(s0.remotes@[i].addr != s0.remotes@[ms].addr);
                            }
                        }
                    }
                    assert(spec_idle(s_mid.remotes@[m], now_ms, timeout));
                    assert(false);
                }
            }
            // Conversely every member of a reaped peer's channel is served.
            assert forall|i: int, j: int, k: int|
                0 <= i < s0.remotes@.len() && spec_idle(#[trigger] s0.remotes@[i], now_ms, timeout)
                    && 0 <= j < self.channels@.len() && self.channels@[j].id == s0.remotes@[
                i].channel_id && 0 <= k < self.channels@[j].members@.len() implies
                #[trigger] spec_leave_served(
                out@,
                self.channels@[j].members@[k],
                spec_mask_bytes(s0.remotes@[i].mask),
            ) by {
                assert(!s_mid.spec_has_remote(s0.remotes@[i].addr)) by {
                    if s_mid.spec_has_remote(s0.remotes@[i].addr) {
                        let m = choose|m: int|
                            0 <= m < s_mid.remotes@.len() && (#[trigger] s_mid.remotes@[m]).addr
                                == s0.remotes@[i].addr;
                        assert(s0.remotes@.contains(s_mid.remotes@[m]));
                        let ms = choose|ms: int|
                            0 <= ms < s0.remotes@.len() && s0.remotes@[ms] == s_mid.remotes@[m];
                        assert(ms == i) by {
                            if ms != i {
                                if ms < i {
                                    assert(s0.remotes@[ms].addr != s0.remotes@[i].addr);
                                } else {
                                    assert(s0.remotes@[i].addr != s0.remotes@[ms].addr);
                                }
                            }
                        }
                        assert(spec_idle(s_mid.remotes@[m], now_ms, timeout));
                        assert(false);
                    }
                }
                let t2 = choose|t2: int|
                    0 <= t2 < reaped@.len() && (#[trigger] reaped@[t2]).0@ == spec_mask_bytes(
                        s0.remotes@[i].mask,
                    ) && reaped@[t2].1 == s0.remotes@[i].channel_id;
                assert(s_mid.channels@[j].id == reaped@[t2].1);
                assert(spec_leave_served(
                    out@,
                    s_mid.channels@[j].members@[k],
                    reaped@[t2].0@,
                ));
                assert(self.channels@[j].members@[k] == s_mid.channels@[j].members@[k]);
                assert(spec_mask_bytes(s0.remotes@[i].mask) == reaped@[t2].0@);
            }
        }
        out
    }

    /// Registers an administrative console when it presents the shared
    /// password; a wrong password is dropped silently.
    pub fn register_console(&mut self, addr: Endpoint, password: &[u8], now_ms: u64) -> (accepted:
        bool)
        requires
            old(self).wf(),
        ensures
            final(self).wf(),
            final(self).config == old(self).config,
            final(self).remotes == old(self).remotes,
            final(self).channels == old(self).channels,
            final(self).intake == old(self).intake,
            accepted <==> password@ == old(self).console_password@,
            accepted ==> final(self).consoles@ == old(self).consoles@.push((addr, now_ms)),
            !accepted ==> *final(self) == *old(self),
    {
        if crate::bytes::bytes_eq(password, self.console_password.as_slice()) {
            self.consoles.push((addr, now_ms));
            proof {
                lemma_members_backed_preserved(*old(self), *self);
            }
            true
        } else {
            false
        }
    }

    /// Whether an endpoint is a registered console.
    pub fn is_console(&self, addr: Endpoint) -> (r: bool)
        ensures
            r == exists|i: int|
                0 <= i < self.consoles@.len() && (#[trigger] self.consoles@[i]).0 == addr,
    {
        let n = self.consoles.len();
        let mut i: usize = 0;
        while i < n
            invariant
                n == self.consoles@.len(),
                i <= n,
                forall|j: int| 0 <= j < i ==> (#[trigger] self.consoles@[j]).0 != addr,
            decreases n - i,
        {
            if self.consoles[i].0 == addr {
                return true;
            }
            i = i + 1;
        }
        false
    }

    /// Refreshes a console's liveness.
    pub fn touch_console(&mut self, addr: Endpoint, now_ms: u64)
        requires
            old(self).wf(),
        ensures
            final(self).wf(),
            final(self).config == old(self).config,
            final(self).remotes == old(self).remotes,
            final(self).channels == old(self).channels,
            final(self).intake == old(self).intake,
            final(self).consoles@.len() == old(self).consoles@.len(),
            forall|i: int|
                0 <= i < final(self).consoles@.len() ==> (#[trigger] final(self).consoles@[i]).0
                    == old(self).consoles@[i].0 && (final(self).consoles@[i].1 == old(self).consoles@[i].1 || (final(self).consoles@[i].0 == addr && final(self).consoles@[i].1 == now_ms)),
    {
        let ghost cs0 = self.consoles@;
        let mut kept: Vec<(Endpoint, u64)> = Vec::new();
        while self.consoles.len() > 0
            invariant
                self.config == old(self).config,
                self.remotes == old(self).remotes,
                self.channels == old(self).channels,
                self.intake == old(self).intake,
                self.console_password == old(self).console_password,
                cs0 == old(self).consoles@,
                kept@.len() + self.consoles@.len() == cs0.len(),
                self.consoles@ =~= cs0.skip(kept@.len() as int),
                forall|j: int|
                    0 <= j < kept@.len() ==> (#[trigger] kept@[j]).0 == cs0[j].0 && (kept@[j].1
                        == cs0[j].1 || (kept@[j].0 == addr && kept@[j].1 == now_ms)),
            decreases self.consoles@.len(),
        {
            let ghost done: int = kept@.len() as int;
            let entry = self.consoles.remove(0);
            proof {
                assert(entry == cs0[done as int]);
                assert(self.consoles@ =~= cs0.skip(done + 1));
            }
            if entry.0 == addr {
                kept.push((entry.0, now_ms));
            } else {
                kept.push(entry);
            }
        }
        self.consoles = kept;
        proof {
            assert(self.wf()) by {
                assert(old(self).wf());
                lemma_members_backed_preserved(*old(self), *self);
            }
        }
    }

    /// Removes a console registration.
    pub fn remove_console(&mut self, addr: Endpoint)
        requires
            old(self).wf(),
        ensures
            final(self).wf(),
            final(self).config == old(self).config,
            final(self).remotes == old(self).remotes,
            final(self).channels == old(self).channels,
            final(self).intake == old(self).intake,
            forall|i: int|
                0 <= i < final(self).consoles@.len() ==> (#[trigger] final(self).consoles@[i]).0
                    != addr,
    {
        let mut kept: Vec<(Endpoint, u64)> = Vec::new();
        while self.consoles.len() > 0
            invariant
                self.config == old(self).config,
                self.remotes == old(self).remotes,
                self.channels == old(self).channels,
                self.intake == old(self).intake,
                self.console_password == old(self).console_password,
                forall|i: int| 0 <= i < kept@.len() ==> (#[trigger] kept@[i]).0 != addr,
            decreases self.consoles@.len(),
        {
            let entry = self.consoles.remove(0);
            if entry.0 != addr {
                kept.push(entry);
            }
        }
        self.consoles = kept;
        proof {
            assert(self.wf()) by {
                assert(old(self).wf());
                lemma_members_backed_preserved(*old(self), *self);
            }
        }
    }

    /// The voice-peer dispatcher: routes one decrypted payload by its tag.
    /// Unknown endpoints are ignored for every tag but JOIN and
    /// REGISTER_CONSOLE; unknown tags and empty payloads are dropped.
    /// Returns the packets to send back.
    pub fn handle_packet(&mut self, addr: Endpoint, data: &[u8], now_ms: u64) -> (out: Vec<
        (Endpoint, Vec<u8>),
    >)
        requires
            old(self).wf(),
            forall|j: int|
                0 <= j < old(self).channels@.len() ==> (#[trigger] old(self).channels@[j]).members@.len() <= 0xffffffff,
            old(self).channels@.len() <= 0xffffffff,
        ensures
            final(self).wf(),
            final(self).config == old(self).config,
            data@.len() == 0 ==> *final(self) == *old(self) && out@.len() == 0,
            data@.len() >= 1 && data@[0] == TAG_EOF ==> !final(self).spec_has_remote(addr),
            data@.len() >= 1 && (spec_decode_join(data@) matches Some(id)) ==> (final(self).spec_has_remote(addr) || (!old(self).spec_has_remote(addr) && old(self).remotes@.len() >= old(self).config.max_users)),
            data@.len() >= 1 && !(data@[0] == TAG_JOIN || data@[0] == TAG_AUDIO || data@[0]
                == TAG_EOF || data@[0] == TAG_MASK || data@[0] == TAG_LIST || data@[0] == TAG_CHAT
                || data@[0] == TAG_CTRL || data@[0] == crate::protocol::TAG_REGISTER_CONSOLE)
                ==> *final(self) == *old(self) && out@.len() == 0,
            data@.len() >= 1 && data@[0] == TAG_JOIN && spec_decode_join(data@) is None ==> *final(self) == *old(self) && out@.len() == 0,
            data@.len() >= 1 && (data@[0] == TAG_LIST || data@[0] == TAG_CHAT) ==> *final(self)
                == *old(self),
            data@.len() >= 1 && data@[0] == TAG_CHAT ==> {
                let body = data@.subrange(1, data@.len() as int);
                forall|i: int|
                    0 <= i < old(self).remotes@.len() && (#[trigger] old(self).remotes@[i]).addr
                        == addr ==> {
                        match old(self).remotes@[i].mask {
                            None => out@.len() == 1 && out@[0].0 == addr && out@[0].1@ == seq![
                                TAG_UNAUTH_CHAT,
                            ],
                            Some(m) => vstd::utf8::valid_utf8(body) ==> exists|j: int|
                                0 <= j < old(self).channels@.len() && (#[trigger] old(self).channels@[j]).id == old(self).remotes@[i].channel_id
                                    && out@.len() == old(self).channels@[j].members@.len()
                                    && forall|x: int|
                                    0 <= x < out@.len() ==> (#[trigger] out@[x]).0 == old(self).channels@[j].members@[x] && out@[x].1@
                                        == spec_encode_chat_forward(
                                        m@,
                                        old(self).channels@[j].members@[x] == addr,
                                        body,
                                    ),
                        }
                    }
            },
            data@.len() >= 1 && data@[0] == TAG_MASK ==> {
                let body = data@.subrange(1, data@.len() as int);
                &&& final(self).channels == old(self).channels
                &&& final(self).intake == old(self).intake
                &&& ((old(self).spec_has_remote(addr) && spec_mask_ok(body)) ==> forall|j: int|
                    0 <= j < final(self).remotes@.len() && (#[trigger] final(self).remotes@[j]).addr == addr ==> (final(self).remotes@[j].mask matches Some(m)
                        && m@ == body))
                &&& (!(old(self).spec_has_remote(addr) && spec_mask_ok(body)) ==> *final(self)
                    == *old(self) && out@.len() == 0)
            },
            data@.len() >= 1 && data@[0] == TAG_CTRL ==> {
                let body = data@.subrange(1, data@.len() as int);
                &&& final(self).channels == old(self).channels
                &&& final(self).intake == old(self).intake
                &&& out@.len() == 0
                &&& forall|j: int|
                    0 <= j < final(self).remotes@.len() && (#[trigger] final(self).remotes@[j]).addr == addr ==> {
                        let prior = old(self).remotes@[j];
                        let cur = final(self).remotes@[j];
                        match spec_parse_control(body) {
                            Some(ControlRequest::SetDeafen) => cur.deafened && cur.muted
                                == prior.muted,
                            Some(ControlRequest::SetUndeafen) => !cur.deafened && cur.muted
                                == prior.muted,
                            Some(ControlRequest::SetMute) => cur.muted && cur.deafened
                                == prior.deafened,
                            Some(ControlRequest::SetUnmute) => !cur.muted && cur.deafened
                                == prior.deafened,
                            _ => cur == prior,
                        }
                    }
            },
            data@.len() >= 1 && data@[0] == TAG_EOF ==> out@.len() == 0,
            data@.len() >= 1 && data@[0] == TAG_AUDIO ==> out@.len() == 0 && final(self).channels
                == old(self).channels && (old(self).spec_has_remote(addr) && old(self).intake@.len() < old(self).config.max_users ==> final(self).intake@.len() == old(self).intake@.len() + 1 && final(self).intake@.last().0 == addr && final(self).intake@.last().1@ == data@.subrange(1, data@.len() as int)),
    {
        if data.len() == 0 {
            return Vec::new();
        }
        let tag = data[0];
        if tag == TAG_JOIN {
            match decode_join(data) {
                Some(chan_id) => {
                    self.join(addr, chan_id, now_ms);
                },
                None => {},
            }
            Vec::new()
        } else if tag == TAG_AUDIO {
            let payload = crate::bytes::copy_range(data, 1, data.len());
            self.handle_audio(addr, payload, now_ms);
            Vec::new()
        } else if tag == TAG_EOF {
            self.handle_eof(addr);
            Vec::new()
        } else if tag == TAG_MASK {
            let body = crate::bytes::copy_range(data, 1, data.len());
            self.handle_mask(addr, body.as_slice())
        } else if tag == TAG_LIST {
            self.handle_list(addr)
        } else if tag == TAG_CHAT {
            let body = crate::bytes::copy_range(data, 1, data.len());
            self.handle_chat(addr, body.as_slice())
        } else if tag == TAG_CTRL {
            let body = crate::bytes::copy_range(data, 1, data.len());
            self.handle_ctrl(addr, body.as_slice());
            Vec::new()
        } else if tag == crate::protocol::TAG_REGISTER_CONSOLE {
            let body = crate::bytes::copy_range(data, 1, data.len());
            self.register_console(addr, body.as_slice(), now_ms);
            Vec::new()
        } else {
            Vec::new()
        }
    }
}


/// Law: in a well-formed server, every remote sits in an existing channel
/// whose member list carries it, and by the parallel-slot layout every
/// member owns exactly one input-frame slot and one filter slot there.
pub proof fn lemma_members_have_slots(s: ServerState, i: int)
    requires
        s.wf(),
        0 <= i < s.remotes@.len(),
    ensures
        exists|j: int, k: int|
            0 <= j < s.channels@.len() && s.channels@[j].id == s.remotes@[i].channel_id && 0 <= k
                < s.channels@[j].members@.len() && #[trigger] s.channels@[j].members@[k]
                == s.remotes@[i].addr && k < s.channels@[j].inputs@.len() && k < s.channels@[
            j].filters@.len(),
{
    let j0 = choose|j: int|
        0 <= j < s.channels@.len() && (#[trigger] s.channels@[j]).id == s.remotes@[i].channel_id
            && s.channels@[j].spec_has_member(s.remotes@[i].addr);
    let k0 = choose|k: int|
        0 <= k < s.channels@[j0].members@.len() && s.channels@[j0].members@[k] == s.remotes@[
        i].addr;
    assert(s.channels@[j0].wf(s.config.spec_frame_len()));
    assert(0 <= j0 < s.channels@.len() && s.channels@[j0].id == s.remotes@[i].channel_id && 0
        <= k0 < s.channels@[j0].members@.len() && s.channels@[j0].members@[k0] == s.remotes@[
    i].addr && k0 < s.channels@[j0].inputs@.len() && k0 < s.channels@[j0].filters@.len());
}

/// Law: in a well-formed server, no jitter buffer ever exceeds its bound.
pub proof fn lemma_jitter_bounded(s: ServerState)
    requires
        s.wf(),
    ensures
        forall|i: int|
            0 <= i < s.remotes@.len() ==> (#[trigger] s.remotes@[i]).jitter_buffer@.len()
                <= JITTER_MAX,
{
}


} // verus!
