//! LIST reply codec: the server answers a LIST request with the requester's
//! current channel id and, per channel, its name, id, unmasked-member count
//! and the mask and flags of every masked member.

use vstd::prelude::*;

use crate::bytes::{
    copy_range, find_byte, lemma_find_byte, lemma_u32_be_round_trip, push_u32_be, read_u32_be,
    spec_find_byte, spec_u32_be, spec_u32_from_be,
};
use crate::protocol::TAG_LIST;

verus! {

/// One masked member in a LIST reply.
pub struct MemberEntry {
    pub mask: Vec<u8>,
    pub muted: bool,
    pub deafened: bool,
}

/// One channel in a LIST reply.
pub struct ChannelEntry {
    pub name: Vec<u8>,
    pub chan_id: u32,
    pub unmasked: u32,
    pub members: Vec<MemberEntry>,
}

/// A full LIST reply.
pub struct ListReply {
    pub current_id: u32,
    pub channels: Vec<ChannelEntry>,
}

impl View for MemberEntry {
    type V = (Seq<u8>, bool, bool);

    open spec fn view(&self) -> (Seq<u8>, bool, bool) {
        (self.mask@, self.muted, self.deafened)
    }
}

impl View for ChannelEntry {
    type V = (Seq<u8>, u32, u32, Seq<(Seq<u8>, bool, bool)>);

    open spec fn view(&self) -> (Seq<u8>, u32, u32, Seq<(Seq<u8>, bool, bool)>) {
        (self.name@, self.chan_id, self.unmasked, self.members@.map_values(|m: MemberEntry| m@))
    }
}

impl View for ListReply {
    type V = (u32, Seq<(Seq<u8>, u32, u32, Seq<(Seq<u8>, bool, bool)>)>);

    open spec fn view(&self) -> (u32, Seq<(Seq<u8>, u32, u32, Seq<(Seq<u8>, bool, bool)>)>) {
        (self.current_id, self.channels@.map_values(|c: ChannelEntry| c@))
    }
}

/// The flags byte: bit 0 mute, bit 1 deafen.
pub open spec fn spec_flags_byte(muted: bool, deafened: bool) -> u8 {
    ((if muted {
        1int
    } else {
        0int
    }) + (if deafened {
        2int
    } else {
        0int
    })) as u8
}

/// A mask can sit before the 0x01 separator only if it never contains it.
pub open spec fn spec_member_wf(m: (Seq<u8>, bool, bool)) -> bool {
    forall|i: int| 0 <= i < m.0.len() ==> m.0[i] != 0x01u8
}

/// Wire bytes of one member: mask, separator, flags.
pub open spec fn spec_encode_member(m: (Seq<u8>, bool, bool)) -> Seq<u8> {
    m.0 + seq![0x01u8, spec_flags_byte(m.1, m.2)]
}

/// Reads one member at `pos`: the mask runs to the first separator, the next
/// byte carries the flags; yields the member and the following position.
pub open spec fn spec_decode_member(data: Seq<u8>, pos: int) -> Option<((Seq<u8>, bool, bool), int)> {
    if 0 <= pos <= data.len() {
        match spec_find_byte(data, 0x01u8, pos) {
            Some(sep) => {
                if sep + 1 < data.len() {
                    let f = data[sep + 1];
                    Some(
                        (
                            (data.subrange(pos, sep), f % 2 == 1, (f / 2) % 2 == 1),
                            sep + 2,
                        ),
                    )
                } else {
                    None
                }
            },
            None => None,
        }
    } else {
        None
    }
}

/// Reads `n` members starting at `pos`.
pub open spec fn spec_decode_members(data: Seq<u8>, pos: int, n: nat) -> Option<
    (Seq<(Seq<u8>, bool, bool)>, int),
>
    decreases n,
{
    if n == 0 {
        Some((Seq::empty(), pos))
    } else {
        match spec_decode_member(data, pos) {
            Some((m, p2)) => match spec_decode_members(data, p2, (n - 1) as nat) {
                Some((rest, p3)) => Some((seq![m] + rest, p3)),
                None => None,
            },
            None => None,
        }
    }
}

/// Wire bytes of a member list.
pub open spec fn spec_encode_members(ms: Seq<(Seq<u8>, bool, bool)>) -> Seq<u8>
    decreases ms.len(),
{
    if ms.len() == 0 {
        Seq::empty()
    } else {
        spec_encode_member(ms[0]) + spec_encode_members(ms.drop_first())
    }
}

/// A member written at `pos` (with anything after it) reads back as itself.
pub proof fn lemma_decode_member_at(data: Seq<u8>, pos: int, m: (Seq<u8>, bool, bool))
    requires
        spec_member_wf(m),
        0 <= pos,
        pos + m.0.len() + 2 <= data.len(),
        data.subrange(pos, pos + m.0.len() + 2) == spec_encode_member(m),
    ensures
        spec_decode_member(data, pos) == Some((m, pos + m.0.len() + 2)),
{
    let sep = pos + m.0.len() as int;
    let enc = spec_encode_member(m);
    assert(forall|j: int|
        pos <= j < pos + m.0.len() + 2 ==> data[j] == enc[j - pos]);
    assert(data[sep] == 0x01u8);
    assert(forall|j: int| pos <= j < sep ==> data[j] == m.0[j - pos] && data[j] != 0x01u8);
    lemma_find_byte(data, 0x01u8, pos);
    match spec_find_byte(data, 0x01u8, pos) {
        Some(i) => {
            assert(i == sep);
            assert(data.subrange(pos, sep) =~= m.0);
            let f = data[sep + 1];
            assert(f == spec_flags_byte(m.1, m.2));
            assert(f % 2 == 1 <==> m.1);
            assert((f / 2) % 2 == 1 <==> m.2);
        },
        None => {
            assert(data[sep] == 0x01u8);
            assert(false);
        },
    }
}

/// Total wire length of a member list.
pub open spec fn spec_members_len(ms: Seq<(Seq<u8>, bool, bool)>) -> int
    decreases ms.len(),
{
    if ms.len() == 0 {
        0
    } else {
        ms[0].0.len() + 2 + spec_members_len(ms.drop_first())
    }
}

pub proof fn lemma_encode_members_len(ms: Seq<(Seq<u8>, bool, bool)>)
    ensures
        spec_encode_members(ms).len() == spec_members_len(ms),
        spec_members_len(ms) >= 0,
    decreases ms.len(),
{
    if ms.len() > 0 {
        lemma_encode_members_len(ms.drop_first());
    }
}

/// A member list written at `pos` (with anything after it) reads back as
/// itself.
pub proof fn lemma_decode_members_at(data: Seq<u8>, pos: int, ms: Seq<(Seq<u8>, bool, bool)>)
    requires
        forall|k: int| 0 <= k < ms.len() ==> spec_member_wf(#[trigger] ms[k]),
        0 <= pos,
        pos + spec_members_len(ms) <= data.len(),
        data.subrange(pos, pos + spec_members_len(ms)) == spec_encode_members(ms),
    ensures
        spec_decode_members(data, pos, ms.len()) == Some((ms, pos + spec_members_len(ms))),
    decreases ms.len(),
{
    lemma_encode_members_len(ms);
    if ms.len() == 0 {
        assert(spec_decode_members(data, pos, 0) == Some((Seq::<(Seq<u8>, bool, bool)>::empty(), pos)));
        assert(ms =~= Seq::<(Seq<u8>, bool, bool)>::empty());
    } else {
        let m = ms[0];
        let rest = ms.drop_first();
        lemma_encode_members_len(rest);
        let mlen: int = m.0.len() as int + 2;
        let whole = data.subrange(pos, pos + spec_members_len(ms));
        assert(whole == spec_encode_member(m) + spec_encode_members(rest));
        assert(data.subrange(pos, pos + mlen) =~= whole.subrange(0, mlen));
        assert(whole.subrange(0, mlen) =~= spec_encode_member(m));
        lemma_decode_member_at(data, pos, m);
        assert(data.subrange(pos + mlen, pos + mlen + spec_members_len(rest)) =~= whole.subrange(
            mlen,
            spec_members_len(ms),
        ));
        assert(whole.subrange(mlen, spec_members_len(ms)) =~= spec_encode_members(rest));
        lemma_decode_members_at(data, pos + mlen, rest);
        assert(seq![m] + rest =~= ms);
    }
}

/// Appends one member's wire bytes.
pub fn encode_member_into(out: &mut Vec<u8>, m: &MemberEntry)
    ensures
        final(out)@ == old(out)@ + spec_encode_member(m@),
{
    out.extend_from_slice(m.mask.as_slice());
    out.push(0x01);
    let flags: u8 = (if m.muted {
        1u8
    } else {
        0u8
    }) + (if m.deafened {
        2u8
    } else {
        0u8
    });
    out.push(flags);
    assert(out@ =~= old(out)@ + spec_encode_member(m@));
}

/// Reads one member at `pos`.
pub fn decode_member(data: &[u8], pos: usize) -> (r: Option<(MemberEntry, usize)>)
    requires
        pos <= data@.len(),
    ensures
        match r {
            Some((m, p2)) => spec_decode_member(data@, pos as int) == Some((m@, p2 as int))
                && pos < p2 <= data@.len(),
            None => spec_decode_member(data@, pos as int) is None,
        },
{
    match find_byte(data, 0x01, pos) {
        Some(sep) => {
            if data.len() - sep >= 2 {
                let mask = copy_range(data, pos, sep);
                let f = data[sep + 1];
                Some(
                    (
                        MemberEntry { mask, muted: f % 2 == 1, deafened: (f / 2) % 2 == 1 },
                        sep + 2,
                    ),
                )
            } else {
                None
            }
        },
        None => None,
    }
}

/// Reads `n` members at `pos`.
pub fn decode_members(data: &[u8], pos: usize, n: u32) -> (r: Option<(Vec<MemberEntry>, usize)>)
    requires
        pos <= data@.len(),
    ensures
        match r {
            Some((ms, p2)) => spec_decode_members(data@, pos as int, n as nat) == Some(
                (ms@.map_values(|m: MemberEntry| m@), p2 as int),
            ) && p2 <= data@.len(),
            None => spec_decode_members(data@, pos as int, n as nat) is None,
        },
{
    let mut out: Vec<MemberEntry> = Vec::new();
    let mut cur = pos;
    let mut i: u32 = 0;
    while i < n
        invariant
            pos <= data@.len(),
            cur <= data@.len(),
            i <= n,
            out@.len() == i as nat,
            spec_decode_members(data@, pos as int, n as nat) == (match spec_decode_members(
                data@,
                cur as int,
                (n - i) as nat,
            ) {
                Some((ms, e)) => Some(
                    (out@.map_values(|m: MemberEntry| m@) + ms, e),
                ),
                None => None::<(Seq<(Seq<u8>, bool, bool)>, int)>,
            }),
        decreases n - i,
    {
        match decode_member(data, cur) {
            Some((m, p2)) => {
                proof {
                    let ghost done = out@.map_values(|mm: MemberEntry| mm@);
                    assert(spec_decode_members(data@, cur as int, (n - i) as nat) == (
                    match spec_decode_members(data@, p2 as int, (n - i - 1) as nat) {
                        Some((rest, e)) => Some((seq![m@] + rest, e)),
                        None => None::<(Seq<(Seq<u8>, bool, bool)>, int)>,
                    }));
                    assert forall|rest: Seq<(Seq<u8>, bool, bool)>|
                        done + (seq![m@] + rest) =~= (done + seq![m@]) + rest by {}
                    assert(out@.push(m).map_values(|mm: MemberEntry| mm@) =~= done + seq![m@]);
                }
                out.push(m);
                cur = p2;
            },
            None => {
                return None;
            },
        }
        i = i + 1;
    }
    proof {
        assert(spec_decode_members(data@, cur as int, 0) == Some(
            (Seq::<(Seq<u8>, bool, bool)>::empty(), cur as int),
        ));
        assert(out@.map_values(|m: MemberEntry| m@) + Seq::<(Seq<u8>, bool, bool)>::empty()
            =~= out@.map_values(|m: MemberEntry| m@));
    }
    Some((out, cur))
}

/// Wire bytes of one channel entry.
pub open spec fn spec_encode_channel(c: (Seq<u8>, u32, u32, Seq<(Seq<u8>, bool, bool)>)) -> Seq<
    u8,
> {
    seq![c.0.len() as u8] + c.0 + spec_u32_be(c.1) + spec_u32_be(c.2) + spec_u32_be(
        c.3.len() as u32,
    ) + spec_encode_members(c.3)
}

/// A channel entry can be framed when its name fits one length byte, its
/// member count fits the count field, and every mask avoids the separator.
pub open spec fn spec_channel_wf(c: (Seq<u8>, u32, u32, Seq<(Seq<u8>, bool, bool)>)) -> bool {
    &&& c.0.len() <= 255
    &&& c.3.len() <= 0xffffffff
    &&& forall|k: int| 0 <= k < c.3.len() ==> spec_member_wf(#[trigger] c.3[k])
}

/// Reads one channel entry at `pos`.
pub open spec fn spec_decode_channel(data: Seq<u8>, pos: int) -> Option<
    ((Seq<u8>, u32, u32, Seq<(Seq<u8>, bool, bool)>), int),
> {
    if 0 <= pos && pos + 1 <= data.len() {
        let name_len = data[pos] as int;
        if pos + 1 + name_len + 12 <= data.len() {
            let name = data.subrange(pos + 1, pos + 1 + name_len);
            let q = pos + 1 + name_len;
            let chan_id = spec_u32_from_be(data[q], data[q + 1], data[q + 2], data[q + 3]);
            let unmasked = spec_u32_from_be(
                data[q + 4],
                data[q + 5],
                data[q + 6],
                data[q + 7],
            );
            let n = spec_u32_from_be(data[q + 8], data[q + 9], data[q + 10], data[q + 11]);
            match spec_decode_members(data, q + 12, n as nat) {
                Some((ms, e)) => Some(((name, chan_id, unmasked, ms), e)),
                None => None,
            }
        } else {
            None
        }
    } else {
        None
    }
}

/// Wire length of one channel entry.
pub open spec fn spec_channel_len(c: (Seq<u8>, u32, u32, Seq<(Seq<u8>, bool, bool)>)) -> int {
    1 + c.0.len() + 12 + spec_members_len(c.3)
}

/// A channel entry written at `pos` (with anything after it) reads back as
/// itself.
pub proof fn lemma_decode_channel_at(
    data: Seq<u8>,
    pos: int,
    c: (Seq<u8>, u32, u32, Seq<(Seq<u8>, bool, bool)>),
)
    requires
        spec_channel_wf(c),
        0 <= pos,
        pos + spec_channel_len(c) <= data.len(),
        data.subrange(pos, pos + spec_channel_len(c)) == spec_encode_channel(c),
    ensures
        spec_decode_channel(data, pos) == Some((c, pos + spec_channel_len(c))),
{
    lemma_encode_members_len(c.3);
    let enc = spec_encode_channel(c);
    assert(enc.len() == spec_channel_len(c)) by {
        lemma_encode_members_len(c.3);
    }
    assert(forall|j: int| pos <= j < pos + spec_channel_len(c) ==> data[j] == enc[j - pos]);
    let name_len = c.0.len() as int;
    assert(data[pos] == c.0.len() as u8);
    assert(data[pos] as int == name_len);
    assert(data.subrange(pos + 1, pos + 1 + name_len) =~= c.0);
    let q = pos + 1 + name_len;
    lemma_u32_be_round_trip(c.1);
    lemma_u32_be_round_trip(c.2);
    lemma_u32_be_round_trip(c.3.len() as u32);
    assert(data[q] == spec_u32_be(c.1)[0]);
    assert(data[q + 1] == spec_u32_be(c.1)[1]);
    assert(data[q + 2] == spec_u32_be(c.1)[2]);
    assert(data[q + 3] == spec_u32_be(c.1)[3]);
    assert(data[q + 4] == spec_u32_be(c.2)[0]);
    assert(data[q + 5] == spec_u32_be(c.2)[1]);
    assert(data[q + 6] == spec_u32_be(c.2)[2]);
    assert(data[q + 7] == spec_u32_be(c.2)[3]);
    assert(data[q + 8] == spec_u32_be(c.3.len() as u32)[0]);
    assert(data[q + 9] == spec_u32_be(c.3.len() as u32)[1]);
    assert(data[q + 10] == spec_u32_be(c.3.len() as u32)[2]);
    assert(data[q + 11] == spec_u32_be(c.3.len() as u32)[3]);
    let whole = data.subrange(pos, pos + spec_channel_len(c));
    assert(data.subrange(q + 12, q + 12 + spec_members_len(c.3)) =~= whole.subrange(
        1 + name_len + 12,
        spec_channel_len(c),
    ));
    assert(whole.subrange(1 + name_len + 12, spec_channel_len(c)) =~= spec_encode_members(c.3));
    lemma_decode_members_at(data, q + 12, c.3);
}

/// Appends one channel entry's wire bytes.
pub fn encode_channel_into(out: &mut Vec<u8>, c: &ChannelEntry)
    requires
        c.name@.len() <= 255,
        c.members@.len() <= 0xffffffff,
    ensures
        final(out)@ == old(out)@ + spec_encode_channel(c@),
{
    out.push(c.name.len() as u8);
    out.extend_from_slice(c.name.as_slice());
    push_u32_be(out, c.chan_id);
    push_u32_be(out, c.unmasked);
    push_u32_be(out, c.members.len() as u32);
    let ghost header = old(out)@ + seq![c.name@.len() as u8] + c.name@ + spec_u32_be(c.chan_id)
        + spec_u32_be(c.unmasked) + spec_u32_be(c.members@.len() as u32);
    assert(out@ =~= header);
    let mut i: usize = 0;
    while i < c.members.len()
        invariant
            i <= c.members@.len(),
            out@ == header + spec_encode_members(
                c.members@.map_values(|m: MemberEntry| m@).take(i as int),
            ),
        decreases c.members@.len() - i,
    {
        let ghost ms = c.members@.map_values(|m: MemberEntry| m@);
        encode_member_into(out, &c.members[i]);
        proof {
            lemma_encode_members_snoc(ms.take(i as int), ms[i as int]);
            assert(ms.take(i as int).push(ms[i as int]) =~= ms.take(i + 1));
        }
        i = i + 1;
    }
    proof {
        let ms = c.members@.map_values(|m: MemberEntry| m@);
        assert(ms.take(ms.len() as int) =~= ms);
        assert(out@ =~= old(out)@ + spec_encode_channel(c@));
    }
}

/// Appending one member to a list appends its bytes to the list's bytes.
pub proof fn lemma_encode_members_snoc(ms: Seq<(Seq<u8>, bool, bool)>, m: (Seq<u8>, bool, bool))
    ensures
        spec_encode_members(ms.push(m)) == spec_encode_members(ms) + spec_encode_member(m),
    decreases ms.len(),
{
    if ms.len() == 0 {
        let p = ms.push(m);
        assert(p[0] == m);
        assert(p.drop_first().len() == 0);
        assert(spec_encode_members(p.drop_first()) =~= Seq::<u8>::empty());
        assert(spec_encode_members(p) =~= spec_encode_member(m) + Seq::<u8>::empty());
        assert(spec_encode_member(m) + Seq::<u8>::empty() =~= spec_encode_member(m));
        assert(spec_encode_members(ms) + spec_encode_member(m) =~= spec_encode_member(m));
    } else {
        assert(ms.push(m).drop_first() =~= ms.drop_first().push(m));
        lemma_encode_members_snoc(ms.drop_first(), m);
        assert(spec_encode_members(ms.push(m)) =~= spec_encode_members(ms)
            + spec_encode_member(m));
    }
}

/// Reads one channel entry at `pos`.
pub fn decode_channel(data: &[u8], pos: usize) -> (r: Option<(ChannelEntry, usize)>)
    requires
        pos <= data@.len(),
    ensures
        match r {
            Some((c, p2)) => spec_decode_channel(data@, pos as int) == Some((c@, p2 as int))
                && p2 <= data@.len(),
            None => spec_decode_channel(data@, pos as int) is None,
        },
{
    if pos >= data.len() {
        return None;
    }
    let name_len = data[pos] as usize;
    let rest = data.len() - pos - 1;
    if rest < 12 || rest - 12 < name_len {
        assert(pos + 1 + name_len + 12 > data@.len());
        return None;
    }
    assert(pos + 1 + name_len + 12 <= data@.len());
    let name = copy_range(data, pos + 1, pos + 1 + name_len);
    let q = pos + 1 + name_len;
    let chan_id = read_u32_be(data, q);
    let unmasked = read_u32_be(data, q + 4);
    let n = read_u32_be(data, q + 8);
    match decode_members(data, q + 12, n) {
        Some((ms, e)) => Some((ChannelEntry { name, chan_id, unmasked, members: ms }, e)),
        None => None,
    }
}

/// Wire bytes of a channel list.
pub open spec fn spec_encode_channels(cs: Seq<(Seq<u8>, u32, u32, Seq<(Seq<u8>, bool, bool)>)>) -> Seq<u8>
    decreases cs.len(),
{
    if cs.len() == 0 {
        Seq::empty()
    } else {
        spec_encode_channel(cs[0]) + spec_encode_channels(cs.drop_first())
    }
}

/// Total wire length of a channel list.
pub open spec fn spec_channels_len(cs: Seq<(Seq<u8>, u32, u32, Seq<(Seq<u8>, bool, bool)>)>) -> int
    decreases cs.len(),
{
    if cs.len() == 0 {
        0
    } else {
        spec_channel_len(cs[0]) + spec_channels_len(cs.drop_first())
    }
}

pub proof fn lemma_encode_channels_len(cs: Seq<(Seq<u8>, u32, u32, Seq<(Seq<u8>, bool, bool)>)>)
    ensures
        spec_encode_channels(cs).len() == spec_channels_len(cs),
        spec_channels_len(cs) >= 0,
    decreases cs.len(),
{
    if cs.len() > 0 {
        lemma_encode_members_len(cs[0].3);
        lemma_encode_channels_len(cs.drop_first());
    }
}

/// Appending one channel to a list appends its bytes to the list's bytes.
pub proof fn lemma_encode_channels_snoc(
    cs: Seq<(Seq<u8>, u32, u32, Seq<(Seq<u8>, bool, bool)>)>,
    c: (Seq<u8>, u32, u32, Seq<(Seq<u8>, bool, bool)>),
)
    ensures
        spec_encode_channels(cs.push(c)) == spec_encode_channels(cs) + spec_encode_channel(c),
    decreases cs.len(),
{
    if cs.len() == 0 {
        let p = cs.push(c);
        assert(p[0] == c);
        assert(p.drop_first().len() == 0);
        assert(spec_encode_channels(p.drop_first()) =~= Seq::<u8>::empty());
        assert(spec_encode_channels(p) =~= spec_encode_channel(c) + Seq::<u8>::empty());
        assert(spec_encode_channel(c) + Seq::<u8>::empty() =~= spec_encode_channel(c));
        assert(spec_encode_channels(cs) + spec_encode_channel(c) =~= spec_encode_channel(c));
    } else {
        assert(cs.push(c).drop_first() =~= cs.drop_first().push(c));
        lemma_encode_channels_snoc(cs.drop_first(), c);
        assert(spec_encode_channels(cs.push(c)) =~= spec_encode_channels(cs)
            + spec_encode_channel(c));
    }
}

/// Reads `n` channel entries starting at `pos`.
pub open spec fn spec_decode_channels(data: Seq<u8>, pos: int, n: nat) -> Option<
    (Seq<(Seq<u8>, u32, u32, Seq<(Seq<u8>, bool, bool)>)>, int),
>
    decreases n,
{
    if n == 0 {
        Some((Seq::empty(), pos))
    } else {
        match spec_decode_channel(data, pos) {
            Some((c, p2)) => match spec_decode_channels(data, p2, (n - 1) as nat) {
                Some((rest, p3)) => Some((seq![c] + rest, p3)),
                None => None,
            },
            None => None,
        }
    }
}

/// A channel list written at `pos` (with anything after it) reads back as
/// itself.
pub proof fn lemma_decode_channels_at(
    data: Seq<u8>,
    pos: int,
    cs: Seq<(Seq<u8>, u32, u32, Seq<(Seq<u8>, bool, bool)>)>,
)
    requires
        forall|k: int| 0 <= k < cs.len() ==> spec_channel_wf(#[trigger] cs[k]),
        0 <= pos,
        pos + spec_channels_len(cs) <= data.len(),
        data.subrange(pos, pos + spec_channels_len(cs)) == spec_encode_channels(cs),
    ensures
        spec_decode_channels(data, pos, cs.len()) == Some((cs, pos + spec_channels_len(cs))),
    decreases cs.len(),
{
    lemma_encode_channels_len(cs);
    if cs.len() == 0 {
        assert(cs =~= Seq::<(Seq<u8>, u32, u32, Seq<(Seq<u8>, bool, bool)>)>::empty());
    } else {
        let c = cs[0];
        let rest = cs.drop_first();
        lemma_encode_channels_len(rest);
        lemma_encode_members_len(c.3);
        let clen: int = spec_channel_len(c);
        let whole = data.subrange(pos, pos + spec_channels_len(cs));
        assert(whole == spec_encode_channel(c) + spec_encode_channels(rest));
        assert(data.subrange(pos, pos + clen) =~= whole.subrange(0, clen));
        assert(whole.subrange(0, clen) =~= spec_encode_channel(c));
        lemma_decode_channel_at(data, pos, c);
        assert(data.subrange(pos + clen, pos + clen + spec_channels_len(rest)) =~= whole.subrange(
            clen,
            spec_channels_len(cs),
        ));
        assert(whole.subrange(clen, spec_channels_len(cs)) =~= spec_encode_channels(rest));
        lemma_decode_channels_at(data, pos + clen, rest);
        assert(seq![c] + rest =~= cs);
    }
}

/// Reads `n` channel entries at `pos`.
pub fn decode_channels(data: &[u8], pos: usize, n: u32) -> (r: Option<(Vec<ChannelEntry>, usize)>)
    requires
        pos <= data@.len(),
    ensures
        match r {
            Some((cs, p2)) => spec_decode_channels(data@, pos as int, n as nat) == Some(
                (cs@.map_values(|c: ChannelEntry| c@), p2 as int),
            ) && p2 <= data@.len(),
            None => spec_decode_channels(data@, pos as int, n as nat) is None,
        },
{
    let mut out: Vec<ChannelEntry> = Vec::new();
    let mut cur = pos;
    let mut i: u32 = 0;
    while i < n
        invariant
            pos <= data@.len(),
            cur <= data@.len(),
            i <= n,
            out@.len() == i as nat,
            spec_decode_channels(data@, pos as int, n as nat) == (match spec_decode_channels(
                data@,
                cur as int,
                (n - i) as nat,
            ) {
                Some((cs, e)) => Some(
                    (out@.map_values(|c: ChannelEntry| c@) + cs, e),
                ),
                None => None::<(Seq<(Seq<u8>, u32, u32, Seq<(Seq<u8>, bool, bool)>)>, int)>,
            }),
        decreases n - i,
    {
        match decode_channel(data, cur) {
            Some((c, p2)) => {
                proof {
                    let ghost done = out@.map_values(|cc: ChannelEntry| cc@);
                    assert(spec_decode_channels(data@, cur as int, (n - i) as nat) == (
                    match spec_decode_channels(data@, p2 as int, (n - i - 1) as nat) {
                        Some((rest, e)) => Some((seq![c@] + rest, e)),
                        None => None::<(Seq<(Seq<u8>, u32, u32, Seq<(Seq<u8>, bool, bool)>)>, int)>,
                    }));
                    assert forall|rest: Seq<(Seq<u8>, u32, u32, Seq<(Seq<u8>, bool, bool)>)>|
                        done + (seq![c@] + rest) =~= (done + seq![c@]) + rest by {}
                    assert(out@.push(c).map_values(|cc: ChannelEntry| cc@) =~= done + seq![c@]);
                }
                out.push(c);
                cur = p2;
            },
            None => {
                return None;
            },
        }
        i = i + 1;
    }
    proof {
        assert(spec_decode_channels(data@, cur as int, 0) == Some(
            (Seq::<(Seq<u8>, u32, u32, Seq<(Seq<u8>, bool, bool)>)>::empty(), cur as int),
        ));
        assert(out@.map_values(|c: ChannelEntry| c@) + Seq::<
            (Seq<u8>, u32, u32, Seq<(Seq<u8>, bool, bool)>),
        >::empty() =~= out@.map_values(|c: ChannelEntry| c@));
    }
    Some((out, cur))
}

/// Wire bytes of a full LIST reply: tag, the requester's channel id, the
/// channel count, then each channel entry.
pub open spec fn spec_encode_list_reply(
    r: (u32, Seq<(Seq<u8>, u32, u32, Seq<(Seq<u8>, bool, bool)>)>),
) -> Seq<u8> {
    seq![TAG_LIST] + spec_u32_be(r.0) + spec_u32_be(r.1.len() as u32) + spec_encode_channels(r.1)
}

/// A LIST reply can be framed when every channel can and the channel count
/// fits its field.
pub open spec fn spec_list_reply_wf(
    r: (u32, Seq<(Seq<u8>, u32, u32, Seq<(Seq<u8>, bool, bool)>)>),
) -> bool {
    &&& r.1.len() <= 0xffffffff
    &&& forall|k: int| 0 <= k < r.1.len() ==> spec_channel_wf(#[trigger] r.1[k])
}

/// The reply a well-formed LIST packet carries: it must parse exactly to its
/// end.
pub open spec fn spec_decode_list_reply(packet: Seq<u8>) -> Option<
    (u32, Seq<(Seq<u8>, u32, u32, Seq<(Seq<u8>, bool, bool)>)>),
> {
    if packet.len() >= 9 && packet[0] == TAG_LIST {
        let current_id = spec_u32_from_be(packet[1], packet[2], packet[3], packet[4]);
        let n = spec_u32_from_be(packet[5], packet[6], packet[7], packet[8]);
        match spec_decode_channels(packet, 9, n as nat) {
            Some((cs, e)) => if e == packet.len() {
                Some((current_id, cs))
            } else {
                None
            },
            None => None,
        }
    } else {
        None
    }
}

/// Builds the LIST reply packet.
pub fn encode_list_reply(r: &ListReply) -> (out: Vec<u8>)
    requires
        r.channels@.len() <= 0xffffffff,
        forall|k: int| 0 <= k < r.channels@.len() ==> (#[trigger] r.channels@[k]).name@.len()
            <= 255 && r.channels@[k].members@.len() <= 0xffffffff,
    ensures
        out@ == spec_encode_list_reply(r@),
{
    let mut out: Vec<u8> = Vec::new();
    out.push(TAG_LIST);
    push_u32_be(&mut out, r.current_id);
    push_u32_be(&mut out, r.channels.len() as u32);
    let ghost header = seq![TAG_LIST] + spec_u32_be(r.current_id) + spec_u32_be(
        r.channels@.len() as u32,
    );
    assert(out@ =~= header);
    let mut i: usize = 0;
    while i < r.channels.len()
        invariant
            i <= r.channels@.len(),
            forall|k: int| 0 <= k < r.channels@.len() ==> (#[trigger] r.channels@[k]).name@.len()
                <= 255 && r.channels@[k].members@.len() <= 0xffffffff,
            out@ == header + spec_encode_channels(
                r.channels@.map_values(|c: ChannelEntry| c@).take(i as int),
            ),
        decreases r.channels@.len() - i,
    {
        let ghost cs = r.channels@.map_values(|c: ChannelEntry| c@);
        encode_channel_into(&mut out, &r.channels[i]);
        proof {
            lemma_encode_channels_snoc(cs.take(i as int), cs[i as int]);
            assert(cs.take(i as int).push(cs[i as int]) =~= cs.take(i + 1));
        }
        i = i + 1;
    }
    proof {
        let cs = r.channels@.map_values(|c: ChannelEntry| c@);
        assert(cs.take(cs.len() as int) =~= cs);
        assert(out@ =~= spec_encode_list_reply(r@));
    }
    out
}

/// Parses a LIST reply packet.
pub fn decode_list_reply(packet: &[u8]) -> (r: Option<ListReply>)
    ensures
        match r {
            Some(reply) => spec_decode_list_reply(packet@) == Some(reply@),
            None => spec_decode_list_reply(packet@) is None,
        },
{
    if packet.len() >= 9 && packet[0] == TAG_LIST {
        let current_id = read_u32_be(packet, 1);
        let n = read_u32_be(packet, 5);
        match decode_channels(packet, 9, n) {
            Some((cs, e)) => {
                if e == packet.len() {
                    Some(ListReply { current_id, channels: cs })
                } else {
                    None
                }
            },
            None => None,
        }
    } else {
        None
    }
}

/// Round trip: a well-formed LIST reply decodes back from its own bytes.
pub proof fn lemma_list_reply_round_trip(
    r: (u32, Seq<(Seq<u8>, u32, u32, Seq<(Seq<u8>, bool, bool)>)>),
)
    requires
        spec_list_reply_wf(r),
    ensures
        spec_decode_list_reply(spec_encode_list_reply(r)) == Some(r),
{
    let p = spec_encode_list_reply(r);
    lemma_encode_channels_len(r.1);
    lemma_u32_be_round_trip(r.0);
    lemma_u32_be_round_trip(r.1.len() as u32);
    assert(p[1] == spec_u32_be(r.0)[0]);
    assert(p[2] == spec_u32_be(r.0)[1]);
    assert(p[3] == spec_u32_be(r.0)[2]);
    assert(p[4] == spec_u32_be(r.0)[3]);
    assert(p[5] == spec_u32_be(r.1.len() as u32)[0]);
    assert(p[6] == spec_u32_be(r.1.len() as u32)[1]);
    assert(p[7] == spec_u32_be(r.1.len() as u32)[2]);
    assert(p[8] == spec_u32_be(r.1.len() as u32)[3]);
    assert(p.subrange(9, 9 + spec_channels_len(r.1)) =~= spec_encode_channels(r.1));
    lemma_decode_channels_at(p, 9, r.1);
    assert(p.len() == 9 + spec_channels_len(r.1));
}


/// A decoded channel list has exactly the advertised number of entries, so
/// a decoded LIST reply never holds more channels than its count field.
pub proof fn lemma_decode_channels_count_at(data: Seq<u8>, pos: int, n: nat)
    ensures
        spec_decode_channels(data, pos, n) matches Some((cs, e)) ==> cs.len() == n,
    decreases n,
{
    if n > 0 {
        match spec_decode_channel(data, pos) {
            Some((c, p2)) => {
                lemma_decode_channels_count_at(data, p2, (n - 1) as nat);
            },
            None => {},
        }
    }
}

/// A decoded LIST reply holds at most the count field's worth of channels.
pub proof fn lemma_decode_channels_count(packet: Seq<u8>)
    ensures
        spec_decode_list_reply(packet) matches Some(rep) ==> rep.1.len() <= 0xffffffff,
{
    if packet.len() >= 9 && packet[0] == TAG_LIST {
        let n = spec_u32_from_be(packet[5], packet[6], packet[7], packet[8]);
        lemma_decode_channels_count_at(packet, 9, n as nat);
    }
}

} // verus!
