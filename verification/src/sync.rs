//! SYNC_COMMANDS reply codec: the server describes its command table —
//! name, description, usage, category, privilege flags and aliases per
//! command — in one length-prefixed wire message.

use vstd::prelude::*;

use crate::bytes::{copy_range, push_u16_be, read_u16_be, spec_u16_be, spec_u16_from_be,
    lemma_u16_be_round_trip};
use crate::commands::{CommandCategory, ServerCommand};
use crate::protocol::TAG_SYNC_COMMANDS;

verus! {

/// One command as the wire carries it.
pub struct SyncedCommand {
    pub name: Vec<u8>,
    pub description: Vec<u8>,
    pub usage: Vec<u8>,
    pub category: CommandCategory,
    pub requires_auth: bool,
    pub admin_only: bool,
    pub aliases: Vec<Vec<u8>>,
}

impl View for SyncedCommand {
    type V = (Seq<u8>, Seq<u8>, Seq<u8>, CommandCategory, bool, bool, Seq<Seq<u8>>);

    open spec fn view(&self) -> (Seq<u8>, Seq<u8>, Seq<u8>, CommandCategory, bool, bool, Seq<
        Seq<u8>,
    >) {
        (
            self.name@,
            self.description@,
            self.usage@,
            self.category,
            self.requires_auth,
            self.admin_only,
            self.aliases@.map_values(|a: Vec<u8>| a@),
        )
    }
}

/// A command that fits the frame: every text field and alias in one length
/// byte, and at most 255 aliases.
pub open spec fn spec_synced_wf(
    c: (Seq<u8>, Seq<u8>, Seq<u8>, CommandCategory, bool, bool, Seq<Seq<u8>>),
) -> bool {
    &&& c.0.len() <= 255
    &&& c.1.len() <= 255
    &&& c.2.len() <= 255
    &&& c.6.len() <= 255
    &&& forall|i: int| 0 <= i < c.6.len() ==> (#[trigger] c.6[i]).len() <= 255
}

/// A one-length-byte-prefixed field.
pub open spec fn spec_encode_lp(b: Seq<u8>) -> Seq<u8> {
    seq![b.len() as u8] + b
}

/// Reads one length-prefixed field at `pos`.
pub open spec fn spec_decode_lp(data: Seq<u8>, pos: int) -> Option<(Seq<u8>, int)> {
    if 0 <= pos && pos + 1 <= data.len() {
        let n = data[pos] as int;
        if pos + 1 + n <= data.len() {
            Some((data.subrange(pos + 1, pos + 1 + n), pos + 1 + n))
        } else {
            None
        }
    } else {
        None
    }
}

/// A length-prefixed field written at `pos` reads back as itself.
pub proof fn lemma_decode_lp_at(data: Seq<u8>, pos: int, b: Seq<u8>)
    requires
        b.len() <= 255,
        0 <= pos,
        pos + 1 + b.len() <= data.len(),
        data.subrange(pos, pos + 1 + b.len()) == spec_encode_lp(b),
    ensures
        spec_decode_lp(data, pos) == Some((b, pos + 1 + b.len())),
{
    let enc = spec_encode_lp(b);
    assert(forall|j: int| pos <= j < pos + 1 + b.len() ==> data[j] == enc[j - pos]);
    assert(data[pos] == b.len() as u8);
    assert(data.subrange(pos + 1, pos + 1 + b.len()) =~= b);
}

pub fn encode_lp_into(out: &mut Vec<u8>, b: &[u8])
    requires
        b@.len() <= 255,
    ensures
        final(out)@ == old(out)@ + spec_encode_lp(b@),
{
    out.push(b.len() as u8);
    out.extend_from_slice(b);
    assert(out@ =~= old(out)@ + spec_encode_lp(b@));
}

pub fn decode_lp(data: &[u8], pos: usize) -> (r: Option<(Vec<u8>, usize)>)
    requires
        pos <= data@.len(),
    ensures
        match r {
            Some((b, p2)) => spec_decode_lp(data@, pos as int) == Some((b@, p2 as int)) && pos
                < p2 <= data@.len(),
            None => spec_decode_lp(data@, pos as int) is None,
        },
{
    if pos >= data.len() {
        return None;
    }
    let n = data[pos] as usize;
    if data.len() - pos - 1 < n {
        return None;
    }
    let b = copy_range(data, pos + 1, pos + 1 + n);
    Some((b, pos + 1 + n))
}

/// Alias lists on the wire: each alias length-prefixed, in order.
pub open spec fn spec_encode_aliases(aliases: Seq<Seq<u8>>) -> Seq<u8>
    decreases aliases.len(),
{
    if aliases.len() == 0 {
        Seq::empty()
    } else {
        spec_encode_lp(aliases[0]) + spec_encode_aliases(aliases.drop_first())
    }
}

pub open spec fn spec_aliases_len(aliases: Seq<Seq<u8>>) -> int
    decreases aliases.len(),
{
    if aliases.len() == 0 {
        0
    } else {
        1 + aliases[0].len() + spec_aliases_len(aliases.drop_first())
    }
}

pub proof fn lemma_encode_aliases_len(aliases: Seq<Seq<u8>>)
    ensures
        spec_encode_aliases(aliases).len() == spec_aliases_len(aliases),
        spec_aliases_len(aliases) >= 0,
    decreases aliases.len(),
{
    if aliases.len() > 0 {
        lemma_encode_aliases_len(aliases.drop_first());
    }
}

pub proof fn lemma_encode_aliases_snoc(aliases: Seq<Seq<u8>>, a: Seq<u8>)
    ensures
        spec_encode_aliases(aliases.push(a)) == spec_encode_aliases(aliases) + spec_encode_lp(a),
    decreases aliases.len(),
{
    if aliases.len() == 0 {
        let p = aliases.push(a);
        assert(p[0] == a);
        assert(p.drop_first().len() == 0);
        assert(spec_encode_aliases(p.drop_first()) =~= Seq::<u8>::empty());
        assert(spec_encode_aliases(p) =~= spec_encode_lp(a) + Seq::<u8>::empty());
        assert(spec_encode_lp(a) + Seq::<u8>::empty() =~= spec_encode_lp(a));
        assert(spec_encode_aliases(aliases) + spec_encode_lp(a) =~= spec_encode_lp(a));
    } else {
        assert(aliases.push(a).drop_first() =~= aliases.drop_first().push(a));
        lemma_encode_aliases_snoc(aliases.drop_first(), a);
        assert(spec_encode_aliases(aliases.push(a)) =~= spec_encode_aliases(aliases)
            + spec_encode_lp(a));
    }
}

/// Reads `n` length-prefixed aliases at `pos`.
pub open spec fn spec_decode_aliases(data: Seq<u8>, pos: int, n: nat) -> Option<
    (Seq<Seq<u8>>, int),
>
    decreases n,
{
    if n == 0 {
        Some((Seq::empty(), pos))
    } else {
        match spec_decode_lp(data, pos) {
            Some((a, p2)) => match spec_decode_aliases(data, p2, (n - 1) as nat) {
                Some((rest, p3)) => Some((seq![a] + rest, p3)),
                None => None,
            },
            None => None,
        }
    }
}

/// An alias list written at `pos` (with anything after it) reads back as
/// itself.
pub proof fn lemma_decode_aliases_at(data: Seq<u8>, pos: int, aliases: Seq<Seq<u8>>)
    requires
        forall|k: int| 0 <= k < aliases.len() ==> (#[trigger] aliases[k]).len() <= 255,
        0 <= pos,
        pos + spec_aliases_len(aliases) <= data.len(),
        data.subrange(pos, pos + spec_aliases_len(aliases)) == spec_encode_aliases(aliases),
    ensures
        spec_decode_aliases(data, pos, aliases.len()) == Some(
            (aliases, pos + spec_aliases_len(aliases)),
        ),
    decreases aliases.len(),
{
    lemma_encode_aliases_len(aliases);
    if aliases.len() == 0 {
        assert(aliases =~= Seq::<Seq<u8>>::empty());
    } else {
        let a = aliases[0];
        let rest = aliases.drop_first();
        lemma_encode_aliases_len(rest);
        let alen: int = a.len() as int + 1;
        let whole = data.subrange(pos, pos + spec_aliases_len(aliases));
        assert(whole == spec_encode_lp(a) + spec_encode_aliases(rest));
        assert(data.subrange(pos, pos + alen) =~= whole.subrange(0, alen));
        assert(whole.subrange(0, alen) =~= spec_encode_lp(a));
        lemma_decode_lp_at(data, pos, a);
        assert(data.subrange(pos + alen, pos + alen + spec_aliases_len(rest)) =~= whole.subrange(
            alen,
            spec_aliases_len(aliases),
        ));
        assert(whole.subrange(alen, spec_aliases_len(aliases)) =~= spec_encode_aliases(rest));
        lemma_decode_aliases_at(data, pos + alen, rest);
        assert(seq![a] + rest =~= aliases);
    }
}

pub fn decode_aliases(data: &[u8], pos: usize, n: u8) -> (r: Option<(Vec<Vec<u8>>, usize)>)
    requires
        pos <= data@.len(),
    ensures
        match r {
            Some((aliases, p2)) => spec_decode_aliases(data@, pos as int, n as nat) == Some(
                (aliases@.map_values(|a: Vec<u8>| a@), p2 as int),
            ) && p2 <= data@.len(),
            None => spec_decode_aliases(data@, pos as int, n as nat) is None,
        },
{
    let mut out: Vec<Vec<u8>> = Vec::new();
    let mut cur = pos;
    let mut i: u8 = 0;
    while i < n
        invariant
            pos <= data@.len(),
            cur <= data@.len(),
            i <= n,
            out@.len() == i as nat,
            spec_decode_aliases(data@, pos as int, n as nat) == (match spec_decode_aliases(
                data@,
                cur as int,
                (n - i) as nat,
            ) {
                Some((aliases, e)) => Some((out@.map_values(|a: Vec<u8>| a@) + aliases, e)),
                None => None::<(Seq<Seq<u8>>, int)>,
            }),
        decreases n - i,
    {
        match decode_lp(data, cur) {
            Some((a, p2)) => {
                proof {
                    let ghost done = out@.map_values(|x: Vec<u8>| x@);
                    assert(spec_decode_aliases(data@, cur as int, (n - i) as nat) == (
                    match spec_decode_aliases(data@, p2 as int, (n - i - 1) as nat) {
                        Some((rest, e)) => Some((seq![a@] + rest, e)),
                        None => None::<(Seq<Seq<u8>>, int)>,
                    }));
                    assert forall|rest: Seq<Seq<u8>>|
                        done + (seq![a@] + rest) =~= (done + seq![a@]) + rest by {}
                    assert(out@.push(a).map_values(|x: Vec<u8>| x@) =~= done + seq![a@]);
                }
                out.push(a);
                cur = p2;
            },
            None => {
                return None;
            },
        }
        i = i + 1;
    }
    proof {
        assert(spec_decode_aliases(data@, cur as int, 0) == Some(
            (Seq::<Seq<u8>>::empty(), cur as int),
        ));
        assert(out@.map_values(|a: Vec<u8>| a@) + Seq::<Seq<u8>>::empty() =~= out@.map_values(
            |a: Vec<u8>| a@,
        ));
    }
    Some((out, cur))
}

/// The privilege flags byte: bit 0 requires-auth, bit 1 admin-only.
pub open spec fn spec_cmd_flags(requires_auth: bool, admin_only: bool) -> u8 {
    ((if requires_auth {
        1int
    } else {
        0int
    }) + (if admin_only {
        2int
    } else {
        0int
    })) as u8
}

/// One command's wire bytes.
pub open spec fn spec_encode_synced(
    c: (Seq<u8>, Seq<u8>, Seq<u8>, CommandCategory, bool, bool, Seq<Seq<u8>>),
) -> Seq<u8> {
    spec_encode_lp(c.0) + spec_encode_lp(c.1) + spec_encode_lp(c.2) + seq![
        c.3.spec_to_byte(),
        spec_cmd_flags(c.4, c.5),
        c.6.len() as u8,
    ] + spec_encode_aliases(c.6)
}

pub open spec fn spec_synced_len(
    c: (Seq<u8>, Seq<u8>, Seq<u8>, CommandCategory, bool, bool, Seq<Seq<u8>>),
) -> int {
    1 + c.0.len() + 1 + c.1.len() + 1 + c.2.len() + 3 + spec_aliases_len(c.6)
}

/// Reads one command at `pos`.
pub open spec fn spec_decode_synced(data: Seq<u8>, pos: int) -> Option<
    ((Seq<u8>, Seq<u8>, Seq<u8>, CommandCategory, bool, bool, Seq<Seq<u8>>), int),
> {
    match spec_decode_lp(data, pos) {
        Some((name, p1)) => match spec_decode_lp(data, p1) {
            Some((description, p2)) => match spec_decode_lp(data, p2) {
                Some((usage, p3)) => {
                    if p3 + 3 <= data.len() {
                        match CommandCategory::spec_from_byte(data[p3]) {
                            Some(category) => {
                                let f = data[p3 + 1];
                                let n = data[p3 + 2];
                                match spec_decode_aliases(data, p3 + 3, n as nat) {
                                    Some((aliases, e)) => Some(
                                        (
                                            (
                                                name,
                                                description,
                                                usage,
                                                category,
                                                f % 2 == 1,
                                                (f / 2) % 2 == 1,
                                                aliases,
                                            ),
                                            e,
                                        ),
                                    ),
                                    None => None,
                                }
                            },
                            None => None,
                        }
                    } else {
                        None
                    }
                },
                None => None,
            },
            None => None,
        },
        None => None,
    }
}

/// One well-formed command written at `pos` (with anything after it) reads
/// back as itself.
#[verifier::rlimit(60)]
pub proof fn lemma_decode_synced_at(
    data: Seq<u8>,
    pos: int,
    c: (Seq<u8>, Seq<u8>, Seq<u8>, CommandCategory, bool, bool, Seq<Seq<u8>>),
)
    requires
        spec_synced_wf(c),
        0 <= pos,
        pos + spec_synced_len(c) <= data.len(),
        data.subrange(pos, pos + spec_synced_len(c)) == spec_encode_synced(c),
    ensures
        spec_decode_synced(data, pos) == Some((c, pos + spec_synced_len(c))),
{
    lemma_encode_aliases_len(c.6);
    let enc = spec_encode_synced(c);
    assert(enc.len() == spec_synced_len(c));
    assert(forall|j: int| pos <= j < pos + spec_synced_len(c) ==> data[j] == enc[j - pos]);
    let whole = data.subrange(pos, pos + spec_synced_len(c));
    let p1 = pos + 1 + c.0.len() as int;
    let p2 = p1 + 1 + c.1.len() as int;
    let p3 = p2 + 1 + c.2.len() as int;
    assert(data.subrange(pos, p1) =~= whole.subrange(0, p1 - pos));
    assert(whole.subrange(0, p1 - pos) =~= spec_encode_lp(c.0));
    lemma_decode_lp_at(data, pos, c.0);
    assert(data.subrange(p1, p2) =~= whole.subrange(p1 - pos, p2 - pos));
    assert(whole.subrange(p1 - pos, p2 - pos) =~= spec_encode_lp(c.1));
    lemma_decode_lp_at(data, p1, c.1);
    assert(data.subrange(p2, p3) =~= whole.subrange(p2 - pos, p3 - pos));
    assert(whole.subrange(p2 - pos, p3 - pos) =~= spec_encode_lp(c.2));
    lemma_decode_lp_at(data, p2, c.2);
    assert(data[p3] == c.3.spec_to_byte());
    CommandCategory::lemma_category_round_trip(c.3);
    assert(data[p3 + 1] == spec_cmd_flags(c.4, c.5));
    assert(data[p3 + 2] == c.6.len() as u8);
    assert(data.subrange(p3 + 3, p3 + 3 + spec_aliases_len(c.6)) =~= whole.subrange(
        p3 + 3 - pos,
        spec_synced_len(c),
    ));
    assert(whole.subrange(p3 + 3 - pos, spec_synced_len(c)) =~= spec_encode_aliases(c.6));
    lemma_decode_aliases_at(data, p3 + 3, c.6);
    assert(data[p3 + 1] % 2 == 1 <==> c.4);
    assert((data[p3 + 1] / 2) % 2 == 1 <==> c.5);
}

/// Appends one command's wire bytes.
pub fn encode_synced_into(out: &mut Vec<u8>, c: &SyncedCommand)
    requires
        spec_synced_wf(c@),
    ensures
        final(out)@ == old(out)@ + spec_encode_synced(c@),
{
    encode_lp_into(out, c.name.as_slice());
    encode_lp_into(out, c.description.as_slice());
    encode_lp_into(out, c.usage.as_slice());
    out.push(c.category.to_byte());
    let flags: u8 = (if c.requires_auth {
        1u8
    } else {
        0u8
    }) + (if c.admin_only {
        2u8
    } else {
        0u8
    });
    out.push(flags);
    out.push(c.aliases.len() as u8);
    let ghost header = old(out)@ + spec_encode_lp(c.name@) + spec_encode_lp(c.description@)
        + spec_encode_lp(c.usage@) + seq![
        c.category.spec_to_byte(),
        spec_cmd_flags(c.requires_auth, c.admin_only),
        c.aliases@.len() as u8,
    ];
    assert(out@ =~= header);
    let ghost aliases_view = c.aliases@.map_values(|a: Vec<u8>| a@);
    let n = c.aliases.len();
    let mut i: usize = 0;
    while i < n
        invariant
            n == c.aliases@.len(),
            i <= n,
            spec_synced_wf(c@),
            aliases_view == c.aliases@.map_values(|a: Vec<u8>| a@),
            out@ == header + spec_encode_aliases(aliases_view.take(i as int)),
        decreases n - i,
    {
        proof {
            assert(aliases_view[i as int].len() <= 255);
            assert(c.aliases@[i as int]@ == aliases_view[i as int]);
        }
        encode_lp_into(out, c.aliases[i].as_slice());
        proof {
            lemma_encode_aliases_snoc(aliases_view.take(i as int), aliases_view[i as int]);
            assert(aliases_view.take(i as int).push(aliases_view[i as int]) =~= aliases_view.take(
                i + 1,
            ));
        }
        i = i + 1;
    }
    proof {
        assert(aliases_view.take(aliases_view.len() as int) =~= aliases_view);
        assert(out@ =~= old(out)@ + spec_encode_synced(c@));
    }
}

/// Reads one command at `pos`.
pub fn decode_synced(data: &[u8], pos: usize) -> (r: Option<(SyncedCommand, usize)>)
    requires
        pos <= data@.len(),
    ensures
        match r {
            Some((c, p2)) => spec_decode_synced(data@, pos as int) == Some((c@, p2 as int)) && p2
                <= data@.len(),
            None => spec_decode_synced(data@, pos as int) is None,
        },
{
    let (name, p1) = match decode_lp(data, pos) {
        Some(x) => x,
        None => {
            return None;
        },
    };
    let (description, p2) = match decode_lp(data, p1) {
        Some(x) => x,
        None => {
            return None;
        },
    };
    let (usage, p3) = match decode_lp(data, p2) {
        Some(x) => x,
        None => {
            return None;
        },
    };
    if data.len() - p3 < 3 {
        return None;
    }
    let category = match CommandCategory::from_byte(data[p3]) {
        Some(c) => c,
        None => {
            return None;
        },
    };
    let f = data[p3 + 1];
    let n = data[p3 + 2];
    match decode_aliases(data, p3 + 3, n) {
        Some((aliases, e)) => Some(
            (
                SyncedCommand {
                    name,
                    description,
                    usage,
                    category,
                    requires_auth: f % 2 == 1,
                    admin_only: (f / 2) % 2 == 1,
                    aliases,
                },
                e,
            ),
        ),
        None => None,
    }
}

/// The commands of a reply, one after the other.
pub open spec fn spec_encode_synced_list(
    cs: Seq<(Seq<u8>, Seq<u8>, Seq<u8>, CommandCategory, bool, bool, Seq<Seq<u8>>)>,
) -> Seq<u8>
    decreases cs.len(),
{
    if cs.len() == 0 {
        Seq::empty()
    } else {
        spec_encode_synced(cs[0]) + spec_encode_synced_list(cs.drop_first())
    }
}

pub open spec fn spec_synced_list_len(
    cs: Seq<(Seq<u8>, Seq<u8>, Seq<u8>, CommandCategory, bool, bool, Seq<Seq<u8>>)>,
) -> int
    decreases cs.len(),
{
    if cs.len() == 0 {
        0
    } else {
        spec_synced_len(cs[0]) + spec_synced_list_len(cs.drop_first())
    }
}

pub proof fn lemma_encode_synced_list_len(
    cs: Seq<(Seq<u8>, Seq<u8>, Seq<u8>, CommandCategory, bool, bool, Seq<Seq<u8>>)>,
)
    ensures
        spec_encode_synced_list(cs).len() == spec_synced_list_len(cs),
        spec_synced_list_len(cs) >= 0,
    decreases cs.len(),
{
    if cs.len() > 0 {
        lemma_encode_aliases_len(cs[0].6);
        lemma_encode_synced_list_len(cs.drop_first());
    }
}

pub proof fn lemma_encode_synced_list_snoc(
    cs: Seq<(Seq<u8>, Seq<u8>, Seq<u8>, CommandCategory, bool, bool, Seq<Seq<u8>>)>,
    c: (Seq<u8>, Seq<u8>, Seq<u8>, CommandCategory, bool, bool, Seq<Seq<u8>>),
)
    ensures
        spec_encode_synced_list(cs.push(c)) == spec_encode_synced_list(cs) + spec_encode_synced(
            c,
        ),
    decreases cs.len(),
{
    if cs.len() == 0 {
        let p = cs.push(c);
        assert(p[0] == c);
        assert(p.drop_first().len() == 0);
        assert(spec_encode_synced_list(p.drop_first()) =~= Seq::<u8>::empty());
        assert(spec_encode_synced_list(p) =~= spec_encode_synced(c) + Seq::<u8>::empty());
        assert(spec_encode_synced(c) + Seq::<u8>::empty() =~= spec_encode_synced(c));
        assert(spec_encode_synced_list(cs) + spec_encode_synced(c) =~= spec_encode_synced(c));
    } else {
        assert(cs.push(c).drop_first() =~= cs.drop_first().push(c));
        lemma_encode_synced_list_snoc(cs.drop_first(), c);
        assert(spec_encode_synced_list(cs.push(c)) =~= spec_encode_synced_list(cs)
            + spec_encode_synced(c));
    }
}

/// Reads `n` commands at `pos`.
pub open spec fn spec_decode_synced_list(data: Seq<u8>, pos: int, n: nat) -> Option<
    (Seq<(Seq<u8>, Seq<u8>, Seq<u8>, CommandCategory, bool, bool, Seq<Seq<u8>>)>, int),
>
    decreases n,
{
    if n == 0 {
        Some((Seq::empty(), pos))
    } else {
        match spec_decode_synced(data, pos) {
            Some((c, p2)) => match spec_decode_synced_list(data, p2, (n - 1) as nat) {
                Some((rest, p3)) => Some((seq![c] + rest, p3)),
                None => None,
            },
            None => None,
        }
    }
}

/// A command list written at `pos` (with anything after it) reads back as
/// itself.
pub proof fn lemma_decode_synced_list_at(
    data: Seq<u8>,
    pos: int,
    cs: Seq<(Seq<u8>, Seq<u8>, Seq<u8>, CommandCategory, bool, bool, Seq<Seq<u8>>)>,
)
    requires
        forall|k: int| 0 <= k < cs.len() ==> spec_synced_wf(#[trigger] cs[k]),
        0 <= pos,
        pos + spec_synced_list_len(cs) <= data.len(),
        data.subrange(pos, pos + spec_synced_list_len(cs)) == spec_encode_synced_list(cs),
    ensures
        spec_decode_synced_list(data, pos, cs.len()) == Some(
            (cs, pos + spec_synced_list_len(cs)),
        ),
    decreases cs.len(),
{
    lemma_encode_synced_list_len(cs);
    if cs.len() == 0 {
        assert(cs =~= Seq::<
            (Seq<u8>, Seq<u8>, Seq<u8>, CommandCategory, bool, bool, Seq<Seq<u8>>),
        >::empty());
    } else {
        let c = cs[0];
        let rest = cs.drop_first();
        lemma_encode_synced_list_len(rest);
        lemma_encode_aliases_len(c.6);
        let clen: int = spec_synced_len(c);
        let whole = data.subrange(pos, pos + spec_synced_list_len(cs));
        assert(whole == spec_encode_synced(c) + spec_encode_synced_list(rest));
        assert(data.subrange(pos, pos + clen) =~= whole.subrange(0, clen));
        assert(whole.subrange(0, clen) =~= spec_encode_synced(c));
        lemma_decode_synced_at(data, pos, c);
        assert(data.subrange(pos + clen, pos + clen + spec_synced_list_len(rest))
            =~= whole.subrange(clen, spec_synced_list_len(cs)));
        assert(whole.subrange(clen, spec_synced_list_len(cs)) =~= spec_encode_synced_list(rest));
        lemma_decode_synced_list_at(data, pos + clen, rest);
        assert(seq![c] + rest =~= cs);
    }
}

/// The whole reply: tag, command count, then each command.
pub open spec fn spec_encode_sync_reply(
    cs: Seq<(Seq<u8>, Seq<u8>, Seq<u8>, CommandCategory, bool, bool, Seq<Seq<u8>>)>,
) -> Seq<u8> {
    seq![TAG_SYNC_COMMANDS] + spec_u16_be(cs.len() as u16) + spec_encode_synced_list(cs)
}

/// The commands of a well-formed SYNC_COMMANDS reply; it must parse exactly
/// to its end.
pub open spec fn spec_decode_sync_reply(packet: Seq<u8>) -> Option<
    Seq<(Seq<u8>, Seq<u8>, Seq<u8>, CommandCategory, bool, bool, Seq<Seq<u8>>)>,
> {
    if packet.len() >= 3 && packet[0] == TAG_SYNC_COMMANDS {
        let n = spec_u16_from_be(packet[1], packet[2]);
        match spec_decode_synced_list(packet, 3, n as nat) {
            Some((cs, e)) => if e == packet.len() {
                Some(cs)
            } else {
                None
            },
            None => None,
        }
    } else {
        None
    }
}

/// Builds the SYNC_COMMANDS reply packet.
pub fn encode_sync_reply(cs: &Vec<SyncedCommand>) -> (out: Vec<u8>)
    requires
        cs@.len() <= 0xffff,
        forall|k: int| 0 <= k < cs@.len() ==> spec_synced_wf((#[trigger] cs@[k])@),
    ensures
        out@ == spec_encode_sync_reply(cs@.map_values(|c: SyncedCommand| c@)),
{
    let mut out: Vec<u8> = Vec::new();
    out.push(TAG_SYNC_COMMANDS);
    push_u16_be(&mut out, cs.len() as u16);
    let ghost header = seq![TAG_SYNC_COMMANDS] + spec_u16_be(cs@.len() as u16);
    assert(out@ =~= header);
    let ghost view = cs@.map_values(|c: SyncedCommand| c@);
    let n = cs.len();
    let mut i: usize = 0;
    while i < n
        invariant
            n == cs@.len(),
            i <= n,
            view == cs@.map_values(|c: SyncedCommand| c@),
            forall|k: int| 0 <= k < cs@.len() ==> spec_synced_wf((#[trigger] cs@[k])@),
            out@ == header + spec_encode_synced_list(view.take(i as int)),
        decreases n - i,
    {
        proof {
            assert(cs@[i as int]@ == view[i as int]);
        }
        encode_synced_into(&mut out, &cs[i]);
        proof {
            lemma_encode_synced_list_snoc(view.take(i as int), view[i as int]);
            assert(view.take(i as int).push(view[i as int]) =~= view.take(i + 1));
        }
        i = i + 1;
    }
    proof {
        assert(view.take(view.len() as int) =~= view);
        assert(out@ =~= spec_encode_sync_reply(view));
    }
    out
}

/// Parses a SYNC_COMMANDS reply packet.
pub fn decode_sync_reply(packet: &[u8]) -> (r: Option<Vec<SyncedCommand>>)
    ensures
        match r {
            Some(cs) => spec_decode_sync_reply(packet@) == Some(
                cs@.map_values(|c: SyncedCommand| c@),
            ),
            None => spec_decode_sync_reply(packet@) is None,
        },
{
    if packet.len() < 3 || packet[0] != TAG_SYNC_COMMANDS {
        return None;
    }
    let n = read_u16_be(packet, 1);
    let mut out: Vec<SyncedCommand> = Vec::new();
    let mut cur: usize = 3;
    let mut i: u16 = 0;
    while i < n
        invariant
            packet@.len() >= 3,
            packet@[0] == TAG_SYNC_COMMANDS,
            n == spec_u16_from_be(packet@[1], packet@[2]),
            cur <= packet@.len(),
            i <= n,
            out@.len() == i as nat,
            spec_decode_synced_list(packet@, 3, n as nat) == (match spec_decode_synced_list(
                packet@,
                cur as int,
                (n - i) as nat,
            ) {
                Some((cs, e)) => Some((out@.map_values(|c: SyncedCommand| c@) + cs, e)),
                None => None::<
                    (Seq<(Seq<u8>, Seq<u8>, Seq<u8>, CommandCategory, bool, bool, Seq<Seq<u8>>)>, int),
                >,
            }),
        decreases n - i,
    {
        match decode_synced(packet, cur) {
            Some((c, p2)) => {
                proof {
                    let ghost done = out@.map_values(|x: SyncedCommand| x@);
                    assert(spec_decode_synced_list(packet@, cur as int, (n - i) as nat) == (
                    match spec_decode_synced_list(packet@, p2 as int, (n - i - 1) as nat) {
                        Some((rest, e)) => Some((seq![c@] + rest, e)),
                        None => None::<
                            (
                                Seq<(Seq<u8>, Seq<u8>, Seq<u8>, CommandCategory, bool, bool, Seq<Seq<u8>>)>,
                                int,
                            ),
                        >,
                    }));
                    assert forall|rest: Seq<
                        (Seq<u8>, Seq<u8>, Seq<u8>, CommandCategory, bool, bool, Seq<Seq<u8>>),
                    >|
                        done + (seq![c@] + rest) =~= (done + seq![c@]) + rest by {}
                    assert(out@.push(c).map_values(|x: SyncedCommand| x@) =~= done + seq![c@]);
                }
                out.push(c);
                cur = p2;
            },
            None => {
                return None;
            },
        }
        i = i + 1;
    }
    proof {
        assert(spec_decode_synced_list(packet@, cur as int, 0) == Some(
            (
                Seq::<(Seq<u8>, Seq<u8>, Seq<u8>, CommandCategory, bool, bool, Seq<Seq<u8>>)>::empty(),
                cur as int,
            ),
        ));
        assert(out@.map_values(|c: SyncedCommand| c@) + Seq::<
            (Seq<u8>, Seq<u8>, Seq<u8>, CommandCategory, bool, bool, Seq<Seq<u8>>),
        >::empty() =~= out@.map_values(|c: SyncedCommand| c@));
    }
    if cur == packet.len() {
        Some(out)
    } else {
        None
    }
}

/// Round trip: a list of well-formed commands decodes back from its own
/// reply packet.
pub proof fn lemma_sync_reply_round_trip(
    cs: Seq<(Seq<u8>, Seq<u8>, Seq<u8>, CommandCategory, bool, bool, Seq<Seq<u8>>)>,
)
    requires
        cs.len() <= 0xffff,
        forall|k: int| 0 <= k < cs.len() ==> spec_synced_wf(#[trigger] cs[k]),
    ensures
        spec_decode_sync_reply(spec_encode_sync_reply(cs)) == Some(cs),
{
    let p = spec_encode_sync_reply(cs);
    lemma_encode_synced_list_len(cs);
    lemma_u16_be_round_trip(cs.len() as u16);
    assert(p[1] == spec_u16_be(cs.len() as u16)[0]);
    assert(p[2] == spec_u16_be(cs.len() as u16)[1]);
    assert(p.subrange(3, 3 + spec_synced_list_len(cs)) =~= spec_encode_synced_list(cs));
    lemma_decode_synced_list_at(p, 3, cs);
    assert(p.len() == 3 + spec_synced_list_len(cs));
}

/// The wire form of one registry command, or nothing when a field outgrows
/// its length byte.
pub fn sync_entry_of(cmd: &ServerCommand) -> (r: Option<SyncedCommand>)
    ensures
        r matches Some(c) ==> {
            &&& spec_synced_wf(c@)
            &&& c@.0 == crate::strutil::str_bytes(cmd.name@)
            &&& c@.1 == crate::strutil::str_bytes(cmd.description@)
            &&& c@.2 == crate::strutil::str_bytes(cmd.usage@)
            &&& c@.3 == cmd.category
            &&& c@.4 == cmd.requires_auth
            &&& c@.5 == cmd.admin_only
            &&& c@.6.len() == cmd.aliases@.len()
            &&& forall|k: int|
                0 <= k < c@.6.len() ==> (#[trigger] c@.6[k]) == crate::strutil::str_bytes(
                    cmd.aliases@[k]@,
                )
        },
{
    let name = cmd.name.as_str().as_bytes_vec();
    let description = cmd.description.as_str().as_bytes_vec();
    let usage = cmd.usage.as_str().as_bytes_vec();
    if name.len() > 255 || description.len() > 255 || usage.len() > 255 || cmd.aliases.len()
        > 255 {
        return None;
    }
    let mut aliases: Vec<Vec<u8>> = Vec::new();
    let n = cmd.aliases.len();
    let mut i: usize = 0;
    while i < n
        invariant
            n == cmd.aliases@.len(),
            i <= n,
            aliases@.len() == i,
            forall|k: int|
                0 <= k < aliases@.len() ==> (#[trigger] aliases@[k])@
                    == crate::strutil::str_bytes(cmd.aliases@[k]@) && aliases@[k]@.len() <= 255,
        decreases n - i,
    {
        let a = cmd.aliases[i].as_str().as_bytes_vec();
        if a.len() > 255 {
            return None;
        }
        aliases.push(a);
        i = i + 1;
    }
    Some(
        SyncedCommand {
            name,
            description,
            usage,
            category: cmd.category,
            requires_auth: cmd.requires_auth,
            admin_only: cmd.admin_only,
            aliases,
        },
    )
}

} // verus!
