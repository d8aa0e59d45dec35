//! Administrative console commands: querying and renaming channels,
//! creating new ones, and deleting empty ones. The default channel (id 1)
//! can never be deleted.

use vstd::prelude::*;

use crate::bytes::bytes_eq;
use crate::server::{
    lemma_index_of, lemma_members_backed_preserved, spec_index_of, spec_member_backed_at,
    Channel, ServerState,
};
use crate::strutil::str_bytes;
use crate::strutil::str_eq;

verus! {

/// What the console gets back for one command line.
pub enum ConsoleCommandResult {
    Reply(String),
}

/// Whether every byte is an ASCII decimal digit.
pub open spec fn spec_all_digits(s: Seq<u8>) -> bool {
    forall|i: int| 0 <= i < s.len() ==> 0x30 <= #[trigger] s[i] <= 0x39
}

/// The decimal value a digit string denotes.
pub open spec fn spec_dec_val(s: Seq<u8>) -> int
    decreases s.len(),
{
    if s.len() == 0 {
        0
    } else {
        spec_dec_val(s.drop_last()) * 10 + (s.last() - 0x30)
    }
}

/// Parses a nonempty ASCII decimal string into a `u32`; anything else — an
/// empty string, a non-digit, or a value past `u32::MAX` — is rejected.
pub fn parse_u32(s: &[u8]) -> (r: Option<u32>)
    ensures
        r matches Some(v) ==> spec_all_digits(s@) && s@.len() >= 1 && v as int == spec_dec_val(
            s@,
        ),
        r is None <==> (s@.len() == 0 || !spec_all_digits(s@) || spec_dec_val(s@) > u32::MAX),
{
    if s.len() == 0 {
        return None;
    }
    let n = s.len();
    let mut val: u32 = 0;
    let mut i: usize = 0;
    while i < n
        invariant
            n == s@.len(),
            i <= n,
            spec_all_digits(s@.take(i as int)),
            val as int == spec_dec_val(s@.take(i as int)),
        decreases n - i,
    {
        let b = s[i];
        if b < 0x30 || b > 0x39 {
            proof {
                assert(!spec_all_digits(s@));
            }
            return None;
        }
        let d = (b - 0x30) as u32;
        if val > (u32::MAX - d) / 10 {
            proof {
                assert(s@.take(i + 1).drop_last() =~= s@.take(i as int));
                assert(spec_dec_val(s@.take(i + 1)) > u32::MAX);
                if spec_all_digits(s@) {
                    lemma_dec_val_monotone(s@, i + 1);
                }
            }
            return None;
        }
        val = val * 10 + d;
        proof {
            assert(s@.take(i + 1).drop_last() =~= s@.take(i as int));
            assert(s@.take(i + 1).last() == b);
        }
        i = i + 1;
    }
    proof {
        assert(s@.take(n as int) =~= s@);
    }
    Some(val)
}

/// A digit string's value only grows as digits are appended.
pub proof fn lemma_dec_val_monotone(s: Seq<u8>, upto: int)
    requires
        0 <= upto <= s.len(),
        spec_all_digits(s),
    ensures
        spec_dec_val(s) >= spec_dec_val(s.take(upto)),
    decreases s.len() - upto,
{
    if upto < s.len() {
        lemma_dec_val_monotone(s, upto + 1);
        assert(s.take(upto + 1).drop_last() =~= s.take(upto));
        assert(spec_dec_val(s.take(upto + 1)) == spec_dec_val(s.take(upto)) * 10 + (s[upto]
            - 0x30));
        assert(spec_dec_val(s.take(upto)) >= 0) by {
            lemma_dec_val_nonneg(s.take(upto));
        }
    } else {
        assert(s.take(upto) =~= s);
    }
}

pub proof fn lemma_dec_val_nonneg(s: Seq<u8>)
    requires
        spec_all_digits(s),
    ensures
        spec_dec_val(s) >= 0,
    decreases s.len(),
{
    if s.len() > 0 {
        assert(spec_all_digits(s.drop_last())) by {
            assert(forall|i: int| 0 <= i < s.len() - 1 ==> s.drop_last()[i] == s[i]);
        }
        lemma_dec_val_nonneg(s.drop_last());
    }
}

/// The first channel carrying exactly this name.
pub open spec fn spec_named_index(cs: Seq<Channel>, name: Seq<u8>) -> Option<int> {
    spec_index_of(
        cs.map_values(
            |c: Channel|
                match c.name {
                    Some(n) => Some(n@),
                    None => None::<Seq<u8>>,
                },
        ),
        Some(name),
        0,
    )
}

/// The first channel carrying this id.
pub open spec fn spec_id_index(cs: Seq<Channel>, id: u32) -> Option<int> {
    spec_index_of(cs.map_values(|c: Channel| c.id), id, 0)
}

/// The channel a `del` argument addresses: by id when the argument is a
/// decimal number, by name otherwise.
pub open spec fn spec_del_target(s: ServerState, arg: Seq<u8>) -> Option<int> {
    if arg.len() >= 1 && spec_all_digits(arg) && spec_dec_val(arg) <= u32::MAX {
        spec_id_index(s.channels@, spec_dec_val(arg) as u32)
    } else {
        spec_named_index(s.channels@, arg)
    }
}

/// Runs one console command against the server state and yields the reply.
/// `rename` renames a channel found by its name; `create` opens a fresh
/// channel under the next free id; `del` removes an empty channel by id or
/// name, never the default channel; everything else answers with text.
pub fn handle_command(cmd: &str, parts: &Vec<String>, state: &mut ServerState) -> (r:
    ConsoleCommandResult)
    requires
        old(state).wf(),
    ensures
        final(state).wf(),
        final(state).config == old(state).config,
        final(state).remotes == old(state).remotes,
        final(state).intake == old(state).intake,
        final(state).consoles == old(state).consoles,
        !(cmd@ == "rename"@ || cmd@ == "create"@ || cmd@ == "del"@) ==> final(state).channels
            == old(state).channels,
        spec_id_index(old(state).channels@, 1) is Some ==> spec_id_index(
            final(state).channels@,
            1,
        ) is Some,
        cmd@ == "ping"@ ==> (r matches ConsoleCommandResult::Reply(t) && t@ == "pong"@),
        cmd@ == "del"@ && parts@.len() >= 2 ==> match spec_del_target(
            *old(state),
            str_bytes(parts@[1]@),
        ) {
            Some(ci) => {
                if old(state).channels@[ci].id == 1 {
                    final(state).channels == old(state).channels && (r
                        matches ConsoleCommandResult::Reply(t) && t@
                        == "cannot delete the default channel"@)
                } else if old(state).channels@[ci].members@.len() > 0 {
                    final(state).channels == old(state).channels && (r
                        matches ConsoleCommandResult::Reply(t) && t@
                        == "channel still has members"@)
                } else {
                    final(state).channels@ == old(state).channels@.remove(ci) && (r
                        matches ConsoleCommandResult::Reply(t) && t@ == "channel deleted"@)
                }
            },
            None => final(state).channels == old(state).channels && (r
                matches ConsoleCommandResult::Reply(t) && t@ == "channel not found"@),
        },
        cmd@ == "create"@ && parts@.len() >= 2 && 1 <= str_bytes(parts@[1]@).len() <= 255 ==> ((
        final(state).channels@.len() == old(state).channels@.len() + 1 && (forall|j: int|
            0 <= j < old(state).channels@.len() ==> #[trigger] final(state).channels@[j] == old(state).channels@[j]) && (final(state).channels@.last().name matches Some(n) && n@
            == str_bytes(parts@[1]@)) && final(state).channels@.last().members@.len() == 0 && (
        forall|j: int|
            0 <= j < old(state).channels@.len() ==> final(state).channels@.last().id != (
            #[trigger] old(state).channels@[j]).id) && (r
            matches ConsoleCommandResult::Reply(t) && t@ == "channel created"@)) || (final(state).channels == old(state).channels && (r matches ConsoleCommandResult::Reply(t) && t@
            == "no channel id is free"@))),
        cmd@ == "rename"@ && parts@.len() >= 3 && 1 <= str_bytes(parts@[2]@).len() <= 255
            ==> match spec_named_index(old(state).channels@, str_bytes(parts@[1]@)) {
            Some(ci) => final(state).channels@.len() == old(state).channels@.len() && (final(state).channels@[ci].name matches Some(n) && n@ == str_bytes(parts@[2]@)) && final(state).channels@[ci].id == old(state).channels@[ci].id && final(state).channels@[
                ci
            ].members == old(state).channels@[ci].members && (forall|j: int|
                0 <= j < old(state).channels@.len() && j != ci ==> #[trigger] final(state).channels@[j] == old(state).channels@[j]) && (r
                matches ConsoleCommandResult::Reply(t) && t@ == "channel renamed"@),
            None => final(state).channels == old(state).channels && (r
                matches ConsoleCommandResult::Reply(t) && t@ == "channel not found"@),
        },
{
    proof {
        reveal_strlit("help");
        reveal_strlit("ping");
        reveal_strlit("list");
        reveal_strlit("chans");
        reveal_strlit("rename");
        reveal_strlit("create");
        reveal_strlit("del");
        assert("help"@.len() == 4 && "ping"@.len() == 4 && "list"@.len() == 4 && "chans"@.len()
            == 5 && "rename"@.len() == 6 && "create"@.len() == 6 && "del"@.len() == 3);
        assert("help"@[0] == 'h' && "ping"@[0] == 'p' && "list"@[0] == 'l' && "rename"@[0] == 'r'
            && "create"@[0] == 'c');
        assert("help"@ != "ping"@ && "help"@ != "rename"@ && "help"@ != "create"@ && "help"@
            != "del"@);
        assert("ping"@ != "rename"@ && "ping"@ != "create"@ && "ping"@ != "del"@);
        assert("list"@ != "ping"@ && "list"@ != "rename"@ && "list"@ != "create"@ && "list"@
            != "del"@);
        assert("chans"@ != "ping"@ && "chans"@ != "rename"@ && "chans"@ != "create"@ && "chans"@
            != "del"@);
        assert("rename"@ != "create"@ && "rename"@ != "del"@);
        assert("create"@ != "del"@);
    }
    if str_eq(cmd, "help") {
        ConsoleCommandResult::Reply(String::from_str("you are connected to a voudp server"))
    } else if str_eq(cmd, "ping") {
        ConsoleCommandResult::Reply(String::from_str("pong"))
    } else if str_eq(cmd, "list") {
        ConsoleCommandResult::Reply(
            String::from_str("the global list is only sent to voice peers"),
        )
    } else if str_eq(cmd, "chans") {
        let mut reply = String::from_str("channels:");
        let n = state.channels.len();
        let mut i: usize = 0;
        while i < n
            invariant
                old(state).wf(),
                *state == *old(state),
                n == state.channels@.len(),
                i <= n,
            decreases n - i,
        {
            reply.append(" ");
            match &state.channels[i].name {
                Some(name_bytes) => {
                    let copy = crate::bytes::copy_range(name_bytes.as_slice(), 0, name_bytes.len());
                    match crate::strutil::bytes_to_string(copy) {
                        Some(name) => {
                            reply.append(name.as_str());
                        },
                        None => {
                            reply.append("(unnamed)");
                        },
                    }
                },
                None => {
                    reply.append("(unnamed)");
                },
            }
            i = i + 1;
        }
        ConsoleCommandResult::Reply(reply)
    } else if str_eq(cmd, "rename") {
        if parts.len() < 3 {
            return ConsoleCommandResult::Reply(
                String::from_str("usage: rename <channel> <new-name>"),
            );
        }
        let target = parts[1].as_str().as_bytes_vec();
        let new_name = parts[2].as_str().as_bytes_vec();
        proof {
            assert(target@ == str_bytes(parts@[1]@));
            assert(new_name@ == str_bytes(parts@[2]@));
        }
        if new_name.len() == 0 || new_name.len() > 255 {
            return ConsoleCommandResult::Reply(
                String::from_str("channel names take 1 to 255 bytes"),
            );
        }
        let ci = match find_channel_by_name(state, target.as_slice()) {
            Some(ci) => ci,
            None => {
                return ConsoleCommandResult::Reply(String::from_str("channel not found"));
            },
        };
        rename_channel(state, ci, new_name);
        proof {
            // Renaming keeps every channel id, so the id table reads the same.
            let mapped0 = old(state).channels@.map_values(|c: Channel| c.id);
            let mappedf = state.channels@.map_values(|c: Channel| c.id);
            assert(mappedf =~= mapped0);
        }
        ConsoleCommandResult::Reply(String::from_str("channel renamed"))
    } else if str_eq(cmd, "create") {
        if parts.len() < 2 {
            return ConsoleCommandResult::Reply(String::from_str("usage: create <channel_name>"));
        }
        let name = parts[1].as_str().as_bytes_vec();
        proof {
            assert(name@ == str_bytes(parts@[1]@));
        }
        if name.len() == 0 || name.len() > 255 {
            return ConsoleCommandResult::Reply(
                String::from_str("channel names take 1 to 255 bytes"),
            );
        }
        match create_channel(state, name) {
            true => {
                proof {
                    // The appended channel cannot hide the default one.
                    if spec_id_index(old(state).channels@, 1) is Some {
                        let mapped0 = old(state).channels@.map_values(|c: Channel| c.id);
                        let mappedf = state.channels@.map_values(|c: Channel| c.id);
                        lemma_index_of(mapped0, 1u32, 0);
                        lemma_index_of(mappedf, 1u32, 0);
                        match spec_index_of(mapped0, 1u32, 0) {
                            Some(k1) => {
                                assert(mapped0[k1] == 1u32);
                                assert(state.channels@[k1] == old(state).channels@[k1]);
                                assert(mappedf[k1] == 1u32);
                                match spec_index_of(mappedf, 1u32, 0) {
                                    Some(_) => {},
                                    None => {
                                        assert(mappedf[k1] != 1u32);
                                        assert(false);
                                    },
                                }
                            },
                            None => {
                                assert(false);
                            },
                        }
                    }
                }
                ConsoleCommandResult::Reply(String::from_str("channel created"))
            },
            false => ConsoleCommandResult::Reply(String::from_str("no channel id is free")),
        }
    } else if str_eq(cmd, "del") {
        if parts.len() < 2 {
            return ConsoleCommandResult::Reply(
                String::from_str("usage: del <channel_id|channel_name>"),
            );
        }
        let target = parts[1].as_str().as_bytes_vec();
        proof {
            assert(target@ == str_bytes(parts@[1]@));
        }
        let ci = match parse_u32(target.as_slice()) {
            Some(id) => {
                let found = state.find_channel(id);
                proof {
                    // The index an id search yields is the first (and only)
                    // one with that id.
                    let mapped = state.channels@.map_values(|c: Channel| c.id);
                    lemma_index_of(mapped, id, 0);
                    assert(forall|j: int|
                        0 <= j < mapped.len() ==> #[trigger] mapped[j] == state.channels@[j].id);
                    match found {
                        Some(k0) => {
                            assert(mapped[k0 as int] == id);
                            match spec_index_of(mapped, id, 0) {
                                Some(k) => {
                                    assert(k == k0 as int) by {
                                        if k != k0 as int {
                                            assert(mapped[k] == id);
                                            if k < k0 as int {
                                                assert(state.channels@[k].id != state.channels@[
                                                k0 as int].id);
                                            } else {
                                                assert(state.channels@[k0 as int].id
                                                    != state.channels@[k].id);
                                            }
                                        }
                                    }
                                },
                                None => {
                                    assert(false);
                                },
                            }
                            assert(spec_id_index(state.channels@, id) == Some(k0 as int));
                        },
                        None => {
                            assert(forall|j: int|
                                0 <= j < mapped.len() ==> #[trigger] mapped[j] != id);
                            match spec_index_of(mapped, id, 0) {
                                Some(k) => {
                                    assert(false);
                                },
                                None => {},
                            }
                        },
                    }
                    assert(id as int == spec_dec_val(target@));
                    assert(spec_del_target(*state, target@) == spec_id_index(
                        state.channels@,
                        id,
                    ));
                }
                found
            },
            None => {
                let found = find_channel_by_name(state, target.as_slice());
                proof {
                    assert(spec_del_target(*state, target@) == spec_named_index(
                        state.channels@,
                        target@,
                    ));
                }
                found
            },
        };
        match ci {
            Some(ci) => {
                if state.channels[ci].id == 1 {
                    ConsoleCommandResult::Reply(
                        String::from_str("cannot delete the default channel"),
                    )
                } else if state.channels[ci].members.len() > 0 {
                    ConsoleCommandResult::Reply(
                        String::from_str("channel still has members"),
                    )
                } else {
                    let ghost s_pre = *state;
                    delete_empty_channel(state, ci);
                    proof {
                        // The default channel survives: its index only shifts.
                        if spec_id_index(old(state).channels@, 1) is Some {
                            let mapped0 = old(state).channels@.map_values(|c: Channel| c.id);
                            let mappedf = state.channels@.map_values(|c: Channel| c.id);
                            lemma_index_of(mapped0, 1u32, 0);
                            lemma_index_of(mappedf, 1u32, 0);
                            match spec_index_of(mapped0, 1u32, 0) {
                                Some(k1) => {
                                    assert(mapped0[k1] == 1u32);
                                    assert(old(state).channels@[k1].id == 1);
                                    assert(k1 != ci as int);
                                    let kf: int = if k1 < ci as int {
                                        k1
                                    } else {
                                        k1 - 1
                                    };
                                    assert(state.channels@[kf] == old(state).channels@[k1]);
                                    assert(mappedf[kf] == 1u32);
                                    match spec_index_of(mappedf, 1u32, 0) {
                                        Some(_) => {},
                                        None => {
                                            assert(mappedf[kf] != 1u32);
                                            assert(false);
                                        },
                                    }
                                },
                                None => {
                                    assert(false);
                                },
                            }
                        }
                    }
                    ConsoleCommandResult::Reply(String::from_str("channel deleted"))
                }
            },
            None => ConsoleCommandResult::Reply(String::from_str("channel not found")),
        }
    } else {
        ConsoleCommandResult::Reply(
            String::from_str("unknown command. read the manual on executing remote commands"),
        )
    }
}

/// Index of the first channel whose name reads exactly `name`.
fn find_channel_by_name(state: &ServerState, name: &[u8]) -> (r: Option<usize>)
    ensures
        match r {
            Some(ci) => ci < state.channels@.len() && spec_named_index(state.channels@, name@)
                == Some(ci as int) && (state.channels@[ci as int].name matches Some(n) && n@
                == name@),
            None => spec_named_index(state.channels@, name@) is None,
        },
{
    let ghost mapped = state.channels@.map_values(
        |c: Channel|
            match c.name {
                Some(n) => Some(n@),
                None => None::<Seq<u8>>,
            },
    );
    let n = state.channels.len();
    let mut i: usize = 0;
    while i < n
        invariant
            n == state.channels@.len(),
            i <= n,
            mapped == state.channels@.map_values(
                |c: Channel|
                    match c.name {
                        Some(nm) => Some(nm@),
                        None => None::<Seq<u8>>,
                    },
            ),
            forall|j: int| 0 <= j < i ==> #[trigger] mapped[j] != Some(name@),
        decreases n - i,
    {
        let hit = match &state.channels[i].name {
            Some(cn) => bytes_eq(cn.as_slice(), name),
            None => false,
        };
        if hit {
            proof {
                lemma_index_of(mapped, Some(name@), 0);
                assert(mapped[i as int] == Some(name@));
                match spec_index_of(mapped, Some(name@), 0) {
                    Some(k) => {
                        if k < i {
                            assert(mapped[k] == Some(name@));
                            assert(false);
                        }
                        if k > i {
                            assert(forall|j: int|
                                0 <= j < k ==> #[trigger] mapped[j] != Some(name@));
                            assert(false);
                        }
                    },
                    None => {
                        assert(forall|j: int|
                            0 <= j < mapped.len() ==> #[trigger] mapped[j] != Some(name@));
                        assert(false);
                    },
                }
            }
            return Some(i);
        }
        proof {
            assert(mapped[i as int] != Some(name@));
        }
        i = i + 1;
    }
    proof {
        lemma_index_of(mapped, Some(name@), 0);
        match spec_index_of(mapped, Some(name@), 0) {
            Some(k) => {
                assert(mapped[k] != Some(name@));
                assert(false);
            },
            None => {},
        }
    }
    None
}

/// Gives channel `ci` a new name.
fn rename_channel(state: &mut ServerState, ci: usize, new_name: Vec<u8>)
    requires
        old(state).wf(),
        ci < old(state).channels@.len(),
        1 <= new_name@.len() <= 255,
    ensures
        final(state).wf(),
        final(state).config == old(state).config,
        final(state).remotes == old(state).remotes,
        final(state).intake == old(state).intake,
        final(state).consoles == old(state).consoles,
        final(state).channels@.len() == old(state).channels@.len(),
        final(state).channels@[ci as int].name == Some(new_name),
        final(state).channels@[ci as int].id == old(state).channels@[ci as int].id,
        final(state).channels@[ci as int].members == old(state).channels@[ci as int].members,
        forall|j: int|
            0 <= j < old(state).channels@.len() && j != ci ==> final(state).channels@[j] == old(state).channels@[j],
    {
        let ghost s0 = *state;
        let mut c = state.channels.remove(ci);
        c.name = Some(new_name);
        state.channels.insert(ci, c);
        proof {
            assert(state.channels@ =~= s0.channels@.update(ci as int, state.channels@[ci as int]));
            assert forall|t: int| 0 <= t < state.remotes@.len() implies exists|j: int|
                0 <= j < state.channels@.len() && (#[trigger] state.channels@[j]).id == (
                #[trigger] state.remotes@[t]).channel_id && state.channels@[j].spec_has_member(
                state.remotes@[t].addr,
            ) by {
                let j0 = choose|j: int|
                    0 <= j < s0.channels@.len() && (#[trigger] s0.channels@[j]).id == s0.remotes@[
                    t].channel_id && s0.channels@[j].spec_has_member(s0.remotes@[t].addr);
                assert(state.channels@[j0].id == s0.channels@[j0].id);
                assert(state.channels@[j0].members == s0.channels@[j0].members);
                assert(state.channels@[j0].spec_has_member(state.remotes@[t].addr));
            }
            assert(forall|j2: int|
                0 <= j2 < state.channels@.len() ==> (#[trigger] state.channels@[j2]).members
                    == s0.channels@[j2].members && state.channels@[j2].id == s0.channels@[
                j2].id);
            lemma_members_backed_preserved(s0, *state);
        }
    }

/// Opens a new named channel under the smallest id above every existing one.
/// Fails only when the id space is exhausted.
fn create_channel(state: &mut ServerState, name: Vec<u8>) -> (created: bool)
    requires
        old(state).wf(),
        1 <= name@.len() <= 255,
    ensures
        final(state).wf(),
        final(state).config == old(state).config,
        final(state).remotes == old(state).remotes,
        final(state).intake == old(state).intake,
        final(state).consoles == old(state).consoles,
        created ==> final(state).channels@.len() == old(state).channels@.len() + 1 && final(state).channels@.last().name == Some(name) && final(state).channels@.last().members@.len()
            == 0 && (forall|j: int|
            0 <= j < old(state).channels@.len() ==> #[trigger] final(state).channels@[j] == old(state).channels@[j]) && (forall|j: int|
            0 <= j < old(state).channels@.len() ==> final(state).channels@.last().id != (
            #[trigger] old(state).channels@[j]).id),
        !created ==> *final(state) == *old(state),
{
    let n = state.channels.len();
    let mut max_id: u32 = 0;
    let mut i: usize = 0;
    while i < n
        invariant
            n == state.channels@.len(),
            i <= n,
            forall|j: int| 0 <= j < i ==> (#[trigger] state.channels@[j]).id <= max_id,
        decreases n - i,
    {
        if state.channels[i].id > max_id {
            max_id = state.channels[i].id;
        }
        i = i + 1;
    }
    if max_id == u32::MAX {
        return false;
    }
    let new_id = max_id + 1;
    let c = Channel::new(new_id, Some(name));
    state.channels.push(c);
    proof {
        let sf = *state;
        let s0 = *old(state);
        assert(forall|j: int| 0 <= j < s0.channels@.len() ==> sf.channels@[j] == s0.channels@[j]);
        assert(forall|j: int|
            0 <= j < s0.channels@.len() ==> (#[trigger] sf.channels@[j]).id < new_id);
        assert forall|t: int| 0 <= t < sf.remotes@.len() implies exists|j: int|
            0 <= j < sf.channels@.len() && (#[trigger] sf.channels@[j]).id == (
            #[trigger] sf.remotes@[t]).channel_id && sf.channels@[j].spec_has_member(
            sf.remotes@[t].addr,
        ) by {
            let j0 = choose|j: int|
                0 <= j < s0.channels@.len() && (#[trigger] s0.channels@[j]).id == s0.remotes@[
                t].channel_id && s0.channels@[j].spec_has_member(s0.remotes@[t].addr);
            assert(sf.channels@[j0].spec_has_member(sf.remotes@[t].addr));
        }
        assert forall|j2: int, k2: int|
            0 <= j2 < sf.channels@.len() && 0 <= k2 < sf.channels@[j2].members@.len() implies
            #[trigger] spec_member_backed_at(sf, j2, k2) by {
            assert(j2 < s0.channels@.len()) by {
                if j2 == s0.channels@.len() {
                    assert(sf.channels@[j2].members@.len() == 0);
                }
            }
            assert(spec_member_backed_at(s0, j2, k2));
            let i0 = choose|i: int|
                0 <= i < s0.remotes@.len() && (#[trigger] s0.remotes@[i]).addr == s0.channels@[
                j2].members@[k2] && s0.remotes@[i].channel_id == s0.channels@[j2].id;
            assert(0 <= i0 < sf.remotes@.len() && sf.remotes@[i0].addr == sf.channels@[
            j2].members@[k2] && sf.remotes@[i0].channel_id == sf.channels@[j2].id);
        }
    }
    true
}

/// Removes a channel that has no members.
fn delete_empty_channel(state: &mut ServerState, ci: usize)
    requires
        old(state).wf(),
        ci < old(state).channels@.len(),
        old(state).channels@[ci as int].members@.len() == 0,
    ensures
        final(state).wf(),
        final(state).config == old(state).config,
        final(state).remotes == old(state).remotes,
        final(state).intake == old(state).intake,
        final(state).consoles == old(state).consoles,
        final(state).channels@ == old(state).channels@.remove(ci as int),
{
    let ghost s0 = *state;
    state.channels.remove(ci);
    proof {
        let sf = *state;
        assert(sf.channels@ =~= s0.channels@.remove(ci as int));
        assert forall|t: int| 0 <= t < sf.remotes@.len() implies exists|j: int|
            0 <= j < sf.channels@.len() && (#[trigger] sf.channels@[j]).id == (
            #[trigger] sf.remotes@[t]).channel_id && sf.channels@[j].spec_has_member(
            sf.remotes@[t].addr,
        ) by {
            let j0 = choose|j: int|
                0 <= j < s0.channels@.len() && (#[trigger] s0.channels@[j]).id == s0.remotes@[
                t].channel_id && s0.channels@[j].spec_has_member(s0.remotes@[t].addr);
            assert(j0 != ci) by {
                if j0 == ci {
                    assert(s0.channels@[j0].members@.len() == 0);
                    let k = choose|k: int|
                        0 <= k < s0.channels@[j0].members@.len() && s0.channels@[j0].members@[k]
                            == s0.remotes@[t].addr;
                    assert(false);
                }
            }
            if j0 < ci {
                assert(sf.channels@[j0] == s0.channels@[j0]);
                assert(sf.channels@[j0].spec_has_member(sf.remotes@[t].addr));
            } else {
                assert(sf.channels@[j0 - 1] == s0.channels@[j0]);
                assert(sf.channels@[j0 - 1].spec_has_member(sf.remotes@[t].addr));
            }
        }
        assert forall|i: int, j: int| 0 <= i < j < sf.channels@.len() implies (
        #[trigger] sf.channels@[i]).id != (#[trigger] sf.channels@[j]).id by {
            let i0: int = if i < ci {
                i
            } else {
                i + 1
            };
            let j0: int = if j < ci {
                j
            } else {
                j + 1
            };
            assert(sf.channels@[i] == s0.channels@[i0]);
            assert(sf.channels@[j] == s0.channels@[j0]);
        }
        assert forall|j: int| 0 <= j < sf.channels@.len() implies (
        #[trigger] sf.channels@[j]).wf(sf.config.spec_frame_len()) by {
            let j0: int = if j < ci {
                j
            } else {
                j + 1
            };
            assert(sf.channels@[j] == s0.channels@[j0]);
        }
        assert forall|j: int, k: int|
            0 <= j < sf.channels@.len() && 0 <= k < sf.channels@[j].members@.len() implies
            #[trigger] spec_member_backed_at(sf, j, k) by {
            let j0: int = if j < ci {
                j
            } else {
                j + 1
            };
            assert(sf.channels@[j] == s0.channels@[j0]);
            assert(spec_member_backed_at(s0, j0, k));
            let i0 = choose|i: int|
                0 <= i < s0.remotes@.len() && (#[trigger] s0.remotes@[i]).addr == s0.channels@[
                j0].members@[k] && s0.remotes@[i].channel_id == s0.channels@[j0].id;
            assert(0 <= i0 < sf.remotes@.len() && sf.remotes@[i0].addr == sf.channels@[
            j].members@[k] && sf.remotes@[i0].channel_id == sf.channels@[j].id);
        }
    }
}

} // verus!
