//! The command registry: a table of chat commands with their metadata and
//! aliases, looked up by name or alias, filtered by privilege, and fed from
//! raw `/command arg arg` lines split on ASCII whitespace. Authorization
//! gating is decided here, not in individual handlers.

use vstd::prelude::*;

use crate::link::Endpoint;
use crate::server::{lemma_index_of, spec_index_of};
use crate::strutil::{bytes_to_string, str_eq};

verus! {

/// Where a command is grouped in listings.
#[derive(Clone, Copy, PartialEq, Eq, Structural, Debug)]
pub enum CommandCategory {
    User,
    Channel,
    Audio,
    Chat,
    Admin,
    Utility,
    Fun,
}

impl CommandCategory {
    /// The category's wire byte (0 through 6).
    pub open spec fn spec_to_byte(self) -> u8 {
        match self {
            CommandCategory::User => 0,
            CommandCategory::Channel => 1,
            CommandCategory::Audio => 2,
            CommandCategory::Chat => 3,
            CommandCategory::Admin => 4,
            CommandCategory::Utility => 5,
            CommandCategory::Fun => 6,
        }
    }

    pub open spec fn spec_from_byte(b: u8) -> Option<CommandCategory> {
        if b == 0 {
            Some(CommandCategory::User)
        } else if b == 1 {
            Some(CommandCategory::Channel)
        } else if b == 2 {
            Some(CommandCategory::Audio)
        } else if b == 3 {
            Some(CommandCategory::Chat)
        } else if b == 4 {
            Some(CommandCategory::Admin)
        } else if b == 5 {
            Some(CommandCategory::Utility)
        } else if b == 6 {
            Some(CommandCategory::Fun)
        } else {
            None
        }
    }

    pub fn to_byte(&self) -> (r: u8)
        ensures
            r == self.spec_to_byte(),
    {
        match self {
            CommandCategory::User => 0,
            CommandCategory::Channel => 1,
            CommandCategory::Audio => 2,
            CommandCategory::Chat => 3,
            CommandCategory::Admin => 4,
            CommandCategory::Utility => 5,
            CommandCategory::Fun => 6,
        }
    }

    pub fn from_byte(b: u8) -> (r: Option<CommandCategory>)
        ensures
            r == Self::spec_from_byte(b),
    {
        if b == 0 {
            Some(CommandCategory::User)
        } else if b == 1 {
            Some(CommandCategory::Channel)
        } else if b == 2 {
            Some(CommandCategory::Audio)
        } else if b == 3 {
            Some(CommandCategory::Chat)
        } else if b == 4 {
            Some(CommandCategory::Admin)
        } else if b == 5 {
            Some(CommandCategory::Utility)
        } else if b == 6 {
            Some(CommandCategory::Fun)
        } else {
            None
        }
    }

    /// Category bytes round-trip.
    pub proof fn lemma_category_round_trip(c: CommandCategory)
        ensures
            Self::spec_from_byte(c.spec_to_byte()) == Some(c),
    {
    }
}

/// Metadata of one chat command.
pub struct ServerCommand {
    pub name: String,
    pub description: String,
    pub usage: String,
    pub category: CommandCategory,
    pub aliases: Vec<String>,
    pub requires_auth: bool,
    pub admin_only: bool,
}

/// What a command handler is given.
pub struct CommandContext {
    pub sender: Endpoint,
    pub sender_mask: Option<String>,
    pub channel_id: u32,
    pub args: Vec<String>,
    pub is_admin: bool,
}

/// What a command handler reports back.
pub enum CommandResult {
    Success(String),
    Error(String),
    Silent,
}

/// The registry: commands plus an alias-to-canonical-name table, both with
/// unique keys.
pub struct CommandSystem {
    pub commands: Vec<ServerCommand>,
    pub command_aliases: Vec<(String, String)>,
}

/// First command whose name reads `name`.
pub open spec fn spec_find_command(cmds: Seq<ServerCommand>, name: Seq<char>) -> Option<int> {
    spec_index_of(cmds.map_values(|c: ServerCommand| c.name@), name, 0)
}

/// The canonical name an alias stands for, or the name itself.
pub open spec fn spec_resolve_alias(aliases: Seq<(String, String)>, name: Seq<char>) -> Seq<
    char,
> {
    match spec_index_of(aliases.map_values(|a: (String, String)| a.0@), name, 0) {
        Some(i) => aliases[i].1@,
        None => name,
    }
}

/// The command a name or alias designates.
pub open spec fn spec_lookup(s: CommandSystem, name: Seq<char>) -> Option<int> {
    spec_find_command(s.commands@, spec_resolve_alias(s.command_aliases@, name))
}

impl CommandSystem {
    /// Unique command names and unique alias keys.
    pub open spec fn wf(self) -> bool {
        &&& forall|i: int, j: int|
            0 <= i < j < self.commands@.len() ==> (#[trigger] self.commands@[i]).name@ != (
            #[trigger] self.commands@[j]).name@
        &&& forall|i: int, j: int|
            0 <= i < j < self.command_aliases@.len() ==> (#[trigger] self.command_aliases@[
            i]).0@ != (#[trigger] self.command_aliases@[j]).0@
    }

    /// A registry holding the stock test command under `/test`, aliased by
    /// the bare `/`.
    pub fn new() -> (r: CommandSystem)
        ensures
            r.wf(),
            r.commands@.len() == 1,
            r.command_aliases@.len() == 1,
    {
        let mut system = CommandSystem { commands: Vec::new(), command_aliases: Vec::new() };
        system.register_default_commands();
        system
    }

    /// Registers the stock command set.
    fn register_default_commands(&mut self)
        requires
            old(self).commands@.len() == 0,
            old(self).command_aliases@.len() == 0,
        ensures
            final(self).wf(),
            final(self).commands@.len() == 1,
            final(self).command_aliases@.len() == 1,
    {
        let mut aliases: Vec<String> = Vec::new();
        aliases.push(String::from_str("/"));
        let cmd = ServerCommand {
            name: String::from_str("/test"),
            description: String::from_str("Test command"),
            usage: String::from_str("/test <args>"),
            category: CommandCategory::Fun,
            aliases,
            requires_auth: true,
            admin_only: false,
        };
        self.register_command(cmd);
    }

    /// Inserts or replaces a command under its name and points each of its
    /// aliases at it.
    pub fn register_command(&mut self, command: ServerCommand)
        requires
            old(self).wf(),
        ensures
            final(self).wf(),
            final(self).commands@.len() >= 1,
            final(self).commands@.last().name@ == command.name@,
            final(self).commands@.last().admin_only == command.admin_only,
            final(self).commands@.last().requires_auth == command.requires_auth,
            final(self).commands@.len() <= old(self).commands@.len() + 1,
            final(self).command_aliases@.len() <= old(self).command_aliases@.len()
                + command.aliases@.len(),
            command.aliases@.len() > 0 ==> final(self).command_aliases@.len() >= 1,
            final(self).commands@.last() == command,
            spec_find_command(final(self).commands@, command.name@) == Some(
                final(self).commands@.len() - 1,
            ),
            forall|i: int|
                0 <= i < old(self).commands@.len() && (#[trigger] old(self).commands@[i]).name@
                    != command.name@ ==> final(self).commands@.contains(old(self).commands@[i]),
            forall|a: int|
                0 <= a < command.aliases@.len() ==> spec_resolve_alias(
                    final(self).command_aliases@,
                    (#[trigger] command.aliases@[a])@,
                ) == command.name@,
            spec_resolve_alias(final(self).command_aliases@, command.name@) == command.name@
                ==> spec_lookup(*final(self), command.name@) == Some(
                final(self).commands@.len() - 1,
            ),
    {
        let ghost cmd_name: Seq<char> = command.name@;
        let ghost alias_total: int = command.aliases@.len() as int;
        // Drop any command already registered under this name.
        let mut kept: Vec<ServerCommand> = Vec::new();
        while self.commands.len() > 0
            invariant
                self.command_aliases == old(self).command_aliases,
                kept@.len() + self.commands@.len() <= old(self).commands@.len(),
                self.commands@.len() <= old(self).commands@.len(),
                self.commands@ =~= old(self).commands@.skip(
                    old(self).commands@.len() - self.commands@.len(),
                ),
                forall|i0: int|
                    0 <= i0 < old(self).commands@.len() - self.commands@.len() && (
                    #[trigger] old(self).commands@[i0]).name@ != command.name@
                        ==> kept@.contains(old(self).commands@[i0]),
                forall|i: int, j: int|
                    0 <= i < j < kept@.len() ==> (#[trigger] kept@[i]).name@ != (
                    #[trigger] kept@[j]).name@,
                forall|i: int|
                    0 <= i < kept@.len() ==> (#[trigger] kept@[i]).name@ != command.name@,
                forall|i: int|
                    0 <= i < kept@.len() ==> exists|j: int|
                        0 <= j < old(self).commands@.len() && (#[trigger] kept@[i]).name@ == old(
                            self,
                        ).commands@[j].name@,
                forall|i: int|
                    0 <= i < self.commands@.len() ==> exists|j: int|
                        0 <= j < old(self).commands@.len() && (#[trigger] self.commands@[
                        i]).name@ == old(self).commands@[j].name@,
                forall|i: int, j: int|
                    0 <= i < j < self.commands@.len() ==> (#[trigger] self.commands@[i]).name@
                        != (#[trigger] self.commands@[j]).name@,
                forall|i: int, j: int|
                    0 <= i < kept@.len() && 0 <= j < self.commands@.len() ==> (
                    #[trigger] kept@[i]).name@ != (#[trigger] self.commands@[j]).name@,
            decreases self.commands@.len(),
        {
            let ghost cs = self.commands@;
            let ghost consumed: int = old(self).commands@.len() - cs.len();
            let c = self.commands.remove(0);
            proof {
                assert(c == cs[0]);
                assert(c == old(self).commands@[consumed]);
                assert(self.commands@ =~= cs.skip(1));
                assert(self.commands@ =~= old(self).commands@.skip(consumed + 1));
                assert(forall|j: int|
                    0 <= j < self.commands@.len() ==> (#[trigger] self.commands@[j]) == cs[j + 1]);
            }
            let same = str_eq(c.name.as_str(), command.name.as_str());
            let ghost kept_old = kept@;
            if !same {
                kept.push(c);
            }
            proof {
                assert forall|i0: int|
                    0 <= i0 < consumed + 1 && (#[trigger] old(self).commands@[i0]).name@
                        != command.name@ implies kept@.contains(old(self).commands@[i0]) by {
                    if i0 < consumed {
                        let w = choose|w: int|
                            0 <= w < kept_old.len() && kept_old[w] == old(self).commands@[i0];
                        assert(kept@[w] == old(self).commands@[i0]);
                    } else {
                        assert(kept@[kept@.len() - 1] == old(self).commands@[i0]);
                    }
                }
            }
        }
        let ghost kept_pre = kept@;
        kept.push(command);
        self.commands = kept;
        proof {
            assert(self.wf());
            assert(self.commands@.last() == command);
            assert(self.commands@.last().name@ == cmd_name);
            assert(forall|j: int|
                0 <= j < self.commands@.len() - 1 ==> #[trigger] self.commands@[j]
                    == kept_pre[j]);
            assert(forall|j: int|
                0 <= j < self.commands@.len() - 1 ==> (#[trigger] self.commands@[j]).name@
                    != cmd_name);
            assert forall|i0: int|
                0 <= i0 < old(self).commands@.len() && (#[trigger] old(self).commands@[
                i0]).name@ != command.name@ implies self.commands@.contains(
                old(self).commands@[i0],
            ) by {
                assert(kept_pre.contains(old(self).commands@[i0]));
                let w = choose|w: int|
                    0 <= w < kept_pre.len() && kept_pre[w] == old(self).commands@[i0];
                assert(self.commands@[w] == old(self).commands@[i0]);
            }
        }
        // Point the new command's aliases at the canonical name, replacing
        // stale entries.
        let ghost aliases0 = self.command_aliases@;
        let ghost cmds_set = self.commands@;
        let alias_count = self.commands[self.commands.len() - 1].aliases.len();
        let mut a: usize = 0;
        while a < alias_count
            invariant
                self.wf(),
                self.commands@ == cmds_set,
                self.commands@.len() >= 1,
                self.commands@.len() <= old(self).commands@.len() + 1,
                self.commands@.last() == command,
                self.commands@.last().name@ == cmd_name,
                self.commands@.last().admin_only == command.admin_only,
                self.commands@.last().requires_auth == command.requires_auth,
                forall|j: int|
                    0 <= j < self.commands@.len() - 1 ==> (#[trigger] self.commands@[j]).name@
                        != cmd_name,
                forall|i0: int|
                    0 <= i0 < old(self).commands@.len() && (#[trigger] old(self).commands@[
                    i0]).name@ != command.name@ ==> self.commands@.contains(
                        old(self).commands@[i0],
                    ),
                forall|a2: int|
                    0 <= a2 < a ==> exists|x: int|
                        0 <= x < self.command_aliases@.len() && (#[trigger] self.command_aliases@[
                        x]).0@ == (#[trigger] command.aliases@[a2])@
                            && self.command_aliases@[x].1@ == cmd_name,
                alias_count == self.commands@.last().aliases@.len(),
                alias_count == alias_total,
                aliases0.len() <= old(self).command_aliases@.len(),
                self.command_aliases@.len() <= aliases0.len() + a,
                a > 0 ==> self.command_aliases@.len() >= 1,
                a <= alias_count,
            decreases alias_count - a,
        {
            let idx = self.commands.len() - 1;
            let alias = {
                let s = &self.commands[idx].aliases[a];
                String::from_str(s.as_str())
            };
            let canonical = String::from_str(self.commands[idx].name.as_str());
            proof {
                assert(alias@ == command.aliases@[a as int]@);
                assert(canonical@ == cmd_name);
            }
            let ghost aliases_pre = self.command_aliases@;
            self.set_alias(alias, canonical);
            proof {
                assert(self.command_aliases@.last() == (alias, canonical));
                assert forall|a2: int| 0 <= a2 < a + 1 implies exists|x: int|
                    0 <= x < self.command_aliases@.len() && (#[trigger] self.command_aliases@[
                    x]).0@ == (#[trigger] command.aliases@[a2])@ && self.command_aliases@[x].1@
                        == cmd_name by {
                    let last: int = self.command_aliases@.len() - 1;
                    if a2 == a {
                        assert(self.command_aliases@[last].0@ == command.aliases@[a2]@
                            && self.command_aliases@[last].1@ == cmd_name);
                    } else {
                        let x0 = choose|x: int|
                            0 <= x < aliases_pre.len() && (#[trigger] aliases_pre[x]).0@
                                == command.aliases@[a2]@ && aliases_pre[x].1@ == cmd_name;
                        if aliases_pre[x0].0@ != alias@ {
                            assert(self.command_aliases@.contains(aliases_pre[x0]));
                            let w = choose|w: int|
                                0 <= w < self.command_aliases@.len() && self.command_aliases@[w]
                                    == aliases_pre[x0];
                            assert(self.command_aliases@[w].0@ == command.aliases@[a2]@
                                && self.command_aliases@[w].1@ == cmd_name);
                        } else {
                            assert(self.command_aliases@[last].0@ == command.aliases@[a2]@
                                && self.command_aliases@[last].1@ == cmd_name);
                        }
                    }
                }
            }
            a = a + 1;
        }
        proof {
            // The registered command is found first under its own name.
            let mapped = self.commands@.map_values(|c: ServerCommand| c.name@);
            lemma_index_of(mapped, cmd_name, 0);
            assert(forall|j: int|
                0 <= j < mapped.len() ==> #[trigger] mapped[j] == self.commands@[j].name@);
            let last: int = self.commands@.len() - 1;
            assert(mapped[last] == cmd_name);
            match spec_index_of(mapped, cmd_name, 0) {
                Some(k) => {
                    assert(k == last) by {
                        if k < last {
                            assert(mapped[k] == cmd_name);
                            assert(self.commands@[k].name@ != cmd_name);
                        }
                    }
                },
                None => {
                    assert(false);
                },
            }
            assert(spec_find_command(self.commands@, cmd_name) == Some(last));
            // Each of its aliases resolves to the name.
            let keys = self.command_aliases@.map_values(|p: (String, String)| p.0@);
            assert(forall|j: int|
                0 <= j < keys.len() ==> #[trigger] keys[j] == self.command_aliases@[j].0@);
            assert forall|a2: int| 0 <= a2 < command.aliases@.len() implies spec_resolve_alias(
                self.command_aliases@,
                (#[trigger] command.aliases@[a2])@,
            ) == cmd_name by {
                let key = command.aliases@[a2]@;
                let x0 = choose|x: int|
                    0 <= x < self.command_aliases@.len() && (#[trigger] self.command_aliases@[
                    x]).0@ == key && self.command_aliases@[x].1@ == cmd_name;
                lemma_index_of(keys, key, 0);
                match spec_index_of(keys, key, 0) {
                    Some(k) => {
                        assert(keys[k] == key);
                        assert(k == x0) by {
                            if k != x0 {
                                if k < x0 {
                                    assert(self.command_aliases@[k].0@ != self.command_aliases@[
                                    x0].0@);
                                } else {
                                    assert(self.command_aliases@[x0].0@ != self.command_aliases@[
                                    k].0@);
                                }
                            }
                        }
                        assert(spec_resolve_alias(self.command_aliases@, key)
                            == self.command_aliases@[x0].1@);
                    },
                    None => {
                        assert(keys[x0] == key);
                        assert(false);
                    },
                }
            }
        }
    }

    /// Inserts or replaces one alias entry.
    fn set_alias(&mut self, alias: String, canonical: String)
        requires
            old(self).wf(),
        ensures
            final(self).wf(),
            final(self).commands == old(self).commands,
            final(self).commands@.len() == old(self).commands@.len(),
            1 <= final(self).command_aliases@.len() <= old(self).command_aliases@.len() + 1,
            final(self).command_aliases@.last() == (alias, canonical),
            forall|x: int|
                0 <= x < old(self).command_aliases@.len() && (#[trigger] old(
                    self,
                ).command_aliases@[x]).0@ != alias@ ==> final(self).command_aliases@.contains(
                    old(self).command_aliases@[x],
                ),
    {
        let mut kept: Vec<(String, String)> = Vec::new();
        while self.command_aliases.len() > 0
            invariant
                self.commands == old(self).commands,
                kept@.len() + self.command_aliases@.len() <= old(self).command_aliases@.len(),
                self.command_aliases@.len() <= old(self).command_aliases@.len(),
                self.command_aliases@ =~= old(self).command_aliases@.skip(
                    old(self).command_aliases@.len() - self.command_aliases@.len(),
                ),
                forall|x: int|
                    0 <= x < old(self).command_aliases@.len() - self.command_aliases@.len() && (
                    #[trigger] old(self).command_aliases@[x]).0@ != alias@ ==> kept@.contains(
                        old(self).command_aliases@[x],
                    ),
                forall|i: int, j: int|
                    0 <= i < j < kept@.len() ==> (#[trigger] kept@[i]).0@ != (
                    #[trigger] kept@[j]).0@,
                forall|i: int|
                    0 <= i < kept@.len() ==> (#[trigger] kept@[i]).0@ != alias@,
                forall|i: int, j: int|
                    0 <= i < j < self.command_aliases@.len() ==> (#[trigger] self.command_aliases@[
                    i]).0@ != (#[trigger] self.command_aliases@[j]).0@,
                forall|i: int, j: int|
                    0 <= i < kept@.len() && 0 <= j < self.command_aliases@.len() ==> (
                    #[trigger] kept@[i]).0@ != (#[trigger] self.command_aliases@[j]).0@,
            decreases self.command_aliases@.len(),
        {
            let ghost cs = self.command_aliases@;
            let ghost consumed: int = old(self).command_aliases@.len() - cs.len();
            let e = self.command_aliases.remove(0);
            proof {
                assert(e == cs[0]);
                assert(e == old(self).command_aliases@[consumed]);
                assert(self.command_aliases@ =~= cs.skip(1));
                assert(self.command_aliases@ =~= old(self).command_aliases@.skip(consumed + 1));
                assert(forall|j: int|
                    0 <= j < self.command_aliases@.len() ==> (#[trigger] self.command_aliases@[j])
                        == cs[j + 1]);
            }
            let same = str_eq(e.0.as_str(), alias.as_str());
            let ghost kept_old = kept@;
            if !same {
                kept.push(e);
            }
            proof {
                assert forall|x: int|
                    0 <= x < consumed + 1 && (#[trigger] old(self).command_aliases@[x]).0@
                        != alias@ implies kept@.contains(old(self).command_aliases@[x]) by {
                    if x < consumed {
                        let w = choose|w: int|
                            0 <= w < kept_old.len() && kept_old[w] == old(
                                self,
                            ).command_aliases@[x];
                        assert(kept@[w] == old(self).command_aliases@[x]);
                    } else {
                        assert(kept@[kept@.len() - 1] == old(self).command_aliases@[x]);
                    }
                }
            }
        }
        let ghost kept_pre = kept@;
        kept.push((alias, canonical));
        self.command_aliases = kept;
        proof {
            assert forall|x: int|
                0 <= x < old(self).command_aliases@.len() && (#[trigger] old(
                    self,
                ).command_aliases@[x]).0@ != alias@ implies self.command_aliases@.contains(
                old(self).command_aliases@[x],
            ) by {
                assert(kept_pre.contains(old(self).command_aliases@[x]));
                let w = choose|w: int|
                    0 <= w < kept_pre.len() && kept_pre[w] == old(self).command_aliases@[x];
                assert(self.command_aliases@[w] == old(self).command_aliases@[x]);
            }
        }
    }

    /// Index of the first alias entry keyed by `name`.
    fn find_alias(&self, name: &str) -> (r: Option<usize>)
        ensures
            match r {
                Some(i) => i < self.command_aliases@.len() && self.command_aliases@[i as int].0@
                    == name@ && forall|j: int|
                    0 <= j < i ==> (#[trigger] self.command_aliases@[j]).0@ != name@,
                None => forall|j: int|
                    0 <= j < self.command_aliases@.len() ==> (#[trigger] self.command_aliases@[
                    j]).0@ != name@,
            },
    {
        let an = self.command_aliases.len();
        let mut ai: usize = 0;
        while ai < an
            invariant
                an == self.command_aliases@.len(),
                ai <= an,
                forall|j: int| 0 <= j < ai ==> (#[trigger] self.command_aliases@[j]).0@ != name@,
            decreases an - ai,
        {
            if str_eq(self.command_aliases[ai].0.as_str(), name) {
                return Some(ai);
            }
            ai = ai + 1;
        }
        None
    }

    /// Resolves a name or alias to its command.
    pub fn get_command(&self, name: &str) -> (r: Option<&ServerCommand>)
        ensures
            match r {
                Some(c) => spec_lookup(*self, name@) matches Some(i) && 0 <= i
                    < self.commands@.len() && *c == self.commands@[i],
                None => spec_lookup(*self, name@) is None,
            },
    {
        proof {
            lemma_index_of(
                self.command_aliases@.map_values(|a: (String, String)| a.0@),
                name@,
                0,
            );
        }
        let resolved_idx = self.find_alias(name);
        let ghost resolved = spec_resolve_alias(self.command_aliases@, name@);
        match resolved_idx {
            Some(i) => {
                proof {
                    let mapped = self.command_aliases@.map_values(|a: (String, String)| a.0@);
                    assert(forall|j: int|
                        0 <= j < mapped.len() ==> #[trigger] mapped[j]
                            == self.command_aliases@[j].0@);
                    assert(mapped[i as int] == name@);
                    assert(resolved == self.command_aliases@[i as int].1@);
                }
                self.find_by_name(self.command_aliases[i].1.as_str())
            },
            None => {
                proof {
                    let mapped = self.command_aliases@.map_values(|a: (String, String)| a.0@);
                    assert(forall|j: int| 0 <= j < mapped.len() ==> #[trigger] mapped[j] != name@)
                        by {
                        assert(forall|j: int|
                            0 <= j < mapped.len() ==> #[trigger] mapped[j]
                                == self.command_aliases@[j].0@);
                    }
                    assert(resolved == name@);
                }
                self.find_by_name(name)
            },
        }
    }

    /// The command registered under exactly this name.
    fn find_by_name(&self, name: &str) -> (r: Option<&ServerCommand>)
        ensures
            match r {
                Some(c) => spec_find_command(self.commands@, name@) matches Some(i) && 0 <= i
                    < self.commands@.len() && *c == self.commands@[i],
                None => spec_find_command(self.commands@, name@) is None,
            },
    {
        proof {
            lemma_index_of(self.commands@.map_values(|c: ServerCommand| c.name@), name@, 0);
        }
        let n = self.commands.len();
        let mut i: usize = 0;
        while i < n
            invariant
                n == self.commands@.len(),
                i <= n,
                forall|j: int| 0 <= j < i ==> (#[trigger] self.commands@[j]).name@ != name@,
            decreases n - i,
        {
            if str_eq(self.commands[i].name.as_str(), name) {
                proof {
                    let mapped = self.commands@.map_values(|c: ServerCommand| c.name@);
                    lemma_index_of(mapped, name@, 0);
                    assert(forall|j: int|
                        0 <= j < mapped.len() ==> #[trigger] mapped[j] == self.commands@[j].name@);
                    assert(mapped[i as int] == name@);
                    match spec_index_of(mapped, name@, 0) {
                        Some(k) => {
                            if k < i {
                                assert(mapped[k] == name@);
                                assert(self.commands@[k].name@ != name@);
                                assert(false);
                            }
                            if k > i {
                                assert(forall|j: int| 0 <= j < k ==> mapped[j] != name@);
                                assert(false);
                            }
                        },
                        None => {
                            assert(forall|j: int| 0 <= j < mapped.len() ==> mapped[j] != name@);
                            assert(false);
                        },
                    }
                    assert(spec_find_command(self.commands@, name@) == Some(i as int));
                }
                return Some(&self.commands[i]);
            }
            i = i + 1;
        }
        proof {
            let mapped = self.commands@.map_values(|c: ServerCommand| c.name@);
            assert(forall|j: int| 0 <= j < mapped.len() ==> #[trigger] mapped[j] != name@) by {
                assert(forall|j: int|
                    0 <= j < mapped.len() ==> #[trigger] mapped[j] == self.commands@[j].name@);
            }
        }
        None
    }

    /// Every registered command, in registration order.
    pub fn get_all_commands(&self) -> (r: Vec<&ServerCommand>)
        ensures
            r@.len() == self.commands@.len(),
            forall|i: int| 0 <= i < r@.len() ==> *(#[trigger] r@[i]) == self.commands@[i],
    {
        let n = self.commands.len();
        let mut out: Vec<&ServerCommand> = Vec::new();
        let mut i: usize = 0;
        while i < n
            invariant
                n == self.commands@.len(),
                i <= n,
                out@.len() == i,
                forall|j: int| 0 <= j < out@.len() ==> *(#[trigger] out@[j]) == self.commands@[j],
            decreases n - i,
        {
            out.push(&self.commands[i]);
            proof {
                assert(*out@[out@.len() - 1] == self.commands@[i as int]);
            }
            i = i + 1;
        }
        out
    }

    /// The commands a user may see: everything, unless a command is
    /// admin-only and the user is not an admin.
    pub fn get_commands_for_user(&self, is_admin: bool) -> (r: Vec<&ServerCommand>)
        ensures
            r@.map_values(|c: &ServerCommand| *c) == spec_visible_commands(
                self.commands@,
                is_admin,
                self.commands@.len() as int,
            ),
    {
        let n = self.commands.len();
        let mut out: Vec<&ServerCommand> = Vec::new();
        let mut i: usize = 0;
        while i < n
            invariant
                n == self.commands@.len(),
                i <= n,
                out@.map_values(|c: &ServerCommand| *c) == spec_visible_commands(
                    self.commands@,
                    is_admin,
                    i as int,
                ),
            decreases n - i,
        {
            let ghost prev = out@.map_values(|c: &ServerCommand| *c);
            if !self.commands[i].admin_only || is_admin {
                out.push(&self.commands[i]);
                proof {
                    assert(out@.map_values(|c: &ServerCommand| *c) =~= prev.push(
                        self.commands@[i as int],
                    ));
                    assert(out@.map_values(|c: &ServerCommand| *c) =~= spec_visible_commands(
                        self.commands@,
                        is_admin,
                        i + 1,
                    ));
                }
            } else {
                proof {
                    assert(out@.map_values(|c: &ServerCommand| *c) =~= spec_visible_commands(
                        self.commands@,
                        is_admin,
                        i + 1,
                    ));
                }
            }
            i = i + 1;
        }
        out
    }

    /// Splits a `/command arg arg` line on ASCII whitespace and resolves the
    /// leading token. `None` when the line does not begin with `/`, holds no
    /// token, names no known command, or a token is not valid UTF-8.
    pub fn parse_command(&self, input: &str) -> (r: Option<(&ServerCommand, Vec<String>)>)
        ensures
            r matches Some((c, args)) ==> {
                let toks = spec_tokens_from(crate::strutil::str_bytes(input@), 0);
                &&& toks.len() >= 1
                &&& toks[0].len() >= 1 && toks[0][0] == 0x2fu8
                &&& args@.len() == toks.len() - 1
                &&& forall|k: int|
                    0 <= k < args@.len() ==> (#[trigger] args@[k])@ == vstd::utf8::decode_utf8(
                        toks[k + 1],
                    )
                &&& (spec_lookup(*self, vstd::utf8::decode_utf8(toks[0])) matches Some(i) && 0
                    <= i < self.commands@.len() && *c == self.commands@[i])
            },
            ({
                let toks = spec_tokens_from(crate::strutil::str_bytes(input@), 0);
                &&& toks.len() >= 1
                &&& toks[0].len() >= 1 && toks[0][0] == 0x2fu8
                &&& forall|k: int|
                    0 <= k < toks.len() ==> vstd::utf8::valid_utf8(#[trigger] toks[k])
                &&& spec_lookup(*self, vstd::utf8::decode_utf8(toks[0])) is Some
            }) ==> r is Some,
    {
        let bytes = input.as_bytes();
        let tokens = tokenize(bytes);
        if tokens.len() == 0 {
            return None;
        }
        let first = &tokens[0];
        if first.len() == 0 || first[0] != 0x2f {
            return None;
        }
        let name_bytes = crate::bytes::copy_range(first.as_slice(), 0, first.len());
        proof {
            assert(name_bytes@ =~= tokens@[0]@);
        }
        let name = match bytes_to_string(name_bytes) {
            Some(s) => s,
            None => {
                proof {
                    let toks = spec_tokens_from(crate::strutil::str_bytes(input@), 0);
                    assert(!vstd::utf8::valid_utf8(toks[0]));
                }
                return None;
            },
        };
        let cmd = match self.get_command(name.as_str()) {
            Some(c) => c,
            None => {
                proof {
                    let toks = spec_tokens_from(crate::strutil::str_bytes(input@), 0);
                    assert(name@ == vstd::utf8::decode_utf8(toks[0]));
                }
                return None;
            },
        };
        let mut args: Vec<String> = Vec::new();
        let n = tokens.len();
        let mut k: usize = 1;
        while k < n
            invariant
                1 <= k <= n,
                n == tokens@.len(),
                tokens@.map_values(|t: Vec<u8>| t@) == spec_tokens_from(
                    crate::strutil::str_bytes(input@),
                    0,
                ),
                args@.len() == k - 1,
                forall|x: int|
                    0 <= x < args@.len() ==> (#[trigger] args@[x])@ == vstd::utf8::decode_utf8(
                        tokens@[x + 1]@,
                    ),
            decreases n - k,
        {
            let t = &tokens[k];
            let t_bytes = crate::bytes::copy_range(t.as_slice(), 0, t.len());
            proof {
                assert(t_bytes@ =~= tokens@[k as int]@);
            }
            match bytes_to_string(t_bytes) {
                Some(s) => {
                    args.push(s);
                },
                None => {
                    proof {
                        let toks = spec_tokens_from(crate::strutil::str_bytes(input@), 0);
                        assert(tokens@.map_values(|t2: Vec<u8>| t2@)[k as int] == tokens@[
                        k as int]@);
                        assert(toks[k as int] == tokens@[k as int]@);
                        assert(!vstd::utf8::valid_utf8(toks[k as int]));
                    }
                    return None;
                },
            }
            k = k + 1;
        }
        proof {
            let toks = spec_tokens_from(crate::strutil::str_bytes(input@), 0);
            assert(tokens@.map_values(|t: Vec<u8>| t@) == toks);
            assert(toks[0] == tokens@[0]@);
            assert forall|k2: int| 0 <= k2 < args@.len() implies (#[trigger] args@[k2])@
                == vstd::utf8::decode_utf8(toks[k2 + 1]) by {
                assert(toks[k2 + 1] == tokens@[k2 + 1]@);
            }
        }
        Some((cmd, args))
    }
}


/// The first `upto` commands a user with the given privilege may see, in
/// registration order.
pub open spec fn spec_visible_commands(
    cmds: Seq<ServerCommand>,
    is_admin: bool,
    upto: int,
) -> Seq<ServerCommand>
    decreases (if upto > 0 { upto } else { 0 }),
{
    if upto <= 0 || upto > cmds.len() {
        Seq::empty()
    } else {
        spec_visible_commands(cmds, is_admin, upto - 1) + (if !cmds[upto - 1].admin_only
            || is_admin {
            seq![cmds[upto - 1]]
        } else {
            Seq::empty()
        })
    }
}

/// Every visible command is allowed for the user and registered.
pub proof fn lemma_visible_commands(cmds: Seq<ServerCommand>, is_admin: bool, upto: int)
    ensures
        forall|x: int|
            0 <= x < spec_visible_commands(cmds, is_admin, upto).len() ==> {
                let c = #[trigger] spec_visible_commands(cmds, is_admin, upto)[x];
                (!c.admin_only || is_admin) && cmds.contains(c)
            },
    decreases (if upto > 0 { upto } else { 0 }),
{
    if upto > 0 && upto <= cmds.len() {
        lemma_visible_commands(cmds, is_admin, upto - 1);
        let prefix = spec_visible_commands(cmds, is_admin, upto - 1);
        let cur = spec_visible_commands(cmds, is_admin, upto);
        if !cmds[upto - 1].admin_only || is_admin {
            assert(cur =~= prefix.push(cmds[upto - 1]));
            assert forall|x: int| 0 <= x < cur.len() implies {
                let c = #[trigger] cur[x];
                (!c.admin_only || is_admin) && cmds.contains(c)
            } by {
                if x < prefix.len() {
                    assert(cur[x] == prefix[x]);
                } else {
                    assert(cur[x] == cmds[upto - 1]);
                }
            }
        } else {
            assert(cur =~= prefix);
        }
    }
}

/// ASCII whitespace, the token separator of command lines.
pub open spec fn spec_is_ws(b: u8) -> bool {
    b == 0x20 || b == 0x09 || b == 0x0a || b == 0x0d
}

/// Where the token starting at `from` ends: the first whitespace byte at or
/// after it, or the end of input.
pub open spec fn spec_token_end(bytes: Seq<u8>, from: int) -> int
    decreases bytes.len() - from,
{
    if from < 0 || from >= bytes.len() {
        bytes.len() as int
    } else if spec_is_ws(bytes[from]) {
        from
    } else {
        spec_token_end(bytes, from + 1)
    }
}

/// The token end lies between `from` and the end of input, on whitespace or
/// the end, with no whitespace before it.
pub proof fn lemma_token_end(bytes: Seq<u8>, from: int)
    requires
        0 <= from <= bytes.len(),
    ensures
        from <= spec_token_end(bytes, from) <= bytes.len(),
        spec_token_end(bytes, from) < bytes.len() ==> spec_is_ws(
            bytes[spec_token_end(bytes, from)],
        ),
        forall|j: int| from <= j < spec_token_end(bytes, from) ==> !spec_is_ws(bytes[j]),
        from < bytes.len() && !spec_is_ws(bytes[from]) ==> spec_token_end(bytes, from) > from,
    decreases bytes.len() - from,
{
    if from < bytes.len() && !spec_is_ws(bytes[from]) {
        lemma_token_end(bytes, from + 1);
    }
}

/// The whitespace-separated tokens of `bytes`, scanning from `i`.
pub open spec fn spec_tokens_from(bytes: Seq<u8>, i: int) -> Seq<Seq<u8>>
    decreases bytes.len() - i,
    when 0 <= i
    via spec_tokens_from_decreases
{
    if i >= bytes.len() {
        Seq::empty()
    } else if spec_is_ws(bytes[i]) {
        spec_tokens_from(bytes, i + 1)
    } else {
        seq![bytes.subrange(i, spec_token_end(bytes, i))] + spec_tokens_from(
            bytes,
            spec_token_end(bytes, i),
        )
    }
}

#[via_fn]
proof fn spec_tokens_from_decreases(bytes: Seq<u8>, i: int) {
    if 0 <= i < bytes.len() && !spec_is_ws(bytes[i]) {
        lemma_token_end(bytes, i);
    }
}

/// Splits a byte string into its ASCII-whitespace-separated tokens.
pub fn tokenize(bytes: &[u8]) -> (r: Vec<Vec<u8>>)
    ensures
        r@.map_values(|t: Vec<u8>| t@) == spec_tokens_from(bytes@, 0),
{
    let mut out: Vec<Vec<u8>> = Vec::new();
    let n = bytes.len();
    let mut i: usize = 0;
    while i < n
        invariant
            n == bytes@.len(),
            i <= n,
            spec_tokens_from(bytes@, 0) == out@.map_values(|t: Vec<u8>| t@) + spec_tokens_from(
                bytes@,
                i as int,
            ),
        decreases n - i,
    {
        let b = bytes[i];
        if b == 0x20 || b == 0x09 || b == 0x0a || b == 0x0d {
            i = i + 1;
        } else {
            proof {
                lemma_token_end(bytes@, i as int);
            }
            let mut e = i;
            while e < n && !(bytes[e] == 0x20 || bytes[e] == 0x09 || bytes[e] == 0x0a || bytes[e]
                == 0x0d)
                invariant
                    n == bytes@.len(),
                    i <= e <= n,
                    forall|j: int| i <= j < e ==> !spec_is_ws(bytes@[j]),
                decreases n - e,
            {
                e = e + 1;
            }
            proof {
                assert(spec_token_end(bytes@, i as int) == e as int) by {
                    lemma_token_end(bytes@, i as int);
                    let te = spec_token_end(bytes@, i as int);
                    if te < e {
                        assert(!spec_is_ws(bytes@[te]));
                    }
                    if te > e {
                        assert(e < bytes@.len());
                        assert(spec_is_ws(bytes@[e as int]));
                    }
                }
            }
            let token = crate::bytes::copy_range(bytes, i, e);
            proof {
                let ghost prev = out@.map_values(|t: Vec<u8>| t@);
                assert(out@.push(token).map_values(|t: Vec<u8>| t@) =~= prev.push(token@));
                assert(spec_tokens_from(bytes@, i as int) == seq![token@] + spec_tokens_from(
                    bytes@,
                    e as int,
                ));
                assert(prev.push(token@) + spec_tokens_from(bytes@, e as int) =~= prev + (seq![
                    token@,
                ] + spec_tokens_from(bytes@, e as int)));
            }
            out.push(token);
            i = e;
        }
    }
    proof {
        assert(spec_tokens_from(bytes@, n as int) =~= Seq::<Seq<u8>>::empty());
        assert(out@.map_values(|t: Vec<u8>| t@) + Seq::<Seq<u8>>::empty() =~= out@.map_values(
            |t: Vec<u8>| t@,
        ));
    }
    out
}

/// The dispatcher's authorization gate: a command that requires a mask is
/// refused to the unmasked, and an admin-only command to non-admins. `None`
/// means the command may run.
pub fn gate_command(cmd: &ServerCommand, has_mask: bool, is_admin: bool) -> (r: Option<
    CommandResult,
>)
    ensures
        r is None <==> ((has_mask || !cmd.requires_auth) && (is_admin || !cmd.admin_only)),
{
    if cmd.requires_auth && !has_mask {
        Some(CommandResult::Error(String::from_str("you must set a mask first")))
    } else if cmd.admin_only && !is_admin {
        Some(CommandResult::Error(String::from_str("this command needs admin rights")))
    } else {
        None
    }
}

} // verus!
