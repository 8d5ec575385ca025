//! The command registry: named command descriptors, plugins that own them,
//! and the execution context that holds the plugins, with first-match lookup
//! of a command by tool name.

use vstd::prelude::*;

use crate::dispatch::DispatchError;
use crate::value::ScriptValue;

verus! {

/// A named, duplicable handle to an invocable capability.
pub struct Command<R> {
    pub name: String,
    pub run: R,
}

/// A bundle of commands, owned by the execution context.
pub struct Plugin<R> {
    pub commands: Vec<Command<R>>,
}

/// Mutable session state: the registered plugins, read and duplicated but
/// never restructured by dispatch itself.
pub struct CommandContext<R> {
    pub plugins: Vec<Plugin<R>>,
}

/// The capability a command's `run` handle provides. Implementations are
/// supplied by plugins; an asynchronous implementation is driven to
/// completion behind this synchronous interface by its adapter.
pub trait CommandRun: Sized {
    /// Duplicate the handle; the duplicate is interchangeable with the
    /// original and shares its behaviour.
    fn duplicate(&self) -> (r: Self)
        ensures
            r == *self,
    ;

    /// Run the command against the context with the given arguments. The
    /// outcome is the implementation's own; nothing is promised of it.
    fn invoke(&self, context: &mut CommandContext<Self>, args: ScriptValue) -> Result<
        ScriptValue,
        DispatchError,
    >;
}

impl<R: CommandRun> Command<R> {
    /// A capability-preserving copy of the descriptor.
    pub fn duplicate(&self) -> (r: Self)
        ensures
            r == *self,
    {
        Command { name: self.name.clone(), run: self.run.duplicate() }
    }
}

/// The first command among `cmds` whose name is `tool`.
pub open spec fn find_in_commands<R>(cmds: Seq<Command<R>>, tool: Seq<char>) -> Option<Command<R>>
    decreases cmds.len(),
{
    if cmds.len() == 0 {
        None
    } else if cmds[0].name@ == tool {
        Some(cmds[0])
    } else {
        find_in_commands(cmds.subrange(1, cmds.len() as int), tool)
    }
}

/// The first command named `tool`, scanning plugins in order and each
/// plugin's commands in order.
pub open spec fn find_in_plugins<R>(plugins: Seq<Plugin<R>>, tool: Seq<char>) -> Option<Command<R>>
    decreases plugins.len(),
{
    if plugins.len() == 0 {
        None
    } else {
        match find_in_commands(plugins[0].commands@, tool) {
            Some(c) => Some(c),
            None => find_in_plugins(plugins.subrange(1, plugins.len() as int), tool),
        }
    }
}

/// Command lookup: the first registered command whose name is `tool`.
pub open spec fn lookup<R>(context: CommandContext<R>, tool: Seq<char>) -> Option<Command<R>> {
    find_in_plugins(context.plugins@, tool)
}

/// Resolve `tool` against the context: a duplicate of the first command so
/// named, in plugin-then-command order, or `None` when no command matches.
#[verifier::loop_isolation(false)]
pub fn find_command<R: CommandRun>(context: &CommandContext<R>, tool: &String) -> (r: Option<
    Command<R>,
>)
    ensures
        match r {
            Some(c) => lookup(*context, tool@) == Some(c),
            None => lookup(*context, tool@) is None,
        },
{
    let ghost all = context.plugins@;
    let n = context.plugins.len();
    proof {
        assert(all.subrange(0, n as int) =~= all);
    }
    let mut i: usize = 0;
    while i < n
        invariant
            i <= n,
            find_in_plugins(all.subrange(i as int, n as int), tool@) == find_in_plugins(
                all,
                tool@,
            ),
        decreases n - i,
    {
        let cmds = &context.plugins[i].commands;
        let ghost plugin_suffix = all.subrange(i as int, n as int);
        proof {
            assert(plugin_suffix[0] == all[i as int]);
        }
        let m = cmds.len();
        proof {
            assert(cmds@.subrange(0, m as int) =~= cmds@);
            assert(find_in_commands(cmds@, tool@) is Some ==> find_in_plugins(
                plugin_suffix,
                tool@,
            ) == find_in_commands(cmds@, tool@));
        }
        let mut j: usize = 0;
        while j < m
            invariant
                j <= m,
                i < n,
                m == cmds@.len(),
                find_in_commands(cmds@.subrange(j as int, m as int), tool@) == find_in_commands(
                    cmds@,
                    tool@,
                ),
            decreases m - j,
        {
            let ghost cmd_suffix = cmds@.subrange(j as int, m as int);
            proof {
                assert(cmd_suffix[0] == cmds@[j as int]);
                assert(cmd_suffix.subrange(1, cmd_suffix.len() as int) =~= cmds@.subrange(
                    j as int + 1,
                    m as int,
                ));
            }
            if compare_names(&cmds[j].name, tool) {
                proof {
                    assert(find_in_commands(cmds@, tool@) == Some(cmds@[j as int]));
                    assert(lookup(*context, tool@) == Some(cmds@[j as int]));
                }
                return Some(cmds[j].duplicate());
            }
            j = j + 1;
        }
        proof {
            assert(cmds@.subrange(m as int, m as int) =~= Seq::<Command<R>>::empty());
            assert(find_in_commands(cmds@, tool@) is None);
            assert(plugin_suffix.subrange(1, plugin_suffix.len() as int) =~= all.subrange(
                i as int + 1,
                n as int,
            ));
        }
        i = i + 1;
    }
    proof {
        assert(all.subrange(n as int, n as int) =~= Seq::<Plugin<R>>::empty());
    }
    None
}

/// Case-sensitive, exact equality of a command name and a requested tool.
fn compare_names(name: &String, tool: &String) -> (r: bool)
    ensures
        r == (name@ == tool@),
{
    name.eq(tool)
}

/// There is a command named `tool` at position `j` of `cmds`.
pub open spec fn matches_at<R>(cmds: Seq<Command<R>>, tool: Seq<char>, j: int) -> bool {
    0 <= j < cmds.len() && cmds[j].name@ == tool
}

/// Position `j` is the first of `cmds` holding a command named `tool`.
pub open spec fn first_match_at<R>(cmds: Seq<Command<R>>, tool: Seq<char>, j: int) -> bool {
    matches_at(cmds, tool, j) && forall|j2: int| 0 <= j2 < j ==> !matches_at(cmds, tool, j2)
}

/// There is a command named `tool` at position `j` of plugin `i`.
pub open spec fn names_match<R>(
    plugins: Seq<Plugin<R>>,
    tool: Seq<char>,
    i: int,
    j: int,
) -> bool {
    0 <= i < plugins.len() && matches_at(plugins[i].commands@, tool, j)
}

/// Position `(i2, j2)` precedes `(i, j)` in plugin-then-command order.
pub open spec fn earlier_position(i2: int, j2: int, i: int, j: int) -> bool {
    i2 < i || (i2 == i && j2 < j)
}

/// Position `(i, j)` is the first, in plugin-then-command order, holding a
/// command named `tool`.
pub open spec fn first_match<R>(plugins: Seq<Plugin<R>>, tool: Seq<char>, i: int, j: int) -> bool {
    names_match(plugins, tool, i, j) && forall|i2: int, j2: int|
        earlier_position(i2, j2, i, j) ==> !names_match(plugins, tool, i2, j2)
}

proof fn lemma_find_commands_characterizes<R>(cmds: Seq<Command<R>>, tool: Seq<char>)
    ensures
        find_in_commands(cmds, tool) is None ==> forall|j: int| !matches_at(cmds, tool, j),
        find_in_commands(cmds, tool) matches Some(c) ==> exists|j: int|
            #[trigger] first_match_at(cmds, tool, j) && c == cmds[j],
    decreases cmds.len(),
{
    if cmds.len() == 0 {
    } else if cmds[0].name@ == tool {
        assert(first_match_at(cmds, tool, 0));
    } else {
        let rest = cmds.subrange(1, cmds.len() as int);
        lemma_find_commands_characterizes(rest, tool);
        assert(forall|j: int| 1 <= j < cmds.len() ==> cmds[j] == #[trigger] rest[j - 1]);
        match find_in_commands(cmds, tool) {
            Some(c) => {
                let j0 = choose|j: int| #[trigger] first_match_at(rest, tool, j) && c == rest[j];
                assert(matches_at(cmds, tool, j0 + 1));
                assert forall|j2: int| 0 <= j2 < j0 + 1 implies !matches_at(cmds, tool, j2) by {
                    if j2 >= 1 {
                        assert(!matches_at(rest, tool, j2 - 1));
                    }
                }
                assert(first_match_at(cmds, tool, j0 + 1) && c == cmds[j0 + 1]);
            },
            None => {
                assert forall|j: int| !matches_at(cmds, tool, j) by {
                    if 1 <= j < cmds.len() {
                        assert(!matches_at(rest, tool, j - 1));
                    }
                }
            },
        }
    }
}

proof fn lemma_find_plugins_characterizes<R>(plugins: Seq<Plugin<R>>, tool: Seq<char>)
    ensures
        find_in_plugins(plugins, tool) is None ==> forall|i: int, j: int|
            !names_match(plugins, tool, i, j),
        find_in_plugins(plugins, tool) matches Some(c) ==> exists|i: int, j: int|
            #[trigger] first_match(plugins, tool, i, j) && c == plugins[i].commands@[j],
    decreases plugins.len(),
{
    if plugins.len() == 0 {
    } else {
        let head = plugins[0].commands@;
        lemma_find_commands_characterizes(head, tool);
        let rest = plugins.subrange(1, plugins.len() as int);
        assert(forall|i: int| 1 <= i < plugins.len() ==> plugins[i] == #[trigger] rest[i - 1]);
        match find_in_commands(head, tool) {
            Some(c) => {
                let j0 = choose|j: int| #[trigger] first_match_at(head, tool, j) && c == head[j];
                assert(names_match(plugins, tool, 0, j0));
                assert forall|i2: int, j2: int| earlier_position(i2, j2, 0, j0) implies
                    !names_match(plugins, tool, i2, j2) by {
                    if i2 == 0 {
                        assert(!matches_at(head, tool, j2));
                    }
                }
                assert(first_match(plugins, tool, 0, j0) && c == plugins[0].commands@[j0]);
            },
            None => {
                lemma_find_plugins_characterizes(rest, tool);
                match find_in_plugins(rest, tool) {
                    Some(c) => {
                        let (i0, j0) = choose|i: int, j: int|
                            #[trigger] first_match(rest, tool, i, j) && c == rest[i].commands@[j];
                        assert(names_match(plugins, tool, i0 + 1, j0));
                        assert forall|i2: int, j2: int| earlier_position(i2, j2, i0 + 1, j0)
                            implies !names_match(plugins, tool, i2, j2) by {
                            if i2 == 0 {
                                assert(!matches_at(head, tool, j2));
                            } else if 1 <= i2 < plugins.len() {
                                assert(earlier_position(i2 - 1, j2, i0, j0));
                                assert(!names_match(rest, tool, i2 - 1, j2));
                            }
                        }
                        assert(first_match(plugins, tool, i0 + 1, j0) && c == plugins[i0
                            + 1].commands@[j0]);
                    },
                    None => {
                        assert forall|i: int, j: int| !names_match(plugins, tool, i, j) by {
                            if i == 0 {
                                assert(!matches_at(head, tool, j));
                            } else if 1 <= i < plugins.len() {
                                assert(!names_match(rest, tool, i - 1, j));
                            }
                        }
                    },
                }
            },
        }
    }
}

/// Law: lookup is exact, case-sensitive, first-match resolution. When no
/// registered command carries the requested name, lookup finds nothing;
/// when one does, lookup returns the command at the first position, in
/// plugin-then-command order, whose name equals the requested tool name.
pub proof fn lemma_lookup_first_match<R>(context: CommandContext<R>, tool: Seq<char>)
    ensures
        lookup(context, tool) is None ==> forall|i: int, j: int|
            !names_match(context.plugins@, tool, i, j),
        lookup(context, tool) matches Some(c) ==> exists|i: int, j: int|
            #[trigger] first_match(context.plugins@, tool, i, j) && c
                == context.plugins@[i].commands@[j],
{
    lemma_find_plugins_characterizes(context.plugins@, tool);
}

/// Sample command capabilities: an echoing command, which returns its
/// arguments unchanged, and a failing command, which always reports the
/// failure message it was registered with.
pub enum SampleRun {
    Echo,
    Fail(String),
}

impl CommandRun for SampleRun {
    fn duplicate(&self) -> (r: Self)
        ensures
            r == *self,
    {
        match self {
            SampleRun::Echo => SampleRun::Echo,
            SampleRun::Fail(message) => SampleRun::Fail(message.clone()),
        }
    }

    fn invoke(&self, _context: &mut CommandContext<SampleRun>, args: ScriptValue) -> Result<
        ScriptValue,
        DispatchError,
    > {
        match self {
            SampleRun::Echo => Ok(args),
            SampleRun::Fail(message) => Err(DispatchError::CommandFailure(message.clone())),
        }
    }
}

} // verus!
