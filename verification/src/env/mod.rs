//! Hermetic environments: a root directory and the locations mapped into it,
//! lowered to the commands that set the sandbox up and enter it.
//!
//! The program that enters the sandbox binds directories but cannot make a
//! binding read-only. So each read-only mapping is mounted by a command of its
//! own, which has to succeed before the sandbox is entered, and only the
//! writable mappings are handed to the entering command. A read-only mapping
//! is mounted at its place below the root of the environment.

pub mod reference;

use vstd::prelude::*;
use crate::text::texts;
use reference::{
    bind_command, is_local, rendered, CommandSpec, CommandView, EnvError, EnvironmentId, Mapping,
    MappingView, Reference, ReferenceView,
};

verus! {

/// A sandbox: the directory it stands in and the locations mapped into it.
#[derive(Debug, PartialEq)]
pub struct Environment {
    pub id: EnvironmentId,
    pub root: String,
    pub mappings: Vec<Mapping>,
}

/// What the mappings hold.
pub open spec fn mapping_views(mappings: Seq<Mapping>) -> Seq<MappingView> {
    Seq::new(mappings.len(), |i: int| mappings[i]@)
}

/// What the commands hold.
pub open spec fn command_views(commands: Seq<CommandSpec>) -> Seq<CommandView> {
    Seq::new(commands.len(), |i: int| commands[i]@)
}

/// Whether every mapping has a path of the file system as its source.
pub open spec fn all_local(mappings: Seq<MappingView>) -> bool {
    forall|i: int| 0 <= i < mappings.len() ==> is_local(#[trigger] mappings[i])
}

/// The commands that mount the read-only mappings, in the order of the
/// mappings.
pub open spec fn setup_commands(root: Seq<char>, mappings: Seq<MappingView>) -> Seq<CommandView>
    decreases mappings.len(),
{
    if mappings.len() == 0 {
        Seq::empty()
    } else {
        let before = setup_commands(root, mappings.drop_last());
        if mappings.last().read_only {
            before.push(bind_command(mappings.last(), root))
        } else {
            before
        }
    }
}

/// The arguments that bind the writable mappings: for each, in the order of
/// the mappings, `-b` and the mount specification.
pub open spec fn bind_arguments(mappings: Seq<MappingView>) -> Seq<Seq<char>>
    decreases mappings.len(),
{
    if mappings.len() == 0 {
        Seq::empty()
    } else {
        let before = bind_arguments(mappings.drop_last());
        if mappings.last().read_only {
            before
        } else {
            before.push("-b"@).push(rendered(mappings.last()))
        }
    }
}

/// The command that enters the sandbox at `root`, with `/` as its working
/// directory and the writable mappings bound.
pub open spec fn entry_command(root: Seq<char>, mappings: Seq<MappingView>) -> CommandView {
    CommandView {
        program: "proot"@,
        args: seq!["-r"@, root, "-w"@, "/"@] + bind_arguments(mappings),
    }
}

/// The commands of an environment: those that mount the read-only mappings,
/// then the one that enters the sandbox.
pub open spec fn commands(root: Seq<char>, mappings: Seq<MappingView>) -> Seq<CommandView> {
    setup_commands(root, mappings).push(entry_command(root, mappings))
}

/// `command` with the program and the arguments of `action` added, as they
/// are, behind its own arguments.
pub open spec fn running(command: CommandView, action: CommandView) -> CommandView {
    CommandView { program: command.program, args: command.args.push(action.program) + action.args }
}

/// The commands of an environment in which the sandbox, once entered, runs
/// `action`.
pub open spec fn run_commands(
    root: Seq<char>,
    mappings: Seq<MappingView>,
    action: CommandView,
) -> Seq<CommandView> {
    setup_commands(root, mappings).push(running(entry_command(root, mappings), action))
}

/// Draws the identifier of a new environment.
///
/// Calls `uuid::Uuid::new_v4`, which draws 122 random bits, and takes the
/// result as a number with `Uuid::as_u128`. Nothing is claimed of the number.
#[verifier::external_body]
fn fresh_id() -> EnvironmentId {
    EnvironmentId { value: uuid::Uuid::new_v4().as_u128() }
}

impl Environment {
    /// The environment `id` at `root`, with the mappings given.
    pub fn with_id(id: EnvironmentId, root: String, mappings: Vec<Mapping>) -> (environment: Self)
        ensures
            environment.id == id,
            environment.root == root,
            environment.mappings == mappings,
    {
        Self { id, root, mappings }
    }

    /// A new environment at `root`, with the mappings given and an identifier
    /// drawn for it.
    pub fn new(root: String, mappings: Vec<Mapping>) -> (environment: Self)
        ensures
            environment.root == root,
            environment.mappings == mappings,
    {
        Self::with_id(fresh_id(), root, mappings)
    }

    /// The mount commands of the read-only mappings, and the arguments of the
    /// command that enters the sandbox.
    fn lower(&self) -> (result: Result<(Vec<CommandSpec>, Vec<String>), EnvError>)
        ensures
            match result {
                Ok((setup, args)) => {
                    &&& all_local(mapping_views(self.mappings@))
                    &&& command_views(setup@) == setup_commands(
                        self.root@,
                        mapping_views(self.mappings@),
                    )
                    &&& texts(args@) == entry_command(
                        self.root@,
                        mapping_views(self.mappings@),
                    ).args
                },
                Err(error) => {
                    &&& !all_local(mapping_views(self.mappings@))
                    &&& error == EnvError::Unsupported
                },
            },
    {
        let ghost views = mapping_views(self.mappings@);
        let mut setup: Vec<CommandSpec> = Vec::new();
        let mut args: Vec<String> = Vec::new();
        args.push("-r".to_owned());
        args.push(self.root.clone());
        args.push("-w".to_owned());
        args.push("/".to_owned());
        let ghost head = seq!["-r"@, self.root@, "-w"@, "/"@];
        assert(texts(args@) =~= head + bind_arguments(views.take(0)));
        assert(command_views(setup@) =~= setup_commands(self.root@, views.take(0)));
        let mut at: usize = 0;
        while at < self.mappings.len()
            invariant
                at <= self.mappings@.len(),
                views == mapping_views(self.mappings@),
                head == seq!["-r"@, self.root@, "-w"@, "/"@],
                all_local(views.take(at as int)),
                command_views(setup@) == setup_commands(self.root@, views.take(at as int)),
                texts(args@) == head + bind_arguments(views.take(at as int)),
            decreases self.mappings@.len() - at,
        {
            let mapping = &self.mappings[at];
            let ghost seen = views.take(at as int + 1);
            assert(seen.drop_last() =~= views.take(at as int));
            assert(seen.last() == mapping@);
            let ghost listed = command_views(setup@);
            let ghost given = texts(args@);
            if mapping.read_only {
                match mapping.as_bind(self.root.as_str()) {
                    Ok(command) => {
                        setup.push(command);
                        assert(command_views(setup@) =~= listed.push(command@));
                    },
                    Err(error) => {
                        assert(!is_local(views[at as int]));
                        return Err(error);
                    },
                }
            } else {
                match mapping.to_string() {
                    Ok(text) => {
                        args.push("-b".to_owned());
                        args.push(text);
                        assert(texts(args@) =~= given.push("-b"@).push(text@));
                        assert(given.push("-b"@).push(text@) =~= head + bind_arguments(seen));
                    },
                    Err(error) => {
                        assert(!is_local(views[at as int]));
                        return Err(error);
                    },
                }
            }
            assert forall|i: int| 0 <= i < seen.len() implies is_local(#[trigger] seen[i]) by {
                if i < at {
                    assert(views.take(at as int)[i] == seen[i]);
                }
            }
            at += 1;
        }
        assert(views.take(at as int) =~= views);
        Ok((setup, args))
    }

    /// The commands that set the sandbox up and enter it: one mount command
    /// for each read-only mapping, in their order, then the command that enters
    /// the sandbox with the writable mappings bound. Fails with `Unsupported`
    /// where the source of a mapping lies inside an environment.
    pub fn as_commands(&self) -> (result: Result<Vec<CommandSpec>, EnvError>)
        ensures
            match result {
                Ok(list) => {
                    &&& all_local(mapping_views(self.mappings@))
                    &&& command_views(list@) == commands(self.root@, mapping_views(self.mappings@))
                },
                Err(error) => {
                    &&& !all_local(mapping_views(self.mappings@))
                    &&& error == EnvError::Unsupported
                },
            },
    {
        let (mut list, args) = match self.lower() {
            Ok(lowered) => lowered,
            Err(error) => {
                return Err(error);
            },
        };
        let ghost setup = command_views(list@);
        let entry = CommandSpec { program: "proot".to_owned(), args };
        list.push(entry);
        assert(command_views(list@) =~= setup.push(entry@));
        Ok(list)
    }

    /// A reference to `path` inside this environment.
    pub fn get_reference(&self, path: &str) -> (reference: Reference)
        ensures
            reference@ == (ReferenceView { environment: Some(self.id), path: path@ }),
    {
        Reference::new(Some(self.id), path)
    }

    /// The commands of [`Environment::as_commands`], the last of which also
    /// carries the program and the arguments of `action`, as they are, behind
    /// its own: what the sandbox runs once it is entered.
    pub fn run_command(&self, action: &CommandSpec) -> (result: Result<Vec<CommandSpec>, EnvError>)
        ensures
            match result {
                Ok(list) => {
                    &&& all_local(mapping_views(self.mappings@))
                    &&& command_views(list@) == run_commands(
                        self.root@,
                        mapping_views(self.mappings@),
                        action@,
                    )
                },
                Err(error) => {
                    &&& !all_local(mapping_views(self.mappings@))
                    &&& error == EnvError::Unsupported
                },
            },
    {
        let (mut list, mut args) = match self.lower() {
            Ok(lowered) => lowered,
            Err(error) => {
                return Err(error);
            },
        };
        let ghost given = texts(args@);
        args.push(action.program.clone());
        assert(texts(args@) =~= given.push(action@.program));
        let mut at: usize = 0;
        while at < action.args.len()
            invariant
                at <= action.args@.len(),
                texts(args@) == given.push(action@.program) + action@.args.take(at as int),
            decreases action.args@.len() - at,
        {
            let ghost before = texts(args@);
            args.push(action.args[at].clone());
            assert(texts(args@) =~= before.push(action@.args[at as int]));
            assert(before.push(action@.args[at as int]) =~= given.push(action@.program)
                + action@.args.take(at as int + 1));
            at += 1;
        }
        assert(action@.args.take(at as int) =~= action@.args);
        let ghost setup = command_views(list@);
        let entry = CommandSpec { program: "proot".to_owned(), args };
        list.push(entry);
        assert(command_views(list@) =~= setup.push(entry@));
        Ok(list)
    }
}

/// `command` mounts one of the read-only mappings.
pub open spec fn is_mount_of(
    command: CommandView,
    root: Seq<char>,
    mappings: Seq<MappingView>,
) -> bool {
    exists|i: int|
        0 <= i < mappings.len() && (#[trigger] mappings[i]).read_only && command == bind_command(
            mappings[i],
            root,
        )
}

/// One of the commands mounts `mapping`.
pub open spec fn is_mounted_by(
    list: Seq<CommandView>,
    root: Seq<char>,
    mapping: MappingView,
) -> bool {
    exists|p: int| 0 <= p < list.len() && #[trigger] list[p] == bind_command(mapping, root)
}

/// The arguments bind `mapping`: they hold `-b` and, next to it, the mount
/// specification of the mapping.
pub open spec fn is_bound_by(args: Seq<Seq<char>>, mapping: MappingView) -> bool {
    exists|q: int|
        0 <= q && q + 1 < args.len() && #[trigger] args[q] == "-b"@ && args[q + 1] == rendered(
            mapping,
        )
}

proof fn lemma_setup(root: Seq<char>, mappings: Seq<MappingView>)
    ensures
        forall|p: int|
            0 <= p < setup_commands(root, mappings).len() ==> is_mount_of(
                #[trigger] setup_commands(root, mappings)[p],
                root,
                mappings,
            ),
        forall|i: int|
            0 <= i < mappings.len() && (#[trigger] mappings[i]).read_only ==> is_mounted_by(
                setup_commands(root, mappings),
                root,
                mappings[i],
            ),
    decreases mappings.len(),
{
    if mappings.len() > 0 {
        let shorter = mappings.drop_last();
        let before = setup_commands(root, shorter);
        let list = setup_commands(root, mappings);
        let last = mappings.len() - 1;
        lemma_setup(root, shorter);
        assert forall|p: int| 0 <= p < list.len() implies is_mount_of(
            #[trigger] list[p],
            root,
            mappings,
        ) by {
            if p < before.len() {
                assert(list[p] == before[p]);
                assert(is_mount_of(before[p], root, shorter));
                let i = choose|i: int|
                    0 <= i < shorter.len() && (#[trigger] shorter[i]).read_only && before[p]
                        == bind_command(shorter[i], root);
                assert(mappings[i] == shorter[i]);
            } else {
                assert(mappings[last].read_only);
                assert(list[p] == bind_command(mappings[last], root));
            }
        }
        assert forall|i: int|
            0 <= i < mappings.len() && (#[trigger] mappings[i]).read_only implies is_mounted_by(
            list,
            root,
            mappings[i],
        ) by {
            if i < last {
                assert(shorter[i] == mappings[i]);
                assert(is_mounted_by(before, root, shorter[i]));
                let p = choose|p: int|
                    0 <= p < before.len() && #[trigger] before[p] == bind_command(shorter[i], root);
                assert(list[p] == before[p]);
            } else {
                assert(list[list.len() - 1] == bind_command(mappings[i], root));
            }
        }
    }
}

proof fn lemma_bound(mappings: Seq<MappingView>)
    ensures
        forall|i: int|
            0 <= i < mappings.len() && !(#[trigger] mappings[i]).read_only ==> is_bound_by(
                bind_arguments(mappings),
                mappings[i],
            ),
    decreases mappings.len(),
{
    if mappings.len() > 0 {
        let shorter = mappings.drop_last();
        let before = bind_arguments(shorter);
        let args = bind_arguments(mappings);
        let last = mappings.len() - 1;
        lemma_bound(shorter);
        assert forall|i: int|
            0 <= i < mappings.len() && !(#[trigger] mappings[i]).read_only implies is_bound_by(
            args,
            mappings[i],
        ) by {
            if i < last {
                assert(shorter[i] == mappings[i]);
                assert(is_bound_by(before, shorter[i]));
                let q = choose|q: int|
                    0 <= q && q + 1 < before.len() && #[trigger] before[q] == "-b"@ && before[q
                        + 1] == rendered(shorter[i]);
                assert(args[q] == before[q] && args[q + 1] == before[q + 1]);
            } else {
                let q = before.len() as int;
                assert(args[q] == "-b"@ && args[q + 1] == rendered(mappings[i]));
            }
        }
    }
}

/// The order of the commands of an environment. The last command enters the
/// sandbox, and it is the only one that does: every command before it mounts
/// one of the read-only mappings. Every read-only mapping is mounted by a
/// command before the last, and every writable mapping is bound by the
/// arguments of the last command.
pub proof fn lemma_setup_before_entry(root: Seq<char>, mappings: Seq<MappingView>)
    ensures
        commands(root, mappings).len() >= 1,
        commands(root, mappings).last() == entry_command(root, mappings),
        "bindfs"@ != "proot"@,
        forall|p: int|
            0 <= p < commands(root, mappings).len() - 1 ==> {
                &&& (#[trigger] commands(root, mappings)[p]).program == "bindfs"@
                &&& is_mount_of(commands(root, mappings)[p], root, mappings)
            },
        forall|i: int|
            0 <= i < mappings.len() && (#[trigger] mappings[i]).read_only ==> is_mounted_by(
                commands(root, mappings).drop_last(),
                root,
                mappings[i],
            ),
        forall|i: int|
            0 <= i < mappings.len() && !(#[trigger] mappings[i]).read_only ==> is_bound_by(
                commands(root, mappings).last().args,
                mappings[i],
            ),
{
    let setup = setup_commands(root, mappings);
    let list = commands(root, mappings);
    reveal_strlit("bindfs");
    reveal_strlit("proot");
    assert("bindfs"@[0] != "proot"@[0]);
    lemma_setup(root, mappings);
    lemma_bound(mappings);
    assert(list.drop_last() =~= setup);
    assert forall|p: int| 0 <= p < list.len() - 1 implies {
        &&& (#[trigger] list[p]).program == "bindfs"@
        &&& is_mount_of(list[p], root, mappings)
    } by {
        assert(list[p] == setup[p]);
        assert(is_mount_of(setup[p], root, mappings));
    }
    assert forall|i: int|
        0 <= i < mappings.len() && !(#[trigger] mappings[i]).read_only implies is_bound_by(
        list.last().args,
        mappings[i],
    ) by {
        let args = bind_arguments(mappings);
        assert(is_bound_by(args, mappings[i]));
        let q = choose|q: int|
            0 <= q && q + 1 < args.len() && #[trigger] args[q] == "-b"@ && args[q + 1] == rendered(
                mappings[i],
            );
        let whole = list.last().args;
        assert(whole[q + 4] == args[q] && whole[q + 5] == args[q + 1]);
    }
}

/// Running an action changes the last command only, and adds the program and
/// the arguments of the action, unchanged, behind that command's own
/// arguments.
pub proof fn lemma_run_appends(root: Seq<char>, mappings: Seq<MappingView>, action: CommandView)
    ensures
        run_commands(root, mappings, action).len() == commands(root, mappings).len(),
        run_commands(root, mappings, action).drop_last() == commands(root, mappings).drop_last(),
        run_commands(root, mappings, action).last().program == commands(
            root,
            mappings,
        ).last().program,
        run_commands(root, mappings, action).last().args == commands(root, mappings).last().args
            + seq![action.program] + action.args,
{
    let setup = setup_commands(root, mappings);
    assert(run_commands(root, mappings, action).drop_last() =~= setup);
    assert(commands(root, mappings).drop_last() =~= setup);
    let entry = entry_command(root, mappings);
    assert(entry.args.push(action.program) + action.args =~= entry.args + seq![action.program]
        + action.args);
}

/// A writable mapping of `/tmp/b/3 3` without an alias is rendered as
/// `/tmp/b/3 3`: nothing is escaped where no colon stands.
pub proof fn lemma_rendered_without_colon()
    ensures
        rendered(
            MappingView {
                source: ReferenceView { environment: None, path: "/tmp/b/3 3"@ },
                alias: None,
                read_only: false,
            },
        ) == "/tmp/b/3 3"@,
{
    reveal_strlit("/tmp/b/3 3");
    reference::lemma_rendered_plain(
        MappingView {
            source: ReferenceView { environment: None, path: "/tmp/b/3 3"@ },
            alias: None,
            read_only: false,
        },
    );
}

} // verus!
