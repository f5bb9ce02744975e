//! References to locations, and mappings of them into an environment.

use vstd::prelude::*;
use crate::segments::{
    all_names, appended, append_path, is_plain, join, join_segments, lemma_first_piece,
    lemma_join_split, lemma_settle_all_names, lemma_settle_concat, lemma_settle_single,
    lemma_settled_is_plain, lemma_split_join, lemma_split_one, lemma_split_slash, no_slashes,
    push_segments, settle, split,
};
use crate::text::{chars_of, texts};

verus! {

/// Names one environment among those of the process that made it. The number
/// is drawn at random for each environment; it is not kept beyond the process
/// and means nothing to another.
#[derive(Clone, Copy, Debug, PartialEq, Eq, Structural)]
pub struct EnvironmentId {
    pub value: u128,
}

/// Why a location could not be turned into a path or a command.
#[derive(Clone, Copy, Debug, PartialEq, Eq, Structural)]
pub enum EnvError {
    /// The location lies inside another environment. Where that environment
    /// stands on disk is not tracked, so no path can be given for it.
    Unsupported,
}

/// A location: a path of the file system, or a path inside the environment
/// named.
#[derive(Debug, PartialEq, Eq)]
pub struct Reference {
    pub environment: Option<EnvironmentId>,
    pub path: String,
}

/// What a [`Reference`] holds.
pub struct ReferenceView {
    pub environment: Option<EnvironmentId>,
    pub path: Seq<char>,
}

impl View for Reference {
    type V = ReferenceView;

    open spec fn view(&self) -> ReferenceView {
        ReferenceView { environment: self.environment, path: self.path@ }
    }
}

/// Binds a location to a place inside an environment: the alias, or without
/// one the last named segment of the location's path.
#[derive(Debug, PartialEq, Eq)]
pub struct Mapping {
    pub source: Reference,
    pub alias: Option<String>,
    pub read_only: bool,
}

/// What a [`Mapping`] holds.
pub struct MappingView {
    pub source: ReferenceView,
    pub alias: Option<Seq<char>>,
    pub read_only: bool,
}

impl View for Mapping {
    type V = MappingView;

    open spec fn view(&self) -> MappingView {
        MappingView {
            source: self.source@,
            alias: match self.alias {
                Some(alias) => Some(alias@),
                None => None,
            },
            read_only: self.read_only,
        }
    }
}

/// One command for the operating system: a program and its arguments, each a
/// string of its own. Nothing here runs it.
#[derive(Debug, PartialEq, Eq)]
pub struct CommandSpec {
    pub program: String,
    pub args: Vec<String>,
}

/// What a [`CommandSpec`] holds.
pub struct CommandView {
    pub program: Seq<char>,
    pub args: Seq<Seq<char>>,
}

impl View for CommandSpec {
    type V = CommandView;

    open spec fn view(&self) -> CommandView {
        CommandView { program: self.program@, args: crate::text::texts(self.args@) }
    }
}

/// `text` with a backslash put before each colon.
pub open spec fn escaped(text: Seq<char>) -> Seq<char>
    decreases text.len(),
{
    if text.len() == 0 {
        Seq::empty()
    } else if text.last() == ':' {
        escaped(text.drop_last()).push('\\').push(':')
    } else {
        escaped(text.drop_last()).push(text.last())
    }
}

/// Whether the mapping's source is a path of the file system.
pub open spec fn is_local(mapping: MappingView) -> bool {
    mapping.source.environment is None
}

/// The mount specification of a mapping of the file system: the source path
/// with its colons escaped, then, where there is an alias, a colon and the
/// alias as it is.
pub open spec fn rendered(mapping: MappingView) -> Seq<char> {
    match mapping.alias {
        Some(alias) => escaped(mapping.source.path).push(':') + alias,
        None => escaped(mapping.source.path),
    }
}

/// The place of the mapping inside an environment, as the names that lead to
/// it from the root of the environment: the named segments of the alias, with
/// `.` and `..` settled, or without an alias the last named segment of the
/// source path. A slash before the alias counts for nothing, and no `..` leads
/// out of the environment.
pub open spec fn place_names(mapping: MappingView) -> Seq<Seq<char>> {
    match mapping.alias {
        Some(alias) => settle(Seq::empty(), split(alias)),
        None => {
            let names = settle(Seq::empty(), split(mapping.source.path));
            if names.len() > 0 {
                seq![names.last()]
            } else {
                Seq::empty()
            }
        },
    }
}

/// Where the mapping is mounted when the environment stands at `root`: at its
/// place below `root`, or at `root` itself where the place has no name.
pub open spec fn mount_point(mapping: MappingView, root: Seq<char>) -> Seq<char> {
    let names = place_names(mapping);
    if names.len() == 0 {
        root
    } else {
        appended(root, join(names))
    }
}

/// The command that mounts a mapping of the file system, read-only, for an
/// environment at `root`.
pub open spec fn bind_command(mapping: MappingView, root: Seq<char>) -> CommandView {
    CommandView {
        program: "bindfs"@,
        args: seq!["--no-allow-other"@, "-r"@, mapping.source.path, mount_point(mapping, root)],
    }
}

/// The mount point of a mapping lies inside the root: it starts with the
/// root, and what follows are names joined by single slashes, behind a slash
/// where the root does not end in one.
pub proof fn lemma_mount_point_inside(mapping: MappingView, root: Seq<char>)
    ensures
        root.is_prefix_of(mount_point(mapping, root)),
        all_names(place_names(mapping)),
        no_slashes(place_names(mapping)),
        place_names(mapping).len() == 0 ==> mount_point(mapping, root) == root,
        place_names(mapping).len() > 0 ==> {
            &&& is_plain(join(place_names(mapping)))
            &&& mount_point(mapping, root) == if root.len() == 0 || root.last() == '/' {
                root + join(place_names(mapping))
            } else {
                root.push('/') + join(place_names(mapping))
            }
        },
{
    let names = place_names(mapping);
    match mapping.alias {
        Some(alias) => {
            lemma_settled_is_plain(Seq::empty(), alias);
        },
        None => {
            lemma_settled_is_plain(Seq::empty(), mapping.source.path);
            let all = settle(Seq::empty(), split(mapping.source.path));
            if all.len() > 0 {
                assert(names[0] == all[all.len() - 1]);
            }
        },
    }
    if names.len() > 0 {
        lemma_split_join(names);
        let tail = join(names);
        if tail.len() > 0 && tail[0] == '/' {
            lemma_first_piece(tail);
        }
        let whole = mount_point(mapping, root);
        assert(root.is_prefix_of(whole)) by {
            if root.len() == 0 || root.last() == '/' {
                assert(whole =~= root + tail);
            } else {
                assert(whole =~= root.push('/') + tail);
            }
            assert(whole.subrange(0, root.len() as int) =~= root);
        }
    } else {
        assert(root.subrange(0, root.len() as int) =~= root);
    }
}

/// An alias that is a plain path, with a slash before it or without, is
/// mounted at that plain path below the root.
pub proof fn lemma_mount_point_of_alias(mapping: MappingView, root: Seq<char>, place: Seq<char>)
    requires
        is_plain(place),
        mapping.alias == Some(place) || mapping.alias == Some(seq!['/'] + place),
    ensures
        place_names(mapping) == split(place),
        mount_point(mapping, root) == if root.len() == 0 || root.last() == '/' {
            root + place
        } else {
            root.push('/') + place
        },
{
    let names = split(place);
    lemma_settle_all_names(Seq::empty(), names);
    assert(Seq::<Seq<char>>::empty() + names =~= names);
    if mapping.alias == Some(seq!['/'] + place) {
        let alias = seq!['/'] + place;
        assert(alias =~= Seq::<char>::empty().push('/') + place);
        lemma_split_slash(Seq::empty(), place);
        let head = split(Seq::<char>::empty());
        assert(head =~= seq![Seq::empty()]);
        lemma_settle_concat(Seq::empty(), head, names);
        lemma_settle_single(Seq::empty(), Seq::empty());
    }
    lemma_join_split(place);
    crate::segments::lemma_split_some(place);
    if place.len() > 0 && place[0] == '/' {
        lemma_first_piece(place);
        assert(split(place)[0].len() == 0);
    }
}

/// Under `/test`, the alias `/b` is mounted at `/test/b`.
pub proof fn lemma_mount_point_below_test(source: ReferenceView, read_only: bool)
    ensures
        mount_point(MappingView { source, alias: Some("/b"@), read_only }, "/test"@)
            == "/test/b"@,
{
    reveal_strlit("/b");
    reveal_strlit("b");
    reveal_strlit("/test");
    reveal_strlit("/test/b");
    let mapping = MappingView { source, alias: Some("/b"@), read_only };
    assert(!"b"@.contains('/'));
    lemma_split_one("b"@);
    assert("/b"@ =~= seq!['/'] + "b"@);
    lemma_mount_point_of_alias(mapping, "/test"@, "b"@);
    assert("/test"@.push('/') + "b"@ =~= "/test/b"@);
}

/// Text without a colon is its own escaped form.
pub proof fn lemma_escaped_plain(text: Seq<char>)
    requires
        !text.contains(':'),
    ensures
        escaped(text) == text,
    decreases text.len(),
{
    if text.len() > 0 {
        assert(text.last() == text[text.len() - 1]);
        assert forall|i: int| 0 <= i < text.len() - 1 implies text.drop_last()[i] != ':' by {
            assert(text.drop_last()[i] == text[i]);
        }
        lemma_escaped_plain(text.drop_last());
        assert(text.drop_last().push(text.last()) =~= text);
    }
}

/// A mapping without an alias, whose source path holds no colon, is rendered
/// as that path.
pub proof fn lemma_rendered_plain(mapping: MappingView)
    requires
        mapping.alias is None,
        !mapping.source.path.contains(':'),
    ensures
        rendered(mapping) == mapping.source.path,
{
    lemma_escaped_plain(mapping.source.path);
}

fn escape(text: &str) -> (out: String)
    ensures
        out@ == escaped(text@),
{
    let chars = chars_of(text);
    let mut out = String::new();
    let mut from: usize = 0;
    let mut at: usize = 0;
    assert(text@.subrange(0, 0) =~= Seq::empty());
    assert(text@.take(0) =~= Seq::empty());
    while at < chars.len()
        invariant
            chars@ == text@,
            from <= at <= chars.len(),
            !text@.subrange(from as int, at as int).contains(':'),
            out@ + text@.subrange(from as int, at as int) == escaped(text@.take(at as int)),
        decreases chars.len() - at,
    {
        let ghost piece = text@.subrange(from as int, at as int);
        let ghost prefix = text@.take(at as int + 1);
        assert(prefix.drop_last() =~= text@.take(at as int));
        if chars[at] == ':' {
            let ghost before = out@;
            out.append(text.substring_char(from, at));
            proof {
                reveal_strlit("\\:");
            }
            out.append("\\:");
            from = at + 1;
            proof {
                assert(out@ =~= (before + piece).push('\\').push(':'));
                assert(text@.subrange(from as int, at as int + 1) =~= Seq::empty());
                assert(out@ + text@.subrange(from as int, at as int + 1) =~= out@);
            }
        } else {
            proof {
                let longer = text@.subrange(from as int, at as int + 1);
                assert(longer =~= piece.push(text@[at as int]));
                assert(out@ + longer =~= (out@ + piece).push(text@[at as int]));
                assert forall|i: int| 0 <= i < longer.len() implies longer[i] != ':' by {
                    if i < piece.len() {
                        assert(piece[i] == longer[i]);
                    }
                }
            }
        }
        at += 1;
    }
    assert(text@.take(at as int) =~= text@);
    out.append(text.substring_char(from, at));
    out
}

impl Reference {
    /// A reference to `path`, inside `environment` where one is named.
    pub fn new(environment: Option<EnvironmentId>, path: &str) -> (reference: Self)
        ensures
            reference@ == (ReferenceView { environment, path: path@ }),
    {
        Self { environment, path: path.to_owned() }
    }

    /// The path of the file system that the reference names. Fails with
    /// `Unsupported` where the reference names a path inside an environment.
    pub fn real_path(&self) -> (result: Result<String, EnvError>)
        ensures
            match result {
                Ok(path) => self@.environment is None && path@ == self@.path,
                Err(error) => self@.environment is Some && error == EnvError::Unsupported,
            },
    {
        match self.environment {
            Some(_) => Err(EnvError::Unsupported),
            None => Ok(self.path.clone()),
        }
    }
}

fn owned(text: Option<&str>) -> (out: Option<String>)
    ensures
        match text {
            Some(text) => out matches Some(held) && held@ == text@,
            None => out is None,
        },
{
    match text {
        Some(text) => Some(text.to_owned()),
        None => None,
    }
}

impl Mapping {
    /// The mount specification of the mapping. Fails with `Unsupported` where
    /// the source lies inside an environment.
    pub fn to_string(&self) -> (result: Result<String, EnvError>)
        ensures
            match result {
                Ok(text) => is_local(self@) && text@ == rendered(self@),
                Err(error) => !is_local(self@) && error == EnvError::Unsupported,
            },
    {
        let path = match self.source.real_path() {
            Ok(path) => path,
            Err(error) => {
                return Err(error);
            },
        };
        let mut text = escape(path.as_str());
        match &self.alias {
            Some(alias) => {
                proof {
                    reveal_strlit(":");
                }
                let ghost before = text@;
                text.append(":");
                text.append(alias.as_str());
                assert(text@ =~= before.push(':') + alias@);
            },
            None => {},
        }
        Ok(text)
    }

    /// A mapping of the path `from` of the file system.
    pub fn from_fs(from: &str, alias: Option<&str>, read_only: bool) -> (mapping: Self)
        ensures
            mapping@ == (MappingView {
                source: ReferenceView { environment: None, path: from@ },
                alias: match alias {
                    Some(alias) => Some(alias@),
                    None => None,
                },
                read_only,
            }),
    {
        Self { source: Reference::new(None, from), alias: owned(alias), read_only }
    }

    /// A mapping of the location `from`.
    pub fn from_reference(from: Reference, alias: Option<&str>, read_only: bool) -> (mapping: Self)
        ensures
            mapping@ == (MappingView {
                source: from@,
                alias: match alias {
                    Some(alias) => Some(alias@),
                    None => None,
                },
                read_only,
            }),
    {
        Self { source: from, alias: owned(alias), read_only }
    }

    /// The names that lead to the place of the mapping from the root of an
    /// environment.
    fn place(&self) -> (names: Vec<String>)
        ensures
            texts(names@) == place_names(self@),
    {
        let mut names: Vec<String> = Vec::new();
        assert(texts(names@) =~= Seq::empty());
        match &self.alias {
            Some(alias) => {
                push_segments(&mut names, alias.as_str());
                names
            },
            None => {
                push_segments(&mut names, self.source.path.as_str());
                let mut last: Vec<String> = Vec::new();
                match names.pop() {
                    Some(name) => {
                        last.push(name);
                        assert(texts(last@) =~= place_names(self@));
                    },
                    None => {
                        assert(texts(last@) =~= place_names(self@));
                    },
                }
                last
            },
        }
    }

    /// The command that mounts the mapping read-only for an environment that
    /// stands at `out_dir`: it mounts the source path at the place of the
    /// mapping below `out_dir`. Fails with `Unsupported` where the source lies
    /// inside an environment.
    pub fn as_bind(&self, out_dir: &str) -> (result: Result<CommandSpec, EnvError>)
        ensures
            match result {
                Ok(command) => is_local(self@) && command@ == bind_command(self@, out_dir@),
                Err(error) => !is_local(self@) && error == EnvError::Unsupported,
            },
    {
        let path = match self.source.real_path() {
            Ok(path) => path,
            Err(error) => {
                return Err(error);
            },
        };
        let names = self.place();
        let mount = if names.len() == 0 {
            out_dir.to_owned()
        } else {
            let below = join_segments(&names);
            append_path(out_dir, below.as_str())
        };
        let mut args: Vec<String> = Vec::new();
        args.push("--no-allow-other".to_owned());
        args.push("-r".to_owned());
        args.push(path);
        args.push(mount);
        let command = CommandSpec { program: "bindfs".to_owned(), args };
        assert(command@.args =~= bind_command(self@, out_dir@).args);
        Ok(command)
    }
}

} // verus!
