//! What holds of resolved labels: that resolving is a function, what the
//! written forms of a label resolve to, and what shape the package and the
//! target have.

use vstd::prelude::*;
use super::{
    is_package_char, is_package_text, is_repository_char, is_repository_text, is_resolution,
    is_target_text, lemma_first_colon, lemma_first_marker, lemma_no_colon, marker_at,
    package_names, parts, resolve, resolved_package, tail_parts, Label, LabelView, ParseError,
    ParseErrorKind, Parts, Root,
};
use crate::segments::{
    is_name, is_plain, join, lemma_plain_is_normal, lemma_settle_all_names,
    lemma_settled_is_plain, lemma_split_one, lemma_split_slash, settle, split,
};

verus! {

/// Resolving is a function of the text and the context: two results for the
/// same text, repository and package hold the same.
pub proof fn lemma_resolve_deterministic(
    first: Result<Label, ParseError>,
    second: Result<Label, ParseError>,
    text: Seq<char>,
    current_repository: Seq<char>,
    current_package: Seq<char>,
)
    requires
        is_resolution(first, text, current_repository, current_package),
        is_resolution(second, text, current_repository, current_package),
    ensures
        match first {
            Ok(label) => second matches Ok(other) && label@ == other@,
            Err(error) => {
                &&& second matches Err(other)
                &&& error.kind == other.kind
                &&& error.label@ == other.label@
            },
        },
{
}

/// The tail of a text that ends in a package path, a colon and a target name.
proof fn lemma_tail_both(text: Seq<char>, from: int, package: Seq<char>, target: Seq<char>)
    requires
        0 <= from,
        is_package_text(package),
        is_target_text(target),
        text.len() == from + package.len() + 1 + target.len(),
        text.subrange(from, from + package.len()) == package,
        text[from + package.len()] == ':',
        text.subrange(from + package.len() + 1, text.len() as int) == target,
    ensures
        tail_parts(text, from) == Some((Some(package), Some(target))),
{
    let colon = from + package.len();
    assert forall|j: int| from <= j < colon implies #[trigger] text[j] != ':' by {
        assert(text[j] == package[j - from]);
        assert(is_package_char(package[j - from]));
    }
    lemma_first_colon(text, from, colon);
}

/// The tail of a text that ends in a colon and a target name.
proof fn lemma_tail_target(text: Seq<char>, from: int, target: Seq<char>)
    requires
        0 <= from,
        is_target_text(target),
        text.len() == from + 1 + target.len(),
        text[from] == ':',
        text.subrange(from + 1, text.len() as int) == target,
    ensures
        tail_parts(text, from) == Some((None::<Seq<char>>, Some(target))),
{
    lemma_first_colon(text, from, from);
    assert(text.subrange(from, from).len() == 0);
}

/// The tail of a text that ends in a package path.
proof fn lemma_tail_package(text: Seq<char>, from: int, package: Seq<char>)
    requires
        0 <= from,
        is_package_text(package),
        text.len() == from + package.len(),
        text.subrange(from, text.len() as int) == package,
    ensures
        tail_parts(text, from) == Some((Some(package), None::<Seq<char>>)),
{
    assert forall|j: int| from <= j < text.len() implies #[trigger] text[j] != ':' by {
        assert(text[j] == package[j - from]);
        assert(is_package_char(package[j - from]));
    }
    lemma_no_colon(text, from);
}

/// A label that is a colon and a target name addresses that target in the
/// current package of the current repository.
pub proof fn lemma_target_alone(
    target: Seq<char>,
    current_repository: Seq<char>,
    current_package: Seq<char>,
)
    requires
        is_target_text(target),
    ensures
        resolve(seq![':'] + target, current_repository, current_package) == Ok::<
            LabelView,
            ParseErrorKind,
        >(LabelView { repository: current_repository, package: current_package, target }),
{
    let text = seq![':'] + target;
    assert(text.subrange(1, text.len() as int) =~= target);
    lemma_tail_target(text, 0, target);
}

/// A label that is `//`, a package path, a colon and a target name addresses
/// that target in the package of that path, normalized, in the current
/// repository.
pub proof fn lemma_rooted(
    package: Seq<char>,
    target: Seq<char>,
    current_repository: Seq<char>,
    current_package: Seq<char>,
)
    requires
        is_package_text(package),
        is_target_text(target),
    ensures
        resolve(
            seq!['/', '/'] + package + seq![':'] + target,
            current_repository,
            current_package,
        ) == Ok::<LabelView, ParseErrorKind>(
            LabelView {
                repository: current_repository,
                package: join(settle(Seq::empty(), split(package))),
                target,
            },
        ),
{
    let text = seq!['/', '/'] + package + seq![':'] + target;
    let size = package.len() as int;
    assert(text.subrange(2, 2 + size) =~= package);
    assert(text.subrange(2 + size + 1, text.len() as int) =~= target);
    assert(text[0] == '/' && text[1] == '/');
    lemma_tail_both(text, 2, package, target);
}

/// A label that is `@`, a repository name without a slash, `//`, a package
/// path, a colon and a target name addresses that target in the package of
/// that path, normalized, in that repository.
pub proof fn lemma_qualified(
    repository: Seq<char>,
    package: Seq<char>,
    target: Seq<char>,
    current_repository: Seq<char>,
    current_package: Seq<char>,
)
    requires
        is_repository_text(repository),
        !repository.contains('/'),
        is_package_text(package),
        is_target_text(target),
    ensures
        resolve(
            seq!['@'] + repository + seq!['/', '/'] + package + seq![':'] + target,
            current_repository,
            current_package,
        ) == Ok::<LabelView, ParseErrorKind>(
            LabelView {
                repository,
                package: join(settle(Seq::empty(), split(package))),
                target,
            },
        ),
{
    let text = seq!['@'] + repository + seq!['/', '/'] + package + seq![':'] + target;
    let at = 1 + repository.len() as int;
    let size = package.len() as int;
    assert(text.subrange(1, at) =~= repository);
    assert(text.subrange(at + 2, at + 2 + size) =~= package);
    assert(text.subrange(at + 2 + size + 1, text.len() as int) =~= target);
    assert(text[0] == '@');
    assert(text[at] == '/' && text[at + 1] == '/');
    assert forall|j: int| 1 <= j < at implies (#[trigger] marker_at(text, j)) is None by {
        assert(text[j] == repository[j - 1]);
        assert(is_repository_char(repository[j - 1]));
        assert(repository[j - 1] != '/');
    }
    lemma_first_marker(text, at);
    lemma_tail_both(text, at + 2, package, target);
}

/// A label that is a package path without a root marker, a colon and a target
/// name addresses that target in the current package with the path appended,
/// normalized, in the current repository.
pub proof fn lemma_relative(
    package: Seq<char>,
    target: Seq<char>,
    current_repository: Seq<char>,
    current_package: Seq<char>,
)
    requires
        is_package_text(package),
        is_target_text(target),
        package[0] != '@',
        marker_at(package, 0) is None,
    ensures
        resolve(package + seq![':'] + target, current_repository, current_package) == Ok::<
            LabelView,
            ParseErrorKind,
        >(
            LabelView {
                repository: current_repository,
                package: join(
                    settle(settle(Seq::empty(), split(current_package)), split(package)),
                ),
                target,
            },
        ),
{
    let text = package + seq![':'] + target;
    assert(text.subrange(0, package.len() as int) =~= package);
    assert(text.subrange(package.len() as int + 1, text.len() as int) =~= target);
    assert(text[0] == package[0]);
    if package.len() >= 2 {
        assert(text[1] == package[1]);
    } else {
        assert(text[1] == ':');
    }
    assert(marker_at(text, 0) is None);
    lemma_tail_both(text, 0, package, target);
}

/// A label that is `//` and a package path addresses, in the current
/// repository, the target named like the last segment of the normalized
/// path. Where no segment is left, the target is missing.
pub proof fn lemma_rooted_package(
    package: Seq<char>,
    current_repository: Seq<char>,
    current_package: Seq<char>,
)
    requires
        is_package_text(package),
    ensures
        resolve(seq!['/', '/'] + package, current_repository, current_package) == {
            let names = settle(Seq::empty(), split(package));
            if names.len() > 0 {
                Ok::<LabelView, ParseErrorKind>(
                    LabelView {
                        repository: current_repository,
                        package: join(names),
                        target: names.last(),
                    },
                )
            } else {
                Err::<LabelView, ParseErrorKind>(ParseErrorKind::MissingTarget)
            }
        },
{
    let text = seq!['/', '/'] + package;
    assert(text.subrange(2, text.len() as int) =~= package);
    assert(text[0] == '/' && text[1] == '/');
    lemma_tail_package(text, 2, package);
}

/// The named segments of the package that a label addresses: each is a name
/// without a slash, and, where there is one, they are the pieces of the
/// segments joined.
pub proof fn lemma_package_names(found: Parts, current_package: Seq<char>)
    ensures
        ({
            let names = package_names(found, current_package);
            &&& forall|i: int|
                0 <= i < names.len() ==> is_name(#[trigger] names[i]) && !names[i].contains('/')
            &&& names.len() > 0 ==> split(join(names)) == names && is_plain(join(names))
            &&& names.len() == 0 ==> join(names).len() == 0
        }),
{
    lemma_settled_is_plain(Seq::empty(), current_package);
    match found.package {
        None => {},
        Some(path) => {
            if found.root is Some {
                lemma_settled_is_plain(Seq::empty(), path);
            } else {
                lemma_settled_is_plain(settle(Seq::empty(), split(current_package)), path);
            }
        },
    }
}

/// A package that is written in a label, and not behind `!/`, is resolved to
/// a plain path: names joined by single slashes, with no slash before or
/// behind them. It is empty where it is the root of the repository.
pub proof fn lemma_package_is_plain(text: Seq<char>, current_package: Seq<char>)
    requires
        parts(text) is Some,
        parts(text)->0.package is Some,
        parts(text)->0.root != Some(Root::Exact),
    ensures
        ({
            let package = resolved_package(parts(text)->0, current_package);
            package.len() == 0 || is_plain(package)
        }),
{
    lemma_package_names(parts(text)->0, current_package);
}

/// A package that is written behind a root marker is resolved to the same
/// package whatever the current package is.
pub proof fn lemma_rooted_package_is_fixed(
    text: Seq<char>,
    current_package: Seq<char>,
    other_package: Seq<char>,
)
    requires
        parts(text) is Some,
        parts(text)->0.root is Some,
        parts(text)->0.package is Some,
    ensures
        resolved_package(parts(text)->0, current_package) == resolved_package(
            parts(text)->0,
            other_package,
        ),
{
}

/// A target that is not written in a label is the name of a directory: the
/// last named segment of the package, which is the last piece of the package
/// where that was not written behind `!/`.
pub proof fn lemma_target_from_package(
    text: Seq<char>,
    current_repository: Seq<char>,
    current_package: Seq<char>,
)
    requires
        parts(text) is Some,
        parts(text)->0.target is None,
        resolve(text, current_repository, current_package) is Ok,
    ensures
        ({
            let label = resolve(text, current_repository, current_package)->Ok_0;
            &&& is_name(label.target)
            &&& !label.target.contains('/')
            &&& parts(text)->0.root != Some(Root::Exact) ==> label.target == split(
                label.package,
            ).last()
        }),
{
    let found = parts(text)->0;
    lemma_package_names(found, current_package);
    let names = package_names(found, current_package);
    assert(is_name(names[names.len() - 1]));
    lemma_parts_hold_something(text);
}

/// A label holds a package or a target.
pub proof fn lemma_parts_hold_something(text: Seq<char>)
    requires
        parts(text) is Some,
    ensures
        parts(text)->0.package is Some || parts(text)->0.target is Some,
{
}

/// `:t` addresses the target `t` in the current package of the current
/// repository, whatever these are.
pub proof fn lemma_colon_t(current_repository: Seq<char>, current_package: Seq<char>)
    ensures
        resolve(":t"@, current_repository, current_package) == Ok::<LabelView, ParseErrorKind>(
            LabelView { repository: current_repository, package: current_package, target: "t"@ },
        ),
{
    reveal_strlit(":t");
    reveal_strlit("t");
    assert(":t"@ =~= seq![':'] + "t"@);
    lemma_target_alone("t"@, current_repository, current_package);
}

/// `//pkg:t` addresses the target `t` in the package `pkg` of the current
/// repository.
pub proof fn lemma_slashes_pkg_t(current_repository: Seq<char>, current_package: Seq<char>)
    ensures
        resolve("//pkg:t"@, current_repository, current_package) == Ok::<
            LabelView,
            ParseErrorKind,
        >(LabelView { repository: current_repository, package: "pkg"@, target: "t"@ }),
{
    reveal_strlit("//pkg:t");
    reveal_strlit("pkg");
    reveal_strlit("t");
    assert("//pkg:t"@ =~= seq!['/', '/'] + "pkg"@ + seq![':'] + "t"@);
    lemma_rooted("pkg"@, "t"@, current_repository, current_package);
    lemma_one_name("pkg"@);
}

/// `@other//pkg:t` addresses the target `t` in the package `pkg` of the
/// repository `other`.
pub proof fn lemma_at_other_pkg_t(current_repository: Seq<char>, current_package: Seq<char>)
    ensures
        resolve("@other//pkg:t"@, current_repository, current_package) == Ok::<
            LabelView,
            ParseErrorKind,
        >(LabelView { repository: "other"@, package: "pkg"@, target: "t"@ }),
{
    reveal_strlit("@other//pkg:t");
    reveal_strlit("other");
    reveal_strlit("pkg");
    reveal_strlit("t");
    assert("@other//pkg:t"@ =~= seq!['@'] + "other"@ + seq!['/', '/'] + "pkg"@ + seq![':']
        + "t"@);
    lemma_qualified("other"@, "pkg"@, "t"@, current_repository, current_package);
    lemma_one_name("pkg"@);
}

/// Written in the package `cur`, `sub:t` addresses the target `t` in the
/// package `cur/sub` of the current repository.
pub proof fn lemma_sub_t_in_cur(current_repository: Seq<char>)
    ensures
        resolve("sub:t"@, current_repository, "cur"@) == Ok::<LabelView, ParseErrorKind>(
            LabelView { repository: current_repository, package: "cur/sub"@, target: "t"@ },
        ),
{
    reveal_strlit("sub:t");
    reveal_strlit("sub");
    reveal_strlit("cur");
    reveal_strlit("cur/sub");
    reveal_strlit("t");
    assert("sub:t"@ =~= "sub"@ + seq![':'] + "t"@);
    lemma_relative("sub"@, "t"@, current_repository, "cur"@);
    lemma_one_name("cur"@);
    lemma_one_name("sub"@);
    let names = seq!["cur"@, "sub"@];
    assert(settle(seq!["cur"@], seq!["sub"@]) =~= names) by {
        assert(seq!["sub"@].drop_last() =~= Seq::<Seq<char>>::empty());
        assert(settle(seq!["cur"@], Seq::empty()) == seq!["cur"@]);
    }
    assert(names.drop_last() =~= seq!["cur"@]);
    assert(join(names.drop_last()) == "cur"@);
    assert(join(names) =~= "cur/sub"@);
}

/// `//a/b` addresses the target `b`.
pub proof fn lemma_slashes_a_b(current_repository: Seq<char>, current_package: Seq<char>)
    ensures
        resolve("//a/b"@, current_repository, current_package) == Ok::<LabelView, ParseErrorKind>(
            LabelView { repository: current_repository, package: "a/b"@, target: "b"@ },
        ),
{
    reveal_strlit("//a/b");
    reveal_strlit("a/b");
    reveal_strlit("a");
    reveal_strlit("b");
    assert("//a/b"@ =~= seq!['/', '/'] + "a/b"@);
    lemma_rooted_package("a/b"@, current_repository, current_package);
    assert("a/b"@ =~= "a"@.push('/') + "b"@);
    lemma_split_slash("a"@, "b"@);
    lemma_split_one("a"@);
    lemma_split_one("b"@);
    let names = seq!["a"@, "b"@];
    assert(split("a/b"@) =~= names);
    assert(is_name("a"@) && is_name("b"@));
    lemma_settle_all_names(Seq::empty(), names);
    assert(Seq::<Seq<char>>::empty() + names =~= names);
    assert(is_plain("a/b"@));
    lemma_plain_is_normal("a/b"@);
}

/// A text that is a single name settles to itself.
proof fn lemma_one_name(name: Seq<char>)
    requires
        is_name(name),
        !name.contains('/'),
    ensures
        split(name) == seq![name],
        settle(Seq::empty(), split(name)) == seq![name],
        join(settle(Seq::empty(), split(name))) == name,
{
    lemma_split_one(name);
    assert(seq![name].drop_last() =~= Seq::<Seq<char>>::empty());
    assert(settle(Seq::empty(), seq![name].drop_last()) =~= Seq::<Seq<char>>::empty());
    assert(settle(Seq::empty(), seq![name]) =~= seq![name]);
}

} // verus!
