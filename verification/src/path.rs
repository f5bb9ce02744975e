//! Labels in the written form that tells `!` from `/` in the result.
//!
//! Here a label always names its target, behind the one colon of the text. It
//! is written `[@repository](//|!/)path:target`, with the package rooted in the
//! repository, or `[!][path]:target`, with the package relative to the current
//! one. The flag `exact` tells that `!` was written. The package is the normal
//! form of the path, as `normalize_path` gives it.

use vstd::prelude::*;
use crate::label::{
    cut, find_colon, find_marker, first_colon, first_marker, marker, marker_at, ParseError,
    ParseErrorKind, Root, Span,
};
use crate::segments::{
    normal_form, normal_path, strip_leading_slashes, without_leading_slashes,
};

verus! {

/// The address of one build target, and whether it was written with `!`.
#[derive(Debug, PartialEq, Eq)]
pub struct Label {
    pub repository: String,
    pub package: String,
    pub target: String,
    pub exact: bool,
}

/// What a [`Label`] holds.
pub struct LabelView {
    pub repository: Seq<char>,
    pub package: Seq<char>,
    pub target: Seq<char>,
    pub exact: bool,
}

impl View for Label {
    type V = LabelView;

    open spec fn view(&self) -> LabelView {
        LabelView {
            repository: self.repository@,
            package: self.package@,
            target: self.target@,
            exact: self.exact,
        }
    }
}

/// What the text of a label says, read in its context: the repository, the
/// path of the package before it is brought to its normal form, the target,
/// and whether `!` was written.
#[derive(Debug, PartialEq, Eq)]
pub struct Written {
    pub repository: String,
    pub path: String,
    pub target: String,
    pub exact: bool,
}

/// What a [`Written`] holds.
pub struct WrittenView {
    pub repository: Seq<char>,
    pub path: Seq<char>,
    pub target: Seq<char>,
    pub exact: bool,
}

impl View for Written {
    type V = WrittenView;

    open spec fn view(&self) -> WrittenView {
        WrittenView {
            repository: self.repository@,
            path: self.path@,
            target: self.target@,
            exact: self.exact,
        }
    }
}

/// A character of a repository name: a letter, `_` or `-`.
pub open spec fn is_repository_char(c: char) -> bool {
    ('a' <= c && c <= 'z') || ('A' <= c && c <= 'Z') || c == '_' || c == '-'
}

/// A repository name: one character of a repository name or more.
pub open spec fn is_repository_text(text: Seq<char>) -> bool {
    text.len() > 0 && forall|i: int| 0 <= i < text.len() ==> is_repository_char(#[trigger] text[i])
}

/// A target name: not empty, without `:` and `/`.
pub open spec fn is_target_text(text: Seq<char>) -> bool {
    text.len() > 0 && forall|i: int|
        0 <= i < text.len() ==> #[trigger] text[i] != ':' && text[i] != '/'
}

/// What the text says in its rooted form, if it is written in that form:
/// behind the root marker at least one more character of the path, which is
/// taken from the marker's slash on, then the colon and the target.
pub open spec fn rooted(text: Seq<char>, current_repository: Seq<char>) -> Option<WrittenView> {
    let named = text.len() > 0 && text[0] == '@';
    let at = if named {
        first_marker(text)
    } else if marker_at(text, 0) is Some {
        Some(0int)
    } else {
        None
    };
    match at {
        None => None,
        Some(at) => match first_colon(text, at + 2) {
            None => None,
            Some(colon) => {
                let repository = text.subrange(1, at);
                let target = text.subrange(colon + 1, text.len() as int);
                if colon > at + 2 && is_target_text(target) && (!named || is_repository_text(
                    repository,
                )) {
                    Some(
                        WrittenView {
                            repository: if named {
                                repository
                            } else {
                                current_repository
                            },
                            path: text.subrange(at + 1, colon),
                            target,
                            exact: marker_at(text, at) == Some(Root::Exact),
                        },
                    )
                } else {
                    None
                }
            },
        },
    }
}

/// What the text says in its relative form, if it is written in that form:
/// `!` or not, a path or none, the colon and the target. The path is taken
/// behind the current package and a slash, and, being relative, without the
/// slashes that the whole then may start with.
pub open spec fn relative(
    text: Seq<char>,
    current_repository: Seq<char>,
    current_package: Seq<char>,
) -> Option<WrittenView> {
    let exact = text.len() > 0 && text[0] == '!';
    let from = if exact {
        1int
    } else {
        0int
    };
    match first_colon(text, from) {
        None => None,
        Some(colon) => {
            let target = text.subrange(colon + 1, text.len() as int);
            if is_target_text(target) {
                Some(
                    WrittenView {
                        repository: current_repository,
                        path: without_leading_slashes(
                            current_package.push('/') + text.subrange(from, colon),
                        ),
                        target,
                        exact,
                    },
                )
            } else {
                None
            }
        },
    }
}

/// What `text` says when it is written in `current_package` of
/// `current_repository`: what its rooted form says, or else what its relative
/// form says. None where it is written in neither.
pub open spec fn written(
    text: Seq<char>,
    current_repository: Seq<char>,
    current_package: Seq<char>,
) -> Option<WrittenView> {
    match rooted(text, current_repository) {
        Some(found) => Some(found),
        None => relative(text, current_repository, current_package),
    }
}

/// The label of what was written, with `package` as its package.
pub open spec fn settled(found: WrittenView, package: Seq<char>) -> LabelView {
    LabelView { repository: found.repository, package, target: found.target, exact: found.exact }
}

/// What `text` resolves to when it is written in `current_package` of
/// `current_repository`: what it says, with the normal form of the path as
/// the package. None where the text is no label.
pub open spec fn resolve(
    text: Seq<char>,
    current_repository: Seq<char>,
    current_package: Seq<char>,
) -> Option<LabelView> {
    match written(text, current_repository, current_package) {
        Some(found) => Some(settled(found, normal_form(found.path))),
        None => None,
    }
}

fn repository_char(c: char) -> (yes: bool)
    ensures
        yes == is_repository_char(c),
{
    ('a' <= c && c <= 'z') || ('A' <= c && c <= 'Z') || c == '_' || c == '-'
}

fn repository_text(chars: &Vec<char>, span: Span) -> (yes: bool)
    requires
        span.fits(chars@.len()),
    ensures
        yes == is_repository_text(span.of(chars@)),
{
    let ghost text = span.of(chars@);
    let mut at: usize = span.from;
    while at < span.to
        invariant
            span.fits(chars@.len()),
            span.from <= at <= span.to,
            text == span.of(chars@),
            forall|i: int| 0 <= i < at - span.from ==> is_repository_char(#[trigger] text[i]),
        decreases span.to - at,
    {
        if !repository_char(chars[at]) {
            assert(!is_repository_char(text[at - span.from]));
            return false;
        }
        at += 1;
    }
    span.from < span.to
}

fn target_text(chars: &Vec<char>, span: Span) -> (yes: bool)
    requires
        span.fits(chars@.len()),
    ensures
        yes == is_target_text(span.of(chars@)),
{
    let ghost text = span.of(chars@);
    let mut at: usize = span.from;
    while at < span.to
        invariant
            span.fits(chars@.len()),
            span.from <= at <= span.to,
            text == span.of(chars@),
            forall|i: int|
                0 <= i < at - span.from ==> #[trigger] text[i] != ':' && text[i] != '/',
        decreases span.to - at,
    {
        if chars[at] == ':' || chars[at] == '/' {
            assert(text[at - span.from] == chars@[at as int]);
            return false;
        }
        at += 1;
    }
    span.from < span.to
}

fn read_rooted(label: &str, chars: &Vec<char>, current_repository: &str) -> (found: Option<
    Written,
>)
    requires
        chars@ == label@,
    ensures
        match rooted(label@, current_repository@) {
            Some(view) => found matches Some(held) && held@ == view,
            None => found is None,
        },
{
    let named = chars.len() > 0 && chars[0] == '@';
    let at: usize = if named {
        match find_marker(chars) {
            Some(at) => at,
            None => {
                return None;
            },
        }
    } else if marker(chars, 0).is_some() {
        0
    } else {
        return None;
    };
    let colon = match find_colon(chars, at + 2) {
        Some(colon) => colon,
        None => {
            return None;
        },
    };
    let target = Span { from: colon + 1, to: chars.len() };
    if colon == at + 2 || !target_text(chars, target) {
        return None;
    }
    let repository = if named {
        let span = Span { from: 1, to: at };
        if !repository_text(chars, span) {
            return None;
        }
        cut(label, span)
    } else {
        current_repository.to_owned()
    };
    let exact = match marker(chars, at) {
        Some(Root::Exact) => true,
        _ => false,
    };
    Some(
        Written {
            repository,
            path: cut(label, Span { from: at + 1, to: colon }),
            target: cut(label, target),
            exact,
        },
    )
}

fn read_relative(
    label: &str,
    chars: &Vec<char>,
    current_repository: &str,
    current_package: &str,
) -> (found: Option<Written>)
    requires
        chars@ == label@,
    ensures
        match relative(label@, current_repository@, current_package@) {
            Some(view) => found matches Some(held) && held@ == view,
            None => found is None,
        },
{
    let exact = chars.len() > 0 && chars[0] == '!';
    let from: usize = if exact {
        1
    } else {
        0
    };
    let colon = match find_colon(chars, from) {
        Some(colon) => colon,
        None => {
            return None;
        },
    };
    let target = Span { from: colon + 1, to: chars.len() };
    if !target_text(chars, target) {
        return None;
    }
    let path = cut(label, Span { from, to: colon });
    proof {
        reveal_strlit("/");
    }
    let mut whole = current_package.to_owned();
    whole.append("/");
    whole.append(path.as_str());
    assert(whole@ =~= current_package@.push('/') + path@);
    Some(
        Written {
            repository: current_repository.to_owned(),
            path: strip_leading_slashes(whole.as_str()),
            target: cut(label, target),
            exact,
        },
    )
}

impl Label {
    /// Resolves the text of a label that is written in `current_package` of
    /// `current_repository`. The text must be a label: see [`Label::parse`]
    /// for text that may not be one.
    pub fn new(label: &str, current_repository: &str, current_package: &str) -> (resolved: Self)
        requires
            written(label@, current_repository@, current_package@) is Some,
        ensures
            Some(resolved@) == resolve(label@, current_repository@, current_package@),
    {
        Self::parse(label, current_repository, current_package).unwrap()
    }

    /// Reads what the text of a label says when it is written in
    /// `current_package` of `current_repository`.
    ///
    /// In the rooted form the repository is the one behind `@`, or else the
    /// current one, and the path is the one written, from the slash of the
    /// root marker on. In the relative form the repository is the current one,
    /// and the path is the one written, behind the current package. `exact`
    /// tells whether `!` was written.
    ///
    /// Fails with `InvalidLabel` where the text is written in neither form.
    pub fn read(label: &str, current_repository: &str, current_package: &str) -> (result: Result<
        Written,
        ParseError,
    >)
        ensures
            match written(label@, current_repository@, current_package@) {
                Some(view) => result matches Ok(found) && found@ == view,
                None => {
                    &&& result matches Err(error)
                    &&& error.kind == ParseErrorKind::InvalidLabel
                    &&& error.label@ == label@
                },
            },
    {
        let chars = crate::text::chars_of(label);
        if let Some(found) = read_rooted(label, &chars, current_repository) {
            return Ok(found);
        }
        match read_relative(label, &chars, current_repository, current_package) {
            Some(found) => Ok(found),
            None => Err(ParseError { kind: ParseErrorKind::InvalidLabel, label: label.to_owned() }),
        }
    }

    /// The label of what was written, with `package` as its package.
    pub fn with_package(found: Written, package: String) -> (resolved: Self)
        ensures
            resolved@ == settled(found@, package@),
    {
        Label { repository: found.repository, package, target: found.target, exact: found.exact }
    }

    /// Resolves the text of a label that is written in `current_package` of
    /// `current_repository`: reads what it says, and takes the normal form of
    /// the path as the package.
    ///
    /// Fails with `InvalidLabel` where the text is written in neither form.
    pub fn parse(label: &str, current_repository: &str, current_package: &str) -> (result: Result<
        Self,
        ParseError,
    >)
        ensures
            match resolve(label@, current_repository@, current_package@) {
                Some(view) => result matches Ok(resolved) && resolved@ == view,
                None => {
                    &&& result matches Err(error)
                    &&& error.kind == ParseErrorKind::InvalidLabel
                    &&& error.label@ == label@
                },
            },
    {
        match Self::read(label, current_repository, current_package) {
            Ok(found) => {
                let package = normal_path(found.path.as_str());
                Ok(Self::with_package(found, package))
            },
            Err(error) => Err(error),
        }
    }
}

} // verus!
