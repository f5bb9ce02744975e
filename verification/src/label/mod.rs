//! Labels: the addresses of build targets, and how their text is resolved
//! against the repository and package in which it is written.
//!
//! A label is written `[@repository](//|!/)[package][:target]`, or in short
//! form `[package][:target]`, which is read relative to the current package.
//! At least one of the package and the target is present. Text that starts
//! with `@` always names a repository, and a repository name is always
//! followed by a root marker.

pub mod laws;

use vstd::prelude::*;
use crate::segments::{join, join_segments, push_segments, settle, split};
use crate::text::{chars_of, texts};

verus! {

/// The address of one build target.
#[derive(Debug, PartialEq, Eq)]
pub struct Label {
    pub repository: String,
    pub package: String,
    pub target: String,
}

/// What a [`Label`] holds, as sequences of characters.
pub struct LabelView {
    pub repository: Seq<char>,
    pub package: Seq<char>,
    pub target: Seq<char>,
}

impl View for Label {
    type V = LabelView;

    open spec fn view(&self) -> LabelView {
        LabelView { repository: self.repository@, package: self.package@, target: self.target@ }
    }
}

/// Why a label could not be resolved.
#[derive(Clone, Copy, Debug, PartialEq, Eq, Structural)]
pub enum ParseErrorKind {
    /// The text is not a label.
    InvalidLabel,
    /// The label names no target, and its package is the repository root, which
    /// has no last segment to take one from.
    MissingTarget,
}

/// A label that could not be resolved, with the reason.
#[derive(Debug, PartialEq, Eq)]
pub struct ParseError {
    pub kind: ParseErrorKind,
    /// The text that was to be resolved.
    pub label: String,
}

/// The marker that starts a package path at the root of the repository.
#[derive(Clone, Copy, Debug, PartialEq, Eq, Structural)]
pub enum Root {
    /// `//`: the package path is normalized.
    Normalizing,
    /// `!/`: the package path is taken as it is written.
    Exact,
}

/// The parts that a label's text is made of.
pub struct Parts {
    pub repository: Option<Seq<char>>,
    pub root: Option<Root>,
    pub package: Option<Seq<char>>,
    pub target: Option<Seq<char>>,
}

/// An ASCII letter or digit.
pub open spec fn is_letter_or_digit(c: char) -> bool {
    ('a' <= c && c <= 'z') || ('A' <= c && c <= 'Z') || ('0' <= c && c <= '9')
}

/// A character of a repository name: a letter, a digit, or one of `-` `/` `.` `_`.
pub open spec fn is_repository_char(c: char) -> bool {
    is_letter_or_digit(c) || c == '-' || c == '/' || c == '.' || c == '_'
}

/// A character of a package path: any but a line feed, `$` and `:`.
pub open spec fn is_package_char(c: char) -> bool {
    c != '\n' && c != '$' && c != ':'
}

/// A character of a target name: a space or a printable ASCII character other
/// than `:`, `\` and `` ` ``.
pub open spec fn is_target_char(c: char) -> bool {
    ' ' <= c && c <= '~' && c != ':' && c != '\\' && c != '`'
}

/// A repository name: one character of a repository name or more.
pub open spec fn is_repository_text(text: Seq<char>) -> bool {
    text.len() > 0 && forall|i: int| 0 <= i < text.len() ==> is_repository_char(#[trigger] text[i])
}

/// A package path: one character of a package path or more.
pub open spec fn is_package_text(text: Seq<char>) -> bool {
    text.len() > 0 && forall|i: int| 0 <= i < text.len() ==> is_package_char(#[trigger] text[i])
}

/// A target name: one character of a target name or more.
pub open spec fn is_target_text(text: Seq<char>) -> bool {
    text.len() > 0 && forall|i: int| 0 <= i < text.len() ==> is_target_char(#[trigger] text[i])
}

/// The root marker that stands at `at`, if one does.
pub open spec fn marker_at(text: Seq<char>, at: int) -> Option<Root> {
    if 0 <= at && at + 1 < text.len() && text[at + 1] == '/' {
        if text[at] == '/' {
            Some(Root::Normalizing)
        } else if text[at] == '!' {
            Some(Root::Exact)
        } else {
            None
        }
    } else {
        None
    }
}

/// `at` is the first place behind the leading `@` where a root marker stands.
pub open spec fn is_first_marker(text: Seq<char>, at: int) -> bool {
    &&& 1 <= at
    &&& marker_at(text, at) is Some
    &&& forall|j: int| 1 <= j < at ==> (#[trigger] marker_at(text, j)) is None
}

/// The first place behind the leading `@` where a root marker stands.
pub open spec fn first_marker(text: Seq<char>) -> Option<int> {
    if exists|at: int| is_first_marker(text, at) {
        Some(choose|at: int| is_first_marker(text, at))
    } else {
        None
    }
}

/// `at` is the first place at or behind `from` where a colon stands.
pub open spec fn is_first_colon(text: Seq<char>, from: int, at: int) -> bool {
    &&& from <= at < text.len()
    &&& text[at] == ':'
    &&& forall|j: int| from <= j < at ==> #[trigger] text[j] != ':'
}

/// The first place at or behind `from` where a colon stands.
pub open spec fn first_colon(text: Seq<char>, from: int) -> Option<int> {
    if exists|at: int| is_first_colon(text, from, at) {
        Some(choose|at: int| is_first_colon(text, from, at))
    } else {
        None
    }
}

/// The package and the target that the text holds from `from` on: a package
/// path up to the first colon, and a target name behind it. None where the
/// rest is empty or a part holds a character that it may not.
pub open spec fn tail_parts(text: Seq<char>, from: int) -> Option<
    (Option<Seq<char>>, Option<Seq<char>>),
> {
    match first_colon(text, from) {
        None => {
            let package = text.subrange(from, text.len() as int);
            if is_package_text(package) {
                Some((Some(package), None))
            } else {
                None
            }
        },
        Some(colon) => {
            let package = text.subrange(from, colon);
            let target = text.subrange(colon + 1, text.len() as int);
            if !is_target_text(target) {
                None
            } else if package.len() == 0 {
                Some((None, Some(target)))
            } else if is_package_text(package) {
                Some((Some(package), Some(target)))
            } else {
                None
            }
        },
    }
}

/// The parts of a label's text, or None where the text is no label.
///
/// Text that starts with `@` names a repository: the name runs up to the first
/// root marker, which must be there. Other text starts with a root marker or
/// with the package itself.
pub open spec fn parts(text: Seq<char>) -> Option<Parts> {
    if text.len() > 0 && text[0] == '@' {
        match first_marker(text) {
            None => None,
            Some(at) => {
                let repository = text.subrange(1, at);
                match tail_parts(text, at + 2) {
                    Some((package, target)) if is_repository_text(repository) => Some(
                        Parts {
                            repository: Some(repository),
                            root: marker_at(text, at),
                            package,
                            target,
                        },
                    ),
                    _ => None,
                }
            },
        }
    } else {
        let root = marker_at(text, 0);
        match tail_parts(
            text,
            if root is Some {
                2
            } else {
                0
            },
        ) {
            Some((package, target)) => Some(Parts { repository: None, root, package, target }),
            None => None,
        }
    }
}

/// The named segments of the package that the parts address, for a label
/// written in `current_package`: those of the path behind `//` or `!/`, or those of
/// a path without a root marker appended to the current package's.
pub open spec fn package_names(parts: Parts, current_package: Seq<char>) -> Seq<Seq<char>> {
    match parts.package {
        None => settle(Seq::empty(), split(current_package)),
        Some(path) => {
            if parts.root is Some {
                settle(Seq::empty(), split(path))
            } else {
                settle(settle(Seq::empty(), split(current_package)), split(path))
            }
        },
    }
}

/// The package that the parts address: the current package where none is
/// written, the path as written behind `!/`, and else the named segments joined
/// by slashes.
pub open spec fn resolved_package(parts: Parts, current_package: Seq<char>) -> Seq<char> {
    match parts.package {
        None => current_package,
        Some(path) => {
            if parts.root == Some(Root::Exact) {
                path
            } else {
                join(package_names(parts, current_package))
            }
        },
    }
}

/// The target that the parts address: the one written, or else the last named
/// segment of the package. None where neither is there.
pub open spec fn resolved_target(parts: Parts, current_package: Seq<char>) -> Option<Seq<char>> {
    match parts.target {
        Some(target) => Some(target),
        None => {
            let names = package_names(parts, current_package);
            if names.len() > 0 {
                Some(names.last())
            } else {
                None
            }
        },
    }
}

/// What `text` resolves to when it is written in `current_package` of
/// `current_repository`.
pub open spec fn resolve(
    text: Seq<char>,
    current_repository: Seq<char>,
    current_package: Seq<char>,
) -> Result<LabelView, ParseErrorKind> {
    match parts(text) {
        None => Err(ParseErrorKind::InvalidLabel),
        Some(parts) => match resolved_target(parts, current_package) {
            None => Err(ParseErrorKind::MissingTarget),
            Some(target) => Ok(
                LabelView {
                    repository: match parts.repository {
                        Some(repository) => repository,
                        None => current_repository,
                    },
                    package: resolved_package(parts, current_package),
                    target,
                },
            ),
        },
    }
}

/// Whether `result` is what resolving `text` must give.
pub open spec fn is_resolution(
    result: Result<Label, ParseError>,
    text: Seq<char>,
    current_repository: Seq<char>,
    current_package: Seq<char>,
) -> bool {
    match resolve(text, current_repository, current_package) {
        Ok(label) => result is Ok && result->Ok_0@ == label,
        Err(kind) => result is Err && result->Err_0.kind == kind && result->Err_0.label@ == text,
    }
}

/// A first colon is the first colon.
pub proof fn lemma_first_colon(text: Seq<char>, from: int, at: int)
    requires
        is_first_colon(text, from, at),
    ensures
        first_colon(text, from) == Some(at),
{
    let chosen = choose|at: int| is_first_colon(text, from, at);
    assert(is_first_colon(text, from, chosen));
    if chosen < at {
        assert(text[chosen] != ':');
    }
    if at < chosen {
        assert(text[at] != ':');
    }
}

/// Where no colon stands, there is no first colon.
pub proof fn lemma_no_colon(text: Seq<char>, from: int)
    requires
        forall|j: int| from <= j < text.len() ==> #[trigger] text[j] != ':',
    ensures
        first_colon(text, from) is None,
{
    if exists|at: int| is_first_colon(text, from, at) {
        let at = choose|at: int| is_first_colon(text, from, at);
        assert(text[at] != ':');
    }
}

/// A first root marker is the first root marker.
pub proof fn lemma_first_marker(text: Seq<char>, at: int)
    requires
        is_first_marker(text, at),
    ensures
        first_marker(text) == Some(at),
{
    let chosen = choose|at: int| is_first_marker(text, at);
    assert(is_first_marker(text, chosen));
    if chosen < at {
        assert(marker_at(text, chosen) is None);
    }
    if at < chosen {
        assert(marker_at(text, at) is None);
    }
}

/// Where no root marker stands behind the first character, there is no first
/// root marker.
pub proof fn lemma_no_marker(text: Seq<char>)
    requires
        forall|j: int| 1 <= j < text.len() ==> (#[trigger] marker_at(text, j)) is None,
    ensures
        first_marker(text) is None,
{
    if exists|at: int| is_first_marker(text, at) {
        let at = choose|at: int| is_first_marker(text, at);
        assert(marker_at(text, at) is None);
    }
}

fn letter_or_digit(c: char) -> (yes: bool)
    ensures
        yes == is_letter_or_digit(c),
{
    ('a' <= c && c <= 'z') || ('A' <= c && c <= 'Z') || ('0' <= c && c <= '9')
}

fn repository_char(c: char) -> (yes: bool)
    ensures
        yes == is_repository_char(c),
{
    letter_or_digit(c) || c == '-' || c == '/' || c == '.' || c == '_'
}

fn package_char(c: char) -> (yes: bool)
    ensures
        yes == is_package_char(c),
{
    c != '\n' && c != '$' && c != ':'
}

fn target_char(c: char) -> (yes: bool)
    ensures
        yes == is_target_char(c),
{
    ' ' <= c && c <= '~' && c != ':' && c != '\\' && c != '`'
}

/// A stretch of a text, from `from` up to and without `to`.
#[derive(Clone, Copy)]
pub struct Span {
    pub from: usize,
    pub to: usize,
}

impl Span {
    /// The stretch lies within a text of `len` characters.
    pub open spec fn fits(self, len: nat) -> bool {
        self.from <= self.to <= len
    }

    /// The characters of `text` in the stretch.
    pub open spec fn of(self, text: Seq<char>) -> Seq<char> {
        text.subrange(self.from as int, self.to as int)
    }
}

/// The stretches of a label's text that hold its parts.
pub struct Spans {
    pub repository: Option<Span>,
    pub root: Option<Root>,
    pub package: Option<Span>,
    pub target: Option<Span>,
}

/// The stretch, if there is one, lies within a text of `len` characters.
pub open spec fn span_fits(span: Option<Span>, len: nat) -> bool {
    match span {
        Some(span) => span.fits(len),
        None => true,
    }
}

/// The characters of `text` in the stretch, if there is one.
pub open spec fn span_of(span: Option<Span>, text: Seq<char>) -> Option<Seq<char>> {
    match span {
        Some(span) => Some(span.of(text)),
        None => None,
    }
}

impl Spans {
    /// The stretches lie within a text of `len` characters.
    pub open spec fn fits(self, len: nat) -> bool {
        &&& span_fits(self.repository, len)
        &&& span_fits(self.package, len)
        &&& span_fits(self.target, len)
    }

    /// The parts that the stretches cut from `text`.
    pub open spec fn of(self, text: Seq<char>) -> Parts {
        Parts {
            repository: span_of(self.repository, text),
            root: self.root,
            package: span_of(self.package, text),
            target: span_of(self.target, text),
        }
    }
}

/// Finds the first colon at or behind `from`.
pub(crate) fn find_colon(chars: &Vec<char>, from: usize) -> (found: Option<usize>)
    requires
        from <= chars.len(),
    ensures
        found == match first_colon(chars@, from as int) {
            Some(at) => Some(at as usize),
            None => None,
        },
        found matches Some(at) ==> is_first_colon(chars@, from as int, at as int),
{
    let mut at: usize = from;
    while at < chars.len()
        invariant
            from <= at <= chars.len(),
            forall|j: int| from <= j < at ==> #[trigger] chars@[j] != ':',
        decreases chars.len() - at,
    {
        if chars[at] == ':' {
            proof {
                lemma_first_colon(chars@, from as int, at as int);
            }
            return Some(at);
        }
        at += 1;
    }
    proof {
        lemma_no_colon(chars@, from as int);
    }
    None
}

/// The root marker that stands at `at`, if one does.
pub(crate) fn marker(chars: &Vec<char>, at: usize) -> (found: Option<Root>)
    ensures
        found == marker_at(chars@, at as int),
{
    if at < chars.len() && chars.len() - at > 1 && chars[at + 1] == '/' {
        if chars[at] == '/' {
            Some(Root::Normalizing)
        } else if chars[at] == '!' {
            Some(Root::Exact)
        } else {
            None
        }
    } else {
        None
    }
}

/// Finds the first root marker behind the first character.
pub(crate) fn find_marker(chars: &Vec<char>) -> (found: Option<usize>)
    ensures
        found == match first_marker(chars@) {
            Some(at) => Some(at as usize),
            None => None,
        },
        found matches Some(at) ==> is_first_marker(chars@, at as int),
{
    let mut at: usize = 1;
    while at < chars.len()
        invariant
            1 <= at,
            forall|j: int| 1 <= j < at ==> (#[trigger] marker_at(chars@, j)) is None,
        decreases chars.len() - at,
    {
        if marker(chars, at).is_some() {
            proof {
                lemma_first_marker(chars@, at as int);
            }
            return Some(at);
        }
        at += 1;
    }
    proof {
        lemma_no_marker(chars@);
    }
    None
}

fn repository_text(chars: &Vec<char>, span: Span) -> (yes: bool)
    requires
        span.fits(chars@.len()),
    ensures
        yes == is_repository_text(span.of(chars@)),
{
    let ghost text = span.of(chars@);
    let mut at: usize = span.from;
    while at < span.to
        invariant
            span.fits(chars@.len()),
            span.from <= at <= span.to,
            text == span.of(chars@),
            forall|i: int| 0 <= i < at - span.from ==> is_repository_char(#[trigger] text[i]),
        decreases span.to - at,
    {
        if !repository_char(chars[at]) {
            assert(!is_repository_char(text[at - span.from]));
            return false;
        }
        at += 1;
    }
    span.from < span.to
}

fn package_text(chars: &Vec<char>, span: Span) -> (yes: bool)
    requires
        span.fits(chars@.len()),
    ensures
        yes == is_package_text(span.of(chars@)),
{
    let ghost text = span.of(chars@);
    let mut at: usize = span.from;
    while at < span.to
        invariant
            span.fits(chars@.len()),
            span.from <= at <= span.to,
            text == span.of(chars@),
            forall|i: int| 0 <= i < at - span.from ==> is_package_char(#[trigger] text[i]),
        decreases span.to - at,
    {
        if !package_char(chars[at]) {
            assert(!is_package_char(text[at - span.from]));
            return false;
        }
        at += 1;
    }
    span.from < span.to
}

fn target_text(chars: &Vec<char>, span: Span) -> (yes: bool)
    requires
        span.fits(chars@.len()),
    ensures
        yes == is_target_text(span.of(chars@)),
{
    let ghost text = span.of(chars@);
    let mut at: usize = span.from;
    while at < span.to
        invariant
            span.fits(chars@.len()),
            span.from <= at <= span.to,
            text == span.of(chars@),
            forall|i: int| 0 <= i < at - span.from ==> is_target_char(#[trigger] text[i]),
        decreases span.to - at,
    {
        if !target_char(chars[at]) {
            assert(!is_target_char(text[at - span.from]));
            return false;
        }
        at += 1;
    }
    span.from < span.to
}

fn scan_tail(chars: &Vec<char>, from: usize) -> (found: Option<(Option<Span>, Option<Span>)>)
    requires
        from <= chars.len(),
    ensures
        match tail_parts(chars@, from as int) {
            None => found is None,
            Some((package, target)) => {
                &&& found matches Some((package_span, target_span))
                &&& span_fits(package_span, chars@.len())
                &&& span_fits(target_span, chars@.len())
                &&& span_of(package_span, chars@) == package
                &&& span_of(target_span, chars@) == target
            },
        },
{
    match find_colon(chars, from) {
        None => {
            let package = Span { from, to: chars.len() };
            if package_text(chars, package) {
                Some((Some(package), None))
            } else {
                None
            }
        },
        Some(colon) => {
            let package = Span { from, to: colon };
            let target = Span { from: colon + 1, to: chars.len() };
            if !target_text(chars, target) {
                None
            } else if colon == from {
                Some((None, Some(target)))
            } else if package_text(chars, package) {
                Some((Some(package), Some(target)))
            } else {
                None
            }
        },
    }
}

/// Finds the parts of a label in its characters.
fn scan(chars: &Vec<char>) -> (found: Option<Spans>)
    ensures
        match parts(chars@) {
            None => found is None,
            Some(parts) => {
                &&& found matches Some(spans)
                &&& spans.fits(chars@.len())
                &&& spans.of(chars@) == parts
            },
        },
{
    if chars.len() > 0 && chars[0] == '@' {
        match find_marker(chars) {
            None => None,
            Some(at) => {
                let repository = Span { from: 1, to: at };
                let root = marker(chars, at);
                match scan_tail(chars, at + 2) {
                    None => None,
                    Some((package, target)) => {
                        if repository_text(chars, repository) {
                            Some(Spans { repository: Some(repository), root, package, target })
                        } else {
                            None
                        }
                    },
                }
            },
        }
    } else {
        let root = marker(chars, 0);
        let from: usize = if root.is_some() {
            2
        } else {
            0
        };
        match scan_tail(chars, from) {
            None => None,
            Some((package, target)) => Some(Spans { repository: None, root, package, target }),
        }
    }
}

/// The stretch of the label as a string of its own.
pub(crate) fn cut(label: &str, span: Span) -> (piece: String)
    requires
        span.fits(label@.len()),
    ensures
        piece@ == span.of(label@),
{
    label.substring_char(span.from, span.to).to_owned()
}

impl Label {
    /// Resolves the text of a label that is written in `current_package` of
    /// `current_repository`.
    ///
    /// The repository is the one behind `@`, or else the current one. The
    /// package is the current one where the label names none; the path as it
    /// is written behind `!/`; the path behind `//` with its `.` and `..`
    /// segments settled; and the same of a path without a root marker, appended
    /// to the current package. The target is the one behind the colon, or else
    /// the last named segment of the package.
    ///
    /// Fails with `InvalidLabel` where the text is no label, and with
    /// `MissingTarget` where no target is written and the package has no named
    /// segment.
    pub fn new(label: &str, current_repository: &str, current_package: &str) -> (result: Result<
        Label,
        ParseError,
    >)
        ensures
            is_resolution(result, label@, current_repository@, current_package@),
    {
        Self::parse(label, current_repository, current_package)
    }

    /// Resolves the text of a label, as [`Label::new`] does: finds the parts
    /// of the text, and resolves them against the current repository and
    /// package.
    pub fn parse(label: &str, current_repository: &str, current_package: &str) -> (result: Result<
        Label,
        ParseError,
    >)
        ensures
            is_resolution(result, label@, current_repository@, current_package@),
    {
        let chars = chars_of(label);
        let spans = match scan(&chars) {
            Some(spans) => spans,
            None => {
                return Err(
                    ParseError { kind: ParseErrorKind::InvalidLabel, label: label.to_owned() },
                );
            },
        };
        let ghost parts = spans.of(label@);
        let repository = match spans.repository {
            Some(span) => cut(label, span),
            None => current_repository.to_owned(),
        };
        let mut names: Vec<String> = Vec::new();
        assert(texts(names@) =~= Seq::empty());
        let package = match spans.package {
            None => current_package.to_owned(),
            Some(span) => {
                let path = cut(label, span);
                if spans.root.is_none() {
                    push_segments(&mut names, current_package);
                }
                push_segments(&mut names, path.as_str());
                assert(texts(names@) == package_names(parts, current_package@));
                match spans.root {
                    Some(Root::Exact) => path,
                    _ => join_segments(&names),
                }
            },
        };
        let target = match spans.target {
            Some(span) => cut(label, span),
            None => {
                if names.len() == 0 {
                    return Err(
                        ParseError { kind: ParseErrorKind::MissingTarget, label: label.to_owned() },
                    );
                }
                names[names.len() - 1].clone()
            },
        };
        Ok(Label { repository, package, target })
    }
}

} // verus!
