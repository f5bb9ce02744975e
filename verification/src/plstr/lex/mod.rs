//! The lexer: from a text to its tokens.

pub mod token;

use vstd::prelude::*;
use vstd::utf8::encode_utf8;
use unicode_segmentation::UnicodeSegmentation;
use crate::text::{chars_of, texts};
use token::{Location, Token, TokenKind};

verus! {

/// The extended grapheme clusters of a text, in order, as the Unicode text
/// segmentation rules cut them.
pub uninterp spec fn grapheme_clusters(text: Seq<char>) -> Seq<Seq<char>>;

/// Whether a text is an emoji of the Unicode emoji list.
pub uninterp spec fn is_emoji(text: Seq<char>) -> bool;

/// Whether a character has the Unicode property `Alphabetic`.
pub uninterp spec fn is_alphabetic(c: char) -> bool;

/// Whether a character is of one of the Unicode number categories.
pub uninterp spec fn is_numeric(c: char) -> bool;

/// Whether a character is alphabetic or numeric.
pub open spec fn is_alphanumeric(c: char) -> bool {
    is_alphabetic(c) || is_numeric(c)
}

/// How many bytes a text takes.
pub open spec fn byte_len(text: Seq<char>) -> nat {
    encode_utf8(text).len()
}

/// How many bytes the first `upto` clusters take together.
pub open spec fn byte_total(clusters: Seq<Seq<char>>, upto: int) -> nat
    decreases upto,
{
    if upto <= 0 {
        0
    } else {
        byte_total(clusters, upto - 1) + byte_len(clusters[upto - 1])
    }
}

/// Cuts a text into its extended grapheme clusters.
///
/// Calls `UnicodeSegmentation::graphemes` of `unicode_segmentation` with
/// `is_extended` set, and copies each cluster. The iterator hands out
/// stretches of the text that follow one another from its start to its end,
/// so the clusters take as many bytes as the text.
#[verifier::external_body]
fn clusters_of(text: &str) -> (clusters: Vec<String>)
    ensures
        texts(clusters@) == grapheme_clusters(text@),
        byte_total(texts(clusters@), clusters@.len() as int) == byte_len(text@),
{
    let mut clusters: Vec<String> = Vec::new();
    for cluster in text.graphemes(true) {
        clusters.push(cluster.to_owned());
    }
    clusters
}

/// Tells whether a text is an emoji.
///
/// Calls `emojis::get`, which looks the text up in the table of emojis, and
/// tells whether one was found.
#[verifier::external_body]
fn emoji(text: &str) -> (yes: bool)
    ensures
        yes == is_emoji(text@),
{
    emojis::get(text).is_some()
}

/// `char::is_alphabetic` of std tells whether the character is alphabetic.
pub assume_specification[ char::is_alphabetic ](c: char) -> (yes: bool)
    ensures
        yes == is_alphabetic(c),
;

/// `char::is_alphanumeric` of std tells whether the character is alphabetic
/// or numeric, as `char::is_alphabetic` and `char::is_numeric` tell it.
pub assume_specification[ char::is_alphanumeric ](c: char) -> (yes: bool)
    ensures
        yes == is_alphanumeric(c),
;

/// `char::is_numeric` of std tells whether the character is numeric.
pub assume_specification[ char::is_numeric ](c: char) -> (yes: bool)
    ensures
        yes == is_numeric(c),
;

/// White space between tokens: a space, a tab, a line feed, a carriage
/// return, or a carriage return with its line feed.
pub open spec fn is_space(cluster: Seq<char>) -> bool {
    cluster == seq![' '] || cluster == seq!['\t'] || cluster == seq!['\n'] || cluster == seq![
        '\r',
    ] || cluster == seq!['\r', '\n']
}

/// The end of a line: a line feed, or a carriage return with its line feed.
pub open spec fn is_line_end(cluster: Seq<char>) -> bool {
    cluster == seq!['\n'] || cluster == seq!['\r', '\n']
}

/// A cluster that can start an identifier: one that holds an alphabetic
/// character, `_`, or an emoji.
pub open spec fn starts_identifier(cluster: Seq<char>) -> bool {
    (exists|i: int| 0 <= i < cluster.len() && is_alphabetic(#[trigger] cluster[i])) || cluster
        == seq!['_'] || is_emoji(cluster)
}

/// A cluster that can go on an identifier: one that holds an alphabetic or
/// numeric character, `_`, or an emoji.
pub open spec fn continues_identifier(cluster: Seq<char>) -> bool {
    (exists|i: int| 0 <= i < cluster.len() && is_alphanumeric(#[trigger] cluster[i])) || cluster
        == seq!['_'] || is_emoji(cluster)
}

/// A cluster that holds a numeric character.
pub open spec fn is_digit(cluster: Seq<char>) -> bool {
    exists|i: int| 0 <= i < cluster.len() && is_numeric(#[trigger] cluster[i])
}

/// A cluster that can go on a number: a digit or a decimal point.
pub open spec fn continues_number(cluster: Seq<char>) -> bool {
    is_digit(cluster) || cluster == seq!['.']
}

/// The kind of the token that the cluster is, where it can only be one.
pub open spec fn single_kind(cluster: Seq<char>) -> Option<TokenKind> {
    if cluster == seq!['{'] {
        Some(TokenKind::OpenBrace)
    } else if cluster == seq!['}'] {
        Some(TokenKind::CloseBrace)
    } else if cluster == seq!['('] {
        Some(TokenKind::OpenParen)
    } else if cluster == seq![')'] {
        Some(TokenKind::CloseParen)
    } else if cluster == seq!['['] {
        Some(TokenKind::OpenBracket)
    } else if cluster == seq![']'] {
        Some(TokenKind::CloseBracket)
    } else if cluster == seq!['/'] {
        Some(TokenKind::ForwardSlash)
    } else if cluster == seq!['*'] {
        Some(TokenKind::Asterisk)
    } else if cluster == seq!['!'] {
        Some(TokenKind::Bang)
    } else {
        None
    }
}

/// The kind of the token that the cluster is when it stands alone or, with
/// `twice`, when it stands twice, where it can stand twice.
pub open spec fn double_kind(cluster: Seq<char>, twice: bool) -> Option<TokenKind> {
    if cluster == seq!['+'] {
        Some(
            if twice {
                TokenKind::PlusPlus
            } else {
                TokenKind::Plus
            },
        )
    } else if cluster == seq!['-'] {
        Some(
            if twice {
                TokenKind::HyphenHyphen
            } else {
                TokenKind::Hyphen
            },
        )
    } else if cluster == seq!['='] {
        Some(
            if twice {
                TokenKind::EqualEqual
            } else {
                TokenKind::Equal
            },
        )
    } else if cluster == seq!['<'] {
        Some(
            if twice {
                TokenKind::LessLess
            } else {
                TokenKind::Less
            },
        )
    } else if cluster == seq!['>'] {
        Some(
            if twice {
                TokenKind::GreaterGreater
            } else {
                TokenKind::Greater
            },
        )
    } else {
        None
    }
}

/// The place behind `cluster`, for a cluster that starts at `place`: the next
/// line behind the end of a line, and else the next column.
pub open spec fn advanced(place: Location, cluster: Seq<char>) -> Location {
    if is_line_end(cluster) {
        Location {
            line: (place.line + 1) as usize,
            column: 0,
            index: (place.index + byte_len(cluster)) as usize,
        }
    } else {
        Location {
            line: place.line,
            column: (place.column + 1) as usize,
            index: (place.index + byte_len(cluster)) as usize,
        }
    }
}

/// The place behind the clusters from `from` up to `to`, the first of which
/// starts at `place`.
pub open spec fn moved(place: Location, clusters: Seq<Seq<char>>, from: int, to: int) -> Location
    decreases to - from,
{
    if to <= from {
        place
    } else {
        advanced(moved(place, clusters, from, to - 1), clusters[to - 1])
    }
}

/// The clusters from `from` up to `to`, put together.
pub open spec fn glued(clusters: Seq<Seq<char>>, from: int, to: int) -> Seq<char>
    decreases to - from,
{
    if to <= from {
        Seq::empty()
    } else {
        glued(clusters, from, to - 1) + clusters[to - 1]
    }
}

/// How many decimal points stand among the clusters from `from` up to `to`.
pub open spec fn points(clusters: Seq<Seq<char>>, from: int, to: int) -> nat
    decreases to - from,
{
    if to <= from {
        0
    } else {
        points(clusters, from, to - 1) + if clusters[to - 1] == seq!['.'] {
            1nat
        } else {
            0nat
        }
    }
}

/// The clusters from `from` up to `end` are a run of members, and the run ends
/// at `end`: with the clusters, or before a cluster that is no member.
pub open spec fn is_run(
    clusters: Seq<Seq<char>>,
    from: int,
    end: int,
    member: spec_fn(Seq<char>) -> bool,
) -> bool {
    &&& from <= end <= clusters.len()
    &&& forall|j: int| from <= j < end ==> member(#[trigger] clusters[j])
    &&& end < clusters.len() ==> !member(clusters[end])
}

/// Where the run of members that starts at `from` ends.
pub open spec fn run_end(
    clusters: Seq<Seq<char>>,
    from: int,
    member: spec_fn(Seq<char>) -> bool,
) -> int {
    choose|end: int| is_run(clusters, from, end, member)
}

/// A run has one end.
pub proof fn lemma_run_end(
    clusters: Seq<Seq<char>>,
    from: int,
    end: int,
    member: spec_fn(Seq<char>) -> bool,
)
    requires
        is_run(clusters, from, end, member),
    ensures
        run_end(clusters, from, member) == end,
{
    let chosen = run_end(clusters, from, member);
    assert(is_run(clusters, from, chosen, member));
    if chosen < end {
        assert(member(clusters[chosen]));
    }
    if end < chosen {
        assert(member(clusters[end]));
    }
}

/// What stands at a place in the clusters that is not white space.
pub enum Shape {
    /// A token of this kind, which ends before the cluster `end`.
    Token { kind: TokenKind, end: int },
    /// A cluster that starts no token.
    Unexpected,
    /// A number with more than one decimal point.
    SecondPoint,
}

/// What stands at `start`, which is a place in the clusters.
pub open spec fn shape_at(clusters: Seq<Seq<char>>, start: int) -> Shape {
    let first = clusters[start];
    if single_kind(first) is Some {
        Shape::Token { kind: single_kind(first)->0, end: start + 1 }
    } else if double_kind(first, false) is Some {
        if start + 1 < clusters.len() && clusters[start + 1] == first {
            Shape::Token { kind: double_kind(first, true)->0, end: start + 2 }
        } else {
            Shape::Token { kind: double_kind(first, false)->0, end: start + 1 }
        }
    } else if starts_identifier(first) {
        Shape::Token {
            kind: TokenKind::Identifier,
            end: run_end(clusters, start + 1, |c: Seq<char>| continues_identifier(c)),
        }
    } else if is_digit(first) {
        let end = run_end(clusters, start + 1, |c: Seq<char>| continues_number(c));
        let count = points(clusters, start + 1, end);
        if count == 0 {
            Shape::Token { kind: TokenKind::Integer, end }
        } else if count == 1 {
            Shape::Token { kind: TokenKind::Float, end }
        } else {
            Shape::SecondPoint
        }
    } else {
        Shape::Unexpected
    }
}

/// The text of a token of `kind` that starts at `start` and ends before `end`:
/// all its clusters for an identifier or a number, and else its last cluster.
pub open spec fn contents_of(clusters: Seq<Seq<char>>, kind: TokenKind, start: int, end: int) -> Seq<
    char,
> {
    if kind == TokenKind::Identifier || kind == TokenKind::Integer || kind == TokenKind::Float {
        glued(clusters, start, end)
    } else {
        clusters[end - 1]
    }
}

/// What a [`Lexer`] holds: the clusters of its text, how many of them it
/// has passed, and the place behind those.
pub struct LexerView {
    pub clusters: Seq<Seq<char>>,
    pub position: int,
    pub location: Location,
}

/// Where the next token starts: behind the white space at the position.
pub open spec fn token_start(lexer: LexerView) -> int {
    run_end(lexer.clusters, lexer.position, |c: Seq<char>| is_space(c))
}

/// Whether the lexer can take a step: the text ends behind the white space,
/// or a token stands there.
pub open spec fn can_step(lexer: LexerView) -> bool {
    let start = token_start(lexer);
    start < lexer.clusters.len() ==> shape_at(lexer.clusters, start) is Token
}

/// Where the lexer stands after a step: behind the token, or at the end of
/// the text where there is none.
pub open spec fn step_end(lexer: LexerView) -> int {
    let start = token_start(lexer);
    if start < lexer.clusters.len() {
        shape_at(lexer.clusters, start)->end
    } else {
        start
    }
}

/// The lexer after a step.
pub open spec fn stepped(lexer: LexerView) -> LexerView {
    LexerView {
        clusters: lexer.clusters,
        position: step_end(lexer),
        location: moved(lexer.location, lexer.clusters, lexer.position, step_end(lexer)),
    }
}

/// The token that a step gives: none at the end of the text.
pub open spec fn step_token(lexer: LexerView) -> Option<token::TokenView> {
    let start = token_start(lexer);
    if start < lexer.clusters.len() {
        let kind = shape_at(lexer.clusters, start)->kind;
        let end = shape_at(lexer.clusters, start)->end;
        Some(
            token::TokenView {
                location: moved(lexer.location, lexer.clusters, lexer.position, end),
                kind,
                contents: contents_of(lexer.clusters, kind, start, end),
            },
        )
    } else {
        None
    }
}

/// At the end of the text a step gives no token and leaves the lexer where
/// it is.
pub proof fn lemma_step_at_end(lexer: LexerView)
    requires
        lexer.position == lexer.clusters.len(),
    ensures
        can_step(lexer),
        step_token(lexer) is None,
        stepped(lexer) == lexer,
{
    let member = |c: Seq<char>| is_space(c);
    assert(is_run(lexer.clusters, lexer.position, lexer.position, member));
    lemma_run_end(lexer.clusters, lexer.position, lexer.position, member);
}

/// Where the lexer stands at a cluster that is a token of one kind only, a
/// step gives that token, with the cluster as its text, and passes the
/// cluster.
pub proof fn lemma_step_over_single(lexer: LexerView)
    requires
        0 <= lexer.position < lexer.clusters.len(),
        single_kind(lexer.clusters[lexer.position]) is Some,
    ensures
        can_step(lexer),
        stepped(lexer).position == lexer.position + 1,
        stepped(lexer).location == advanced(lexer.location, lexer.clusters[lexer.position]),
        step_token(lexer) == Some(
            token::TokenView {
                location: advanced(lexer.location, lexer.clusters[lexer.position]),
                kind: single_kind(lexer.clusters[lexer.position])->0,
                contents: lexer.clusters[lexer.position],
            },
        ),
{
    let member = |c: Seq<char>| is_space(c);
    let cluster = lexer.clusters[lexer.position];
    assert(cluster.len() == 1);
    assert(!is_space(cluster)) by {
        if is_space(cluster) {
            assert(cluster[0] == ' ' || cluster[0] == '\t' || cluster[0] == '\n' || cluster[0]
                == '\r');
        }
    }
    assert(is_run(lexer.clusters, lexer.position, lexer.position, member));
    lemma_run_end(lexer.clusters, lexer.position, lexer.position, member);
    assert(moved(lexer.location, lexer.clusters, lexer.position, lexer.position)
        == lexer.location);
}

/// Why the lexer cannot take a step.
#[derive(Debug, PartialEq, Eq)]
pub enum LexError {
    /// This cluster starts no token.
    UnexpectedCharacter(String),
    /// A number has more than one decimal point.
    SecondDecimalPoint,
}

/// How far the lexer has come.
#[derive(Clone, Copy)]
struct Cursor {
    position: usize,
    location: Location,
}

/// Reads a text token by token.
pub struct Lexer {
    clusters: Vec<String>,
    cursor: Cursor,
}

/// What the token holds, if there is one.
pub open spec fn token_view(token: Option<Token>) -> Option<token::TokenView> {
    match token {
        Some(token) => Some(token@),
        None => None,
    }
}

/// The bytes of more clusters are more.
proof fn lemma_byte_total_grows(clusters: Seq<Seq<char>>, fewer: int, more: int)
    requires
        fewer <= more,
    ensures
        byte_total(clusters, fewer) <= byte_total(clusters, more),
    decreases more - fewer,
{
    if fewer < more {
        lemma_byte_total_grows(clusters, fewer, more - 1);
    }
}

/// Moving on from where a move ended is one move.
pub proof fn lemma_moved_on(
    place: Location,
    clusters: Seq<Seq<char>>,
    from: int,
    middle: int,
    to: int,
)
    requires
        from <= middle <= to,
    ensures
        moved(moved(place, clusters, from, middle), clusters, middle, to) == moved(
            place,
            clusters,
            from,
            to,
        ),
    decreases to - middle,
{
    if middle < to {
        lemma_moved_on(place, clusters, from, middle, to - 1);
    }
}

fn is_char(cluster: &str, c: char) -> (yes: bool)
    ensures
        yes == (cluster@ == seq![c]),
{
    let yes = cluster.unicode_len() == 1 && cluster.get_char(0) == c;
    assert(yes ==> cluster@ =~= seq![c]);
    assert(cluster@ == seq![c] ==> cluster@.len() == 1 && cluster@[0] == c);
    yes
}

fn line_end(cluster: &str) -> (yes: bool)
    ensures
        yes == is_line_end(cluster@),
{
    if is_char(cluster, '\n') {
        return true;
    }
    let yes = cluster.unicode_len() == 2 && cluster.get_char(0) == '\r' && cluster.get_char(1)
        == '\n';
    assert(yes ==> cluster@ =~= seq!['\r', '\n']);
    assert(cluster@ == seq!['\r', '\n'] ==> cluster@.len() == 2 && cluster@[0] == '\r'
        && cluster@[1] == '\n');
    yes
}

fn space(cluster: &str) -> (yes: bool)
    ensures
        yes == is_space(cluster@),
{
    is_char(cluster, ' ') || is_char(cluster, '\t') || is_char(cluster, '\r') || line_end(cluster)
}

fn holds_alphabetic(cluster: &str) -> (yes: bool)
    ensures
        yes == exists|i: int| 0 <= i < cluster@.len() && is_alphabetic(#[trigger] cluster@[i]),
{
    let chars = chars_of(cluster);
    let mut at: usize = 0;
    while at < chars.len()
        invariant
            chars@ == cluster@,
            at <= chars.len(),
            forall|i: int| 0 <= i < at ==> !is_alphabetic(#[trigger] cluster@[i]),
        decreases chars.len() - at,
    {
        if chars[at].is_alphabetic() {
            return true;
        }
        at += 1;
    }
    false
}

fn holds_alphanumeric(cluster: &str) -> (yes: bool)
    ensures
        yes == exists|i: int| 0 <= i < cluster@.len() && is_alphanumeric(#[trigger] cluster@[i]),
{
    let chars = chars_of(cluster);
    let mut at: usize = 0;
    while at < chars.len()
        invariant
            chars@ == cluster@,
            at <= chars.len(),
            forall|i: int| 0 <= i < at ==> !is_alphanumeric(#[trigger] cluster@[i]),
        decreases chars.len() - at,
    {
        if chars[at].is_alphanumeric() {
            return true;
        }
        at += 1;
    }
    false
}

fn digit(cluster: &str) -> (yes: bool)
    ensures
        yes == is_digit(cluster@),
{
    let chars = chars_of(cluster);
    let mut at: usize = 0;
    while at < chars.len()
        invariant
            chars@ == cluster@,
            at <= chars.len(),
            forall|i: int| 0 <= i < at ==> !is_numeric(#[trigger] cluster@[i]),
        decreases chars.len() - at,
    {
        if chars[at].is_numeric() {
            return true;
        }
        at += 1;
    }
    false
}

fn identifier_start(cluster: &str) -> (yes: bool)
    ensures
        yes == starts_identifier(cluster@),
{
    holds_alphabetic(cluster) || is_char(cluster, '_') || emoji(cluster)
}

fn identifier_part(cluster: &str) -> (yes: bool)
    ensures
        yes == continues_identifier(cluster@),
{
    holds_alphanumeric(cluster) || is_char(cluster, '_') || emoji(cluster)
}

fn single(cluster: &str) -> (kind: Option<TokenKind>)
    ensures
        kind == single_kind(cluster@),
{
    if is_char(cluster, '{') {
        Some(TokenKind::OpenBrace)
    } else if is_char(cluster, '}') {
        Some(TokenKind::CloseBrace)
    } else if is_char(cluster, '(') {
        Some(TokenKind::OpenParen)
    } else if is_char(cluster, ')') {
        Some(TokenKind::CloseParen)
    } else if is_char(cluster, '[') {
        Some(TokenKind::OpenBracket)
    } else if is_char(cluster, ']') {
        Some(TokenKind::CloseBracket)
    } else if is_char(cluster, '/') {
        Some(TokenKind::ForwardSlash)
    } else if is_char(cluster, '*') {
        Some(TokenKind::Asterisk)
    } else if is_char(cluster, '!') {
        Some(TokenKind::Bang)
    } else {
        None
    }
}

fn double(cluster: &str, twice: bool) -> (kind: Option<TokenKind>)
    ensures
        kind == double_kind(cluster@, twice),
{
    if is_char(cluster, '+') {
        Some(
            if twice {
                TokenKind::PlusPlus
            } else {
                TokenKind::Plus
            },
        )
    } else if is_char(cluster, '-') {
        Some(
            if twice {
                TokenKind::HyphenHyphen
            } else {
                TokenKind::Hyphen
            },
        )
    } else if is_char(cluster, '=') {
        Some(
            if twice {
                TokenKind::EqualEqual
            } else {
                TokenKind::Equal
            },
        )
    } else if is_char(cluster, '<') {
        Some(
            if twice {
                TokenKind::LessLess
            } else {
                TokenKind::Less
            },
        )
    } else if is_char(cluster, '>') {
        Some(
            if twice {
                TokenKind::GreaterGreater
            } else {
                TokenKind::Greater
            },
        )
    } else {
        None
    }
}

impl View for Lexer {
    type V = LexerView;

    closed spec fn view(&self) -> LexerView {
        LexerView {
            clusters: texts(self.clusters@),
            position: self.cursor.position as int,
            location: self.cursor.location,
        }
    }
}

impl Lexer {
    /// The cursor lies within the clusters, and its place is where that many
    /// clusters end.
    spec fn fits(&self, cursor: Cursor) -> bool {
        &&& cursor.position <= self.clusters@.len()
        &&& cursor.location.line + cursor.location.column <= cursor.position
        &&& cursor.location.index == byte_total(texts(self.clusters@), cursor.position as int)
        &&& byte_total(texts(self.clusters@), self.clusters@.len() as int) <= usize::MAX
    }

    #[verifier::type_invariant]
    spec fn sound(&self) -> bool {
        self.fits(self.cursor)
    }

    /// A lexer at the start of the text that the clusters make up. None where
    /// the clusters take more bytes together than a place can count.
    pub fn from_clusters(clusters: Vec<String>) -> (lexer: Option<Self>)
        ensures
            match lexer {
                Some(lexer) => {
                    &&& byte_total(texts(clusters@), clusters@.len() as int) <= usize::MAX
                    &&& lexer@ == (LexerView {
                        clusters: texts(clusters@),
                        position: 0,
                        location: Location { line: 0, column: 0, index: 0 },
                    })
                },
                None => byte_total(texts(clusters@), clusters@.len() as int) > usize::MAX,
            },
    {
        let mut total: usize = 0;
        let mut at: usize = 0;
        while at < clusters.len()
            invariant
                at <= clusters@.len(),
                total == byte_total(texts(clusters@), at as int),
            decreases clusters@.len() - at,
        {
            let size = clusters[at].as_str().as_bytes().len();
            assert(size == byte_len(texts(clusters@)[at as int]));
            match total.checked_add(size) {
                Some(more) => {
                    total = more;
                },
                None => {
                    proof {
                        lemma_byte_total_grows(
                            texts(clusters@),
                            at as int + 1,
                            clusters@.len() as int,
                        );
                    }
                    return None;
                },
            }
            at += 1;
        }
        Some(
            Lexer {
                clusters,
                cursor: Cursor {
                    position: 0,
                    location: Location { line: 0, column: 0, index: 0 },
                },
            },
        )
    }

    /// A lexer at the start of `body`.
    pub fn new(body: &str) -> (lexer: Self)
        ensures
            lexer@ == (LexerView {
                clusters: grapheme_clusters(body@),
                position: 0,
                location: Location { line: 0, column: 0, index: 0 },
            }),
    {
        let clusters = clusters_of(body);
        let size = body.as_bytes().len();
        assert(byte_len(body@) == size);
        Self::from_clusters(clusters).unwrap()
    }

    /// The place that the lexer has come to.
    pub fn get_location(&self) -> (location: Location)
        ensures
            location == self@.location,
    {
        self.cursor.location
    }

    /// The cursor behind the cluster at which it stands.
    fn inc_loc(&self, cursor: Cursor) -> (next: Cursor)
        requires
            self.fits(cursor),
            cursor.position < self.clusters@.len(),
        ensures
            self.fits(next),
            next.position == cursor.position + 1,
            next.location == advanced(
                cursor.location,
                texts(self.clusters@)[cursor.position as int],
            ),
    {
        let count = self.clusters.len();
        let cluster = self.clusters[cursor.position].as_str();
        let size = cluster.as_bytes().len();
        proof {
            lemma_byte_total_grows(
                texts(self.clusters@),
                cursor.position as int + 1,
                self.clusters@.len() as int,
            );
            assert(size == byte_len(texts(self.clusters@)[cursor.position as int]));
        }
        if line_end(cluster) {
            self.new_line(cursor, size)
        } else {
            Cursor {
                position: cursor.position + 1,
                location: Location {
                    line: cursor.location.line,
                    column: cursor.location.column + 1,
                    index: cursor.location.index + size,
                },
            }
        }
    }

    /// The cursor at the start of the line behind the end of a line of `size`
    /// bytes.
    fn new_line(&self, cursor: Cursor, size: usize) -> (next: Cursor)
        requires
            cursor.location.line + cursor.location.column <= cursor.position < usize::MAX,
            cursor.location.index + size <= usize::MAX,
        ensures
            next.position == cursor.position + 1,
            next.location == (Location {
                line: (cursor.location.line + 1) as usize,
                column: 0,
                index: (cursor.location.index + size) as usize,
            }),
    {
        Cursor {
            position: cursor.position + 1,
            location: Location {
                line: cursor.location.line + 1,
                column: 0,
                index: cursor.location.index + size,
            },
        }
    }

    /// The cursor behind the white space at which it stands.
    fn consume_whitespace(&self, cursor: Cursor) -> (next: Cursor)
        requires
            self.fits(cursor),
        ensures
            self.fits(next),
            next.position == run_end(
                texts(self.clusters@),
                cursor.position as int,
                |c: Seq<char>| is_space(c),
            ),
            cursor.position <= next.position,
            next.location == moved(
                cursor.location,
                texts(self.clusters@),
                cursor.position as int,
                next.position as int,
            ),
    {
        let ghost clusters = texts(self.clusters@);
        let ghost member = |c: Seq<char>| is_space(c);
        let mut next = cursor;
        while next.position < self.clusters.len() && space(
            self.clusters[next.position].as_str(),
        )
            invariant
                self.fits(next),
                clusters == texts(self.clusters@),
                member == |c: Seq<char>| is_space(c),
                cursor.position <= next.position,
                forall|j: int| cursor.position <= j < next.position ==> member(#[trigger] clusters[j]),
                next.location == moved(
                    cursor.location,
                    clusters,
                    cursor.position as int,
                    next.position as int,
                ),
            decreases self.clusters@.len() - next.position,
        {
            next = self.inc_loc(next);
        }
        proof {
            assert(is_run(clusters, cursor.position as int, next.position as int, member));
            lemma_run_end(clusters, cursor.position as int, next.position as int, member);
        }
        next
    }

    /// The cursor behind the run of clusters that go on an identifier.
    fn identifier_end(&self, cursor: Cursor) -> (next: Cursor)
        requires
            self.fits(cursor),
        ensures
            self.fits(next),
            next.position == run_end(
                texts(self.clusters@),
                cursor.position as int,
                |c: Seq<char>| continues_identifier(c),
            ),
            cursor.position <= next.position,
            next.location == moved(
                cursor.location,
                texts(self.clusters@),
                cursor.position as int,
                next.position as int,
            ),
    {
        let ghost clusters = texts(self.clusters@);
        let ghost member = |c: Seq<char>| continues_identifier(c);
        let mut next = cursor;
        while next.position < self.clusters.len() && identifier_part(
            self.clusters[next.position].as_str(),
        )
            invariant
                self.fits(next),
                clusters == texts(self.clusters@),
                member == |c: Seq<char>| continues_identifier(c),
                cursor.position <= next.position,
                forall|j: int| cursor.position <= j < next.position ==> member(#[trigger] clusters[j]),
                next.location == moved(
                    cursor.location,
                    clusters,
                    cursor.position as int,
                    next.position as int,
                ),
            decreases self.clusters@.len() - next.position,
        {
            next = self.inc_loc(next);
        }
        proof {
            assert(is_run(clusters, cursor.position as int, next.position as int, member));
            lemma_run_end(clusters, cursor.position as int, next.position as int, member);
        }
        next
    }

    /// The cursor behind the run of clusters that go on a number, and how many
    /// decimal points the run holds: none, one, or more, told as two.
    fn number_end(&self, cursor: Cursor) -> (found: (Cursor, u8))
        requires
            self.fits(cursor),
        ensures
            self.fits(found.0),
            found.0.position == run_end(
                texts(self.clusters@),
                cursor.position as int,
                |c: Seq<char>| continues_number(c),
            ),
            cursor.position <= found.0.position,
            found.0.location == moved(
                cursor.location,
                texts(self.clusters@),
                cursor.position as int,
                found.0.position as int,
            ),
            found.1 <= 2,
            found.1 < 2 ==> found.1 == points(
                texts(self.clusters@),
                cursor.position as int,
                found.0.position as int,
            ),
            found.1 == 2 ==> points(
                texts(self.clusters@),
                cursor.position as int,
                found.0.position as int,
            ) >= 2,
    {
        let ghost clusters = texts(self.clusters@);
        let ghost member = |c: Seq<char>| continues_number(c);
        let mut next = cursor;
        let mut count: u8 = 0;
        loop
            invariant
                self.fits(next),
                clusters == texts(self.clusters@),
                member == |c: Seq<char>| continues_number(c),
                cursor.position <= next.position,
                forall|j: int| cursor.position <= j < next.position ==> member(#[trigger] clusters[j]),
                next.location == moved(
                    cursor.location,
                    clusters,
                    cursor.position as int,
                    next.position as int,
                ),
                count <= 2,
                count < 2 ==> count == points(
                    clusters,
                    cursor.position as int,
                    next.position as int,
                ),
                count == 2 ==> points(clusters, cursor.position as int, next.position as int) >= 2,
            ensures
                is_run(clusters, cursor.position as int, next.position as int, member),
            decreases self.clusters@.len() - next.position,
        {
            if next.position >= self.clusters.len() {
                break ;
            }
            let cluster = self.clusters[next.position].as_str();
            let point = is_char(cluster, '.');
            if !point && !digit(cluster) {
                break ;
            }
            if point && count < 2 {
                count += 1;
            }
            next = self.inc_loc(next);
        }
        proof {
            lemma_run_end(clusters, cursor.position as int, next.position as int, member);
        }
        (next, count)
    }

    /// The clusters from `from` up to `to`, put together.
    fn glue(&self, from: usize, to: usize) -> (text: String)
        requires
            from <= to <= self.clusters@.len(),
        ensures
            text@ == glued(texts(self.clusters@), from as int, to as int),
    {
        let mut text = String::new();
        let mut at: usize = from;
        while at < to
            invariant
                from <= at <= to <= self.clusters@.len(),
                text@ == glued(texts(self.clusters@), from as int, at as int),
            decreases to - at,
        {
            text.append(self.clusters[at].as_str());
            at += 1;
        }
        text
    }

    /// The token of `kind` that starts at `start` and ends at the cursor.
    fn new_token(&self, kind: TokenKind, start: usize, cursor: Cursor) -> (token: Token)
        requires
            start < cursor.position <= self.clusters@.len(),
        ensures
            token@ == (token::TokenView {
                location: cursor.location,
                kind,
                contents: contents_of(
                    texts(self.clusters@),
                    kind,
                    start as int,
                    cursor.position as int,
                ),
            }),
    {
        let contents = match kind {
            TokenKind::Identifier | TokenKind::Integer | TokenKind::Float => self.glue(
                start,
                cursor.position,
            ),
            _ => self.clusters[cursor.position - 1].clone(),
        };
        Token { location: cursor.location, kind, contents }
    }

    /// The cursor behind a cluster that may stand twice, and whether it does.
    fn rep2(&self, cursor: Cursor) -> (found: (Cursor, bool))
        requires
            self.fits(cursor),
            0 < cursor.position,
        ensures
            self.fits(found.0),
            found.1 == (cursor.position < self.clusters@.len() && texts(
                self.clusters@,
            )[cursor.position as int] == texts(self.clusters@)[cursor.position - 1]),
            found.0.position == if found.1 {
                cursor.position + 1
            } else {
                cursor.position as int
            },
            found.0.location == moved(
                cursor.location,
                texts(self.clusters@),
                cursor.position as int,
                found.0.position as int,
            ),
    {
        if cursor.position < self.clusters.len() && self.clusters[cursor.position]
            == self.clusters[cursor.position - 1] {
            let next = self.inc_loc(cursor);
            assert(moved(
                cursor.location,
                texts(self.clusters@),
                cursor.position as int,
                cursor.position as int,
            ) == cursor.location);
            (next, true)
        } else {
            (cursor, false)
        }
    }

    /// What the scan is to find: the token of the step, or none at the end of
    /// the text, with the cursor behind it; or why no step can be taken.
    spec fn scanned(&self, scan: Result<(Option<Token>, Cursor), LexError>) -> bool {
        let lexer = self@;
        let start = token_start(lexer);
        match scan {
            Ok((token, cursor)) => {
                &&& can_step(lexer)
                &&& self.fits(cursor)
                &&& cursor.position == step_end(lexer)
                &&& cursor.location == stepped(lexer).location
                &&& token_view(token) == step_token(lexer)
            },
            Err(LexError::UnexpectedCharacter(cluster)) => {
                &&& start < lexer.clusters.len()
                &&& shape_at(lexer.clusters, start) is Unexpected
                &&& cluster@ == lexer.clusters[start]
            },
            Err(LexError::SecondDecimalPoint) => {
                &&& start < lexer.clusters.len()
                &&& shape_at(lexer.clusters, start) is SecondPoint
            },
        }
    }

    /// Looks for the next token without taking it.
    fn scan(&self) -> (scan: Result<(Option<Token>, Cursor), LexError>)
        ensures
            self.scanned(scan),
    {
        proof {
            use_type_invariant(self);
        }
        let ghost clusters = texts(self.clusters@);
        let begin = self.consume_whitespace(self.cursor);
        let start = begin.position;
        if start >= self.clusters.len() {
            return Ok((None, begin));
        }
        let first = self.clusters[start].as_str();
        let behind = self.inc_loc(begin);
        assert(behind.location == moved(
            self.cursor.location,
            clusters,
            self.cursor.position as int,
            behind.position as int,
        ));
        let (end, kind) = if let Some(kind) = single(first) {
            (behind, kind)
        } else if double(first, false).is_some() {
            let (end, twice) = self.rep2(behind);
            (end, double(first, twice).unwrap())
        } else if identifier_start(first) {
            (self.identifier_end(behind), TokenKind::Identifier)
        } else if digit(first) {
            let (end, count) = self.number_end(behind);
            if count >= 2 {
                return Err(LexError::SecondDecimalPoint);
            }
            (
                end,
                if count == 1 {
                    TokenKind::Float
                } else {
                    TokenKind::Integer
                },
            )
        } else {
            return Err(LexError::UnexpectedCharacter(self.clusters[start].clone()));
        };
        proof {
            lemma_moved_on(
                self.cursor.location,
                clusters,
                self.cursor.position as int,
                behind.position as int,
                end.position as int,
            );
        }
        Ok((Some(self.new_token(kind, start, end)), end))
    }

    /// Takes the next token: passes the white space and the token behind it,
    /// and gives the token with the place behind it. Gives none, and stands at
    /// the end of the text, where only white space is left.
    ///
    /// The text behind the white space must start with a token: see
    /// [`Lexer::try_next`] for text that may not.
    pub fn next(&mut self) -> (token: Option<Token>)
        requires
            can_step(old(self)@),
        ensures
            final(self)@ == stepped(old(self)@),
            token_view(token) == step_token(old(self)@),
    {
        let (token, cursor) = self.scan().unwrap();
        self.cursor = cursor;
        token
    }

    /// Takes the next token where there is one to take. Fails, and stays where
    /// it is, where the text behind the white space starts with a cluster that
    /// starts no token, or with a number that has more than one decimal point.
    pub fn try_next(&mut self) -> (result: Result<Option<Token>, LexError>)
        ensures
            match result {
                Ok(token) => {
                    &&& can_step(old(self)@)
                    &&& final(self)@ == stepped(old(self)@)
                    &&& token_view(token) == step_token(old(self)@)
                },
                Err(error) => {
                    &&& !can_step(old(self)@)
                    &&& final(self)@ == old(self)@
                    &&& match shape_at(old(self)@.clusters, token_start(old(self)@)) {
                        Shape::Unexpected => {
                            &&& error matches LexError::UnexpectedCharacter(cluster)
                            &&& cluster@ == old(self)@.clusters[token_start(old(self)@)]
                        },
                        _ => error matches LexError::SecondDecimalPoint,
                    }
                },
            },
    {
        match self.scan() {
            Ok(_) => Ok(self.next()),
            Err(error) => Err(error),
        }
    }
}

} // verus!
