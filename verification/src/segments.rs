//! Slash-separated path text: its segments, the rule that settles `.` and
//! `..` segments, and how one path is reached from another.

use vstd::prelude::*;
use normalize_path::NormalizePath;
use crate::text::{chars_of, texts};

verus! {

/// The pieces of `text` between slashes. There is always at least one piece;
/// a piece is empty where two slashes meet or the text starts or ends with one.
pub open spec fn split(text: Seq<char>) -> Seq<Seq<char>>
    decreases text.len(),
{
    if text.len() == 0 {
        seq![Seq::empty()]
    } else {
        let before = split(text.drop_last());
        if text.last() == '/' {
            before.push(Seq::empty())
        } else {
            before.drop_last().push(before.last().push(text.last()))
        }
    }
}

/// The segment `.`, which names the directory it stands in.
pub open spec fn is_here(segment: Seq<char>) -> bool {
    segment =~= seq!['.']
}

/// The segment `..`, which names the parent directory.
pub open spec fn is_parent(segment: Seq<char>) -> bool {
    segment =~= seq!['.', '.']
}

/// A segment that names a directory entry: not empty, not `.`, not `..`.
pub open spec fn is_name(segment: Seq<char>) -> bool {
    segment.len() > 0 && !is_here(segment) && !is_parent(segment)
}

/// One step of settling: an empty or `.` segment changes nothing, `..` drops
/// the segment before it (and is itself dropped where there is none), and any
/// other segment is kept.
pub open spec fn settle_one(stack: Seq<Seq<char>>, segment: Seq<char>) -> Seq<Seq<char>> {
    if segment.len() == 0 || is_here(segment) {
        stack
    } else if is_parent(segment) {
        if stack.len() > 0 {
            stack.drop_last()
        } else {
            stack
        }
    } else {
        stack.push(segment)
    }
}

/// `stack` after the segments of `segments` have been settled onto it, first
/// to last.
pub open spec fn settle(stack: Seq<Seq<char>>, segments: Seq<Seq<char>>) -> Seq<Seq<char>>
    decreases segments.len(),
{
    if segments.len() == 0 {
        stack
    } else {
        settle_one(settle(stack, segments.drop_last()), segments.last())
    }
}

/// The segments joined by single slashes.
pub open spec fn join(segments: Seq<Seq<char>>) -> Seq<char>
    decreases segments.len(),
{
    if segments.len() == 0 {
        Seq::empty()
    } else if segments.len() == 1 {
        segments[0]
    } else {
        join(segments.drop_last()).push('/') + segments.last()
    }
}

/// Whether the text starts at the root directory.
pub open spec fn is_rooted(text: Seq<char>) -> bool {
    text.len() > 0 && text[0] == '/'
}

/// Every segment of the stack names a directory entry.
pub open spec fn all_names(stack: Seq<Seq<char>>) -> bool {
    forall|i: int| 0 <= i < stack.len() ==> is_name(#[trigger] stack[i])
}

/// Settling one segment after another is settling their concatenation.
pub proof fn lemma_settle_concat(
    stack: Seq<Seq<char>>,
    first: Seq<Seq<char>>,
    second: Seq<Seq<char>>,
)
    ensures
        settle(stack, first + second) == settle(settle(stack, first), second),
    decreases second.len(),
{
    if second.len() == 0 {
        assert(first + second =~= first);
    } else {
        assert((first + second).drop_last() =~= first + second.drop_last());
        assert((first + second).last() == second.last());
        lemma_settle_concat(stack, first, second.drop_last());
    }
}

/// Settling keeps a stack of names a stack of names.
pub proof fn lemma_settle_names(stack: Seq<Seq<char>>, segments: Seq<Seq<char>>)
    requires
        all_names(stack),
    ensures
        all_names(settle(stack, segments)),
    decreases segments.len(),
{
    if segments.len() > 0 {
        lemma_settle_names(stack, segments.drop_last());
    }
}

/// A text has at least one piece.
pub proof fn lemma_split_some(text: Seq<char>)
    ensures
        split(text).len() >= 1,
    decreases text.len(),
{
    if text.len() > 0 {
        lemma_split_some(text.drop_last());
    }
}

/// A text without a slash is its own single piece.
pub proof fn lemma_split_one(text: Seq<char>)
    requires
        !text.contains('/'),
    ensures
        split(text) == seq![text],
    decreases text.len(),
{
    if text.len() == 0 {
        assert(text =~= Seq::empty());
    } else {
        assert(text.last() == text[text.len() - 1]);
        assert forall|i: int| 0 <= i < text.len() - 1 implies text.drop_last()[i] != '/' by {
            assert(text.drop_last()[i] == text[i]);
        }
        lemma_split_one(text.drop_last());
        assert(text.drop_last().push(text.last()) =~= text);
        assert(seq![text.drop_last()].drop_last().push(text) =~= seq![text]);
    }
}

/// The pieces of two texts with a slash between them are the pieces of the
/// first, then those of the second.
pub proof fn lemma_split_slash(first: Seq<char>, second: Seq<char>)
    ensures
        split(first.push('/') + second) == split(first) + split(second),
    decreases second.len(),
{
    let whole = first.push('/') + second;
    if second.len() == 0 {
        assert(whole =~= first.push('/'));
        assert(whole.drop_last() =~= first);
        assert(split(first).push(Seq::empty()) =~= split(first) + split(second));
    } else {
        let shorter = second.drop_last();
        assert(whole.drop_last() =~= first.push('/') + shorter);
        assert(whole.last() == second.last());
        lemma_split_slash(first, shorter);
        lemma_split_some(shorter);
        let before = split(first) + split(shorter);
        assert(before.last() == split(shorter).last());
        assert(before.drop_last() =~= split(first) + split(shorter).drop_last());
        if second.last() == '/' {
            assert(before.push(Seq::empty()) =~= split(first) + split(second));
        } else {
            assert(before.drop_last().push(before.last().push(second.last())) =~= split(first)
                + split(second));
        }
    }
}

/// The pieces of a text, joined by slashes, are the text.
pub proof fn lemma_join_split(text: Seq<char>)
    ensures
        join(split(text)) == text,
    decreases text.len(),
{
    if text.len() == 0 {
        assert(text =~= Seq::empty());
    } else {
        let shorter = text.drop_last();
        lemma_join_split(shorter);
        lemma_split_some(shorter);
        let before = split(shorter);
        assert(shorter.push(text.last()) =~= text);
        if text.last() == '/' {
            let pieces = before.push(Seq::empty());
            assert(pieces.drop_last() =~= before);
            assert(join(pieces) =~= join(before).push('/'));
        } else {
            let grown = before.last().push(text.last());
            let pieces = before.drop_last().push(grown);
            assert(pieces.drop_last() =~= before.drop_last());
            if before.len() > 1 {
                assert(join(pieces) =~= (join(before.drop_last()).push('/') + before.last()).push(
                    text.last(),
                ));
            }
        }
    }
}

/// Settling a list of names onto a stack appends them.
pub proof fn lemma_settle_all_names(stack: Seq<Seq<char>>, names: Seq<Seq<char>>)
    requires
        all_names(names),
    ensures
        settle(stack, names) == stack + names,
    decreases names.len(),
{
    if names.len() == 0 {
        assert(stack + names =~= stack);
    } else {
        assert(all_names(names.drop_last())) by {
            assert forall|i: int| 0 <= i < names.drop_last().len() implies is_name(
                #[trigger] names.drop_last()[i],
            ) by {
                assert(names.drop_last()[i] == names[i]);
            }
        }
        lemma_settle_all_names(stack, names.drop_last());
        assert(is_name(names[names.len() - 1]));
        assert((stack + names.drop_last()).push(names.last()) =~= stack + names);
    }
}

/// A path made of names only, separated by single slashes.
pub open spec fn is_plain(text: Seq<char>) -> bool {
    all_names(split(text))
}

/// A plain path stays as it is when its segments are settled and joined.
pub proof fn lemma_plain_is_normal(text: Seq<char>)
    requires
        is_plain(text),
    ensures
        join(settle(Seq::empty(), split(text))) == text,
        !is_rooted(text),
{
    lemma_settle_all_names(Seq::empty(), split(text));
    assert(Seq::<Seq<char>>::empty() + split(text) =~= split(text));
    lemma_join_split(text);
    lemma_split_some(text);
    if is_rooted(text) {
        lemma_first_piece(text);
        assert(split(text)[0].len() == 0);
        assert(!is_name(split(text)[0]));
    }
}

/// The first piece of a text that starts with a slash is empty.
pub proof fn lemma_first_piece(text: Seq<char>)
    requires
        is_rooted(text),
    ensures
        split(text).len() >= 2,
        split(text)[0].len() == 0,
    decreases text.len(),
{
    if text.len() == 1 {
        assert(text.drop_last() =~= Seq::empty());
        assert(text.last() == '/');
    } else {
        assert(text.drop_last()[0] == text[0]);
        lemma_first_piece(text.drop_last());
    }
}

/// No segment of the list holds a slash.
pub open spec fn no_slashes(segments: Seq<Seq<char>>) -> bool {
    forall|i: int| 0 <= i < segments.len() ==> !(#[trigger] segments[i]).contains('/')
}

/// The pieces of a text hold no slash.
pub proof fn lemma_split_no_slashes(text: Seq<char>)
    ensures
        no_slashes(split(text)),
    decreases text.len(),
{
    if text.len() == 0 {
        assert(!Seq::<char>::empty().contains('/'));
    } else {
        lemma_split_no_slashes(text.drop_last());
        lemma_split_some(text.drop_last());
        let before = split(text.drop_last());
        let pieces = split(text);
        assert forall|i: int| 0 <= i < pieces.len() implies !(#[trigger] pieces[i]).contains(
            '/',
        ) by {
            if i < before.len() - 1 {
                assert(pieces[i] == before[i]);
            } else if text.last() == '/' {
                if i == before.len() - 1 {
                    assert(pieces[i] == before[i]);
                } else {
                    assert(pieces[i] =~= Seq::empty());
                }
            } else {
                let old = before.last();
                assert(!old.contains('/'));
                if pieces[i].contains('/') {
                    let at = pieces[i].index_of('/');
                    assert(pieces[i][at] == '/');
                    assert(at < old.len());
                    assert(old[at] == '/');
                }
            }
        }
    }
}

/// Settling brings no slash into a stack.
pub proof fn lemma_settle_no_slashes(stack: Seq<Seq<char>>, segments: Seq<Seq<char>>)
    requires
        no_slashes(stack),
        no_slashes(segments),
    ensures
        no_slashes(settle(stack, segments)),
    decreases segments.len(),
{
    if segments.len() > 0 {
        assert(no_slashes(segments.drop_last())) by {
            assert forall|i: int| 0 <= i < segments.drop_last().len() implies !(
            #[trigger] segments.drop_last()[i]).contains('/') by {
                assert(segments.drop_last()[i] == segments[i]);
            }
        }
        lemma_settle_no_slashes(stack, segments.drop_last());
        assert(!segments[segments.len() - 1].contains('/'));
    }
}

/// Segments without slashes, joined and split again, are the same segments.
pub proof fn lemma_split_join(segments: Seq<Seq<char>>)
    requires
        segments.len() > 0,
        no_slashes(segments),
    ensures
        split(join(segments)) == segments,
    decreases segments.len(),
{
    if segments.len() == 1 {
        lemma_split_one(segments[0]);
        assert(seq![segments[0]] =~= segments);
    } else {
        let fewer = segments.drop_last();
        assert(no_slashes(fewer)) by {
            assert forall|i: int| 0 <= i < fewer.len() implies !(#[trigger] fewer[i]).contains(
                '/',
            ) by {
                assert(fewer[i] == segments[i]);
            }
        }
        lemma_split_join(fewer);
        lemma_split_slash(join(fewer), segments.last());
        assert(!segments[segments.len() - 1].contains('/'));
        lemma_split_one(segments.last());
        assert(fewer + seq![segments.last()] =~= segments);
    }
}

/// What settling leaves, joined by slashes, is a plain path, or empty where
/// it leaves nothing.
pub proof fn lemma_settled_is_plain(stack: Seq<Seq<char>>, text: Seq<char>)
    requires
        all_names(stack),
        no_slashes(stack),
    ensures
        ({
            let names = settle(stack, split(text));
            &&& all_names(names)
            &&& no_slashes(names)
            &&& names.len() > 0 ==> split(join(names)) == names && is_plain(join(names))
            &&& names.len() == 0 ==> join(names).len() == 0
        }),
{
    let names = settle(stack, split(text));
    lemma_split_no_slashes(text);
    lemma_settle_names(stack, split(text));
    lemma_settle_no_slashes(stack, split(text));
    if names.len() > 0 {
        lemma_split_join(names);
    }
}

/// Settling one segment is one step.
pub proof fn lemma_settle_single(stack: Seq<Seq<char>>, segment: Seq<char>)
    ensures
        settle(stack, seq![segment]) == settle_one(stack, segment),
{
    let one = seq![segment];
    assert(one.drop_last() =~= Seq::<Seq<char>>::empty());
    assert(settle(stack, one.drop_last()) == stack);
    assert(one.last() == segment);
}

/// Settling and joining a second time changes nothing.
pub proof fn lemma_settled_twice(text: Seq<char>)
    ensures
        ({
            let once = join(settle(Seq::empty(), split(text)));
            join(settle(Seq::empty(), split(once))) == once
        }),
{
    let names = settle(Seq::empty(), split(text));
    let once = join(names);
    lemma_settled_is_plain(Seq::empty(), text);
    if names.len() > 0 {
        lemma_plain_is_normal(once);
    } else {
        assert(once =~= Seq::empty());
        assert(split(once) =~= seq![Seq::empty()]);
        lemma_settle_single(Seq::empty(), Seq::empty());
    }
}

fn settle_segment(stack: &mut Vec<String>, chars: &Vec<char>, text: &str, from: usize, to: usize)
    requires
        chars@ == text@,
        from <= to <= chars.len(),
    ensures
        texts(final(stack)@) == settle_one(texts(old(stack)@), text@.subrange(from as int, to as int)),
{
    let ghost segment = text@.subrange(from as int, to as int);
    let ghost before = texts(stack@);
    let length: usize = to - from;
    if length == 0 {
        return ;
    }
    let here = length == 1 && chars[from] == '.';
    let parent = length == 2 && chars[from] == '.' && chars[from + 1] == '.';
    assert(here == is_here(segment)) by {
        if is_here(segment) {
            assert(segment[0] == '.');
        }
    }
    assert(parent == is_parent(segment)) by {
        if is_parent(segment) {
            assert(segment[0] == '.');
            assert(segment[1] == '.');
        }
    }
    if here {
    } else if parent {
        if stack.len() > 0 {
            stack.pop();
            assert(texts(stack@) =~= before.drop_last());
        }
    } else {
        stack.push(text.substring_char(from, to).to_owned());
        assert(texts(stack@) =~= before.push(segment));
    }
}

/// Settles the segments of `text` onto `stack`.
pub fn push_segments(stack: &mut Vec<String>, text: &str)
    ensures
        texts(final(stack)@) == settle(texts(old(stack)@), split(text@)),
{
    let chars = chars_of(text);
    let ghost start_stack = texts(stack@);
    let ghost mut done: Seq<Seq<char>> = Seq::empty();
    let mut from: usize = 0;
    let mut at: usize = 0;
    assert(text@.subrange(0, 0) =~= Seq::empty());
    assert(split(text@.take(0)) =~= done.push(text@.subrange(0, 0)));
    while at < chars.len()
        invariant
            chars@ == text@,
            from <= at <= chars.len(),
            split(text@.take(at as int)) == done.push(text@.subrange(from as int, at as int)),
            texts(stack@) == settle(start_stack, done),
        decreases chars.len() - at,
    {
        let ghost prefix = text@.take(at as int + 1);
        assert(prefix.drop_last() =~= text@.take(at as int));
        assert(prefix.last() == text@[at as int]);
        if chars[at] == '/' {
            settle_segment(stack, &chars, text, from, at);
            proof {
                let segment = text@.subrange(from as int, at as int);
                let grown = done.push(segment);
                assert(grown.drop_last() =~= done);
                assert(grown.last() == segment);
                done = grown;
                assert(text@.subrange(at as int + 1, at as int + 1) =~= Seq::empty());
            }
            from = at + 1;
        } else {
            proof {
                let segment = text@.subrange(from as int, at as int);
                assert(done.push(segment).drop_last() =~= done);
                assert(segment.push(text@[at as int]) =~= text@.subrange(
                    from as int,
                    at as int + 1,
                ));
            }
        }
        at += 1;
    }
    assert(text@.take(at as int) =~= text@);
    settle_segment(stack, &chars, text, from, at);
    proof {
        let segment = text@.subrange(from as int, at as int);
        assert(done.push(segment).drop_last() =~= done);
    }
}

/// Joins the segments with single slashes.
pub fn join_segments(stack: &Vec<String>) -> (joined: String)
    ensures
        joined@ == join(texts(stack@)),
{
    let mut joined = String::new();
    let ghost all = texts(stack@);
    let mut at: usize = 0;
    while at < stack.len()
        invariant
            at <= stack.len(),
            all == texts(stack@),
            joined@ == join(all.take(at as int)),
        decreases stack.len() - at,
    {
        let ghost next = all.take(at as int + 1);
        assert(next.drop_last() =~= all.take(at as int));
        assert(next.last() == stack@[at as int]@);
        if at > 0 {
            proof {
                reveal_strlit("/");
            }
            joined.append("/");
            assert(joined@ =~= join(all.take(at as int)).push('/'));
        } else {
            assert(join(all.take(0)) =~= Seq::<char>::empty());
        }
        joined.append(stack[at].as_str());
        at += 1;
    }
    assert(all.take(at as int) =~= all);
    joined
}

/// The normal form that `normalize_path` gives a path: the path without its
/// redundant separators, `.` segments and `..` segments.
pub uninterp spec fn normal_form(path: Seq<char>) -> Seq<char>;

/// The normal form of a path.
///
/// Calls `NormalizePath::normalize` of `normalize_path` on the path, and
/// takes the result as text again; it is made of stretches of the text, so
/// nothing is lost. Nothing is claimed of the result but that it depends on
/// the path alone.
#[verifier::external_body]
pub(crate) fn normal_path(path: &str) -> (normal: String)
    ensures
        normal@ == normal_form(path@),
{
    std::path::Path::new(path).normalize().to_string_lossy().into_owned()
}

/// The text without the slashes it starts with.
pub open spec fn without_leading_slashes(text: Seq<char>) -> Seq<char>
    decreases text.len(),
{
    if is_rooted(text) {
        without_leading_slashes(text.drop_first())
    } else {
        text
    }
}

/// The text without the slashes it starts with.
pub fn strip_leading_slashes(text: &str) -> (rest: String)
    ensures
        rest@ == without_leading_slashes(text@),
{
    let chars = chars_of(text);
    let mut from: usize = 0;
    assert(text@.skip(0) =~= text@);
    while from < chars.len() && chars[from] == '/'
        invariant
            chars@ == text@,
            from <= chars.len(),
            without_leading_slashes(text@) == without_leading_slashes(text@.skip(from as int)),
        decreases chars.len() - from,
    {
        assert(text@.skip(from as int).drop_first() =~= text@.skip(from as int + 1));
        from += 1;
    }
    assert(text@.skip(from as int) =~= text@.subrange(from as int, text@.len() as int));
    text.substring_char(from, chars.len()).to_owned()
}

/// `path` as it is reached from the directory `base`: a rooted path stands
/// for itself, and any other is appended to `base` behind a slash.
pub open spec fn appended(base: Seq<char>, path: Seq<char>) -> Seq<char> {
    if is_rooted(path) {
        path
    } else if base.len() == 0 || base.last() == '/' {
        base + path
    } else {
        base.push('/') + path
    }
}

/// `path` as it is reached from the directory `base`.
pub fn append_path(base: &str, path: &str) -> (whole: String)
    ensures
        whole@ == appended(base@, path@),
{
    if path.unicode_len() > 0 && path.get_char(0) == '/' {
        return path.to_owned();
    }
    let length = base.unicode_len();
    let mut whole = base.to_owned();
    if length > 0 && base.get_char(length - 1) != '/' {
        proof {
            reveal_strlit("/");
        }
        whole.append("/");
        assert(whole@ =~= base@.push('/'));
    }
    whole.append(path);
    whole
}

} // verus!
