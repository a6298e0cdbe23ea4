//! A path as the sequence of its segments.

use crate::bytes::append_bytes;
use vstd::prelude::*;
use vstd::slice::{slice_subrange, slice_to_vec};

verus! {

/// The byte `/`, which sets one segment off from the next.
pub const SEPARATOR: u8 = 0x2f;

/// Whether a byte string holds no separator, as every segment does.
pub open spec fn is_segment(bytes: Seq<u8>) -> bool {
    forall|i: int| 0 <= i < bytes.len() ==> bytes[i] != SEPARATOR
}

/// The place of the first separator in `path`, or the length of `path`
/// where it has none.
pub open spec fn first_separator(path: Seq<u8>) -> nat
    decreases path.len(),
{
    if path.len() == 0 || path[0] == SEPARATOR {
        0
    } else {
        1 + first_separator(path.drop_first())
    }
}

/// The segments of a path: what stands before its first separator, between
/// two separators, and behind its last. A path of `n` separators has
/// `n + 1` segments, some of which may be empty: the first of `/usr` is, and
/// so is the last of `usr/`.
pub open spec fn segments(path: Seq<u8>) -> Seq<Seq<u8>>
    decreases path.len(),
{
    let end = first_separator(path) as int;
    if end < path.len() {
        seq![path.take(end)] + segments(path.skip(end + 1))
    } else {
        seq![path]
    }
}

/// The path that is made of the given segments, a separator between each
/// two of them.
pub open spec fn joined(segments: Seq<Seq<u8>>) -> Seq<u8>
    decreases segments.len(),
{
    if segments.len() == 0 {
        Seq::empty()
    } else if segments.len() == 1 {
        segments[0]
    } else {
        joined(segments.drop_last()) + seq![SEPARATOR] + segments.last()
    }
}

/// The byte strings that a vector of segments holds.
pub open spec fn texts(segments: Seq<Vec<u8>>) -> Seq<Seq<u8>> {
    segments.map_values(|segment: Vec<u8>| segment@)
}

/// [`first_separator`] is the one place with a separator and none before
/// it, or the length of a path without separator.
pub proof fn lemma_first_separator(path: Seq<u8>, end: int)
    requires
        0 <= end <= path.len(),
        is_segment(path.take(end)),
        end < path.len() ==> path[end] == SEPARATOR,
    ensures
        first_separator(path) == end,
    decreases path.len(),
{
    if end > 0 {
        assert(path.take(end)[0] == path[0]);
        let rest = path.drop_first();
        let front = rest.take(end - 1);
        assert forall|i: int| 0 <= i < front.len() implies #[trigger] front[i] != SEPARATOR by {
            assert(front[i] == path.take(end)[i + 1]);
        }
        lemma_first_separator(rest, end - 1);
    }
}

/// What [`first_separator`] finds: it lies within the path, no separator
/// stands before it, and one stands at it unless the path ends there.
pub proof fn lemma_first_separator_found(path: Seq<u8>)
    ensures
        first_separator(path) <= path.len(),
        is_segment(path.take(first_separator(path) as int)),
        first_separator(path) < path.len() ==> path[first_separator(path) as int] == SEPARATOR,
    decreases path.len(),
{
    if !(path.len() == 0 || path[0] == SEPARATOR) {
        let rest = path.drop_first();
        lemma_first_separator_found(rest);
        let end = first_separator(path) as int;
        let front = path.take(end);
        assert forall|i: int| 0 <= i < front.len() implies #[trigger] front[i] != SEPARATOR by {
            if i > 0 {
                assert(front[i] == rest.take(end - 1)[i - 1]);
            }
        }
    }
}

/// A path has at least one segment, and no segment holds a separator.
pub proof fn lemma_segments_are_segments(path: Seq<u8>)
    ensures
        segments(path).len() >= 1,
        forall|i: int| 0 <= i < segments(path).len() ==> is_segment(#[trigger] segments(path)[i]),
    decreases path.len(),
{
    lemma_first_separator_found(path);
    let end = first_separator(path) as int;
    if end < path.len() {
        lemma_segments_are_segments(path.skip(end + 1));
    } else {
        assert(path.take(end) =~= path);
    }
}

/// Two paths put together with a separator between them have the segments
/// of the first, then those of the second.
pub proof fn lemma_segments_of_two(left: Seq<u8>, right: Seq<u8>)
    ensures
        segments(left + seq![SEPARATOR] + right) == segments(left) + segments(right),
    decreases left.len(),
{
    let whole = left + seq![SEPARATOR] + right;
    lemma_first_separator_found(left);
    let end = first_separator(left) as int;
    assert(whole.take(end) =~= left.take(end));
    lemma_first_separator(whole, end);
    if end < left.len() {
        let rest = left.skip(end + 1);
        lemma_segments_of_two(rest, right);
        assert(whole.skip(end + 1) =~= rest + seq![SEPARATOR] + right);
        assert(segments(whole) =~= segments(left) + segments(right));
    } else {
        assert(left.take(end) =~= left);
        assert(whole.skip(end + 1) =~= right);
    }
}

/// Two runs of segments put together join to the two paths with a
/// separator between them.
pub proof fn lemma_joined_of_two(left: Seq<Seq<u8>>, right: Seq<Seq<u8>>)
    requires
        left.len() >= 1,
        right.len() >= 1,
    ensures
        joined(left + right) == joined(left) + seq![SEPARATOR] + joined(right),
    decreases right.len(),
{
    let whole = left + right;
    assert(whole.last() == right.last());
    if right.len() == 1 {
        assert(whole.drop_last() =~= left);
    } else {
        lemma_joined_of_two(left, right.drop_last());
        assert(whole.drop_last() =~= left + right.drop_last());
        assert(joined(whole) =~= joined(left) + seq![SEPARATOR] + joined(right));
    }
}

/// Joining the segments of a path gives the path back.
pub proof fn lemma_joined_segments(path: Seq<u8>)
    ensures
        joined(segments(path)) == path,
    decreases path.len(),
{
    lemma_first_separator_found(path);
    let end = first_separator(path) as int;
    if end < path.len() {
        let rest = path.skip(end + 1);
        lemma_joined_segments(rest);
        lemma_segments_are_segments(rest);
        lemma_joined_of_two(seq![path.take(end)], segments(rest));
        assert(joined(seq![path.take(end)]) == path.take(end));
        assert(path =~= path.take(end) + seq![SEPARATOR] + rest);
    }
}

/// Splitting what was joined gives the segments back, as long as there is
/// at least one and none of them holds a separator.
pub proof fn lemma_segments_joined(parts: Seq<Seq<u8>>)
    requires
        parts.len() >= 1,
        forall|i: int| 0 <= i < parts.len() ==> is_segment(#[trigger] parts[i]),
    ensures
        segments(joined(parts)) == parts,
    decreases parts.len(),
{
    let last = parts.last();
    assert(is_segment(last));
    assert(last.take(last.len() as int) =~= last);
    lemma_first_separator(last, last.len() as int);
    assert(segments(last) =~= seq![last]);
    if parts.len() > 1 {
        let front = parts.drop_last();
        assert forall|i: int| 0 <= i < front.len() implies is_segment(#[trigger] front[i]) by {
            assert(front[i] == parts[i]);
        }
        lemma_segments_joined(front);
        lemma_segments_of_two(joined(front), last);
        assert(parts =~= front + seq![last]);
    }
}

/// Splits a path into its segments, see [`segments`].
pub fn split_segments(path: &[u8]) -> (parts: Vec<Vec<u8>>)
    ensures
        texts(parts@) == segments(path@),
{
    let mut parts: Vec<Vec<u8>> = Vec::new();
    let mut start: usize = 0;
    let mut done = false;
    assert(path@.skip(0) =~= path@);
    assert(texts(parts@) + segments(path@) =~= segments(path@));
    while !done
        invariant
            start <= path@.len(),
            !done ==> segments(path@) == texts(parts@) + segments(path@.skip(start as int)),
            done ==> segments(path@) == texts(parts@),
        decreases path@.len() - start + (if done { 0int } else { 1int }),
    {
        let ghost rest = path@.skip(start as int);
        let mut end: usize = start;
        while end < path.len() && path[end] != SEPARATOR
            invariant
                start <= end <= path@.len(),
                forall|i: int| start <= i < end ==> path@[i] != SEPARATOR,
            decreases path@.len() - end,
        {
            end += 1;
        }
        let segment = slice_to_vec(slice_subrange(path, start, end));
        proof {
            assert(rest.take(end - start) =~= segment@);
            lemma_first_separator(rest, end - start);
            assert(texts(parts@.push(segment)) =~= texts(parts@) + seq![segment@]);
            if end < path@.len() {
                assert(rest.skip(end - start + 1) =~= path@.skip(end + 1));
            } else {
                assert(rest =~= segment@);
            }
        }
        parts.push(segment);
        if end == path.len() {
            done = true;
        } else {
            start = end + 1;
        }
    }
    parts
}

/// Joins segments to a path, see [`joined`].
pub fn join_segments(parts: &Vec<Vec<u8>>) -> (path: Vec<u8>)
    ensures
        path@ == joined(texts(parts@)),
{
    let mut path: Vec<u8> = Vec::new();
    let mut i: usize = 0;
    while i < parts.len()
        invariant
            i <= parts@.len(),
            path@ == joined(texts(parts@).take(i as int)),
        decreases parts@.len() - i,
    {
        if i > 0 {
            path.push(SEPARATOR);
        }
        append_bytes(&mut path, parts[i].as_slice());
        proof {
            let upto = texts(parts@).take(i + 1);
            assert(upto.drop_last() =~= texts(parts@).take(i as int));
            assert(upto.last() == parts@[i as int]@);
            if i == 0 {
                assert(path@ =~= upto[0]);
            } else {
                assert(path@ =~= joined(upto.drop_last()) + seq![SEPARATOR] + upto.last());
            }
        }
        i += 1;
    }
    assert(texts(parts@).take(i as int) =~= texts(parts@));
    path
}

} // verus!
