//! One path as the beginning of another, component by component.
//!
//! Two paths are compared by what they lead through, not by how they are
//! written: `/usr/lib`, `/usr//lib/` and `/usr/./lib` have the same
//! components.

use crate::bytes::{append_bytes, same_bytes};
use crate::component::{is_passed_over, DOT};
use crate::segments::{
    first_separator, is_segment, join_segments, joined, lemma_first_separator_found,
    lemma_joined_segments, lemma_segments_are_segments, lemma_segments_joined,
    lemma_segments_of_two, segments, split_segments, texts, SEPARATOR,
};
use vstd::prelude::*;
use vstd::slice::slice_to_vec;

verus! {

/// Whether a path starts at the root: its first byte is a separator.
pub open spec fn is_rooted(path: Seq<u8>) -> bool {
    path.len() > 0 && path[0] == SEPARATOR
}

/// Whether the segment at `place` is a component of the path: it is not
/// empty, and it is not a `.` unless it is the first segment. Empty
/// segments come from a leading, a doubled or a trailing separator and lead
/// nowhere, and a `.` after the first segment stays where the path is.
pub open spec fn is_component(parts: Seq<Seq<u8>>, place: int) -> bool {
    parts[place].len() > 0 && (place == 0 || !is_passed_over(parts[place]))
}

/// The places of the components among the segments of a path, in order.
pub open spec fn component_places(parts: Seq<Seq<u8>>) -> Seq<int>
    decreases parts.len(),
{
    if parts.len() == 0 {
        Seq::empty()
    } else {
        let front = component_places(parts.drop_last());
        if is_component(parts, parts.len() - 1) {
            front.push(parts.len() - 1)
        } else {
            front
        }
    }
}

/// The components of a path: its names and its `..`, and a `.` that it
/// begins with. The root is not among them, see [`is_rooted`].
pub open spec fn components(path: Seq<u8>) -> Seq<Seq<u8>> {
    let parts = segments(path);
    let places = component_places(parts);
    Seq::new(places.len(), |k: int| parts[places[k]])
}

/// Whether `path` begins with `prefix`, component by component.
///
/// The empty prefix begins every path. For any other, both paths start at
/// the root or neither does, and the components of `prefix` are the first
/// components of `path`. So `/usr/lib` begins with `/usr`, with `/usr/`
/// and with `/usr//lib/.`, but not with `/us` and not with `usr`.
pub open spec fn begins_with(path: Seq<u8>, prefix: Seq<u8>) -> bool {
    ||| prefix.len() == 0
    ||| {
        &&& is_rooted(prefix) == is_rooted(path)
        &&& components(prefix).len() <= components(path).len()
        &&& components(path).take(components(prefix).len() as int) == components(prefix)
    }
}

/// What is left of `path` behind `prefix`, for a path that begins with it:
/// the path from its first component that is not one of the prefix on, and
/// nothing where it has no such component. Behind the empty prefix the
/// whole path is left.
pub open spec fn rest_behind(path: Seq<u8>, prefix: Seq<u8>) -> Seq<u8> {
    let parts = segments(path);
    let places = component_places(parts);
    let matched = components(prefix).len() as int;
    if prefix.len() == 0 {
        path
    } else if matched < places.len() {
        joined(parts.skip(places[matched]))
    } else {
        Seq::empty()
    }
}

/// A path put behind a prefix: the two, with a separator between them
/// unless the prefix is empty or ends in one.
pub open spec fn attached(prefix: Seq<u8>, rest: Seq<u8>) -> Seq<u8> {
    if prefix.len() == 0 || prefix.last() == SEPARATOR {
        prefix + rest
    } else {
        prefix + seq![SEPARATOR] + rest
    }
}

/// How a path begins before its first component: with a separator where
/// it starts at the root, with nothing where it does not.
pub open spec fn root_of(path: Seq<u8>) -> Seq<u8> {
    if is_rooted(path) {
        seq![SEPARATOR]
    } else {
        Seq::empty()
    }
}

/// The path that is made by putting pieces behind a start, one after the
/// other, see [`attached`]. A piece that is empty brings no name, and no
/// separator in front of the first name either: behind an empty start the
/// path stays empty until a piece with a name comes.
pub open spec fn pushed(start: Seq<u8>, pieces: Seq<Seq<u8>>) -> Seq<u8>
    decreases pieces.len(),
{
    if pieces.len() == 0 {
        start
    } else {
        attached(pushed(start, pieces.drop_last()), pieces.last())
    }
}

/// The places as plain numbers.
pub open spec fn places_of(places: Seq<usize>) -> Seq<int> {
    places.map_values(|place: usize| place as int)
}

/// What [`component_places`] holds: places of components, each within the
/// path, in rising order.
pub proof fn lemma_component_places(parts: Seq<Seq<u8>>)
    ensures
        component_places(parts).len() <= parts.len(),
        forall|k: int|
            0 <= k < component_places(parts).len() ==> {
                &&& 0 <= #[trigger] component_places(parts)[k] < parts.len()
                &&& is_component(parts, component_places(parts)[k])
            },
        forall|j: int, k: int|
            0 <= j < k < component_places(parts).len() ==> component_places(parts)[j]
                < component_places(parts)[k],
    decreases parts.len(),
{
    if parts.len() > 0 {
        let front = parts.drop_last();
        lemma_component_places(front);
        assert forall|k: int| 0 <= k < component_places(front).len() implies is_component(
            parts,
            #[trigger] component_places(front)[k],
        ) by {
            assert(front[component_places(front)[k]] == parts[component_places(front)[k]]);
        }
    }
}

/// Separators at the end of a path add nothing to what it leads through: a
/// path that is not empty has the components and the root of the same path
/// with one more separator behind it, so the two begin the same paths.
pub proof fn lemma_trailing_separator(path: Seq<u8>, prefix: Seq<u8>)
    requires
        prefix.len() > 0,
    ensures
        components(prefix + seq![SEPARATOR]) == components(prefix),
        is_rooted(prefix + seq![SEPARATOR]) == is_rooted(prefix),
        begins_with(path, prefix + seq![SEPARATOR]) == begins_with(path, prefix),
        rest_behind(path, prefix + seq![SEPARATOR]) == rest_behind(path, prefix),
{
    let longer = prefix + seq![SEPARATOR];
    let nothing = Seq::<u8>::empty();
    assert(longer =~= prefix + seq![SEPARATOR] + nothing);
    lemma_segments_of_two(prefix, nothing);
    assert(segments(nothing) =~= seq![nothing]);
    let parts = segments(longer);
    assert(parts =~= segments(prefix).push(nothing));
    assert(parts.drop_last() =~= segments(prefix));
    lemma_segments_are_segments(prefix);
    lemma_component_places(segments(prefix));
    assert(component_places(parts) == component_places(segments(prefix)));
    assert(components(longer) =~= components(prefix));
    assert(longer[0] == prefix[0]);
}

/// A path begins with itself, and nothing is left of it behind itself.
pub proof fn lemma_begins_with_itself(path: Seq<u8>)
    ensures
        begins_with(path, path),
        rest_behind(path, path).len() == 0,
{
    assert(components(path).take(components(path).len() as int) =~= components(path));
}

/// What is left of a path behind a prefix is made of the segments of the
/// path from the first component behind the prefix on.
pub proof fn lemma_rest_behind(path: Seq<u8>, prefix: Seq<u8>)
    requires
        prefix.len() > 0,
        components(prefix).len() < components(path).len(),
    ensures
        ({
            let next = component_places(segments(path))[components(prefix).len() as int];
            &&& 0 <= next < segments(path).len()
            &&& segments(rest_behind(path, prefix)) == segments(path).skip(next)
            &&& rest_behind(path, prefix).len() > 0
        }),
{
    let parts = segments(path);
    let next = component_places(parts)[components(prefix).len() as int];
    lemma_component_places(parts);
    lemma_segments_are_segments(path);
    let tail = parts.skip(next);
    assert forall|i: int| 0 <= i < tail.len() implies is_segment(#[trigger] tail[i]) by {
        assert(tail[i] == parts[next + i]);
    }
    lemma_segments_joined(tail);
    assert(tail[0] == parts[next]);
    assert(segments(joined(tail))[0].len() > 0);
    if joined(tail).len() == 0 {
        assert(segments(joined(tail)) =~= seq![joined(tail)]);
    }
}

/// Behind a run of segments, a run that opens with a component adds its
/// components to those of the first: the places of the first run stay,
/// and those of the second follow, each moved by the length of the first.
pub proof fn lemma_component_places_of_two(front: Seq<Seq<u8>>, back: Seq<Seq<u8>>)
    requires
        front.len() >= 1,
        back.len() >= 1,
        !is_passed_over(back[0]),
    ensures
        component_places(front + back) == component_places(front) + component_places(
            back,
        ).map_values(|place: int| place + front.len()),
        component_places(back).len() >= 1,
        component_places(back)[0] == 0,
    decreases back.len(),
{
    let whole = front + back;
    let moved = |place: int| place + front.len();
    assert(whole.last() == back.last());
    if back.len() == 1 {
        assert(whole.drop_last() =~= front);
        assert(back.drop_last() =~= Seq::<Seq<u8>>::empty());
        assert(component_places(back.drop_last()) =~= Seq::<int>::empty());
        assert(is_component(back, 0));
        assert(component_places(back) =~= seq![0int]);
        assert(is_component(whole, whole.len() - 1));
        assert(component_places(whole) =~= component_places(front) + component_places(
            back,
        ).map_values(moved));
    } else {
        let shorter = back.drop_last();
        assert(whole.drop_last() =~= front + shorter);
        assert(shorter[0] == back[0]);
        lemma_component_places_of_two(front, shorter);
        assert(is_component(whole, whole.len() - 1) == is_component(back, back.len() - 1));
        if is_component(back, back.len() - 1) {
            assert(component_places(back).map_values(moved) =~= component_places(
                shorter,
            ).map_values(moved).push(whole.len() - 1));
        }
        assert(component_places(whole) =~= component_places(front) + component_places(
            back,
        ).map_values(moved));
    }
}

/// The segments of a path behind a prefix: those of the prefix, but for an
/// empty one at its end, then those of the path.
pub proof fn lemma_segments_of_attached(left: Seq<u8>, right: Seq<u8>) -> (front: Seq<Seq<u8>>)
    requires
        left.len() > 0,
    ensures
        front.len() >= 1,
        segments(attached(left, right)) == front + segments(right),
        component_places(segments(left)) == component_places(front),
        forall|place: int| 0 <= place < front.len() ==> front[place] == segments(left)[place],
{
    lemma_segments_are_segments(left);
    if left.last() == SEPARATOR {
        let stem = left.drop_last();
        let nothing = Seq::<u8>::empty();
        let front = segments(stem);
        assert(left =~= stem + seq![SEPARATOR] + nothing);
        assert(attached(left, right) =~= stem + seq![SEPARATOR] + right);
        lemma_segments_of_two(stem, nothing);
        lemma_segments_of_two(stem, right);
        lemma_segments_are_segments(stem);
        assert(segments(nothing) =~= seq![nothing]);
        assert(segments(left) =~= front.push(nothing));
        assert(segments(left).drop_last() =~= front);
        front
    } else {
        lemma_segments_of_two(left, right);
        segments(left)
    }
}

/// A path that opens with a component, put behind another path, adds its
/// components to those of the other, and the whole starts at the root
/// exactly when the other does.
pub proof fn lemma_components_of_attached(left: Seq<u8>, right: Seq<u8>)
    requires
        !is_passed_over(segments(right)[0]),
    ensures
        components(attached(left, right)) == components(left) + components(right),
        root_of(attached(left, right)) == root_of(left),
        root_of(right) == Seq::<u8>::empty(),
        components(right).len() >= 1,
{
    let back = segments(right);
    lemma_segments_are_segments(right);
    lemma_joined_segments(right);
    if right.len() == 0 {
        assert(back =~= seq![right]);
    }
    lemma_first_separator_found(right);
    assert(!is_rooted(right)) by {
        if is_rooted(right) {
            assert(first_separator(right) == 0);
            assert(back[0] =~= right.take(0));
        }
    }
    lemma_component_places(back);
    if left.len() == 0 {
        assert(attached(left, right) =~= right);
        assert(segments(left) =~= seq![left]);
        assert(segments(left).drop_last() =~= Seq::<Seq<u8>>::empty());
        assert(component_places(segments(left).drop_last()) =~= Seq::<int>::empty());
        assert(!is_component(segments(left), 0));
        assert(component_places(segments(left)) =~= Seq::<int>::empty());
        assert(components(left) + components(right) =~= components(right));
        assert(component_places(back).len() >= 1) by {
            lemma_component_places_of_two(seq![left], back);
        }
    } else {
        let path = attached(left, right);
        let front = lemma_segments_of_attached(left, right);
        let parts = segments(path);
        lemma_component_places_of_two(front, back);
        lemma_component_places(front);
        let known = component_places(front).len() as int;
        assert(components(path).len() == known + components(right).len());
        assert forall|k: int| 0 <= k < components(path).len() implies components(path)[k] == (
        components(left) + components(right))[k] by {
            if k < known {
                let place = component_places(front)[k];
                assert(component_places(parts)[k] == place);
                assert(parts[place] == front[place]);
            } else {
                let place = component_places(back)[k - known];
                assert(component_places(parts)[k] == place + front.len());
                assert(parts[place + front.len()] == back[place]);
            }
        }
        assert(components(path) =~= components(left) + components(right));
        assert(path[0] == left[0]);
    }
}

/// Putting paths behind one another comes to the same whichever two are
/// put together first.
pub proof fn lemma_attached_in_any_order(first: Seq<u8>, second: Seq<u8>, third: Seq<u8>)
    ensures
        attached(attached(first, second), third) == attached(first, attached(second, third)),
{
    let front = attached(first, second);
    let back = attached(second, third);
    if second.len() > 0 {
        assert(front.last() == second.last());
    }
    assert(attached(front, third) =~= attached(first, back));
}

/// Pieces put behind a start are the start with the path behind it that
/// the pieces make by themselves, as long as there is a piece.
pub proof fn lemma_pushed_behind(start: Seq<u8>, pieces: Seq<Seq<u8>>)
    requires
        pieces.len() >= 1,
    ensures
        pushed(start, pieces) == attached(start, pushed(Seq::empty(), pieces)),
    decreases pieces.len(),
{
    let nothing = Seq::<u8>::empty();
    let front = pieces.drop_last();
    if pieces.len() == 1 {
        assert(front =~= Seq::<Seq<u8>>::empty());
        assert(pushed(start, front) == start);
        assert(pushed(nothing, front) == nothing);
        assert(attached(nothing, pieces.last()) =~= pieces.last());
    } else {
        lemma_pushed_behind(start, front);
        lemma_attached_in_any_order(start, pushed(nothing, front), pieces.last());
    }
}

/// Two runs of pieces put behind a start, one after the other, make what
/// the second run makes behind what the first has made.
pub proof fn lemma_pushed_of_two(start: Seq<u8>, first: Seq<Seq<u8>>, second: Seq<Seq<u8>>)
    ensures
        pushed(start, first + second) == pushed(pushed(start, first), second),
    decreases second.len(),
{
    if second.len() == 0 {
        assert(first + second =~= first);
    } else {
        lemma_pushed_of_two(start, first, second.drop_last());
        assert((first + second).drop_last() =~= first + second.drop_last());
        assert((first + second).last() == second.last());
    }
}

/// Taking off a prefix undoes putting a path behind it. A path that opens
/// with a component, put behind a prefix that is not empty, makes a path
/// that begins with the prefix and of which it is what is left.
pub proof fn lemma_attached_begins(prefix: Seq<u8>, rest: Seq<u8>)
    requires
        prefix.len() > 0,
        !is_passed_over(segments(rest)[0]),
    ensures
        begins_with(attached(prefix, rest), prefix),
        rest_behind(attached(prefix, rest), prefix) == rest,
{
    let path = attached(prefix, rest);
    let back = segments(rest);
    lemma_segments_are_segments(rest);
    lemma_joined_segments(rest);
    lemma_components_of_attached(prefix, rest);
    let front = lemma_segments_of_attached(prefix, rest);
    lemma_component_places_of_two(front, back);
    let known = components(prefix).len() as int;
    assert(components(path).take(known) =~= components(prefix));
    assert(path[0] == prefix[0]);
    assert(component_places(segments(path))[known] == front.len());
    assert(segments(path).skip(front.len() as int) =~= back);
}

/// Finds the components among the segments of a path, see
/// [`component_places`].
pub fn find_components(parts: &Vec<Vec<u8>>) -> (places: Vec<usize>)
    ensures
        places_of(places@) == component_places(texts(parts@)),
        forall|k: int| 0 <= k < places@.len() ==> #[trigger] places@[k] < parts@.len(),
{
    let mut places: Vec<usize> = Vec::new();
    let mut i: usize = 0;
    assert(places_of(places@) =~= Seq::<int>::empty());
    while i < parts.len()
        invariant
            i <= parts@.len(),
            places_of(places@) == component_places(texts(parts@).take(i as int)),
            forall|k: int| 0 <= k < places@.len() ==> #[trigger] places@[k] < i,
        decreases parts@.len() - i,
    {
        let ghost upto = texts(parts@).take(i + 1);
        assert(upto.drop_last() =~= texts(parts@).take(i as int));
        assert(upto[i as int] == parts@[i as int]@);
        let segment = parts[i].as_slice();
        let passed_over = segment.len() == 0 || (segment.len() == 1 && segment[0] == DOT);
        if segment.len() > 0 && (i == 0 || !passed_over) {
            assert(places_of(places@.push(i)) =~= places_of(places@).push(i as int));
            places.push(i);
        }
        i += 1;
    }
    assert(texts(parts@).take(i as int) =~= texts(parts@));
    places
}

/// Takes a prefix off a path: what is left of `path` behind `prefix` where
/// it begins with it, see [`begins_with`] and [`rest_behind`], and nothing
/// where it does not.
pub fn strip_prefix(path: &[u8], prefix: &[u8]) -> (rest: Option<Vec<u8>>)
    ensures
        match rest {
            Some(left) => begins_with(path@, prefix@) && left@ == rest_behind(path@, prefix@),
            None => !begins_with(path@, prefix@),
        },
{
    if prefix.len() == 0 {
        return Some(slice_to_vec(path));
    }
    let ours = split_segments(prefix);
    let theirs = split_segments(path);
    let our_places = find_components(&ours);
    let their_places = find_components(&theirs);
    let matched = our_places.len();
    let rooted = path.len() > 0 && path[0] == SEPARATOR;
    if (prefix[0] == SEPARATOR) != rooted || matched > their_places.len() {
        return None;
    }
    let mut k: usize = 0;
    while k < matched
        invariant
            k <= matched,
            prefix@.len() > 0,
            is_rooted(prefix@) == is_rooted(path@),
            matched == our_places@.len(),
            matched <= their_places@.len(),
            texts(ours@) == segments(prefix@),
            texts(theirs@) == segments(path@),
            places_of(our_places@) == component_places(texts(ours@)),
            places_of(their_places@) == component_places(texts(theirs@)),
            forall|j: int| 0 <= j < our_places@.len() ==> #[trigger] our_places@[j] < ours@.len(),
            forall|j: int|
                0 <= j < their_places@.len() ==> #[trigger] their_places@[j] < theirs@.len(),
            forall|j: int| 0 <= j < k ==> components(path@)[j] == components(prefix@)[j],
        decreases matched - k,
    {
        assert(places_of(our_places@)[k as int] == our_places@[k as int]);
        assert(places_of(their_places@)[k as int] == their_places@[k as int]);
        let ghost theirs_k = components(path@)[k as int];
        let ghost ours_k = components(prefix@)[k as int];
        assert(theirs_k == theirs@[their_places@[k as int] as int]@);
        assert(ours_k == ours@[our_places@[k as int] as int]@);
        if !same_bytes(theirs[their_places[k]].as_slice(), ours[our_places[k]].as_slice()) {
            assert(components(prefix@).len() == matched);
            assert(components(path@).take(matched as int)[k as int] == theirs_k);
            return None;
        }
        k += 1;
    }
    assert(components(path@).take(matched as int) =~= components(prefix@));
    let start = if matched < their_places.len() {
        assert(places_of(their_places@)[matched as int] == their_places@[matched as int]);
        their_places[matched]
    } else {
        theirs.len()
    };
    let mut tail: Vec<Vec<u8>> = Vec::new();
    let mut i: usize = start;
    assert(texts(tail@) =~= texts(theirs@).subrange(start as int, i as int));
    while i < theirs.len()
        invariant
            start <= i <= theirs@.len(),
            texts(tail@) == texts(theirs@).subrange(start as int, i as int),
        decreases theirs@.len() - i,
    {
        let segment = slice_to_vec(theirs[i].as_slice());
        assert(texts(theirs@)[i as int] == segment@);
        assert(texts(tail@.push(segment)) =~= texts(tail@).push(segment@));
        assert(texts(theirs@).subrange(start as int, i + 1) =~= texts(theirs@).subrange(
            start as int,
            i as int,
        ).push(segment@));
        tail.push(segment);
        i += 1;
    }
    assert(texts(tail@) =~= texts(theirs@).skip(start as int));
    Some(join_segments(&tail))
}

/// Whether `path` begins with `prefix`, component by component, see
/// [`begins_with`].
pub fn starts_with(path: &[u8], prefix: &[u8]) -> (begins: bool)
    ensures
        begins == begins_with(path@, prefix@),
{
    strip_prefix(path, prefix).is_some()
}

/// Puts a path behind a prefix, see [`attached`].
pub fn attach(prefix: &[u8], rest: &[u8]) -> (whole: Vec<u8>)
    ensures
        whole@ == attached(prefix@, rest@),
{
    let mut whole = slice_to_vec(prefix);
    if prefix.len() > 0 && prefix[prefix.len() - 1] != SEPARATOR {
        whole.push(SEPARATOR);
    }
    append_bytes(&mut whole, rest);
    whole
}

} // verus!
