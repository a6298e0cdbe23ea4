//! Converting a path: its last name, all of its names, or all of them
//! behind a prefix that is left alone.

use crate::component::{
    convert_component, converted_component, has_no_name, is_passed_over, is_structural, DOT,
};
use crate::convention::Convention;
use crate::error::PathConvertError;
use crate::prefix::{
    attach, attached, begins_with, component_places, components, find_components, is_component,
    is_rooted, lemma_attached_begins, lemma_begins_with_itself, lemma_components_of_attached,
    lemma_pushed_behind, lemma_pushed_of_two, lemma_trailing_separator, places_of, pushed,
    rest_behind, root_of, strip_prefix,
};
use crate::segments::{
    is_segment, join_segments, joined, lemma_first_separator, lemma_joined_of_two,
    lemma_joined_segments, lemma_segments_are_segments, lemma_segments_joined,
    lemma_segments_of_two, segments, split_segments, texts, SEPARATOR,
};
use vstd::prelude::*;
use vstd::slice::slice_to_vec;
use vstd::utf8::*;

verus! {

/// The bytes of a conversion that succeeded, or the error of one that
/// failed.
pub open spec fn outcome(result: Result<Vec<u8>, PathConvertError>) -> Result<
    Seq<u8>,
    PathConvertError,
> {
    match result {
        Ok(path) => Ok(path@),
        Err(error) => Err(error),
    }
}

/// What a segment of a path is turned into. A structural segment is part
/// of the shape of the path and stays; any other is converted as a name.
pub open spec fn converted_segment(
    segment: Seq<u8>,
    from: Option<Convention>,
    to: Convention,
) -> Result<Seq<u8>, PathConvertError> {
    if is_structural(segment) {
        Ok(segment)
    } else {
        match converted_component(segment, from, to) {
            Ok(name) => Ok(encode_utf8(name)),
            Err(error) => Err(error),
        }
    }
}

/// What a run of segments is turned into: each segment converted by
/// itself, or the error of the first one that cannot be.
pub open spec fn converted_segments(
    parts: Seq<Seq<u8>>,
    from: Option<Convention>,
    to: Convention,
) -> Result<Seq<Seq<u8>>, PathConvertError>
    decreases parts.len(),
{
    if parts.len() == 0 {
        Ok(Seq::empty())
    } else {
        match converted_segments(parts.drop_last(), from, to) {
            Err(error) => Err(error),
            Ok(front) => match converted_segment(parts.last(), from, to) {
                Err(error) => Err(error),
                Ok(last) => Ok(front.push(last)),
            },
        }
    }
}

/// What a path is turned into when all of its names are converted.
///
/// The path is written anew from its components: it starts at the root
/// where the old one does, and each component is put behind what stands so
/// far, a name converted and `.` and `..` as they are. A name that
/// converts to the empty text brings no separator with it in front of the
/// first name that is kept, so a path that does not start at the root
/// never comes to start there by losing a name.
pub open spec fn converted_full(path: Seq<u8>, from: Option<Convention>, to: Convention) -> Result<
    Seq<u8>,
    PathConvertError,
> {
    match converted_segments(components(path), from, to) {
        Ok(pieces) => Ok(pushed(root_of(path), pieces)),
        Err(error) => Err(error),
    }
}

/// Two results in a row: the first error if there is one, else both
/// values, put together by `both`.
pub open spec fn in_turn<T>(
    first: Result<T, PathConvertError>,
    second: Result<T, PathConvertError>,
    both: spec_fn(T, T) -> T,
) -> Result<T, PathConvertError> {
    match first {
        Err(error) => Err(error),
        Ok(left) => match second {
            Err(error) => Err(error),
            Ok(right) => Ok(both(left, right)),
        },
    }
}

/// A run of segments is converted segment by segment: the result of one
/// does not depend on its neighbours. On success the output has a segment
/// for each segment of the input, which is that segment converted by
/// itself; on failure the error is that of the first segment that fails by
/// itself.
pub proof fn lemma_converted_segments_each(
    parts: Seq<Seq<u8>>,
    from: Option<Convention>,
    to: Convention,
)
    ensures
        match converted_segments(parts, from, to) {
            Ok(out) => {
                &&& out.len() == parts.len()
                &&& forall|i: int|
                    0 <= i < parts.len() ==> converted_segment(#[trigger] parts[i], from, to)
                        == Ok::<Seq<u8>, PathConvertError>(out[i])
            },
            Err(error) => exists|i: int|
                {
                    &&& 0 <= i < parts.len()
                    &&& converted_segment(#[trigger] parts[i], from, to) == Err::<
                        Seq<u8>,
                        PathConvertError,
                    >(error)
                    &&& forall|j: int|
                        0 <= j < i ==> converted_segment(#[trigger] parts[j], from, to) is Ok
                },
        },
    decreases parts.len(),
{
    if parts.len() > 0 {
        let front = parts.drop_last();
        lemma_converted_segments_each(front, from, to);
        match converted_segments(front, from, to) {
            Err(error) => {
                let i = choose|i: int|
                    {
                        &&& 0 <= i < front.len()
                        &&& converted_segment(#[trigger] front[i], from, to) == Err::<
                            Seq<u8>,
                            PathConvertError,
                        >(error)
                        &&& forall|j: int|
                            0 <= j < i ==> converted_segment(#[trigger] front[j], from, to) is Ok
                    };
                assert(parts[i] == front[i]);
                assert forall|j: int| 0 <= j < i implies converted_segment(
                    #[trigger] parts[j],
                    from,
                    to,
                ) is Ok by {
                    assert(parts[j] == front[j]);
                }
            },
            Ok(out) => {
                assert forall|j: int| 0 <= j < front.len() implies converted_segment(
                    #[trigger] parts[j],
                    from,
                    to,
                ) == Ok::<Seq<u8>, PathConvertError>(out[j]) by {
                    assert(parts[j] == front[j]);
                }
                if converted_segment(parts.last(), from, to) is Err {
                    assert(parts[parts.len() - 1] == parts.last());
                }
            },
        }
    }
}

/// Two runs of segments, one behind the other, are converted as each is by
/// itself.
pub proof fn lemma_converted_segments_of_two(
    left: Seq<Seq<u8>>,
    right: Seq<Seq<u8>>,
    from: Option<Convention>,
    to: Convention,
)
    ensures
        converted_segments(left + right, from, to) == in_turn(
            converted_segments(left, from, to),
            converted_segments(right, from, to),
            |first: Seq<Seq<u8>>, second: Seq<Seq<u8>>| first + second,
        ),
    decreases right.len(),
{
    let whole = left + right;
    if right.len() == 0 {
        assert(whole =~= left);
        if let Ok(first) = converted_segments(left, from, to) {
            assert(first + Seq::<Seq<u8>>::empty() =~= first);
        }
    } else {
        assert(whole.drop_last() =~= left + right.drop_last());
        assert(whole.last() == right.last());
        lemma_converted_segments_of_two(left, right.drop_last(), from, to);
        if let Ok(first) = converted_segments(left, from, to) {
            if let Ok(second) = converted_segments(right.drop_last(), from, to) {
                if let Ok(last) = converted_segment(right.last(), from, to) {
                    assert((first + second).push(last) =~= first + second.push(last));
                }
            }
        }
    }
}

/// Converting a path behind another gives the conversion of the one
/// behind the conversion of the other: the two are converted without
/// regard to each other. It holds of every path in front and of every
/// path behind that opens with a component. Where one of them fails, so
/// does the whole, with the error of the one in front if it has one.
pub proof fn lemma_converted_full_of_two(
    left: Seq<u8>,
    right: Seq<u8>,
    from: Option<Convention>,
    to: Convention,
)
    requires
        !is_passed_over(segments(right)[0]),
    ensures
        converted_full(attached(left, right), from, to) == in_turn(
            converted_full(left, from, to),
            converted_full(right, from, to),
            |first: Seq<u8>, second: Seq<u8>| attached(first, second),
        ),
{
    lemma_components_of_attached(left, right);
    lemma_converted_segments_of_two(components(left), components(right), from, to);
    lemma_converted_segments_each(components(right), from, to);
    if let Ok(first) = converted_segments(components(left), from, to) {
        if let Ok(second) = converted_segments(components(right), from, to) {
            lemma_pushed_of_two(root_of(left), first, second);
            lemma_pushed_behind(pushed(root_of(left), first), second);
        }
    }
}

/// What is put behind a start never changes how the start begins, and
/// pieces free of separators never make a path that starts at the root by
/// themselves.
pub proof fn lemma_pushed_keeps_root(start: Seq<u8>, pieces: Seq<Seq<u8>>)
    ensures
        is_rooted(start) ==> is_rooted(pushed(start, pieces)),
        start.len() == 0 && (forall|i: int| 0 <= i < pieces.len() ==> is_segment(#[trigger] pieces[i]))
            ==> !is_rooted(pushed(start, pieces)),
    decreases pieces.len(),
{
    if pieces.len() > 0 {
        let front = pieces.drop_last();
        lemma_pushed_keeps_root(start, front);
        let so_far = pushed(start, front);
        if start.len() == 0 && (forall|i: int|
            0 <= i < pieces.len() ==> is_segment(#[trigger] pieces[i])) {
            assert forall|i: int| 0 <= i < front.len() implies is_segment(#[trigger] front[i]) by {
                assert(front[i] == pieces[i]);
            }
            assert(is_segment(pieces[pieces.len() - 1]));
        }
    }
}

/// A full conversion keeps the root: a path that starts at the root is
/// converted to one that does, whatever its names convert to, and a path
/// that does not is converted to one that does not, as long as no
/// converted name holds a separator.
pub proof fn lemma_converted_full_keeps_root(
    path: Seq<u8>,
    from: Option<Convention>,
    to: Convention,
)
    requires
        converted_full(path, from, to) is Ok,
    ensures
        is_rooted(path) ==> is_rooted(converted_full(path, from, to)->Ok_0),
        (forall|i: int|
            0 <= i < components(path).len() ==> is_segment(
                #[trigger] converted_segments(components(path), from, to)->Ok_0[i],
            )) ==> is_rooted(converted_full(path, from, to)->Ok_0) == is_rooted(path),
{
    let pieces = converted_segments(components(path), from, to)->Ok_0;
    lemma_converted_segments_each(components(path), from, to);
    lemma_pushed_keeps_root(root_of(path), pieces);
}

/// A name that converts to the empty text leaves no trace in front of
/// what follows it: a path that opens with such a name is converted as
/// the path behind that name is.
pub proof fn lemma_converted_full_behind_lost_name(
    name: Seq<u8>,
    right: Seq<u8>,
    from: Option<Convention>,
    to: Convention,
)
    requires
        is_segment(name),
        converted_segment(name, from, to) == Ok::<Seq<u8>, PathConvertError>(Seq::empty()),
        !is_passed_over(segments(right)[0]),
    ensures
        converted_full(attached(name, right), from, to) == converted_full(right, from, to),
{
    lemma_converted_full_of_two(name, right, from, to);
    lemma_converted_full_of_one(name, from, to);
    if let Ok(second) = converted_full(right, from, to) {
        assert(attached(Seq::<u8>::empty(), second) =~= second);
    }
}

/// A path conversion fails for one reason only: a segment with a name is
/// not valid UTF-8.
pub proof fn lemma_converted_segment_fails(
    segment: Seq<u8>,
    from: Option<Convention>,
    to: Convention,
)
    ensures
        converted_segment(segment, from, to) is Err <==> !is_structural(segment) && !valid_utf8(
            segment,
        ),
        converted_segment(segment, from, to) is Err ==> converted_segment(segment, from, to)
            == Err::<Seq<u8>, PathConvertError>(PathConvertError::InvalidUtf8Path),
{
}

/// A path of one segment is converted as that segment is.
pub proof fn lemma_converted_full_of_one(
    segment: Seq<u8>,
    from: Option<Convention>,
    to: Convention,
)
    requires
        is_segment(segment),
    ensures
        converted_full(segment, from, to) == converted_segment(segment, from, to),
{
    let nothing = Seq::<Seq<u8>>::empty();
    assert(segment.take(segment.len() as int) =~= segment);
    lemma_first_separator(segment, segment.len() as int);
    let parts = segments(segment);
    assert(parts =~= seq![segment]);
    assert(parts.drop_last() =~= nothing);
    assert(component_places(nothing) =~= Seq::<int>::empty());
    assert(converted_segments(nothing, from, to) == Ok::<Seq<Seq<u8>>, PathConvertError>(nothing));
    if segment.len() == 0 {
        assert(!is_component(parts, 0));
        assert(components(segment) =~= nothing);
        assert(pushed(root_of(segment), nothing) =~= segment);
    } else {
        assert(is_component(parts, 0));
        assert(component_places(parts) =~= seq![0int]);
        assert(components(segment) =~= seq![segment]);
        assert(components(segment).drop_last() =~= nothing);
        assert(segment[0] != SEPARATOR);
        assert(components(segment).last() == segment);
        if let Ok(name) = converted_segment(segment, from, to) {
            let pieces = nothing.push(name);
            assert(converted_segments(components(segment), from, to) == Ok::<
                Seq<Seq<u8>>,
                PathConvertError,
            >(pieces));
            assert(pieces.drop_last() =~= nothing);
            assert(pushed(root_of(segment), nothing) == root_of(segment));
            assert(attached(Seq::<u8>::empty(), name) =~= name);
        }
    }
}

/// A full conversion fails exactly when the path has a component with a
/// name that is not valid UTF-8.
pub proof fn lemma_converted_full_fails(path: Seq<u8>, from: Option<Convention>, to: Convention)
    ensures
        converted_full(path, from, to) is Err <==> exists|i: int|
            0 <= i < components(path).len() && !is_structural(#[trigger] components(path)[i])
                && !valid_utf8(components(path)[i]),
        converted_full(path, from, to) is Err ==> converted_full(path, from, to) == Err::<
            Seq<u8>,
            PathConvertError,
        >(PathConvertError::InvalidUtf8Path),
{
    let parts = components(path);
    lemma_converted_segments_each(parts, from, to);
    assert forall|i: int| 0 <= i < parts.len() implies (converted_segment(
        #[trigger] parts[i],
        from,
        to,
    ) is Err <==> !is_structural(parts[i]) && !valid_utf8(parts[i])) by {
        lemma_converted_segment_fails(parts[i], from, to);
    }
}

/// Converts one segment of a path, see [`converted_segment`].
pub fn convert_segment(
    segment: &[u8],
    from_convention: Option<Convention>,
    to_convention: Convention,
) -> (converted: Result<Vec<u8>, PathConvertError>)
    ensures
        outcome(converted) == converted_segment(segment@, from_convention, to_convention),
{
    if has_no_name(segment) {
        Ok(slice_to_vec(segment))
    } else {
        match convert_component(segment, from_convention, to_convention) {
            Ok(name) => Ok(slice_to_vec(name.as_str().as_bytes())),
            Err(error) => Err(error),
        }
    }
}

/// Converts every name of a path to the convention `to_convention`, see
/// [`converted_full`].
///
/// The path is written anew from its components, one separator between
/// them; `.` and `..` among them stay as they are. The first name that
/// cannot be converted fails the whole path.
pub fn convert_full(
    path: &[u8],
    from_convention: Option<Convention>,
    to_convention: Convention,
) -> (converted: Result<Vec<u8>, PathConvertError>)
    ensures
        outcome(converted) == converted_full(path@, from_convention, to_convention),
{
    let parts = split_segments(path);
    let places = find_components(&parts);
    let mut out: Vec<u8> = Vec::new();
    if path.len() > 0 && path[0] == SEPARATOR {
        out.push(SEPARATOR);
    }
    assert(out@ =~= root_of(path@));
    let ghost mut done: Seq<Seq<u8>> = Seq::empty();
    let mut k: usize = 0;
    while k < places.len()
        invariant
            k <= places@.len(),
            texts(parts@) == segments(path@),
            places_of(places@) == component_places(texts(parts@)),
            forall|j: int| 0 <= j < places@.len() ==> #[trigger] places@[j] < parts@.len(),
            converted_segments(components(path@).take(k as int), from_convention, to_convention)
                == Ok::<Seq<Seq<u8>>, PathConvertError>(done),
            out@ == pushed(root_of(path@), done),
        decreases places@.len() - k,
    {
        let ghost upto = components(path@).take(k + 1);
        assert(places_of(places@)[k as int] == places@[k as int]);
        assert(upto.drop_last() =~= components(path@).take(k as int));
        assert(upto.last() == parts@[places@[k as int] as int]@);
        match convert_segment(parts[places[k]].as_slice(), from_convention, to_convention) {
            Ok(piece) => {
                proof {
                    assert(done.push(piece@).drop_last() =~= done);
                    done = done.push(piece@);
                }
                out = attach(out.as_slice(), piece.as_slice());
            },
            Err(error) => {
                proof {
                    assert(components(path@) =~= upto + components(path@).skip(k + 1));
                    lemma_converted_segments_of_two(
                        upto,
                        components(path@).skip(k + 1),
                        from_convention,
                        to_convention,
                    );
                }
                return Err(error);
            },
        }
        k += 1;
    }
    assert(components(path@).take(k as int) =~= components(path@));
    Ok(out)
}

/// The place of the final segment of a path: the last one that is neither
/// empty nor `.`. A path such as `/` or `./` has none.
pub open spec fn final_segment(parts: Seq<Seq<u8>>) -> Option<int>
    decreases parts.len(),
{
    if parts.len() == 0 {
        None
    } else if is_passed_over(parts.last()) {
        final_segment(parts.drop_last())
    } else {
        Some(parts.len() - 1)
    }
}

/// The parent portion of a path: the segments before its final segment,
/// joined. A path whose final segment is its first, or that has none, has
/// no parent portion.
pub open spec fn parent(path: Seq<u8>) -> Option<Seq<u8>> {
    match final_segment(segments(path)) {
        Some(last) => if last > 0 {
            Some(joined(segments(path).take(last)))
        } else {
            None
        },
        None => None,
    }
}

/// What a path is turned into when only its final segment is converted.
///
/// A path without a final segment, or whose final segment is `..`, has no
/// name to convert and stays as it is. In any other path the final segment
/// is converted in its place, and every other segment stays.
pub open spec fn converted_basename(
    path: Seq<u8>,
    from: Option<Convention>,
    to: Convention,
) -> Result<Seq<u8>, PathConvertError> {
    let parts = segments(path);
    match final_segment(parts) {
        None => Ok(path),
        Some(last) => if is_structural(parts[last]) {
            Ok(path)
        } else {
            match converted_segment(parts[last], from, to) {
                Ok(name) => Ok(joined(parts.update(last, name))),
                Err(error) => Err(error),
            }
        },
    }
}

/// What a path is turned into when its names are converted but for those
/// of a prefix.
///
/// Where the path begins with the prefix, component by component, the
/// result is the prefix as it is written, with the conversion of what is
/// left of the path put behind it; where nothing is left, it is the prefix
/// alone. Where the path does not begin with the prefix, the result is the
/// conversion of the whole path.
pub open spec fn converted_full_except_prefix(
    path: Seq<u8>,
    prefix: Seq<u8>,
    from: Option<Convention>,
    to: Convention,
) -> Result<Seq<u8>, PathConvertError> {
    if begins_with(path, prefix) {
        let rest = rest_behind(path, prefix);
        if rest.len() == 0 {
            Ok(prefix)
        } else {
            match converted_full(rest, from, to) {
                Ok(converted_rest) => Ok(attached(prefix, converted_rest)),
                Err(error) => Err(error),
            }
        }
    } else {
        converted_full(path, from, to)
    }
}

/// Behind a prefix that begins the path, only what is left of the path can
/// fail: the segments of the prefix are neither converted nor looked at,
/// so the conversion fails exactly when that of the rest fails, and with
/// its error.
pub proof fn lemma_except_prefix_fails(
    path: Seq<u8>,
    prefix: Seq<u8>,
    from: Option<Convention>,
    to: Convention,
)
    requires
        begins_with(path, prefix),
    ensures
        converted_full_except_prefix(path, prefix, from, to) is Err <==> converted_full(
            rest_behind(path, prefix),
            from,
            to,
        ) is Err,
        converted_full_except_prefix(path, prefix, from, to) is Err ==> converted_full_except_prefix(
            path,
            prefix,
            from,
            to,
        ) == converted_full(rest_behind(path, prefix), from, to),
{
    let rest = rest_behind(path, prefix);
    if rest.len() == 0 {
        assert(is_segment(rest));
        lemma_converted_full_of_one(rest, from, to);
    }
}

/// A path behind a prefix is converted behind it: where a path that opens
/// with a component is put behind a prefix that is not empty, converting
/// the whole but for the prefix gives the prefix with the conversion of
/// that path behind it.
pub proof fn lemma_except_prefix_of_attached(
    prefix: Seq<u8>,
    rest: Seq<u8>,
    from: Option<Convention>,
    to: Convention,
)
    requires
        prefix.len() > 0,
        !is_passed_over(segments(rest)[0]),
    ensures
        converted_full_except_prefix(attached(prefix, rest), prefix, from, to) == (match converted_full(
            rest,
            from,
            to,
        ) {
            Ok(converted_rest) => Ok(attached(prefix, converted_rest)),
            Err(error) => Err(error),
        }),
{
    lemma_attached_begins(prefix, rest);
    lemma_segments_are_segments(rest);
    if rest.len() == 0 {
        assert(segments(rest) =~= seq![rest]);
    }
}

/// A path that is its own prefix comes back as it is, whatever it holds,
/// and so does the prefix that is the path with a separator behind it.
pub proof fn lemma_except_prefix_of_itself(
    path: Seq<u8>,
    from: Option<Convention>,
    to: Convention,
)
    ensures
        converted_full_except_prefix(path, path, from, to) == Ok::<Seq<u8>, PathConvertError>(
            path,
        ),
        path.len() > 0 ==> converted_full_except_prefix(
            path,
            path + seq![SEPARATOR],
            from,
            to,
        ) == Ok::<Seq<u8>, PathConvertError>(path + seq![SEPARATOR]),
{
    lemma_begins_with_itself(path);
    if path.len() > 0 {
        lemma_trailing_separator(path, path);
    }
}

/// What [`final_segment`] finds is a segment that is not passed over, and
/// every segment after it is.
pub proof fn lemma_final_segment(parts: Seq<Seq<u8>>)
    ensures
        match final_segment(parts) {
            Some(last) => {
                &&& 0 <= last < parts.len()
                &&& !is_passed_over(parts[last])
                &&& forall|i: int| last < i < parts.len() ==> is_passed_over(#[trigger] parts[i])
            },
            None => forall|i: int| 0 <= i < parts.len() ==> is_passed_over(#[trigger] parts[i]),
        },
    decreases parts.len(),
{
    if parts.len() > 0 && is_passed_over(parts.last()) {
        let front = parts.drop_last();
        lemma_final_segment(front);
        assert(forall|i: int| 0 <= i < front.len() ==> front[i] == parts[i]);
    }
}

/// Converting the final segment of a path leaves its parent portion alone:
/// the segments before the final one are the first segments of the output,
/// and the output opens with the parent portion and a separator.
pub proof fn lemma_basename_keeps_parent(
    path: Seq<u8>,
    from: Option<Convention>,
    to: Convention,
)
    requires
        converted_basename(path, from, to) is Ok,
        parent(path) is Some,
    ensures
        ({
            let out = converted_basename(path, from, to)->Ok_0;
            let last = final_segment(segments(path))->Some_0;
            let kept = parent(path)->Some_0;
            &&& segments(out).len() > last
            &&& segments(out).take(last) == segments(path).take(last)
            &&& out.len() > kept.len()
            &&& out.take(kept.len() as int) == kept
            &&& out[kept.len() as int] == SEPARATOR
        }),
{
    let parts = segments(path);
    let out = converted_basename(path, from, to)->Ok_0;
    let last = final_segment(parts)->Some_0;
    lemma_final_segment(parts);
    lemma_segments_are_segments(path);
    lemma_joined_segments(path);
    let name = if is_structural(parts[last]) {
        parts[last]
    } else {
        converted_segment(parts[last], from, to)->Ok_0
    };
    let changed = parts.update(last, name);
    if is_structural(parts[last]) {
        assert(changed =~= parts);
    }
    assert(out == joined(changed));
    let left = parts.take(last);
    let right = changed.skip(last);
    assert(changed =~= left + right);
    lemma_joined_of_two(left, right);
    lemma_segments_of_two(joined(left), joined(right));
    assert forall|i: int| 0 <= i < left.len() implies is_segment(#[trigger] left[i]) by {
        assert(left[i] == parts[i]);
    }
    lemma_segments_joined(left);
    lemma_segments_are_segments(joined(right));
    assert(segments(out).take(last) =~= left);
    assert(out.take(joined(left).len() as int) =~= joined(left));
}

/// Where the converted name is free of separators, converting the final
/// segment of a path changes that one segment and no other: the output has
/// the segments of the input, with the converted name at the place of the
/// final one.
pub proof fn lemma_basename_changes_one_segment(
    path: Seq<u8>,
    from: Option<Convention>,
    to: Convention,
)
    requires
        final_segment(segments(path)) is Some,
        converted_segment(
            segments(path)[final_segment(segments(path))->Some_0],
            from,
            to,
        ) is Ok,
        is_segment(
            converted_segment(
                segments(path)[final_segment(segments(path))->Some_0],
                from,
                to,
            )->Ok_0,
        ),
    ensures
        converted_basename(path, from, to) is Ok,
        segments(converted_basename(path, from, to)->Ok_0) == segments(path).update(
            final_segment(segments(path))->Some_0,
            converted_segment(
                segments(path)[final_segment(segments(path))->Some_0],
                from,
                to,
            )->Ok_0,
        ),
{
    let parts = segments(path);
    let last = final_segment(parts)->Some_0;
    let name = converted_segment(parts[last], from, to)->Ok_0;
    lemma_final_segment(parts);
    lemma_segments_are_segments(path);
    lemma_joined_segments(path);
    let changed = parts.update(last, name);
    if is_structural(parts[last]) {
        assert(changed =~= parts);
    }
    assert forall|i: int| 0 <= i < changed.len() implies is_segment(#[trigger] changed[i]) by {
        if i != last {
            assert(changed[i] == parts[i]);
        }
    }
    lemma_segments_joined(changed);
}

/// Converting the final segment of a path fails exactly when that segment
/// has a name that is not valid UTF-8.
pub proof fn lemma_converted_basename_fails(
    path: Seq<u8>,
    from: Option<Convention>,
    to: Convention,
)
    ensures
        converted_basename(path, from, to) is Err <==> {
            &&& final_segment(segments(path)) is Some
            &&& !is_structural(segments(path)[final_segment(segments(path))->Some_0])
            &&& !valid_utf8(segments(path)[final_segment(segments(path))->Some_0])
        },
        converted_basename(path, from, to) is Err ==> converted_basename(path, from, to) == Err::<
            Seq<u8>,
            PathConvertError,
        >(PathConvertError::InvalidUtf8Path),
{
}

/// Finds the final segment among the segments of a path, see
/// [`final_segment`].
pub fn find_final_segment(parts: &Vec<Vec<u8>>) -> (found: Option<usize>)
    ensures
        match found {
            Some(last) => final_segment(texts(parts@)) == Some(last as int),
            None => final_segment(texts(parts@)) is None,
        },
{
    let mut i: usize = parts.len();
    assert(texts(parts@).take(i as int) =~= texts(parts@));
    while i > 0
        invariant
            i <= parts@.len(),
            final_segment(texts(parts@)) == final_segment(texts(parts@).take(i as int)),
        decreases i,
    {
        let ghost upto = texts(parts@).take(i as int);
        assert(upto.drop_last() =~= texts(parts@).take(i - 1));
        assert(upto.last() == parts@[i - 1]@);
        let segment = parts[i - 1].as_slice();
        let passed_over = segment.len() == 0 || (segment.len() == 1 && segment[0] == DOT);
        if !passed_over {
            return Some(i - 1);
        }
        i -= 1;
    }
    None
}

/// Converts the final segment of a path to the convention `to_convention`
/// and leaves the rest of the path as it is, see [`converted_basename`].
///
/// A path that names no entry of its own (`/`, `.`, one that ends in `..`)
/// is returned unchanged.
pub fn convert_basename(
    path: &[u8],
    from_convention: Option<Convention>,
    to_convention: Convention,
) -> (converted: Result<Vec<u8>, PathConvertError>)
    ensures
        outcome(converted) == converted_basename(path@, from_convention, to_convention),
{
    let mut parts = split_segments(path);
    match find_final_segment(&parts) {
        None => Ok(slice_to_vec(path)),
        Some(last) => {
            proof {
                lemma_final_segment(texts(parts@));
            }
            if has_no_name(parts[last].as_slice()) {
                Ok(slice_to_vec(path))
            } else {
                match convert_segment(parts[last].as_slice(), from_convention, to_convention) {
                    Ok(name) => {
                        assert(texts(parts@.update(last as int, name)) =~= texts(parts@).update(
                            last as int,
                            name@,
                        ));
                        parts.set(last, name);
                        Ok(join_segments(&parts))
                    },
                    Err(error) => Err(error),
                }
            }
        },
    }
}

/// Converts every name of a path but those of a prefix, see
/// [`converted_full_except_prefix`].
///
/// Where `path` begins with `prefix`, component by component, the result
/// is `prefix`, byte for byte, with what [`convert_full`] makes of the rest
/// of `path` behind it. Where it does not, the result is what
/// [`convert_full`] makes of `path`.
pub fn convert_full_except_prefix(
    path: &[u8],
    prefix: &[u8],
    from_convention: Option<Convention>,
    to_convention: Convention,
) -> (converted: Result<Vec<u8>, PathConvertError>)
    ensures
        outcome(converted) == converted_full_except_prefix(
            path@,
            prefix@,
            from_convention,
            to_convention,
        ),
{
    match strip_prefix(path, prefix) {
        Some(rest) => {
            if rest.len() == 0 {
                Ok(slice_to_vec(prefix))
            } else {
                match convert_full(rest.as_slice(), from_convention, to_convention) {
                    Ok(converted_rest) => Ok(attach(prefix, converted_rest.as_slice())),
                    Err(error) => Err(error),
                }
            }
        },
        None => convert_full(path, from_convention, to_convention),
    }
}

} // verus!
