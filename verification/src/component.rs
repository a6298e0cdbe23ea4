//! One path segment: its stem, its extension, and its conversion.

use crate::bytes::{lemma_encoding_of_two, lemma_text_of_bytes};
use crate::casing::{recase, recased_stem};
use crate::convention::Convention;
use crate::error::PathConvertError;
use vstd::prelude::*;
use vstd::utf8::*;

verus! {

/// The byte `.`, which sets the extension off from the stem.
pub const DOT: u8 = 0x2e;

/// Whether a segment carries no name: the empty segment, `.` and `..`.
/// Such a segment belongs to the shape of the path and has neither stem nor
/// extension.
pub open spec fn is_structural(segment: Seq<u8>) -> bool {
    ||| segment.len() == 0
    ||| segment.len() == 1 && segment[0] == DOT
    ||| segment.len() == 2 && segment[0] == DOT && segment[1] == DOT
}

/// Whether a segment says nothing about which entry a path names: the
/// empty segment and `.`.
pub open spec fn is_passed_over(segment: Seq<u8>) -> bool {
    segment.len() == 0 || (segment.len() == 1 && segment[0] == DOT)
}

/// The place of the last `.` in `name`, if it has one.
pub open spec fn last_dot(name: Seq<u8>) -> Option<int>
    decreases name.len(),
{
    if name.len() == 0 {
        None
    } else if name.last() == DOT {
        Some(name.len() - 1)
    } else {
        last_dot(name.drop_last())
    }
}

/// The stem of a segment: what stands before its last `.`, or all of it
/// where it has no `.`. A segment that is structural, or that has nothing
/// before its only `.`, has no stem.
pub open spec fn stem(segment: Seq<u8>) -> Option<Seq<u8>> {
    if is_structural(segment) {
        None
    } else {
        match last_dot(segment) {
            None => Some(segment),
            Some(dot) => if dot == 0 {
                None
            } else {
                Some(segment.take(dot))
            },
        }
    }
}

/// The extension of a segment: what stands after its last `.`, the `.`
/// left out. A segment that is structural, or that has no `.`, has no
/// extension.
pub open spec fn extension(segment: Seq<u8>) -> Option<Seq<u8>> {
    if is_structural(segment) {
        None
    } else {
        match last_dot(segment) {
            None => None,
            Some(dot) => Some(segment.skip(dot + 1)),
        }
    }
}

/// A recased stem with its extension, if it has one, put back behind a `.`.
pub open spec fn with_extension(stem: Seq<char>, extension: Option<Seq<char>>) -> Seq<char> {
    match extension {
        Some(extension) => stem + seq!['.'] + extension,
        None => stem,
    }
}

/// The text of an extension, if there is one.
pub open spec fn text_of(extension: Option<Seq<u8>>) -> Option<Seq<char>> {
    match extension {
        Some(bytes) => Some(decode_utf8(bytes)),
        None => None,
    }
}

/// The text of a conversion that succeeded, or the error of one that
/// failed.
pub open spec fn text_outcome(result: Result<String, PathConvertError>) -> Result<
    Seq<char>,
    PathConvertError,
> {
    match result {
        Ok(name) => Ok(name@),
        Err(error) => Err(error),
    }
}

/// What a segment is converted to.
///
/// - A segment that is not valid UTF-8 has no text to recase.
/// - A segment with neither stem nor extension cannot be converted.
/// - A segment that is all extension, such as `.gitignore`, stays as it is.
/// - Otherwise the stem is recased, and the extension follows it untouched.
pub open spec fn converted_component(
    component: Seq<u8>,
    from: Option<Convention>,
    to: Convention,
) -> Result<Seq<char>, PathConvertError> {
    if !valid_utf8(component) {
        Err(PathConvertError::InvalidUtf8Path)
    } else {
        match stem(component) {
            Some(stem) => Ok(
                with_extension(
                    recased_stem(decode_utf8(stem), from, to),
                    text_of(extension(component)),
                ),
            ),
            None => if extension(component) is Some {
                Ok(decode_utf8(component))
            } else {
                Err(PathConvertError::InvalidPath)
            },
        }
    }
}

/// What [`last_dot`] finds is a `.`, and no `.` comes after it.
pub proof fn lemma_last_dot(name: Seq<u8>)
    ensures
        match last_dot(name) {
            Some(dot) => 0 <= dot < name.len() && name[dot] == DOT && forall|i: int|
                dot < i < name.len() ==> name[i] != DOT,
            None => forall|i: int| 0 <= i < name.len() ==> name[i] != DOT,
        },
    decreases name.len(),
{
    if name.len() > 0 && name.last() != DOT {
        let front = name.drop_last();
        lemma_last_dot(front);
        assert(forall|i: int| 0 <= i < front.len() ==> front[i] == name[i]);
    }
}

/// Whether a segment carries no name, see [`is_structural`].
pub fn has_no_name(segment: &[u8]) -> (structural: bool)
    ensures
        structural == is_structural(segment@),
{
    let n = segment.len();
    n == 0 || (n == 1 && segment[0] == DOT) || (n == 2 && segment[0] == DOT && segment[1] == DOT)
}

/// Finds the last `.` of a name, see [`last_dot`].
pub fn find_last_dot(name: &[u8]) -> (found: Option<usize>)
    ensures
        match found {
            Some(dot) => last_dot(name@) == Some(dot as int),
            None => last_dot(name@) is None,
        },
{
    let mut i: usize = name.len();
    assert(name@.take(i as int) =~= name@);
    while i > 0
        invariant
            i <= name@.len(),
            last_dot(name@) == last_dot(name@.take(i as int)),
        decreases i,
    {
        assert(name@.take(i as int).drop_last() =~= name@.take(i - 1));
        if name[i - 1] == DOT {
            return Some(i - 1);
        }
        i -= 1;
    }
    None
}

/// Puts an extension, if there is one, back behind a recased stem, see
/// [`with_extension`].
pub fn attach_extension(stem: String, extension: Option<&str>) -> (name: String)
    ensures
        name@ == with_extension(
            stem@,
            match extension {
                Some(text) => Some(text@),
                None => None,
            },
        ),
{
    match extension {
        Some(text) => {
            let mut name = stem;
            name.append(".");
            name.append(text);
            proof {
                reveal_strlit(".");
                assert("."@ =~= seq!['.']);
            }
            name
        },
        None => stem,
    }
}

/// A `.` in a text stands between two characters: the bytes before it, the
/// bytes from it on and the bytes after it are texts of their own.
pub proof fn lemma_split_at_dot(name: Seq<u8>, dot: int)
    requires
        valid_utf8(name),
        0 <= dot < name.len(),
        name[dot] == DOT,
    ensures
        is_char_boundary(name, dot),
        valid_utf8(name.take(dot)),
        valid_utf8(name.skip(dot)),
        is_char_boundary(name.skip(dot), 1),
        valid_utf8(name.skip(dot + 1)),
{
    is_char_boundary_iff_not_is_continuation_byte(name, dot);
    valid_utf8_split(name, dot);
    let tail = name.skip(dot);
    assert(tail[0] == DOT);
    assert(is_leading_byte_width_1(tail[0]));
    assert(pop_first_scalar(tail) =~= name.skip(dot + 1));
    is_char_boundary_start_end_of_seq(pop_first_scalar(tail));
    reveal_with_fuel(is_char_boundary, 2);
}

/// A text with a `.` in it is the text before the `.`, the `.`, and the
/// text after it.
pub proof fn lemma_text_around_dot(name: Seq<u8>, dot: int)
    requires
        valid_utf8(name),
        0 <= dot < name.len(),
        name[dot] == DOT,
    ensures
        decode_utf8(name) == decode_utf8(name.take(dot)) + seq!['.'] + decode_utf8(
            name.skip(dot + 1),
        ),
        encode_utf8(seq!['.']) == seq![DOT],
{
    lemma_split_at_dot(name, dot);
    decode_utf8_split(name, dot);
    let tail = name.skip(dot);
    decode_utf8_split(tail, 1);
    assert(tail.skip(1) =~= name.skip(dot + 1));
    let point = tail.take(1);
    assert(point =~= seq![DOT]);
    assert(valid_utf8(point)) by {
        valid_utf8_split(tail, 1);
    }
    assert(decode_utf8(point) =~= seq!['.']) by {
        reveal_with_fuel(decode_utf8, 2);
        assert(pop_first_scalar(point) =~= Seq::<u8>::empty());
        assert(decode_first_scalar(point) == 0x2e) by {
            assert(0x2eu8 & 0x7f == 0x2e) by (bit_vector);
        }
    }
    decode_utf8_encode_utf8(point);
}

/// Splitting a segment into stem and extension loses nothing of its own.
/// Take a segment with a stem, and two conventions such that recasing the
/// stem from the one to the other and back gives the stem again. Where the
/// recased stem is found again as the stem of the converted segment,
/// converting the segment there and back gives the segment again.
pub proof fn lemma_round_trip(component: Seq<u8>, from: Convention, to: Convention)
    requires
        valid_utf8(component),
        stem(component) is Some,
        ({
            let old_stem = decode_utf8(stem(component)->Some_0);
            let new_stem = recased_stem(old_stem, Some(from), to);
            let there = converted_component(component, Some(from), to)->Ok_0;
            &&& recased_stem(new_stem, Some(to), from) == old_stem
            &&& stem(encode_utf8(there)) == Some(encode_utf8(new_stem))
        }),
    ensures
        converted_component(component, Some(from), to) is Ok,
        converted_component(
            encode_utf8(converted_component(component, Some(from), to)->Ok_0),
            Some(to),
            from,
        ) == Ok::<Seq<char>, PathConvertError>(decode_utf8(component)),
{
    let old_stem = decode_utf8(stem(component)->Some_0);
    let new_stem = recased_stem(old_stem, Some(from), to);
    let there = converted_component(component, Some(from), to)->Ok_0;
    let back = encode_utf8(there);
    encode_utf8_valid_utf8(there);
    encode_utf8_decode_utf8(new_stem);
    lemma_last_dot(component);
    lemma_last_dot(back);
    match last_dot(component) {
        None => {
            assert(there == new_stem);
        },
        Some(dot) => {
            let kept = component.skip(dot + 1);
            lemma_split_at_dot(component, dot);
            lemma_text_around_dot(component, dot);
            decode_utf8_encode_utf8(kept);
            lemma_encoding_of_two(new_stem + seq!['.'], decode_utf8(kept));
            lemma_encoding_of_two(new_stem, seq!['.']);
            assert(back == encode_utf8(new_stem) + seq![DOT] + kept);
            let mark = encode_utf8(new_stem).len() as int;
            assert(back[mark] == DOT);
            assert(back.skip(mark + 1) =~= kept);
        },
    }
}

/// Converts one path segment to the convention `to_convention`, see
/// [`converted_component`].
///
/// With `from_convention` the words of the stem are found by that
/// convention's rules; without it they are guessed.
pub fn convert_component(
    component: &[u8],
    from_convention: Option<Convention>,
    to_convention: Convention,
) -> (converted: Result<String, PathConvertError>)
    ensures
        text_outcome(converted) == converted_component(component@, from_convention, to_convention),
{
    let whole = match core::str::from_utf8(component) {
        Ok(text) => text,
        Err(_) => {
            return Err(PathConvertError::InvalidUtf8Path);
        },
    };
    proof {
        lemma_text_of_bytes(whole);
    }
    if has_no_name(component) {
        return Err(PathConvertError::InvalidPath);
    }
    match find_last_dot(component) {
        None => Ok(attach_extension(recase(whole, from_convention, to_convention), None)),
        Some(dot) => {
            if dot == 0 {
                Ok(String::from_str(whole))
            } else {
                proof {
                    lemma_last_dot(component@);
                    lemma_split_at_dot(component@, dot as int);
                }
                let (stem_text, rest) = whole.split_at(dot);
                let (_, extension_text) = rest.split_at(1);
                proof {
                    lemma_text_of_bytes(stem_text);
                    lemma_text_of_bytes(extension_text);
                    assert(encode_utf8(stem_text@) =~= component@.take(dot as int));
                    assert(encode_utf8(extension_text@) =~= component@.skip(dot + 1));
                }
                Ok(
                    attach_extension(
                        recase(stem_text, from_convention, to_convention),
                        Some(extension_text),
                    ),
                )
            }
        },
    }
}

} // verus!
