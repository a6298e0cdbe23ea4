//! Recasing a stem: the one thing this library leaves to `convert_case`.

use crate::convention::Convention;
use convert_case::{Case, Casing};
use vstd::prelude::*;

verus! {

/// The cases of `convert_case`. An enum of plain variants, so it is read as
/// it stands.
#[verifier::external_type_specification]
pub struct ExCase(Case);

/// The text that `convert_case` makes of `stem` when it finds the words by
/// its own rules (separators, changes of case, digits) and writes them in
/// the case `to`.
pub uninterp spec fn recased(stem: Seq<char>, to: Case) -> Seq<char>;

/// The text that `convert_case` makes of `stem` when it finds the words by
/// the rules of the case `from` alone and writes them in the case `to`.
pub uninterp spec fn recased_from(stem: Seq<char>, from: Case, to: Case) -> Seq<char>;

/// Calls `Casing::to_case` of `convert_case` on `stem`.
///
/// Nothing is proved of this call. The contract only gives the string that
/// comes back a name, [`recased`]: the call reads nothing but its two
/// arguments, so equal arguments give equal strings.
#[verifier::external_body]
fn to_case(stem: &str, to: Case) -> (text: String)
    ensures
        text@ == recased(stem@, to),
{
    stem.to_case(to)
}

/// Calls `Casing::from_case` of `convert_case` on `stem`, and
/// `StateConverter::to_case` on what that returns.
///
/// Nothing is proved of these calls. The contract only gives the string
/// that comes back a name, [`recased_from`]: the calls read nothing but the
/// three arguments, so equal arguments give equal strings.
#[verifier::external_body]
fn from_case_to_case(stem: &str, from: Case, to: Case) -> (text: String)
    ensures
        text@ == recased_from(stem@, from, to),
{
    stem.from_case(from).to_case(to)
}

/// A stem written in the convention `to`. With a source convention the
/// words are found by that convention's rules; without one they are
/// guessed, and the way back to the old stem may be lost.
pub open spec fn recased_stem(stem: Seq<char>, from: Option<Convention>, to: Convention) -> Seq<
    char,
> {
    match from {
        Some(source) => recased_from(stem, source.case(), to.case()),
        None => recased(stem, to.case()),
    }
}

/// Writes `stem` in the convention `to`, see [`recased_stem`].
pub fn recase(stem: &str, from: Option<Convention>, to: Convention) -> (text: String)
    ensures
        text@ == recased_stem(stem@, from, to),
{
    match from {
        Some(source) => from_case_to_case(stem, Case::from(source), Case::from(to)),
        None => to_case(stem, Case::from(to)),
    }
}

} // verus!
