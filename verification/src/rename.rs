//! Renaming one entry: where it goes, and what is done about it.
//!
//! Nothing here touches the file system. The caller finds out what exists,
//! asks for the steps, and carries them out.

use crate::convention::Convention;
use crate::convert_path::{
    convert_basename, convert_full, convert_full_except_prefix, converted_basename,
    converted_full, converted_full_except_prefix, outcome,
};
use crate::error::PathConvertError;
use crate::prefix::{attached, begins_with, rest_behind};
use vstd::prelude::*;

verus! {

/// What the user is told about one entry.
#[derive(Clone, Copy, Debug, PartialEq, Eq, Structural)]
pub enum Notice {
    /// Nothing.
    Silent,
    /// Where the entry goes: `'source' -> 'destination'`.
    Mapping,
    /// That the destination exists and was left alone.
    Collision,
}

/// What is done about one entry once its destination is known.
#[derive(Clone, Copy, Debug, PartialEq, Eq, Structural)]
pub struct Steps {
    /// Whether the directory of the destination, and what is missing above
    /// it, is created first.
    pub create_parent: bool,
    /// Whether the entry is renamed.
    pub rename: bool,
    /// What the user is told.
    pub notice: Notice,
}

/// Where an entry goes.
///
/// With `is_full_path` every name of the path is converted, but for those
/// of `prefix` where one is given; without it only the final segment is,
/// and `prefix` is not looked at.
pub open spec fn destined(
    path: Seq<u8>,
    from: Option<Convention>,
    to: Convention,
    is_full_path: bool,
    prefix: Option<Seq<u8>>,
) -> Result<Seq<u8>, PathConvertError> {
    if is_full_path {
        match prefix {
            Some(kept) => converted_full_except_prefix(path, kept, from, to),
            None => converted_full(path, from, to),
        }
    } else {
        converted_basename(path, from, to)
    }
}

/// Whether an entry is passed by because its destination exists and may
/// not be replaced. A dry run passes nothing by: it only tells.
pub open spec fn collides(destination_exists: bool, is_dry_run: bool, no_clobber: bool) -> bool {
    !is_dry_run && destination_exists && no_clobber
}

/// The steps for one entry.
///
/// - A dry run changes nothing and tells where the entry would go.
/// - An entry whose destination exists is passed by where `no_clobber`
///   asks for it, and that is told only to a user who asked for detail.
/// - Any other entry is renamed, after the directory of its destination
///   was created where it is missing, and where it goes is told only to a
///   user who asked for detail.
pub open spec fn planned(
    destination_exists: bool,
    parent_missing: bool,
    is_verbose: bool,
    is_dry_run: bool,
    no_clobber: bool,
) -> Steps {
    if is_dry_run {
        Steps { create_parent: false, rename: false, notice: Notice::Mapping }
    } else if collides(destination_exists, is_dry_run, no_clobber) {
        Steps {
            create_parent: false,
            rename: false,
            notice: if is_verbose {
                Notice::Collision
            } else {
                Notice::Silent
            },
        }
    } else {
        Steps {
            create_parent: parent_missing,
            rename: true,
            notice: if is_verbose {
                Notice::Mapping
            } else {
                Notice::Silent
            },
        }
    }
}

/// The steps of an entry about which nothing is done and nothing is told.
pub open spec fn idle() -> Steps {
    Steps { create_parent: false, rename: false, notice: Notice::Silent }
}

/// The steps for one entry, given how the computing of its destination
/// went: nothing is done about an entry that has no destination.
pub open spec fn planned_for(
    converted: Result<Vec<u8>, PathConvertError>,
    destination_exists: bool,
    parent_missing: bool,
    is_verbose: bool,
    is_dry_run: bool,
    no_clobber: bool,
) -> Steps {
    match converted {
        Ok(_) => planned(destination_exists, parent_missing, is_verbose, is_dry_run, no_clobber),
        Err(_) => idle(),
    }
}

/// The steps never harm what they should spare: a dry run changes nothing,
/// an existing destination is not replaced against `no_clobber`, and a
/// directory is created only for a rename that follows.
pub proof fn lemma_planned_spares(
    destination_exists: bool,
    parent_missing: bool,
    is_verbose: bool,
    is_dry_run: bool,
    no_clobber: bool,
)
    ensures
        ({
            let steps = planned(
                destination_exists,
                parent_missing,
                is_verbose,
                is_dry_run,
                no_clobber,
            );
            &&& is_dry_run ==> !steps.rename && !steps.create_parent
            &&& destination_exists && no_clobber ==> !steps.rename
            &&& steps.create_parent ==> steps.rename && parent_missing
            &&& steps.rename <==> !is_dry_run && !(destination_exists && no_clobber)
        }),
{
}

/// Where an entry is found once `source` has been renamed to
/// `destination`: an entry that begins with `source` has moved along with
/// it, any other is where it was.
pub open spec fn relocated(entry: Seq<u8>, source: Seq<u8>, destination: Seq<u8>) -> Seq<u8> {
    if begins_with(entry, source) {
        if rest_behind(entry, source).len() == 0 {
            destination
        } else {
            attached(destination, rest_behind(entry, source))
        }
    } else {
        entry
    }
}

/// Where an entry is found once the first `done` entries of a listing have
/// been renamed, one after the other, each to the destination that stands
/// at its place.
pub open spec fn relocated_by(
    entry: Seq<u8>,
    entries: Seq<Seq<u8>>,
    destinations: Seq<Seq<u8>>,
    done: nat,
) -> Seq<u8>
    decreases done,
{
    if done == 0 {
        entry
    } else {
        relocated(
            relocated_by(entry, entries, destinations, (done - 1) as nat),
            entries[done - 1],
            destinations[done - 1],
        )
    }
}

/// Whether a listing hands out what a directory holds before the directory
/// itself: no entry comes after one that it begins with.
pub open spec fn contents_first(entries: Seq<Seq<u8>>) -> bool {
    forall|i: int, j: int|
        0 <= i < j < entries.len() ==> !begins_with(#[trigger] entries[j], #[trigger] entries[i])
}

/// Why a directory is walked contents first: whatever the entries before
/// it were renamed to, an entry is still found under the path by which the
/// listing names it when its turn comes.
pub proof fn lemma_contents_first_keeps_entries(
    entries: Seq<Seq<u8>>,
    destinations: Seq<Seq<u8>>,
    done: nat,
    next: int,
)
    requires
        contents_first(entries),
        destinations.len() == entries.len(),
        done <= next < entries.len(),
    ensures
        relocated_by(entries[next], entries, destinations, done) == entries[next],
    decreases done,
{
    if done > 0 {
        lemma_contents_first_keeps_entries(entries, destinations, (done - 1) as nat, next);
        assert(!begins_with(entries[next], entries[done - 1]));
    }
}

/// Computes where an entry goes, see [`destined`].
pub fn destination(
    path: &[u8],
    from_convention: Option<Convention>,
    to_convention: Convention,
    is_full_path: bool,
    prefix: Option<&[u8]>,
) -> (converted: Result<Vec<u8>, PathConvertError>)
    ensures
        outcome(converted) == destined(
            path@,
            from_convention,
            to_convention,
            is_full_path,
            match prefix {
                Some(kept) => Some(kept@),
                None => None,
            },
        ),
{
    if is_full_path {
        match prefix {
            Some(kept) => convert_full_except_prefix(path, kept, from_convention, to_convention),
            None => convert_full(path, from_convention, to_convention),
        }
    } else {
        convert_basename(path, from_convention, to_convention)
    }
}

/// Computes where an entry goes that a walk through a directory has handed
/// out. Whatever was asked for the paths named by the user, such an entry
/// has its final segment converted and nothing else: the directories above
/// it are entries of their own, and their turn comes after it.
pub fn destination_in_walk(
    entry: &[u8],
    from_convention: Option<Convention>,
    to_convention: Convention,
) -> (converted: Result<Vec<u8>, PathConvertError>)
    ensures
        outcome(converted) == converted_basename(entry@, from_convention, to_convention),
{
    destination(entry, from_convention, to_convention, false, None)
}

/// Decides what is done about one entry once it is known whether it has a
/// destination, see [`planned_for`]. What is asked of the file system
/// counts only for an entry that has one.
pub fn plan_for(
    converted: &Result<Vec<u8>, PathConvertError>,
    destination_exists: bool,
    parent_missing: bool,
    is_verbose: bool,
    is_dry_run: bool,
    no_clobber: bool,
) -> (steps: Steps)
    ensures
        steps == planned_for(
            *converted,
            destination_exists,
            parent_missing,
            is_verbose,
            is_dry_run,
            no_clobber,
        ),
{
    match converted {
        Ok(_) => plan(destination_exists, parent_missing, is_verbose, is_dry_run, no_clobber),
        Err(_) => Steps { create_parent: false, rename: false, notice: Notice::Silent },
    }
}

/// Decides what is left to do once the directory of the destination has
/// been seen to: the directory comes first, and the rename follows only
/// where creating it did not fail. An entry that could not be renamed for
/// want of its directory is not told of as renamed.
pub fn follow_up(steps: Steps, create_failed: bool) -> (rest: Steps)
    ensures
        !rest.create_parent,
        rest.rename == (steps.rename && !create_failed),
        rest.notice == if create_failed {
            Notice::Silent
        } else {
            steps.notice
        },
{
    Steps {
        create_parent: false,
        rename: steps.rename && !create_failed,
        notice: if create_failed {
            Notice::Silent
        } else {
            steps.notice
        },
    }
}

/// Decides what is done about one entry, see [`planned`].
///
/// `destination_exists` says whether something is found at the
/// destination; `parent_missing` says whether the destination lies in a
/// directory that does not exist yet.
pub fn plan(
    destination_exists: bool,
    parent_missing: bool,
    is_verbose: bool,
    is_dry_run: bool,
    no_clobber: bool,
) -> (steps: Steps)
    ensures
        steps == planned(destination_exists, parent_missing, is_verbose, is_dry_run, no_clobber),
{
    if is_dry_run {
        Steps { create_parent: false, rename: false, notice: Notice::Mapping }
    } else if destination_exists && no_clobber {
        let notice = if is_verbose {
            Notice::Collision
        } else {
            Notice::Silent
        };
        Steps { create_parent: false, rename: false, notice }
    } else {
        let notice = if is_verbose {
            Notice::Mapping
        } else {
            Notice::Silent
        };
        Steps { create_parent: parent_missing, rename: true, notice }
    }
}

} // verus!
