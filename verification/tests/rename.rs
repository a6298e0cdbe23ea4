use convert_path::prefix::{attach, starts_with, strip_prefix};
use convert_path::rename::{
    destination, destination_in_walk, follow_up, plan, plan_for, Notice, Steps,
};
use convert_path::{Convention, PathConvertError};

/// A directory as a walk hands it out, what it holds before itself.
fn walked_contents_first() -> Vec<Vec<u8>> {
    [
        "Parent Dir/Child Dir/Grand Child File.txt",
        "Parent Dir/Child Dir/Another Grand Child File.txt",
        "Parent Dir/Child Dir",
        "Parent Dir/Child File.txt",
        "Parent Dir",
    ]
    .iter()
    .map(|entry| entry.as_bytes().to_vec())
    .collect()
}

#[test]
fn contents_first_walk_has_no_entry_behind_its_directory() {
    let entries = walked_contents_first();

    for earlier in 0..entries.len() {
        for later in earlier + 1..entries.len() {
            assert!(!starts_with(&entries[later], &entries[earlier]));
        }
    }
}

#[test]
fn contents_first_walk_renames_every_entry_where_it_was_found() {
    let entries = walked_contents_first();
    let mut tree = entries.clone();

    for entry in &entries {
        assert!(tree.contains(entry));
        let renamed = destination_in_walk(entry, None, Convention::SnakeCase).unwrap();
        for found in tree.iter_mut() {
            if let Some(rest) = strip_prefix(found, entry) {
                *found = if rest.is_empty() { renamed.clone() } else { attach(&renamed, &rest) };
            }
        }
    }

    let expected: Vec<Vec<u8>> = [
        "parent_dir/child_dir/grand_child_file.txt",
        "parent_dir/child_dir/another_grand_child_file.txt",
        "parent_dir/child_dir",
        "parent_dir/child_file.txt",
        "parent_dir",
    ]
    .iter()
    .map(|entry| entry.as_bytes().to_vec())
    .collect();
    assert_eq!(expected, tree);
}

#[test]
fn directory_first_walk_loses_its_entries() {
    let directory = b"Parent Dir".to_vec();
    let child = b"Parent Dir/Child File.txt".to_vec();
    assert!(starts_with(&child, &directory));

    let renamed = destination_in_walk(&directory, None, Convention::SnakeCase).unwrap();
    let moved = attach(&renamed, &strip_prefix(&child, &directory).unwrap());

    assert_eq!(b"parent_dir/Child File.txt".to_vec(), moved);
    assert_ne!(child, moved);
}

#[test]
fn destination_in_walk_converts_the_final_segment_only() {
    assert_eq!(
        Ok(b"Parent Dir/Child Dir/grand_child_file.txt".to_vec()),
        destination_in_walk(
            b"Parent Dir/Child Dir/Grand Child File.txt",
            None,
            Convention::SnakeCase
        )
    );
    assert_eq!(
        Ok(b"Parent Dir/child_dir".to_vec()),
        destination_in_walk(b"Parent Dir/Child Dir", None, Convention::SnakeCase)
    );
    assert_eq!(
        destination(b"Parent Dir/Child Dir", None, Convention::SnakeCase, false, None),
        destination_in_walk(b"Parent Dir/Child Dir", None, Convention::SnakeCase)
    );
}

#[test]
fn destination_of_a_directory_leaves_its_parent() {
    let actual = destination(b"/tmp/Parent Dir", None, Convention::SnakeCase, false, None);

    assert_eq!(Ok(b"/tmp/parent_dir".to_vec()), actual);
}

#[test]
fn destination_in_basename_mode() {
    let actual = destination(
        b"/tmp/Parent Dir/Some Child.txt",
        None,
        Convention::SnakeCase,
        false,
        None,
    );

    assert_eq!(Ok(b"/tmp/Parent Dir/some_child.txt".to_vec()), actual);
}

#[test]
fn destination_in_basename_mode_ignores_the_prefix() {
    let actual = destination(
        b"/tmp/Parent Dir/Some Child.txt",
        None,
        Convention::SnakeCase,
        false,
        Some(b"/tmp"),
    );

    assert_eq!(Ok(b"/tmp/Parent Dir/some_child.txt".to_vec()), actual);
}

#[test]
fn destination_in_full_path_mode() {
    let actual = destination(
        b"Parent Dir/Some Child.txt",
        None,
        Convention::SnakeCase,
        true,
        None,
    );

    assert_eq!(Ok(b"parent_dir/some_child.txt".to_vec()), actual);
}

#[test]
fn destination_in_full_path_mode_behind_a_prefix() {
    let actual = destination(
        b"/Tmp Dir/Parent Dir/Some Child.txt",
        None,
        Convention::SnakeCase,
        true,
        Some(b"/Tmp Dir"),
    );

    assert_eq!(Ok(b"/Tmp Dir/parent_dir/some_child.txt".to_vec()), actual);
}

#[test]
fn plan_renames_in_silence() {
    assert_eq!(
        Steps { create_parent: false, rename: true, notice: Notice::Silent },
        plan(false, false, false, false, false)
    );
}

#[test]
fn plan_tells_the_mapping_when_verbose() {
    assert_eq!(
        Steps { create_parent: false, rename: true, notice: Notice::Mapping },
        plan(false, false, true, false, false)
    );
}

#[test]
fn plan_creates_a_missing_parent() {
    assert_eq!(
        Steps { create_parent: true, rename: true, notice: Notice::Silent },
        plan(false, true, false, false, false)
    );
}

#[test]
fn plan_replaces_an_existing_destination() {
    assert_eq!(
        Steps { create_parent: false, rename: true, notice: Notice::Silent },
        plan(true, false, false, false, false)
    );
}

#[test]
fn plan_spares_an_existing_destination_under_no_clobber() {
    assert_eq!(
        Steps { create_parent: false, rename: false, notice: Notice::Silent },
        plan(true, false, false, false, true)
    );
    assert_eq!(
        Steps { create_parent: false, rename: false, notice: Notice::Collision },
        plan(true, false, true, false, true)
    );
}

#[test]
fn plan_renames_under_no_clobber_where_nothing_is_in_the_way() {
    assert_eq!(
        Steps { create_parent: true, rename: true, notice: Notice::Mapping },
        plan(false, true, true, false, true)
    );
}

#[test]
fn plan_of_a_dry_run_changes_nothing() {
    for destination_exists in [false, true] {
        for parent_missing in [false, true] {
            for is_verbose in [false, true] {
                for no_clobber in [false, true] {
                    assert_eq!(
                        Steps { create_parent: false, rename: false, notice: Notice::Mapping },
                        plan(destination_exists, parent_missing, is_verbose, true, no_clobber)
                    );
                }
            }
        }
    }
}

#[test]
fn destination_of_a_name_that_is_lost_stays_relative() {
    assert_eq!(
        Ok(b"b".to_vec()),
        destination(b"_/b", None, Convention::SnakeCase, true, None)
    );
}

#[test]
fn plan_for_an_entry_without_destination_does_nothing() {
    let failed: Result<Vec<u8>, PathConvertError> = Err(PathConvertError::InvalidUtf8Path);

    for flags in 0..32u8 {
        assert_eq!(
            Steps { create_parent: false, rename: false, notice: Notice::Silent },
            plan_for(
                &failed,
                flags & 1 != 0,
                flags & 2 != 0,
                flags & 4 != 0,
                flags & 8 != 0,
                flags & 16 != 0
            )
        );
    }
}

#[test]
fn plan_for_an_entry_with_destination_is_the_plan() {
    let converted: Result<Vec<u8>, PathConvertError> = Ok(b"some_file.txt".to_vec());

    for flags in 0..32u8 {
        assert_eq!(
            plan(flags & 1 != 0, flags & 2 != 0, flags & 4 != 0, flags & 8 != 0, flags & 16 != 0),
            plan_for(
                &converted,
                flags & 1 != 0,
                flags & 2 != 0,
                flags & 4 != 0,
                flags & 8 != 0,
                flags & 16 != 0
            )
        );
    }
}

#[test]
fn follow_up_gives_up_the_rename_after_a_failed_creation() {
    let steps = Steps { create_parent: true, rename: true, notice: Notice::Mapping };

    assert_eq!(
        Steps { create_parent: false, rename: false, notice: Notice::Silent },
        follow_up(steps, true)
    );
}

#[test]
fn follow_up_goes_on_after_the_creation() {
    let steps = Steps { create_parent: true, rename: true, notice: Notice::Mapping };

    assert_eq!(
        Steps { create_parent: false, rename: true, notice: Notice::Mapping },
        follow_up(steps, false)
    );
    assert_eq!(
        Steps { create_parent: false, rename: false, notice: Notice::Collision },
        follow_up(Steps { create_parent: false, rename: false, notice: Notice::Collision }, false)
    );
}
