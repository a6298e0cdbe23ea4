//! Renaming paths from one naming convention to another, segment by segment.
//!
//! A path is a string of bytes whose segments are separated by `/`. A
//! segment that carries a name is split into stem and extension, the stem
//! is recased by `convert_case`, and the extension is put back behind it.
//!
//! A path counts by its components: whether it starts at the root, and
//! the segments that are not empty and not a `.` behind the first. Where
//! all names of a path are converted, the path is written anew from its
//! components, one separator between them. Where one path is held against
//! another, as a prefix is, the two are compared by their components, so
//! that it does not matter how either is written. Where only the final
//! segment is converted, the rest of the path stays byte for byte.
//!
//! - [`convention`]: the conventions and the tokens that name them.
//! - [`casing`]: the call into `convert_case`.
//! - [`component`]: one segment, its stem and its extension.
//! - [`segments`]: a path as the sequence of its segments.
//! - [`prefix`]: one path as the beginning of another.
//! - [`convert_path`]: converting the final segment of a path, all of its
//!   segments, or all of them behind a prefix.
//! - [`rename`]: where an entry goes and what is done about it.
//! - [`error`]: what can go wrong.

pub mod bytes;
pub mod casing;
pub mod component;
pub mod convention;
pub mod convert_path;
pub mod error;
pub mod prefix;
pub mod rename;
pub mod segments;

pub use component::convert_component;
pub use convention::Convention;
pub use convert_path::{convert_basename, convert_full, convert_full_except_prefix};
pub use error::PathConvertError;
