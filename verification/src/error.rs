//! What can go wrong when a path is converted.

use vstd::prelude::*;

verus! {

/// Why a path segment could not be converted.
#[derive(Debug, Clone, Copy, PartialEq, Eq, Structural, PartialOrd, Ord)]
pub enum PathConvertError {
    /// The segment is not valid UTF-8, so it has no text to recase.
    InvalidUtf8Path,
    /// The segment has neither a stem nor an extension.
    InvalidPath,
}

impl PathConvertError {
    /// The text of [`PathConvertError::message`].
    pub open spec fn message_text(self) -> Seq<char> {
        match self {
            PathConvertError::InvalidUtf8Path => "path contains invalid utf-8 characters"@,
            PathConvertError::InvalidPath => "paths must container either a stem or a path or both"@,
        }
    }

    /// A line that tells the user what was wrong with the path.
    pub fn message(&self) -> (text: String)
        ensures
            text@ == self.message_text(),
    {
        match self {
            PathConvertError::InvalidUtf8Path => String::from_str(
                "path contains invalid utf-8 characters",
            ),
            PathConvertError::InvalidPath => String::from_str(
                "paths must container either a stem or a path or both",
            ),
        }
    }
}

} // verus!
