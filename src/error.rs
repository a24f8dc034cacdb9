//! Why a run of the generator stops.
use vstd::prelude::*;

verus! {

/// The kinds of failure of the blog pipeline.
#[derive(Clone, Copy, Debug, PartialEq, Eq, Structural)]
pub enum BlogError {
    /// A file could not be read or written, or text was not valid UTF-8.
    Io,
    /// The metadata block is missing, or lacks `title`, `date` or `summary`.
    MalformedPost,
    /// A line of the metadata block has no `: ` separator.
    MalformedMetadataLine,
    /// The `date` value is not a `YYYY-MM-DD` calendar date.
    BadDate,
    /// A navigation marker of a template is not preceded by a `/`-delimited section name.
    BadTemplate,
}

} // verus!
