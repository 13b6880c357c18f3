//! Why a run is given up.

use vstd::prelude::*;

verus! {

/// The faults that end a run. None of them is recovered from.
#[derive(Clone, Copy, Debug, PartialEq, Eq, Structural)]
pub enum Error {
    /// An archive, a header record or an extended header record is malformed,
    /// or an entry is of a kind that is not handled.
    Format,
    /// An extended header is not followed by the one entry that it describes.
    Sequence,
    /// A layer cannot be laid out: a path does not fit under the directory
    /// that is open when its entry comes, or a directory that has to be made
    /// has no header to be made from.
    Path,
}

impl Error {
    /// A sentence that says what went wrong.
    pub fn describe(&self) -> (r: &'static str)
        ensures
            r@ == match *self {
                Error::Format => "malformed or unsupported archive data"@,
                Error::Sequence => "extended header without the entry it describes"@,
                Error::Path => "entry cannot be placed in the directory tree of the layer"@,
            },
    {
        match self {
            Error::Format => "malformed or unsupported archive data",
            Error::Sequence => "extended header without the entry it describes",
            Error::Path => "entry cannot be placed in the directory tree of the layer",
        }
    }
}

} // verus!
