//! A small lens onto path-like values.

use vstd::prelude::*;

verus! {

/// The two slices of a path a client cares to show: the file's name and
/// its extension. Implementors live with the caller, next to whatever
/// path type they use.
pub trait XFile {
    /// The file's name, or an empty string when there is none.
    fn x_file_name(&self) -> &str;

    /// The file's extension, or an empty string when there is none.
    fn x_extension(&self) -> &str;
}

} // verus!
