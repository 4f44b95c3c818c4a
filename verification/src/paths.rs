//! The standard library's path types, as this crate's contracts see them.

use std::path::{Path, PathBuf};
use vstd::prelude::*;

verus! {

/// A borrowed filesystem path; opaque to the contracts.
#[verifier::external_type_specification]
#[verifier::external_body]
pub struct ExPath(Path);

/// An owned filesystem path; opaque to the contracts.
#[verifier::external_type_specification]
#[verifier::external_body]
pub struct ExPathBuf(PathBuf);

/// The text that `Path::to_string_lossy` gives for `path`: its characters,
/// with each invalid sequence replaced by U+FFFD.
pub uninterp spec fn lossy_text(path: &Path) -> Seq<char>;

/// `Path::to_string_lossy`, made an owned string: the result is
/// `lossy_text(path)`, a function of the path alone.
#[verifier::external_body]
pub(crate) fn path_to_string_lossy(path: &Path) -> (s: String)
    ensures
        s@ == lossy_text(path),
{
    path.to_string_lossy().into_owned()
}

} // verus!

verus! {

/// The path that `PathBuf::as_path` borrows from `path`: the same sequence of
/// components, a function of the owned path alone.
pub uninterp spec fn borrowed_path(path: &PathBuf) -> &Path;

/// `PathBuf::as_path`: borrows the path an owned path holds; the result is
/// `borrowed_path(path)`.
#[verifier::external_body]
pub(crate) fn path_buf_as_path(path: &PathBuf) -> (r: &Path)
    ensures
        r == borrowed_path(path),
{
    path.as_path()
}

} // verus!
