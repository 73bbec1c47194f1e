//! Resolution of the directory that board files are read from.

use vstd::prelude::*;

verus! {

#[verifier::external_type_specification]
#[verifier::external_body]
pub struct ExPathBuf(std::path::PathBuf);

#[verifier::external_type_specification]
#[verifier::external_body]
pub struct ExIoError(std::io::Error);

/// Relies on `std::path::Path::canonicalize`: turns a relative directory name
/// into an absolute path, failing when no such directory exists.  The answer
/// depends on the file system, so nothing is promised of it.
#[verifier::external_body]
fn canonicalize_dir(name: &str) -> (r: Result<std::path::PathBuf, std::io::Error>) {
    std::path::Path::new(name).canonicalize()
}

/// The directory that board files are read from: `boards` under the current
/// working directory, made absolute, or the error of the lookup when it is
/// not there.
pub fn get_board_dir() -> (r: Result<std::path::PathBuf, std::io::Error>) {
    canonicalize_dir("boards")
}

} // verus!
