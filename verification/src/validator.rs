//! Validation of the paths that a user names.
use vstd::prelude::*;
use vstd::string::*;

verus! {

/// What is said of a path that does not exist.
pub open spec fn missing_path_text() -> Seq<char> {
    "The path does not exist, please make sure the entered directory exists"@
}

/// Calls `std::path::Path::exists`: whether the path points at something
/// on disk at the time of the call.
#[verifier::external_body]
fn path_exists(path: &str) -> (r: bool) {
    std::path::Path::new(path).exists()
}

/// The verdict on a path, given whether it exists.
pub fn path_verdict(exists: bool) -> (r: Result<(), String>)
    ensures
        exists <==> r is Ok,
        r is Err ==> r.unwrap_err()@ == missing_path_text(),
{
    if !exists {
        return Err(
            String::from_str(
                "The path does not exist, please make sure the entered directory exists",
            ),
        );
    }
    Ok(())
}

/// Whether `path` exists; the error is the text to show the user.
pub fn is_valid_path(path: String) -> (r: Result<(), String>)
    ensures
        r is Err ==> r.unwrap_err()@ == missing_path_text(),
{
    path_verdict(path_exists(path.as_str()))
}

} // verus!
