//! The configured source directory and path building.
//!
//! A single directory acts as the store's root; every capture file lives
//! directly inside it.

use vstd::prelude::*;
use vstd::string::*;

verus! {

/// The configured root directory of the store.
pub open spec fn source_dir_text() -> Seq<char> {
    "/Users/tymalik/Docs/Git/markdown/"@
}

/// The directory that holds every capture file.
pub fn source_dir() -> (r: String)
    ensures
        r@ == source_dir_text(),
{
    "/Users/tymalik/Docs/Git/markdown/".to_owned()
}

/// The full path of a capture file inside the source directory.
pub fn source_path(capture_file: String) -> (r: String)
    ensures
        r@ == source_dir_text() + capture_file@,
{
    let mut out = source_dir();
    out.append(capture_file.as_str());
    out
}

} // verus!
