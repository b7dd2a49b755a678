//! The file the application shows before the user opens anything.

use vstd::prelude::*;

verus! {

/// The path of the file the application loads at start, relative to
/// the directory it runs in.
pub fn default_file() -> (r: String)
    ensures
        r@ == "src/main.rs"@,
{
    "src/main.rs".to_owned()
}

} // verus!
