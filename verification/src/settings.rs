//! Where the program's settings live: `settings.json` beside the presets file.

use vstd::prelude::*;

use crate::paths::{path_with_file_name, with_file_name};

verus! {

/// The settings file that belongs with a presets file.
pub fn path(presets_store: &str) -> (r: String)
    ensures
        r@ == path_with_file_name(presets_store@, "settings.json"@),
{
    with_file_name(presets_store, "settings.json")
}

} // verus!
