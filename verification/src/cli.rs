//! What the program is started with.

use vstd::prelude::*;

verus! {

/// The two files named on the command line, each of which may be left out.
#[derive(Clone, Debug)]
pub struct AppArgs {
    /// The dictionary file.
    pub dict_path: Option<String>,
    /// The file with the table of character codes.
    pub char_map_path: Option<String>,
}

} // verus!
