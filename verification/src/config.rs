//! The slice of the tool configuration the core consumes: the ordered list
//! of quirk names to activate before dictionary lookup.

use vstd::prelude::*;

verus! {

/// Configuration handed to the core.  `quirks` holds the configured
/// transform names in order; unknown names are ignored when the list is
/// interpreted.
pub struct Config {
    pub quirks: Option<Vec<String>>,
}

} // verus!
