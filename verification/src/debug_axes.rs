//! Settings of the debug-axes overlay.

use vstd::prelude::*;

verus! {

/// Global toggle of the axis arrows drawn on marked entities.
#[derive(Clone, Copy, Debug, PartialEq, Eq, Structural)]
pub struct DebugAxesConfig {
    pub enabled: bool,
}

impl Default for DebugAxesConfig {
    /// The arrows are shown unless switched off.
    fn default() -> (c: Self)
        ensures
            c.enabled,
    {
        DebugAxesConfig { enabled: true }
    }
}

} // verus!
