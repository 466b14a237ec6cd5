//! Configuration-window commands. The window itself, with its slider
//! values, lives in the shell; the core only needs to know what was
//! pressed.

use vstd::prelude::*;

verus! {

/// The button pressed last in the configuration window.
#[derive(Clone, Copy, Debug, PartialEq, Eq, Structural)]
pub enum ConfigWindowCommands {
    Nothing,
    Save,
    Cancel,
    Reload,
}

impl Default for ConfigWindowCommands {
    fn default() -> (r: ConfigWindowCommands)
        ensures
            r == ConfigWindowCommands::Nothing,
    {
        ConfigWindowCommands::Nothing
    }
}

} // verus!
