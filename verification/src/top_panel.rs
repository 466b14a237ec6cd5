//! Top-menu state: which menu command the user picked last, and what the
//! menu needs to know to draw itself.

use vstd::prelude::*;

verus! {

/// The command picked in the top menu, if any.
#[derive(Clone, Copy, Debug, PartialEq, Eq, Structural)]
pub enum TopPanelCommands {
    Nothing,
    OpenFile,
    SaveFile,
    Exit,
    OpenConfig,
}

impl Default for TopPanelCommands {
    fn default() -> (r: TopPanelCommands)
        ensures
            r == TopPanelCommands::Nothing,
    {
        TopPanelCommands::Nothing
    }
}

/// The top menu: its pending command and the flags the shell feeds it.
pub struct TopMenu {
    pub command: TopPanelCommands,
    pub is_image_loaded: bool,
    pub is_enabled: bool,
}

impl Default for TopMenu {
    fn default() -> (m: TopMenu)
        ensures
            m.command == TopPanelCommands::Nothing,
            !m.is_image_loaded,
            !m.is_enabled,
    {
        TopMenu { command: TopPanelCommands::Nothing, is_image_loaded: false, is_enabled: false }
    }
}

impl TopMenu {
    pub fn get_active_command(&self) -> (r: TopPanelCommands)
        ensures
            r == self.command,
    {
        self.command
    }

    pub fn clear_active_command(&mut self)
        ensures
            final (self).command == TopPanelCommands::Nothing,
            final (self).is_image_loaded == old(self).is_image_loaded,
            final (self).is_enabled == old(self).is_enabled,
    {
        self.command = TopPanelCommands::Nothing;
    }
}

} // verus!
