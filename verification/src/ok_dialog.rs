//! Confirmation-dialog state: the texts it shows and the action last
//! taken in it. Rendering belongs to the shell; this state drives it.

use vstd::prelude::*;

verus! {

broadcast use vstd::string::to_string_from_display_ensures_for_str;

/// The action last taken in the dialog.
#[derive(Clone, Copy, Debug, PartialEq, Eq, Structural)]
pub enum Action {
    Nothing,
    Confirm,
    Cancel,
}

/// A modal confirmation dialog with a confirm and a cancel button.
pub struct OkDialog {
    pub is_open: bool,
    pub last_action: Action,
    pub ok_text: String,
    pub cancel_text: String,
    pub header_text: String,
}

impl Default for OkDialog {
    fn default() -> (d: OkDialog)
        ensures
            !d.is_open,
            d.last_action == Action::Nothing,
            d.ok_text@ == "Ok"@,
            d.cancel_text@ == "Cancel"@,
            d.header_text@ == "Header"@,
    {
        OkDialog {
            is_open: false,
            last_action: Action::Nothing,
            ok_text: "Ok".to_string(),
            cancel_text: "Cancel".to_string(),
            header_text: "Header".to_string(),
        }
    }
}

impl OkDialog {
    pub fn clear_command(&mut self)
        ensures
            final (self).last_action == Action::Nothing,
            final (self).is_open == old(self).is_open,
            final (self).ok_text == old(self).ok_text,
            final (self).cancel_text == old(self).cancel_text,
            final (self).header_text == old(self).header_text,
    {
        self.last_action = Action::Nothing;
    }

    pub fn get_command(&self) -> (r: Action)
        ensures
            r == self.last_action,
    {
        self.last_action
    }

    /// Closing clears the pending action along with the window.
    pub fn close(&mut self)
        ensures
            !final (self).is_open,
            final (self).last_action == Action::Nothing,
            final (self).ok_text == old(self).ok_text,
            final (self).cancel_text == old(self).cancel_text,
            final (self).header_text == old(self).header_text,
    {
        self.is_open = false;
        self.clear_command();
    }

    /// Opening sets the three texts and shows the dialog; a pending
    /// action from an earlier round is kept until cleared.
    pub fn open_dialog(&mut self, ok: &str, cancel: &str, header: &str)
        ensures
            final (self).is_open,
            final (self).last_action == old(self).last_action,
            final (self).ok_text@ == ok@,
            final (self).cancel_text@ == cancel@,
            final (self).header_text@ == header@,
    {
        self.is_open = true;
        self.ok_text = ok.to_string();
        self.cancel_text = cancel.to_string();
        self.header_text = header.to_string();
    }
}

} // verus!
