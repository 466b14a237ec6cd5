//! Color-swap window state: which palette entry is being edited, the
//! color it started from, the replacement picked so far, and the button
//! pressed last.

use vstd::prelude::*;
use crate::dithered_image::DitheredImage;
use crate::rgb16::Rgb16;

verus! {

/// The button pressed last in the color-swap window.
#[derive(Clone, Copy, Debug, PartialEq, Eq, Structural)]
pub enum ColorReplaceCommand {
    Nothing,
    Replace,
    Cancel,
    Preview,
    Reset,
}

impl Default for ColorReplaceCommand {
    /// The resting value is `Replace`, not `None`.
    fn default() -> (r: ColorReplaceCommand)
        ensures
            r == ColorReplaceCommand::Replace,
    {
        ColorReplaceCommand::Replace
    }
}

/// The color-swap window's state.
pub struct ColorReplaceWindow {
    pub is_open: bool,
    pub last_command: ColorReplaceCommand,
    pub start_color: Rgb16,
    pub end_color: Rgb16,
    pub palette_id: usize,
    pub previewed: bool,
}

impl Default for ColorReplaceWindow {
    fn default() -> (win: ColorReplaceWindow)
        ensures
            !win.is_open,
            win.last_command == ColorReplaceCommand::Replace,
            win.start_color == (Rgb16 { r: 0, g: 0, b: 0 }),
            win.end_color == (Rgb16 { r: 0, g: 0, b: 0 }),
            win.palette_id == 0,
            !win.previewed,
    {
        ColorReplaceWindow {
            is_open: false,
            last_command: ColorReplaceCommand::default(),
            start_color: Rgb16::default(),
            end_color: Rgb16::default(),
            palette_id: 0,
            previewed: false,
        }
    }
}

impl ColorReplaceWindow {
    /// Open the window on one palette entry, starting the edit from the
    /// color currently displayed at that index.
    pub fn open_window(&mut self, palette_id: usize, dithered_image: &DitheredImage)
        requires
            palette_id < dithered_image.palette_override@.len(),
        ensures
            final (self).is_open,
            !final (self).previewed,
            final (self).palette_id == palette_id,
            final (self).start_color == dithered_image.palette_override@[palette_id as int],
            final (self).end_color == dithered_image.palette_override@[palette_id as int],
            final (self).last_command == old(self).last_command,
    {
        let data = dithered_image.get_palette_colors();
        self.previewed = false;
        self.start_color = data[palette_id];
        self.end_color = data[palette_id];
        self.palette_id = palette_id;
        self.is_open = true;
    }

    pub fn close(&mut self)
        ensures
            !final (self).is_open,
            final (self).last_command == ColorReplaceCommand::Nothing,
            final (self).start_color == old(self).start_color,
            final (self).end_color == old(self).end_color,
            final (self).palette_id == old(self).palette_id,
            final (self).previewed == old(self).previewed,
    {
        self.is_open = false;
        self.clear_command();
    }

    pub fn clear_command(&mut self)
        ensures
            final (self).last_command == ColorReplaceCommand::Nothing,
            final (self).is_open == old(self).is_open,
            final (self).start_color == old(self).start_color,
            final (self).end_color == old(self).end_color,
            final (self).palette_id == old(self).palette_id,
            final (self).previewed == old(self).previewed,
    {
        self.last_command = ColorReplaceCommand::Nothing;
    }
}

} // verus!
