//! Palette-strip state: the palette being shown, which swatch is
//! selected, and the command a click raised.

use vstd::prelude::*;
use crate::dithered_image::DitheredImage;
use crate::rgb16::Rgb16;

verus! {

/// The command a palette-strip click raised, if any.
#[derive(Clone, Copy, Debug, PartialEq, Eq, Structural)]
pub enum PaletteMenuCommand {
    Nothing,
    OpenPaletteWindow,
}

impl Default for PaletteMenuCommand {
    fn default() -> (r: PaletteMenuCommand)
        ensures
            r == PaletteMenuCommand::Nothing,
    {
        PaletteMenuCommand::Nothing
    }
}

/// The palette strip shown under the image.
pub struct PaletteMenu {
    pub last_palette: Vec<Rgb16>,
    pub is_enabled: bool,
    pub selected: Option<usize>,
    pub last_command: PaletteMenuCommand,
}

impl Default for PaletteMenu {
    fn default() -> (m: PaletteMenu)
        ensures
            m.last_palette@.len() == 0,
            !m.is_enabled,
            m.selected is None,
            m.last_command == PaletteMenuCommand::Nothing,
    {
        PaletteMenu {
            last_palette: Vec::new(),
            is_enabled: false,
            selected: None,
            last_command: PaletteMenuCommand::Nothing,
        }
    }
}

impl PaletteMenu {
    pub fn clear_selection(&mut self)
        ensures
            final (self).selected is None,
            final (self).last_command == PaletteMenuCommand::Nothing,
            final (self).last_palette == old(self).last_palette,
            final (self).is_enabled == old(self).is_enabled,
    {
        self.selected = None;
        self.last_command = PaletteMenuCommand::Nothing;
    }

    /// Take over the image's current override palette for display.
    pub fn update_palette(&mut self, dithered_image: &DitheredImage, is_enabled: bool)
        ensures
            final (self).last_palette@ == dithered_image.palette_override@,
            final (self).is_enabled == is_enabled,
            final (self).selected == old(self).selected,
            final (self).last_command == old(self).last_command,
    {
        let mut copied: Vec<Rgb16> = Vec::new();
        let src = dithered_image.get_palette_colors();
        let n: usize = src.len();
        let mut i: usize = 0;
        while i < n
            invariant
                n == src@.len(),
                src@ == dithered_image.palette_override@,
                0 <= i <= n,
                copied@ == src@.take(i as int),
            decreases n - i,
        {
            copied.push(src[i]);
            proof {
                assert(src@.take(i + 1) =~= src@.take(i as int).push(src@[i as int]));
            }
            i += 1;
        }
        proof {
            assert(src@.take(n as int) =~= src@);
        }
        self.last_palette = copied;
        self.is_enabled = is_enabled;
    }
}

} // verus!
