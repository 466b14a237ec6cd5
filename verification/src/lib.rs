//! Color-quantization and error-diffusion dithering core.
//!
//! Given a full-color RGBA image the library derives a small representative
//! palette by median cut, re-renders the image with Floyd-Steinberg error
//! diffusion, and lets a caller substitute palette colors afterwards without
//! re-running the diffusion pass.

pub mod change_color_window;
pub mod color_box;
pub mod config_window;
pub mod dither;
pub mod dithered_image;
pub mod image_utils;
pub mod ok_dialog;
pub mod palette_menu;
pub mod rgb16;
pub mod top_panel;
