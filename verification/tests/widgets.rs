use dither_core::change_color_window::{ColorReplaceCommand, ColorReplaceWindow};
use dither_core::config_window::ConfigWindowCommands;
use dither_core::dithered_image::DitheredImage;
use dither_core::ok_dialog::{Action, OkDialog};
use dither_core::palette_menu::{PaletteMenu, PaletteMenuCommand};
use dither_core::rgb16::Rgb16;
use dither_core::top_panel::{TopMenu, TopPanelCommands};

#[test]
fn ok_dialog_opens_with_its_texts() {
    let mut d = OkDialog::default();
    assert!(!d.is_open);
    assert!(matches!(d.get_command(), Action::Nothing));
    d.open_dialog("Yes", "No", "Overwrite?");
    assert!(d.is_open);
    assert_eq!(d.ok_text, "Yes");
    assert_eq!(d.cancel_text, "No");
    assert_eq!(d.header_text, "Overwrite?");
}

#[test]
fn ok_dialog_close_clears_the_action() {
    let mut d = OkDialog::default();
    d.open_dialog("Ok", "Cancel", "Header");
    d.last_action = Action::Confirm;
    d.close();
    assert!(!d.is_open);
    assert!(matches!(d.get_command(), Action::Nothing));
}

#[test]
fn top_menu_commands_clear() {
    let mut m = TopMenu::default();
    assert_eq!(m.get_active_command(), TopPanelCommands::Nothing);
    m.command = TopPanelCommands::OpenFile;
    assert_eq!(m.get_active_command(), TopPanelCommands::OpenFile);
    m.clear_active_command();
    assert_eq!(m.get_active_command(), TopPanelCommands::Nothing);
}

#[test]
fn palette_menu_takes_the_override_palette() {
    let src8: Vec<u8> = vec![255, 0, 0, 255, 0, 255, 0, 255];
    let mut img = DitheredImage::new();
    img.upload_image(&src8, 2, 1, 2, 1, 2);
    let mut menu = PaletteMenu::default();
    menu.update_palette(&img, true);
    assert_eq!(&menu.last_palette, img.get_palette_colors());
    assert!(menu.is_enabled);
    menu.selected = Some(1);
    menu.last_command = PaletteMenuCommand::OpenPaletteWindow;
    menu.clear_selection();
    assert!(menu.selected.is_none());
    assert!(matches!(menu.last_command, PaletteMenuCommand::Nothing));
}

#[test]
fn color_window_opens_on_the_displayed_color() {
    let src8: Vec<u8> = vec![255, 0, 0, 255, 0, 255, 0, 255];
    let mut img = DitheredImage::new();
    img.upload_image(&src8, 2, 1, 2, 1, 2);
    let mut win = ColorReplaceWindow::default();
    win.open_window(1, &img);
    assert!(win.is_open);
    assert!(!win.previewed);
    assert_eq!(win.palette_id, 1);
    assert_eq!(win.start_color, img.get_palette_colors()[1]);
    assert_eq!(win.end_color, win.start_color);
    win.last_command = ColorReplaceCommand::Preview;
    win.close();
    assert!(!win.is_open);
    assert!(matches!(win.last_command, ColorReplaceCommand::Nothing));
}

#[test]
fn command_defaults() {
    // the color-swap command deliberately rests on `Replace`
    assert!(matches!(ColorReplaceCommand::default(), ColorReplaceCommand::Replace));
    assert!(matches!(ConfigWindowCommands::default(), ConfigWindowCommands::Nothing));
    assert!(matches!(TopPanelCommands::default(), TopPanelCommands::Nothing));
    assert!(matches!(PaletteMenuCommand::default(), PaletteMenuCommand::Nothing));
    let w = ColorReplaceWindow::default();
    assert!(!w.is_open);
    assert_eq!(w.start_color, Rgb16 { r: 0, g: 0, b: 0 });
    assert_eq!(w.palette_id, 0);
}
