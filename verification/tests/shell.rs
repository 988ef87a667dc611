use screenshot::shell::{
    default_shortcut, is_overlay_label, overlay_label, overlay_url, shortcut_action, tray_command,
    tray_menu_id, ShortcutAction, TrayCommand,
};

#[test]
fn default_shortcut_is_ctrl_shift_x() {
    assert_eq!(default_shortcut(), "CommandOrControl+Shift+X");
}

#[test]
fn shortcut_stops_a_running_long_capture() {
    assert_eq!(shortcut_action(false, false), ShortcutAction::Ignore);
    assert_eq!(shortcut_action(false, true), ShortcutAction::Ignore);
    assert_eq!(shortcut_action(true, true), ShortcutAction::StopLongCapture);
    assert_eq!(shortcut_action(true, false), ShortcutAction::BeginCapture);
}

#[test]
fn tray_menu_ids_round_trip() {
    for command in [TrayCommand::Capture, TrayCommand::Stop, TrayCommand::Show, TrayCommand::Quit] {
        assert_eq!(tray_command(tray_menu_id(command)), Some(command));
    }
    assert_eq!(tray_menu_id(TrayCommand::Capture), "capture");
    assert_eq!(tray_command("Capture"), None);
    assert_eq!(tray_command(""), None);
}

#[test]
fn overlay_window_names() {
    assert_eq!(overlay_label(0), "overlay-0");
    assert_eq!(overlay_label(4_294_967_295), "overlay-4294967295");
    assert_eq!(overlay_url(12), "index.html?mode=overlay&monitorId=12");
    assert!(is_overlay_label(&overlay_label(65_537)));
    assert!(is_overlay_label("overlay-"));
    assert!(!is_overlay_label("overlay"));
    assert!(!is_overlay_label("main"));
    assert!(!is_overlay_label("Overlay-1"));
}
