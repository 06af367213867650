use cloppy_ntfs::actions::Action;
use cloppy_ntfs::actions::ComposedAction;
use cloppy_ntfs::actions::Shortcut;
use cloppy_ntfs::actions::SimpleAction;
use cloppy_ntfs::settings::setting_to_int;
use cloppy_ntfs::settings::Setting;

#[test]
fn default_values() {
    assert_eq!("cloppy.db", Setting::DbFile.default_value());
    assert_eq!("50", Setting::WindowWidth.default_value());
    assert_eq!("50", Setting::ColumnFileSizeWidth.default_value());
}

#[test]
fn setting_names() {
    assert_eq!("DbFile", Setting::DbFile.name());
    assert_eq!("WindowXPosition", Setting::WindowXPosition.name());
}

#[test]
fn numeric_settings_parse() {
    let settings = vec![
        (Setting::WindowWidth, "50".to_string()),
        (Setting::WindowXPosition, "-3".to_string()),
        (Setting::WindowHeight, "1024".to_string()),
    ];
    assert_eq!(50, setting_to_int(Setting::WindowWidth, &settings));
    assert_eq!(-3, setting_to_int(Setting::WindowXPosition, &settings));
    assert_eq!(1024, setting_to_int(Setting::WindowHeight, &settings));
}

#[test]
fn composed_actions_expand_in_order() {
    assert_eq!(
        [SimpleAction::ShowFilesWindow, SimpleAction::FocusOnInputField],
        ComposedAction::RestoreWindow.simple_actions()
    );
    assert_eq!(
        [SimpleAction::RestoreWindowPosition, SimpleAction::RestoreColumnsPosition],
        ComposedAction::ResizeWindowFromSettings.simple_actions()
    );
}

#[test]
fn shortcut_maps_to_composed_action() {
    assert_eq!(Some(Shortcut::RestoreWindow), Shortcut::from_wparam(0));
    assert_eq!(None, Shortcut::from_wparam(3));
    assert_eq!(
        Action::Composed(ComposedAction::RestoreWindow),
        Action::from(Shortcut::RestoreWindow)
    );
    assert_eq!(Action::Simple(SimpleAction::ExitApp), Action::from(SimpleAction::ExitApp));
}
