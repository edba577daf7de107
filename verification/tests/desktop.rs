use appimage_install::desktop::{
    desktop_entry_path, desktop_field, exec_line_to_path, icon_belongs_to, is_appimage_referenced,
    is_stale,
    modify_desktop_content, parse_desktop_entry, program_to_check, DesktopEntry,
};

#[test]
fn test_desktop_field_name() {
    let content = "[Desktop Entry]\nName=Firefox\nExec=firefox %U\n";
    assert_eq!(desktop_field(content, "Name"), "Firefox");
}

#[test]
fn test_desktop_field_exec() {
    let content = "[Desktop Entry]\nName=App\nExec=AppRun\n";
    assert_eq!(desktop_field(content, "Exec"), "AppRun");
}

#[test]
fn test_desktop_field_missing() {
    let content = "[Desktop Entry]\nName=App\n";
    assert_eq!(desktop_field(content, "Icon"), "");
}

#[test]
fn test_desktop_field_empty() {
    assert_eq!(desktop_field("", "Name"), "");
}

#[test]
fn test_modify_desktop_content_apprun() {
    let content = "[Desktop Entry]\nName=Test App\nExec=AppRun\nIcon=old\nTryExec=old\n";
    let result = modify_desktop_content(content, "/path/to/app.AppImage", "/path/to/icon.png");
    assert!(result.contains("Exec=\"/path/to/app.AppImage\""));
    assert!(!result.contains("AppRun"));
    assert!(!result.contains("TryExec="));
    assert!(result.contains("Icon=/path/to/icon.png"));
    assert!(result.contains("Name=Test App"));
}

#[test]
fn test_modify_desktop_content_non_apprun() {
    let content = "[Desktop Entry]\nName=App\nExec=/usr/bin/app\n";
    let result = modify_desktop_content(content, "/path/to/app.AppImage", "");
    assert!(result.contains("Exec=\"/path/to/app.AppImage\" %U"));
    assert!(!result.contains("/usr/bin/app"));
}

#[test]
fn test_modify_desktop_content_keeps_icon_when_empty() {
    let content = "[Desktop Entry]\nIcon=original\n";
    let result = modify_desktop_content(content, "/path/to/app.AppImage", "");
    assert!(result.contains("Icon=original"));
}

#[test]
fn test_exec_line_to_path_quoted() {
    assert_eq!(exec_line_to_path("\"/path/to/app\" --arg"), "/path/to/app");
}

#[test]
fn test_exec_line_to_path_unquoted() {
    assert_eq!(exec_line_to_path("/path/to/app %U"), "/path/to/app");
}

#[test]
fn test_exec_line_to_path_no_args() {
    assert_eq!(exec_line_to_path("/path/to/app"), "/path/to/app");
}

#[test]
fn test_exec_line_to_path_apprun() {
    assert_eq!(exec_line_to_path("AppRun --flag"), "AppRun");
}

#[test]
fn test_exec_line_to_path_leading_spaces() {
    assert_eq!(exec_line_to_path("  /path/to/app"), "/path/to/app");
}

#[test]
fn test_exec_line_to_path_empty() {
    assert_eq!(exec_line_to_path(""), "");
}

// Further cases.

#[test]
fn desktop_field_takes_the_first_matching_line() {
    let content = "Name=First\nName=Second\n";
    assert_eq!(desktop_field(content, "Name"), "First");
}

#[test]
fn desktop_field_needs_the_equals_sign() {
    let content = "Names=Wrong\nName=Right";
    assert_eq!(desktop_field(content, "Name"), "Right");
}

#[test]
fn desktop_field_drops_crlf_endings() {
    let content = "Name=Dos\r\nExec=x\r\n";
    assert_eq!(desktop_field(content, "Name"), "Dos");
    assert_eq!(desktop_field("Name=Lone\r", "Name"), "Lone\r");
}

#[test]
fn modify_gives_exact_text() {
    let content = "[Desktop Entry]\nName=Test App\nExec=AppRun --x\nIcon=old\nTryExec=old\nType=Application";
    let result = modify_desktop_content(content, "/p/a b.AppImage", "/i/icon.png");
    assert_eq!(
        result,
        "[Desktop Entry]\nName=Test App\nExec=\"/p/a b.AppImage\" --x\nIcon=/i/icon.png\nType=Application\n"
    );
}

#[test]
fn modify_of_empty_content_is_empty() {
    assert_eq!(modify_desktop_content("", "/a", "/b"), "");
}

#[test]
fn exec_line_to_path_keeps_quoted_spaces() {
    assert_eq!(exec_line_to_path("\"/my apps/x\" %U"), "/my apps/x");
    assert_eq!(exec_line_to_path("\"\" run"), "run");
    assert_eq!(exec_line_to_path("a\"b c\"d e"), "ab cd");
}

#[test]
fn written_entry_refers_to_its_appimage() {
    let content = "[Desktop Entry]\nName=Test App\nExec=AppRun\nType=Application\n";
    let app = "/home/u/Applications/TestApp.AppImage";
    let written = modify_desktop_content(content, app, "");
    let entry = parse_desktop_entry("/d/Test_App.desktop", &written);
    assert_eq!(exec_line_to_path(&entry.exec_line), app);
    assert!(is_appimage_referenced(app, &vec![entry]));
    assert_eq!(exec_line_to_path(&desktop_field(&written, "Exec")), app);
}

#[test]
fn rewriting_keeps_other_fields_and_drops_try_exec() {
    let content = "Name=N\r\nTryExec=t\nComment=c\nExec=x\nIcon=i\n";
    let written = modify_desktop_content(content, "/a.AppImage", "/icon.png");
    assert_eq!(desktop_field(&written, "Name"), "N");
    assert_eq!(desktop_field(&written, "Comment"), "c");
    assert_eq!(desktop_field(&written, "TryExec"), "");
    assert_eq!(desktop_field(&written, "Icon"), "/icon.png");
}

#[test]
fn parse_desktop_entry_takes_last_values() {
    let e = parse_desktop_entry("/x/a.desktop", "Name=A\nExec=one\nIcon=i\nExec=two\n");
    assert_eq!(e.path, "/x/a.desktop");
    assert_eq!(e.name, "A");
    assert_eq!(e.exec_line, "two");
    assert_eq!(e.icon, "i");
    let empty = parse_desktop_entry("/x/b.desktop", "");
    assert_eq!(empty.name, "");
    assert_eq!(empty.exec_line, "");
    assert_eq!(empty.icon, "");
}

fn entry(exec: &str) -> DesktopEntry {
    DesktopEntry {
        path: "/apps/x.desktop".to_string(),
        name: "X".to_string(),
        exec_line: exec.to_string(),
        icon: String::new(),
    }
}

#[test]
fn is_appimage_referenced_compares_file_names() {
    let entries = vec![entry("firefox %U"), entry("\"/old/place/Tool.AppImage\" %U")];
    assert!(is_appimage_referenced("/new/place/Tool.AppImage", &entries));
    assert!(!is_appimage_referenced("/new/place/Other.AppImage", &entries));
    assert!(!is_appimage_referenced("/a/b.AppImage", &vec![]));
}

#[test]
fn program_to_check_skips_empty_commands() {
    assert_eq!(program_to_check(&entry("")), None);
    assert_eq!(program_to_check(&entry("  \"\" ")), None);
    assert_eq!(program_to_check(&entry("/bin/app --x")), Some("/bin/app".to_string()));
}

#[test]
fn icon_belongs_to_checks_directory_prefix() {
    assert!(icon_belongs_to("/d/icons/AppImageInstall/a.png", "/d/icons/AppImageInstall"));
    assert!(!icon_belongs_to("/usr/share/icons/a.png", "/d/icons/AppImageInstall"));
    assert!(!icon_belongs_to("", ""));
}

#[test]
fn desktop_entry_path_uses_underscored_name() {
    assert_eq!(
        desktop_entry_path("/d/applications", "Name=Test App\nExec=x\n"),
        Some("/d/applications/Test_App.desktop".to_string())
    );
    assert_eq!(desktop_entry_path("/d/applications", "Exec=x\n"), None);
}

#[test]
fn is_stale_needs_a_program_that_cannot_run() {
    assert!(!is_stale(&entry(""), None, false));
    assert!(is_stale(&entry("/gone/app %U"), None, false));
    assert!(!is_stale(&entry("\"/here/app\" %U"), Some(0o755), false));
    assert!(is_stale(&entry("/here/app"), Some(0o644), false));
    assert!(!is_stale(&entry("firefox %U"), None, true));
    assert!(is_stale(&entry("/abs/firefox"), None, true));
}
