use appimage_install::cli::{
    answer_is_yes, is_single_app_image, is_yes_answer, merge_entries, move_destination,
    move_destination_from, parse_args, AppImageEntry, Command,
};
use appimage_install::config::{
    applications_dir, appimage_pattern, desktop_file_pattern, icon_patterns, icons_dir,
    install_path, xdg_data_home,
};
use appimage_install::text::trim;

fn args(v: &[&str]) -> Vec<String> {
    v.iter().map(|s| s.to_string()).collect()
}

#[test]
fn parse_args_cases() {
    assert!(matches!(parse_args(&args(&["-v"])), Command::ShowVersion));
    assert!(matches!(parse_args(&args(&["x", "--help", "-v"])), Command::ShowHelp));
    assert!(matches!(parse_args(&args(&["-y", "--version"])), Command::ShowVersion));
    match parse_args(&args(&["", "-y", "dir", "--cli", "other", "-q"])) {
        Command::Run(o) => {
            assert!(o.auto_yes);
            assert!(o.cli_mode);
            assert_eq!(o.dir_path, "dir");
        }
        _ => panic!("expected a run"),
    }
    match parse_args(&args(&[])) {
        Command::Run(o) => {
            assert!(!o.auto_yes);
            assert!(!o.cli_mode);
            assert_eq!(o.dir_path, "");
        }
        _ => panic!("expected a run"),
    }
}

#[test]
fn single_app_image_needs_file_and_suffix() {
    assert!(is_single_app_image("/a/X.AppImage", true));
    assert!(!is_single_app_image("/a/X.AppImage", false));
    assert!(!is_single_app_image("/a/X.appimage", true));
    assert!(!is_single_app_image("AppImage", true));
}

#[test]
fn move_destination_uses_parent() {
    assert_eq!(move_destination("/a/b/x.AppImage", "/a/b"), None);
    assert_eq!(
        move_destination("/o/x.AppImage", "/home/u/Applications"),
        Some("/home/u/Applications/x.AppImage".to_string())
    );
    assert_eq!(move_destination("x.AppImage", ""), None);
    assert_eq!(
        move_destination_from(None, "/", "/i"),
        Some("/i/".to_string())
    );
}

#[test]
fn yes_answers() {
    assert!(is_yes_answer("y\n"));
    assert!(is_yes_answer("  YES  "));
    assert!(is_yes_answer("Yes"));
    assert!(!is_yes_answer("no"));
    assert!(!is_yes_answer("yess"));
    assert!(answer_is_yes("y"));
    assert!(!answer_is_yes("Y"));
}

#[test]
fn trim_agrees_with_std() {
    for s in ["", "  a b  ", "\u{3000}x\u{2029}", "\t\n", "x", " \u{85}y\u{a0}"] {
        assert_eq!(trim(s), s.trim());
    }
}

fn e(path: &str) -> AppImageEntry {
    AppImageEntry { path: path.to_string(), name: path.to_string(), integrated: false }
}

#[test]
fn merge_entries_skips_listed_paths() {
    let merged = merge_entries(vec![e("/a"), e("/b")], vec![e("/b"), e("/c"), e("/c")]);
    let paths: Vec<&str> = merged.iter().map(|x| x.path.as_str()).collect();
    assert_eq!(paths, vec!["/a", "/b", "/c"]);
}

#[test]
fn config_directories() {
    assert_eq!(xdg_data_home(Some("/x".to_string()), "/h".to_string()), "/x");
    assert_eq!(xdg_data_home(Some(String::new()), "/h".to_string()), "/h/.local/share");
    assert_eq!(xdg_data_home(None, String::new()), "/.local/share");
    assert_eq!(install_path(None, "/h".to_string()), "/h/Applications");
    assert_eq!(install_path(Some("/opt/apps".to_string()), "/h".to_string()), "/opt/apps");
    assert_eq!(icons_dir("/d"), "/d/icons/AppImageInstall");
    assert_eq!(applications_dir("/d"), "/d/applications");
    assert_eq!(appimage_pattern("/dir"), "/dir/*.AppImage");
    assert_eq!(desktop_file_pattern("/m"), "/m/*.desktop");
    let p = icon_patterns("/m");
    assert_eq!(p.len(), 10);
    assert_eq!(p[0], "/m/*256*icon*.png");
    assert_eq!(p[9], "/m/*.svg");
}
