use appimage_install::appimage::{
    icon_destination, is_executable, mount_point_from_output, path_candidates,
};
use appimage_install::cli::move_destination;
use appimage_install::desktop::desktop_entry_path;
use appimage_install::path::{app_base_name, is_desktop_file, join_path, parent_of};
use std::path::Path;

const SAMPLES: &[&str] = &[
    "", "/", "//", ".", "..", "./", "./.", "a", "a/", "a//", "a/.", "a/./", "a/..", "/a/b",
    "/a/b/", "/a/b/.", "/a/./b", "a/b/c.txt", "foo.txt/.", "foo.txt/.//", "foo.txt/..",
    "/usr/bin/", "tmp/foo.txt", ".hidden", "a/.hidden", "x.tar.gz", "..desktop", ".desktop",
    "a.desktop", "a.desktop/", "dir/a.Desktop", "foo.", "a b/c d.AppImage", "/..", "/.",
    "./a", "./a/", "./", ".//", "./..", "/./a", "//a", "a//b", "a/./b/.", "../a", "...", ".a/b",
    "a/b/./", "/a/.././b", "./.", "/a/b/x.AppImage", "x.AppImage", "/x", ".x",
];

#[test]
fn app_base_name_agrees_with_std() {
    for s in SAMPLES {
        let expected = Path::new(s)
            .file_name()
            .map(|n| n.to_string_lossy().to_string())
            .unwrap_or_default();
        assert_eq!(app_base_name(s), expected, "file name of {:?}", s);
    }
}

#[test]
fn is_desktop_file_agrees_with_std() {
    for s in SAMPLES {
        let expected = Path::new(s).extension().and_then(|e| e.to_str()) == Some("desktop");
        assert_eq!(is_desktop_file(s), expected, "extension of {:?}", s);
    }
}

#[test]
fn join_path_agrees_with_std() {
    for d in SAMPLES {
        for n in ["x", "", "/abs", "a/b", "."] {
            let expected = Path::new(d).join(n).to_string_lossy().to_string();
            assert_eq!(join_path(d, n), expected, "join {:?} {:?}", d, n);
        }
    }
}

#[test]
fn test_is_executable_nonexistent() {
    assert!(!is_executable("/tmp/nonexistent_file_98765", None, false));
}

#[test]
fn is_executable_by_mode_or_path_search() {
    assert!(is_executable("/x", Some(0o755), false));
    assert!(is_executable("/x", Some(0o100), false));
    assert!(!is_executable("/x", Some(0o644), true));
    assert!(is_executable("ls", None, true));
    assert!(!is_executable("ls", None, false));
    assert!(!is_executable("/bin/ls", None, true));
}

#[test]
fn test_copy_icon_empty_src() {
    let result = icon_destination("", "/tmp/dst");
    assert_eq!(result, "");
}

#[test]
fn icon_destination_keeps_file_name() {
    assert_eq!(icon_destination("/m/icon.png", "/d/icons"), "/d/icons/icon.png");
    assert_eq!(icon_destination("/m/icon.png", "/d/icons/"), "/d/icons/icon.png");
    assert_eq!(icon_destination("/", "/d"), "/d/");
}

#[test]
fn path_candidates_split_like_std() {
    let got = path_candidates("/usr/bin::/bin/", "ls");
    assert_eq!(got, vec!["/usr/bin/ls".to_string(), "ls".to_string(), "/bin/ls".to_string()]);
    assert_eq!(path_candidates("", "ls"), vec!["ls".to_string()]);
    assert_eq!(path_candidates("/a:", "x"), vec!["/a/x".to_string(), "x".to_string()]);
}

#[test]
fn mount_point_is_trimmed_line() {
    assert_eq!(mount_point_from_output("  /tmp/.mount_abc\n"), Some("/tmp/.mount_abc".to_string()));
    assert_eq!(mount_point_from_output(" \t\n"), None);
    assert_eq!(mount_point_from_output(""), None);
}

#[test]
fn written_entry_path_is_a_desktop_file() {
    let p = desktop_entry_path("/d/applications", "Name=My App\n").unwrap();
    assert!(is_desktop_file(&p));
    let odd = desktop_entry_path("/d/applications", "Name=a/\n").unwrap();
    assert_eq!(odd, "/d/applications/a/.desktop");
    assert!(!is_desktop_file(&odd));
}

#[test]
fn moved_and_copied_files_keep_their_names() {
    let dest = move_destination("/tmp/x/Tool.AppImage", "/home/u/Applications").unwrap();
    assert_eq!(app_base_name(&dest), "Tool.AppImage");
    assert_eq!(app_base_name(&icon_destination("/m/x/icon_256.png", "/d/icons")), "icon_256.png");
}

#[test]
fn parent_of_agrees_with_std() {
    for s in SAMPLES {
        let expected = Path::new(s).parent().map(|p| p.to_string_lossy().to_string());
        assert_eq!(parent_of(s), expected, "parent of {:?}", s);
    }
}
