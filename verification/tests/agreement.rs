//! The library against straightforward implementations over `str::lines`,
//! on many small inputs.

use appimage_install::desktop::{desktop_field, exec_line_to_path, modify_desktop_content};

fn plain_field(content: &str, key: &str) -> String {
    let prefix = format!("{}=", key);
    for line in content.lines() {
        if let Some(value) = line.strip_prefix(&prefix) {
            return value.to_string();
        }
    }
    String::new()
}

fn plain_modify(content: &str, app: &str, icon: &str) -> String {
    let mut out = String::new();
    for line in content.lines() {
        if let Some(val) = line.strip_prefix("Exec=") {
            let new_val = if val.starts_with("AppRun") {
                val.replacen("AppRun", &format!("\"{}\"", app), 1)
            } else {
                format!("\"{}\" %U", app)
            };
            out.push_str(&format!("Exec={}\n", new_val));
        } else if line.starts_with("TryExec=") {
            continue;
        } else if line.starts_with("Icon=") && !icon.is_empty() {
            out.push_str(&format!("Icon={}\n", icon));
        } else {
            out.push_str(line);
            out.push('\n');
        }
    }
    out
}

fn plain_program(exec_line: &str) -> String {
    let mut result = String::new();
    let mut in_quote = false;
    for ch in exec_line.chars() {
        if ch == '"' {
            in_quote = !in_quote;
            continue;
        }
        if ch == ' ' && !in_quote {
            if !result.is_empty() {
                break;
            }
            continue;
        }
        result.push(ch);
    }
    result
}

const PIECES: &[&str] = &[
    "", "\n", "\r\n", "\r", "Name=A", "Name=", "Exec=AppRun", "Exec=AppRun -x", "Exec=AppRunner",
    "Exec=/bin/x %F", "TryExec=t", "Icon=i", "Icon=", "X=1", "Nam=e", " Name=B", "é=ü",
];

fn contents() -> Vec<String> {
    let mut v = Vec::new();
    for a in PIECES {
        for b in PIECES {
            for c in ["", "\n", "\r\n"] {
                v.push(format!("{}\n{}{}", a, b, c));
                v.push(format!("{}{}{}", a, c, b));
            }
        }
    }
    v
}

#[test]
fn desktop_field_agrees() {
    for c in contents() {
        for k in ["Name", "Exec", "Icon", "TryExec", "X", "", "é"] {
            assert_eq!(desktop_field(&c, k), plain_field(&c, k), "{:?} {:?}", c, k);
        }
    }
}

#[test]
fn modify_agrees() {
    for c in contents() {
        for (app, icon) in [("/a/b.AppImage", ""), ("x y", "/i.png"), ("", "\r")] {
            assert_eq!(
                modify_desktop_content(&c, app, icon),
                plain_modify(&c, app, icon),
                "{:?} {:?} {:?}",
                c,
                app,
                icon
            );
        }
    }
}

#[test]
fn exec_program_agrees() {
    let parts = ["", " ", "\"", "a", "b c", "\"x y\"", "é", "%U"];
    for a in parts {
        for b in parts {
            for c in parts {
                let s = format!("{}{}{}", a, b, c);
                assert_eq!(exec_line_to_path(&s), plain_program(&s), "{:?}", s);
            }
        }
    }
}
