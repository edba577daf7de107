//! Where the program keeps its files: the XDG data directory, the desktop
//! entry and icon directories under it, the directory AppImages are moved
//! to, and the file patterns it looks for.

use vstd::prelude::*;

verus! {

broadcast use vstd::string::group_string_axioms;

/// The value of an environment variable when it is set and not empty.
pub open spec fn set_value(var: Option<Seq<char>>) -> Option<Seq<char>> {
    match var {
        Some(v) => if v.len() > 0 {
            Some(v)
        } else {
            None
        },
        None => None,
    }
}

/// `$XDG_DATA_HOME` when set and not empty, else `$HOME/.local/share`.
pub open spec fn data_home(xdg_data_home_var: Option<Seq<char>>, home: Seq<char>) -> Seq<char> {
    match set_value(xdg_data_home_var) {
        Some(v) => v,
        None => home + "/.local/share"@,
    }
}

/// Returns the XDG data directory, given the value of `XDG_DATA_HOME` (if
/// it is set) and of `HOME` (empty when unset).
pub fn xdg_data_home(xdg_data_home_var: Option<String>, home: String) -> (r: String)
    ensures
        r@ == data_home(xdg_data_home_var.deep_view(), home@),
        match xdg_data_home_var {
            Some(v) => if v@.len() > 0 {
                r@ == v@
            } else {
                r@ == home@ + "/.local/share"@
            },
            None => r@ == home@ + "/.local/share"@,
        },
{
    if let Some(dir) = xdg_data_home_var {
        if dir.as_str().unicode_len() > 0 {
            return dir;
        }
    }
    home.concat("/.local/share")
}

/// `$APPIMAGE_INSTALL_PATH` when set and not empty, else `$HOME/Applications`.
pub open spec fn install_dir(install_path_var: Option<Seq<char>>, home: Seq<char>) -> Seq<char> {
    match set_value(install_path_var) {
        Some(v) => v,
        None => home + "/Applications"@,
    }
}

/// Returns the directory single AppImages are moved to, given the value of
/// `APPIMAGE_INSTALL_PATH` (if it is set) and of `HOME` (empty when unset).
pub fn install_path(install_path_var: Option<String>, home: String) -> (r: String)
    ensures
        r@ == install_dir(install_path_var.deep_view(), home@),
        match install_path_var {
            Some(v) => if v@.len() > 0 {
                r@ == v@
            } else {
                r@ == home@ + "/Applications"@
            },
            None => r@ == home@ + "/Applications"@,
        },
{
    if let Some(dir) = install_path_var {
        if dir.as_str().unicode_len() > 0 {
            return dir;
        }
    }
    home.concat("/Applications")
}

/// Returns the directory that holds the icons taken from AppImages, under
/// the data directory `data_home`.
pub fn icons_dir(data_home: &str) -> (r: String)
    ensures
        r@ == data_home@ + "/icons/AppImageInstall"@,
{
    String::from_str(data_home).concat("/icons/AppImageInstall")
}

/// Returns the directory that holds desktop entries, under the data
/// directory `data_home`.
pub fn applications_dir(data_home: &str) -> (r: String)
    ensures
        r@ == data_home@ + "/applications"@,
{
    String::from_str(data_home).concat("/applications")
}

/// Returns the pattern that matches the AppImages in `dir`.
pub fn appimage_pattern(dir: &str) -> (r: String)
    ensures
        r@ == dir@ + "/*.AppImage"@,
{
    String::from_str(dir).concat("/*.AppImage")
}

/// Returns the pattern that matches the desktop files at the top of a
/// mounted AppImage.
pub fn desktop_file_pattern(mount_point: &str) -> (r: String)
    ensures
        r@ == mount_point@ + "/*.desktop"@,
{
    String::from_str(mount_point).concat("/*.desktop")
}

/// Where an icon may lie in a mounted AppImage, most preferred first: large
/// PNG icons, any icon, then any PNG or SVG image.
pub open spec fn icon_pattern_suffixes() -> Seq<Seq<char>> {
    seq![
        "/*256*icon*.png"@,
        "/*128*icon*.png"@,
        "/*64*icon*.png"@,
        "/*48*icon*.png"@,
        "/*icon*.png"@,
        "/*icon*.svg"@,
        "/*256*.png"@,
        "/*128*.png"@,
        "/*.png"@,
        "/*.svg"@,
    ]
}

/// Returns the patterns, in order of preference, under which an icon is
/// looked for in the AppImage mounted at `mount_point`.
pub fn icon_patterns(mount_point: &str) -> (r: Vec<String>)
    ensures
        r@.len() == icon_pattern_suffixes().len(),
        forall|i: int|
            0 <= i < r@.len() ==> #[trigger] r@[i]@ == mount_point@ + icon_pattern_suffixes()[i],
{
    let mut r: Vec<String> = Vec::new();
    r.push(String::from_str(mount_point).concat("/*256*icon*.png"));
    r.push(String::from_str(mount_point).concat("/*128*icon*.png"));
    r.push(String::from_str(mount_point).concat("/*64*icon*.png"));
    r.push(String::from_str(mount_point).concat("/*48*icon*.png"));
    r.push(String::from_str(mount_point).concat("/*icon*.png"));
    r.push(String::from_str(mount_point).concat("/*icon*.svg"));
    r.push(String::from_str(mount_point).concat("/*256*.png"));
    r.push(String::from_str(mount_point).concat("/*128*.png"));
    r.push(String::from_str(mount_point).concat("/*.png"));
    r.push(String::from_str(mount_point).concat("/*.svg"));
    r
}

} // verus!
