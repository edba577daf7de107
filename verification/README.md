# appimage_install

Desktop integration of AppImages on Linux: desktop entries are created for
AppImages, entries whose program is gone are removed, and icons are taken
out of the AppImages.

- `src/` is the library, verified with Verus: the desktop-file format
  (`desktop.rs`), Unix path text (`path.rs`), line and character handling
  (`text.rs`), the program's directories and patterns (`config.rs`), the
  decisions around AppImage files (`appimage.rs`) and the command line and
  its runs (`cli.rs`). `laws.rs` proves what holds across them, chiefly that
  a desktop file rewritten for an AppImage, once written and read back,
  launches that AppImage.
- `app/` is the program: file system, processes, prompts and the GTK dialog.
- `tests/` runs the library on concrete values and compares its path and
  text handling with the standard library.

## Modes

With `--cli`, questions are asked on the terminal. Without it, the same
cleanup and installation run, and questions are asked in GTK dialogs when a
display is available (on the terminal otherwise); the AppImages of both the
given directory and the install directory are offered. There is no window
that lists entries with Install and Remove buttons, and deleting an AppImage
file is not offered.
