//! Desktop integration of AppImages: the text formats, paths and decisions
//! behind installing, finding and cleaning up desktop entries.

pub mod appimage;
pub mod cli;
pub mod config;
pub mod desktop;
pub mod laws;
pub mod path;
pub mod text;
