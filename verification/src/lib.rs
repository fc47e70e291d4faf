//! A desktop application launcher: discovery of desktop entries, launch
//! planning, launch history, search and the launcher's interaction state.

pub mod applications;
pub mod desktop_files;
pub mod directories;
pub mod entry;
pub mod history;
pub mod icons;
pub mod launch;
pub mod search;
pub mod sorted;
pub mod paths;
pub mod text;
pub mod ui;
pub mod userconfig;
