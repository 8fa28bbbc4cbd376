//! FastZIP core logic: archive formats and output paths, file-type
//! sniffing, checksums, localization, the settings file, the task queue,
//! release checks and the texts the user interface shows.

pub mod archive;
pub mod compress;
pub mod file_kind;
pub mod hash;
pub mod launch;
pub mod localization;
pub mod paths;
pub mod queue;
pub mod settings;
pub mod tasks;
mod text;
pub mod ui;
pub mod update;
