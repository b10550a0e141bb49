//! Profiles: files of bindings from trigger keys to synthetic input.
pub mod apply;
pub mod block_laws;
pub mod check;
pub mod circle;
pub mod circle_laws;
pub mod claims;
pub mod file_laws;
pub mod format;
pub mod format_laws;
pub mod manager;
pub mod manager_laws;
pub mod model;
pub mod program;
pub mod reading_laws;
pub mod readings;
pub mod reformat;
pub mod run;
pub mod run_laws;
pub mod select;
pub mod session;
pub mod slots;
pub mod state;
pub mod step_laws;
pub mod steps;
pub mod tidy;
pub mod tidy_laws;
pub mod work_laws;
