pub mod args;
pub mod entry;
pub mod file;
pub mod text;
pub mod ui;
