//! The command-line tool's own logic: devices, argument parsing, the project
//! manifest and the text it shows. Reading files, printing and serving stay
//! with the application.

pub mod project;
pub mod devices;
pub mod ui;
pub mod args;
pub mod dev;
pub mod docs;
