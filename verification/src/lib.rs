//! A reading log: books, the bookmarks taken while reading them, the command
//! language that edits them, and the statistics shown about them.
pub mod actions;
pub mod chance;
pub mod clock;
pub mod commands;
pub mod laws;
pub mod parser;
pub mod stores;
pub mod structs;
pub mod readings;
pub mod text;
pub mod views;
