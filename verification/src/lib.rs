//! Condense a code base into one Markdown document: the decisions and text
//! layout of the `dumbo` tool, as verified functions.
pub mod text;
pub mod lang;
pub mod config;
pub mod path;
pub mod tree;
pub mod run;
pub mod dumbo_toml;
pub mod diff;
pub mod cli;
pub mod laws;
pub mod clipboard;
