pub mod commands;
pub mod config;
pub mod error;
pub mod files;
pub mod git;
pub mod hooks;
pub mod number;
pub mod output;
pub mod path;
pub mod text;
