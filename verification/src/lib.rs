//! Verified core of the hitch terminal-sharing tool.
pub mod error;
pub mod text;
pub mod utf8;
pub mod paths;
pub mod filters;
pub mod render;
pub mod setup;
pub mod update;
pub mod send_keys;
pub mod session;
pub mod output;
pub mod protocol;
pub mod style;
pub mod muxi;
pub mod commands;
