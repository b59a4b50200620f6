//! Verified core of a remote-filesystem exploration and transfer engine.
//!
//! The crate models the concurrency engine of an SSH/SFTP file browser:
//! a work-stealing remote directory walker, a serialized transfer worker,
//! the session guardian that hands out channels over one connection, and
//! the parser for the user's ssh configuration file.  Network and terminal
//! I/O live outside this library; the decisions they feed are verified here.

pub mod cli;
pub mod config;
pub mod delete;
pub mod files;
pub mod paths;
pub mod session;
pub mod ssh_config;
pub mod text;
pub mod tui;
pub mod transfer;
pub mod walker;

pub use paths::join_path;
