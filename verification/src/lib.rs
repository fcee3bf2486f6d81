//! Fox Sharing: the rules of a simple network file-sharing system.
//!
//! The crate decides; the program around it moves bytes. Paths are byte strings
//! divided by `/`, messages are the values of [`protocol`], and everything that
//! touches a socket or a disk is asked for as a value and answered with one.
pub mod auth;
pub mod client;
pub mod disk;
pub mod display;
pub mod entry;
pub mod frame;
pub mod operations;
pub mod outside;
pub mod path;
pub mod protocol;
pub mod sanitize;
pub mod server;
pub mod session;
pub mod text;
pub mod transfer;
pub mod tree;
