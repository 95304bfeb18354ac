//! f3note's editing, session and theme logic, with its contracts proved.

pub mod atomic;
pub mod config;
pub mod document;
pub mod edit;
pub mod ipc;
pub mod mru;
pub mod paths;
pub mod recent;
pub mod search;
pub mod session;
pub mod strings;
pub mod numbers;
pub mod codec;
pub mod text;
pub mod ui;
pub mod fuzzy;
pub mod theme;
