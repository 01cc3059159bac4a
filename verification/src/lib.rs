//! The logic of `cargo nocli`, which installs nocomponents' styled layer into a Leptos project
//! as source the project owns.

pub mod text;
pub mod config;
pub mod order;
pub mod lock;
pub mod rewrite;
pub mod install;
pub mod manifest;
pub mod init;
pub mod remote;
pub mod site;
pub mod editor;
pub mod board;
pub mod search;
pub mod demos;
pub mod canvas;
