//! Find, create and jump into project directories.
//!
//! Every project lives under one root and is a single directory named after
//! itself. A project can be empty, cloned from a remote repository, checked out
//! from a pull request, or backed by a local directory. The name is chosen the
//! same way in every case, and an existing project is simply entered.
//!
//! The library decides; it touches neither the disk nor the terminal. What it
//! needs to know or wants done it asks for ([`system`]), and what the picker
//! shows it hands over as lines of styled text ([`picker`]).

pub mod browse;
pub mod choosing;
pub mod command;
pub mod entering;
pub mod error;
pub mod fuzzy;
pub mod git;
pub mod naming;
pub mod number;
pub mod order;
pub mod paths;
pub mod picker;
pub mod resolving;
pub mod shell;
pub mod source;
pub mod store;
pub mod system;
pub mod text;
pub mod theme;
pub mod url;
