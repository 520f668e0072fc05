//! The logic of an inline project finder: which folders count as projects, how
//! well each one matches what was typed, and what the picker shows and does.

pub mod command;
pub mod config;
pub mod frame;
pub mod lex;
pub mod order;
pub mod path;
pub mod picker;
pub mod rank;
pub mod scan;
pub mod score;
pub mod screen;
pub mod session;
pub mod text;

