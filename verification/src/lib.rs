//! Monitor layout profiles for wlroots compositors.

pub mod arrange;
pub mod command;
pub mod config;
pub mod daemon;
pub mod editor;
pub mod matching;
pub mod number;
pub mod order;
pub mod scale;
pub mod state;
pub mod text;
pub mod wl;
