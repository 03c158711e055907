//! Monochrome rewriting of terminal output.
//!
//! A [`Filter`] reads the bytes that a program writes to its terminal and
//! rewrites every SGR escape sequence (`ESC [ params m`) so that no colour
//! reaches the real terminal: a background colour becomes reverse video, a
//! foreground colour optionally becomes bold text, and every other byte is
//! passed on untouched.

pub mod attrs;
pub mod filter;
pub mod laws;
pub mod params;
pub mod sgr;
pub mod terminal;

pub use attrs::{Attributes, Intensity};
pub use filter::{Filter, FilterView, SgrState, SGR_MAX_LEN};
