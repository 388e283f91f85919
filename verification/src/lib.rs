//! The logic of an embedded terminal: what its output stream says about the
//! terminal's modes, which queries it must answer, how the text of the screen
//! is cached, sliced, styled and searched, and what key and mouse events send
//! back to the shell.
//!
//! Everything here works on plain values. The emulator that owns the screen
//! grid and the toolkit that draws it live in the host.
use vstd::prelude::*;

pub mod ascii;
pub mod cells;
pub mod clipboard;
pub mod config;
pub mod decimal;
pub mod dump;
pub mod error;
pub mod glyph;
pub mod input;
pub mod lines;
pub mod links;
pub mod modes;
pub mod osc;
pub mod paste;
pub mod query;
pub mod runs;
pub mod session;
pub mod stats;
pub mod text;
pub mod types;
pub mod url;
pub mod view;
pub mod viewport;
pub mod wrap;

pub use config::{ColorScheme, CursorStyle, TerminalConfig};
pub use error::Error;
pub use session::TerminalSession;
pub use types::{CellStyle, KeyModifiers, Rgb, ScrollPosition, StyleRun, TerminalEvent};
pub use view::TerminalView;

verus! {

} // verus!
