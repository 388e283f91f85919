//! What a host configures.
use vstd::prelude::*;
use crate::ascii::ESC;
use crate::types::Rgb;

verus! {

/// The cursor's shape.
#[derive(Clone, Copy, Debug, PartialEq, Eq, Structural)]
pub enum CursorStyle {
    /// A fill of the whole cell.
    Block,
    /// A thin vertical bar at the left edge of the cell.
    Bar,
}

impl Default for CursorStyle {
    fn default() -> (s: CursorStyle)
        ensures
            s == CursorStyle::Block,
    {
        CursorStyle::Block
    }
}

/// Whether the host's theme is dark or light.
#[derive(Clone, Copy, Debug, PartialEq, Eq, Structural)]
pub enum ColorScheme {
    Dark,
    Light,
}

impl Default for ColorScheme {
    fn default() -> (s: ColorScheme)
        ensures
            s == ColorScheme::Dark,
    {
        ColorScheme::Dark
    }
}

impl ColorScheme {
    /// The report of the scheme, `CSI ? 997 ; 1 n` for dark and
    /// `CSI ? 997 ; 2 n` for light.
    pub open spec fn report_bytes(self) -> Seq<u8> {
        let number: u8 = match self {
            ColorScheme::Dark => 0x31,
            ColorScheme::Light => 0x32,
        };
        seq![ESC, 0x5b, 0x3f, 0x39, 0x39, 0x37, 0x3b, number, 0x6e]
    }

    /// The report of the scheme that a program gets.
    pub fn report(self) -> (r: Vec<u8>)
        ensures
            r@ == self.report_bytes(),
    {
        let number: u8 = match self {
            ColorScheme::Dark => 0x31,
            ColorScheme::Light => 0x32,
        };
        let r = vec![ESC, 0x5b, 0x3f, 0x39, 0x39, 0x37, 0x3b, number, 0x6e];
        assert(r@ =~= self.report_bytes());
        r
    }
}

/// The configuration of a terminal. Measures that are drawn with, such as font
/// sizes, belong to the host.
#[derive(Clone, Debug)]
pub struct TerminalConfig {
    pub cols: u16,
    pub rows: u16,
    pub default_fg: Rgb,
    pub default_bg: Rgb,
    /// Let the window's title follow the terminal's.
    pub update_window_title: bool,
    /// Primary font family; `None` for the host's own choice.
    pub font_family: Option<String>,
    /// Cursor blink interval in milliseconds; `None` for a steady cursor.
    pub cursor_blink_ms: Option<u64>,
    /// The cursor's colour; `None` for one that contrasts with the background.
    pub cursor_color: Option<Rgb>,
    pub cursor_style: CursorStyle,
    pub color_scheme: ColorScheme,
}

impl Default for TerminalConfig {
    fn default() -> (c: TerminalConfig)
        ensures
            c.cols == 80,
            c.rows == 24,
            c.default_fg == (Rgb { r: 0xFF, g: 0xFF, b: 0xFF }),
            c.default_bg == (Rgb { r: 0x00, g: 0x00, b: 0x00 }),
            c.update_window_title,
            c.font_family is None,
            c.cursor_blink_ms is None,
            c.cursor_color is None,
            c.cursor_style == CursorStyle::Block,
            c.color_scheme == ColorScheme::Dark,
    {
        TerminalConfig {
            cols: 80,
            rows: 24,
            default_fg: Rgb { r: 0xFF, g: 0xFF, b: 0xFF },
            default_bg: Rgb { r: 0x00, g: 0x00, b: 0x00 },
            update_window_title: true,
            font_family: None,
            cursor_blink_ms: None,
            cursor_color: None,
            cursor_style: CursorStyle::Block,
            color_scheme: ColorScheme::Dark,
        }
    }
}

} // verus!
