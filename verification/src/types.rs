//! Values that the emulator reports about its cells and its screen.
use vstd::prelude::*;

verus! {

/// A colour.
#[derive(Clone, Copy, Debug, PartialEq, Eq, Structural)]
pub struct Rgb {
    pub r: u8,
    pub g: u8,
    pub b: u8,
}

/// How one cell is drawn.
#[derive(Clone, Copy, Debug, PartialEq, Eq, Structural)]
pub struct CellStyle {
    pub fg: Rgb,
    pub bg: Rgb,
    pub flags: u8,
}

/// How a run of cells is drawn, from `start_col` to `end_col`, both 1-based and
/// both part of the run.
#[derive(Clone, Copy, Debug, PartialEq, Eq, Structural)]
pub struct StyleRun {
    pub start_col: u16,
    pub end_col: u16,
    pub fg: Rgb,
    pub bg: Rgb,
    pub flags: u8,
}

/// Where the viewport sits inside the full screen.
#[derive(Clone, Copy, Debug, PartialEq, Eq, Structural)]
pub struct ScrollPosition {
    /// 0-based row index of the topmost visible row, counting from the oldest
    /// scrollback row.
    pub viewport_top: u32,
    /// Rows of the screen, scrollback and visible together.
    pub total_rows: u32,
    /// Height of the viewport in rows.
    pub viewport_rows: u32,
}

/// The modifier keys held with a named key.
#[derive(Clone, Copy, Debug, PartialEq, Eq, Structural)]
pub struct KeyModifiers {
    pub shift: bool,
    pub control: bool,
    pub alt: bool,
    pub super_key: bool,
}

impl Default for KeyModifiers {
    fn default() -> (m: KeyModifiers)
        ensures
            m == (KeyModifiers { shift: false, control: false, alt: false, super_key: false }),
    {
        KeyModifiers { shift: false, control: false, alt: false, super_key: false }
    }
}

/// 1 or 0.
pub open spec fn bit(b: bool) -> int {
    if b {
        1
    } else {
        0
    }
}

impl KeyModifiers {
    /// The modifiers as the emulator's key encoder takes them: one bit each,
    /// shift lowest, then control, alt and super.
    pub fn bits(self) -> (r: u16)
        ensures
            r == bit(self.shift) + 2 * bit(self.control) + 4 * bit(self.alt) + 8 * bit(
                self.super_key,
            ),
            r < 16,
            self.shift <==> r % 2 == 1,
            self.control <==> r / 2 % 2 == 1,
            self.alt <==> r / 4 % 2 == 1,
            self.super_key <==> r / 8 == 1,
    {
        let mut bits: u16 = 0;
        if self.shift {
            bits = bits + 0x0001;
        }
        if self.control {
            bits = bits + 0x0002;
        }
        if self.alt {
            bits = bits + 0x0004;
        }
        if self.super_key {
            bits = bits + 0x0008;
        }
        bits
    }
}

/// What the emulator noticed in its stream besides the screen's contents.
#[derive(Debug)]
pub enum TerminalEvent {
    /// The shell starts to print its prompt.
    PromptStart,
    /// The prompt is complete; what follows is the user's input.
    InputStart,
    /// The shell starts to run a command.
    CommandStart { cmd: Option<String> },
    /// A command has ended.
    CommandEnd { exit_code: i32 },
    /// A bell or a notification.
    Other,
}

} // verus!
