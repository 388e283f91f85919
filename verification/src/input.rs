//! What key and mouse events do: bytes for the shell, or a change of what is
//! shown.
use std::ops::Range;
use vstd::prelude::*;
use vstd::utf8::*;
use crate::ascii;
use crate::ascii::{ESC, OPEN_BRACKET, SEMICOLON};
use crate::decimal;
use crate::decimal::push_decimal;
use crate::modes;
use crate::modes::TerminalModes;
use crate::text;
use crate::text::{ascii_string, same_text};
use crate::types;
use crate::types::KeyModifiers;

verus! {

/// The modifier keys of an event.
#[derive(Clone, Copy, Debug, PartialEq, Eq, Structural)]
pub struct Modifiers {
    pub control: bool,
    pub alt: bool,
    pub shift: bool,
    /// Command on a Mac, the Windows key elsewhere.
    pub platform: bool,
    pub function: bool,
}

/// A key that was pressed.
pub struct Keystroke {
    /// The key's name.
    pub key: String,
    /// The text that the key types, if it is known.
    pub key_char: Option<String>,
    pub modifiers: Modifiers,
    /// An input method may still turn the key into something else.
    pub ime_in_progress: bool,
}

/// The key is an Enter key.
pub open spec fn is_enter(key: Seq<char>) -> bool {
    key == "enter"@ || key == "return"@ || key == "kp_enter"@ || key == "numpad_enter"@
}

/// Whether a key is left to the input method. Enter never is: it would be lost
/// while text is being composed.
pub fn should_skip_key_down_for_ime(has_input: bool, keystroke: &Keystroke) -> (r: bool)
    ensures
        r == (has_input && keystroke.ime_in_progress && !is_enter(keystroke.key@)),
{
    if !has_input || !keystroke.ime_in_progress {
        return false;
    }
    let key = keystroke.key.as_str();
    !(same_text(key, "enter") || same_text(key, "return") || same_text(key, "kp_enter")
        || same_text(key, "numpad_enter"))
}

/// The text by which a key is taken for its control byte: what it types, else
/// its name.
pub open spec fn ctrl_candidate(keystroke: Keystroke) -> Option<Seq<char>> {
    match keystroke.key_char {
        Some(text) => Some(text@),
        None => if keystroke.key@.len() > 0 {
            Some(keystroke.key@)
        } else {
            None
        },
    }
}

/// The control byte of a text of one byte.
pub open spec fn ctrl_byte(text: Seq<char>) -> Option<u8> {
    let bytes = encode_utf8(text);
    if text == "space"@ {
        Some(0u8)
    } else if bytes.len() == 1 && 0x40 <= bytes[0] <= 0x5f {
        Some((bytes[0] - 0x40) as u8)
    } else if bytes.len() == 1 && 0x61 <= bytes[0] <= 0x7a {
        Some((bytes[0] - 0x60) as u8)
    } else {
        None
    }
}

/// The control byte of a key, if it has one.
pub open spec fn keystroke_ctrl_byte(keystroke: Keystroke) -> Option<u8> {
    match ctrl_candidate(keystroke) {
        Some(text) => ctrl_byte(text),
        None => None,
    }
}

fn ctrl_byte_for_text(text: &str) -> (r: Option<u8>)
    ensures
        r == ctrl_byte(text@),
{
    if same_text(text, "space") {
        return Some(0x00);
    }
    let bytes = text.as_bytes();
    if bytes.len() != 1 {
        return None;
    }
    let b = bytes[0];
    if 0x40 <= b && b <= 0x5f {
        Some(b - 0x40)
    } else if 0x61 <= b && b <= 0x7a {
        Some(b - 0x60)
    } else {
        None
    }
}

/// The byte that Control with a key sends.
pub fn ctrl_byte_for_keystroke(keystroke: &Keystroke) -> (r: Option<u8>)
    ensures
        r == keystroke_ctrl_byte(*keystroke),
{
    match &keystroke.key_char {
        Some(text) => ctrl_byte_for_text(text.as_str()),
        None => if keystroke.key.as_str().is_empty() {
            None
        } else {
            ctrl_byte_for_text(keystroke.key.as_str())
        },
    }
}

/// The line editing byte that Command with a key stands for: to the start of the
/// line, to its end, or delete back to its start.
pub open spec fn line_editing_byte(key: Seq<char>) -> Option<u8> {
    if key == "left"@ {
        Some(0x01u8)
    } else if key == "right"@ {
        Some(0x05u8)
    } else if key == "backspace"@ {
        Some(0x15u8)
    } else {
        None
    }
}

/// The line editing byte that Command with a key sends; other keys stay Command
/// shortcuts.
pub fn cmd_line_editing_byte(key: &str) -> (r: Option<u8>)
    ensures
        r == line_editing_byte(key@),
{
    if same_text(key, "left") {
        Some(0x01)
    } else if same_text(key, "right") {
        Some(0x05)
    } else if same_text(key, "backspace") {
        Some(0x15)
    } else {
        None
    }
}

/// Where a key scrolls to.
#[derive(Clone, Copy, Debug, PartialEq, Eq, Structural)]
pub enum ScrollTarget {
    Top,
    Bottom,
    /// By so many lines, up where it is negative.
    By(i32),
}

/// Half a screen, but at least a line.
pub open spec fn scroll_step(rows: u16) -> int {
    if rows < 2 {
        1
    } else {
        rows as int / 2
    }
}

/// Where a key scrolls to on a screen of `rows` rows.
pub open spec fn scroll_target(key: Seq<char>, rows: u16) -> Option<ScrollTarget> {
    if key == "home"@ {
        Some(ScrollTarget::Top)
    } else if key == "end"@ {
        Some(ScrollTarget::Bottom)
    } else if key == "pageup"@ || key == "page_up"@ || key == "page-up"@ {
        Some(ScrollTarget::By(-scroll_step(rows) as i32))
    } else if key == "pagedown"@ || key == "page_down"@ || key == "page-down"@ {
        Some(ScrollTarget::By(scroll_step(rows) as i32))
    } else {
        None
    }
}

fn scroll_target_for_key(key: &str, rows: u16) -> (r: Option<ScrollTarget>)
    ensures
        r == scroll_target(key@, rows),
{
    let half: i32 = rows as i32 / 2;
    let step: i32 = if half < 1 {
        1
    } else {
        half
    };
    if same_text(key, "home") {
        Some(ScrollTarget::Top)
    } else if same_text(key, "end") {
        Some(ScrollTarget::Bottom)
    } else if same_text(key, "pageup") || same_text(key, "page_up") || same_text(key, "page-up") {
        Some(ScrollTarget::By(-step))
    } else if same_text(key, "pagedown") || same_text(key, "page_down") || same_text(
        key,
        "page-down",
    ) {
        Some(ScrollTarget::By(step))
    } else {
        None
    }
}

/// What a key does.
pub enum KeyAction {
    /// Nothing; the host may use the key otherwise.
    Ignore,
    /// Scroll the view.
    Scroll(ScrollTarget),
    /// Send one byte.
    SendByte(u8),
    /// Send `ESC`, then these bytes.
    SendMeta(Vec<u8>),
    /// Let the emulator encode the key by its name, with these modifiers.
    Encode(KeyModifiers),
}

/// What a key does, as contracts see it.
pub enum KeyActionModel {
    Ignore,
    Scroll(ScrollTarget),
    SendByte(u8),
    SendMeta(Seq<u8>),
    Encode(KeyModifiers),
}

impl View for KeyAction {
    type V = KeyActionModel;

    open spec fn view(&self) -> KeyActionModel {
        match *self {
            KeyAction::Ignore => KeyActionModel::Ignore,
            KeyAction::Scroll(t) => KeyActionModel::Scroll(t),
            KeyAction::SendByte(b) => KeyActionModel::SendByte(b),
            KeyAction::SendMeta(v) => KeyActionModel::SendMeta(v@),
            KeyAction::Encode(m) => KeyActionModel::Encode(m),
        }
    }
}

/// The modifiers that the emulator's key encoder is told of.
pub open spec fn key_modifiers(m: Modifiers) -> KeyModifiers {
    KeyModifiers { shift: m.shift, control: m.control, alt: m.alt, super_key: false }
}

/// What a key does in a terminal whose input goes to a shell.
pub open spec fn shell_key_action(keystroke: Keystroke, rows: u16) -> KeyActionModel {
    let m = keystroke.modifiers;
    let scroll = scroll_target(keystroke.key@, rows);
    if m.shift && scroll is Some {
        KeyActionModel::Scroll(scroll.unwrap())
    } else if m.control && keystroke_ctrl_byte(keystroke) is Some {
        KeyActionModel::SendByte(keystroke_ctrl_byte(keystroke).unwrap())
    } else if m.alt && keystroke.key_char is Some {
        KeyActionModel::SendMeta(encode_utf8(keystroke.key_char.unwrap()@))
    } else {
        KeyActionModel::Encode(key_modifiers(m))
    }
}

/// What a key does in a terminal that is only looked at.
pub open spec fn viewer_key_action(keystroke: Keystroke, rows: u16) -> KeyActionModel {
    match scroll_target(keystroke.key@, rows) {
        Some(target) => KeyActionModel::Scroll(target),
        None => KeyActionModel::Encode(key_modifiers(keystroke.modifiers)),
    }
}

/// What a key does. `raw` is the key as it came in, `keystroke` with the text
/// that it types filled in.
pub open spec fn key_action(
    raw: Keystroke,
    keystroke: Keystroke,
    has_input: bool,
    rows: u16,
) -> KeyActionModel {
    let m = keystroke.modifiers;
    if has_input && raw.ime_in_progress && !is_enter(raw.key@) {
        KeyActionModel::Ignore
    } else if m.platform || m.function {
        match line_editing_byte(keystroke.key@) {
            Some(b) => if has_input && m.platform && !m.function {
                KeyActionModel::SendByte(b)
            } else {
                KeyActionModel::Ignore
            },
            None => KeyActionModel::Ignore,
        }
    } else if has_input {
        shell_key_action(keystroke, rows)
    } else {
        viewer_key_action(keystroke, rows)
    }
}

/// What a key does.
pub fn on_key_down(raw: &Keystroke, keystroke: &Keystroke, has_input: bool, rows: u16) -> (r:
    KeyAction)
    ensures
        r@ == key_action(*raw, *keystroke, has_input, rows),
        r matches KeyAction::Encode(k) ==> {
            &&& k.shift == keystroke.modifiers.shift
            &&& k.control == keystroke.modifiers.control
            &&& k.alt == keystroke.modifiers.alt
            &&& !k.super_key
        },
{
    if should_skip_key_down_for_ime(has_input, raw) {
        return KeyAction::Ignore;
    }
    let m = keystroke.modifiers;
    let key = keystroke.key.as_str();
    if m.platform || m.function {
        if has_input && m.platform && !m.function {
            if let Some(b) = cmd_line_editing_byte(key) {
                return KeyAction::SendByte(b);
            }
        }
        return KeyAction::Ignore;
    }
    let scroll = scroll_target_for_key(key, rows);
    if has_input {
        if m.shift {
            if let Some(target) = scroll {
                return KeyAction::Scroll(target);
            }
        }
        if m.control {
            if let Some(b) = ctrl_byte_for_keystroke(keystroke) {
                return KeyAction::SendByte(b);
            }
        }
        if m.alt {
            if let Some(text) = &keystroke.key_char {
                return KeyAction::SendMeta(
                    vstd::slice::slice_to_vec(text.as_str().as_bytes()),
                );
            }
        }
    } else if let Some(target) = scroll {
        return KeyAction::Scroll(target);
    }
    KeyAction::Encode(
        KeyModifiers { shift: m.shift, control: m.control, alt: m.alt, super_key: false },
    )
}

/// What is done with the bytes of a key.
pub enum KeyOutcome {
    Nothing,
    /// Send them to the shell.
    Send(Vec<u8>),
    /// Show them, where there is no shell.
    Feed(Vec<u8>),
}

/// What is done once the emulator has encoded a key, or has not: without a shell
/// a Backspace that has no encoding still moves the cursor back.
pub fn on_key_encoded(key: &str, has_input: bool, encoded: Option<Vec<u8>>) -> (r: KeyOutcome)
    ensures
        encoded matches Some(bytes) ==> (if has_input {
            r == KeyOutcome::Send(bytes)
        } else {
            r == KeyOutcome::Feed(bytes)
        }),
        encoded is None && !has_input && key@ == "backspace"@ ==> (r matches KeyOutcome::Feed(v)
            && v@ == seq![0x08u8]),
        encoded is None && (has_input || key@ != "backspace"@) ==> r is Nothing,
{
    match encoded {
        Some(bytes) => if has_input {
            KeyOutcome::Send(bytes)
        } else {
            KeyOutcome::Feed(bytes)
        },
        None => if !has_input && same_text(key, "backspace") {
            let v: Vec<u8> = vec![0x08];
            assert(v@ =~= seq![0x08u8]);
            KeyOutcome::Feed(v)
        } else {
            KeyOutcome::Nothing
        },
    }
}

/// What Tab sends, and Shift with Tab.
pub fn tab_bytes(reverse: bool) -> (v: Vec<u8>)
    ensures
        v@ == if reverse {
            seq![ESC, OPEN_BRACKET, 0x5a]
        } else {
            seq![0x09u8]
        },
{
    let v: Vec<u8> = if reverse {
        vec![ESC, OPEN_BRACKET, 0x5a]
    } else {
        vec![0x09]
    };
    assert(v@ =~= if reverse {
        seq![ESC, OPEN_BRACKET, 0x5a]
    } else {
        seq![0x09u8]
    });
    v
}

/// A button of the mouse.
#[derive(Clone, Copy, Debug, PartialEq, Eq, Structural)]
pub enum MouseButton {
    Left,
    Middle,
    Right,
    Other,
}

/// The number of a button in reports; `None` for a button without one.
pub open spec fn button_number(button: MouseButton) -> Option<u8> {
    match button {
        MouseButton::Left => Some(0u8),
        MouseButton::Middle => Some(1u8),
        MouseButton::Right => Some(2u8),
        MouseButton::Other => None,
    }
}

/// The button field of a mouse report, before it is held to one byte.
pub open spec fn button_sum(base: u8, motion: bool, shift: bool, alt: bool, control: bool) -> int {
    base + 32 * types::bit(motion) + 4 * types::bit(shift) + 8 * types::bit(alt) + 16
        * types::bit(control)
}

/// The button field of a mouse report: the button, and what else holds.
pub open spec fn button_value(base: u8, motion: bool, shift: bool, alt: bool, control: bool) -> u8 {
    if button_sum(base, motion, shift, alt, control) <= u8::MAX {
        button_sum(base, motion, shift, alt, control) as u8
    } else {
        u8::MAX
    }
}

/// The button field of a mouse report.
pub fn sgr_mouse_button_value(
    base_button: u8,
    motion: bool,
    shift: bool,
    alt: bool,
    control: bool,
) -> (value: u8)
    ensures
        value == button_value(base_button, motion, shift, alt, control),
{
    let mut value: u8 = base_button;
    if motion {
        value = value.saturating_add(32);
    }
    if shift {
        value = value.saturating_add(4);
    }
    if alt {
        value = value.saturating_add(8);
    }
    if control {
        value = value.saturating_add(16);
    }
    value
}

/// A mouse report: `ESC [ < button ; col ; row M`, with `m` for a release.
pub open spec fn mouse_report(button: u8, col: u16, row: u16, pressed: bool) -> Seq<u8> {
    seq![ESC, OPEN_BRACKET, 0x3c] + decimal::decimal_digits(button as nat) + seq![SEMICOLON]
        + decimal::decimal_digits(col as nat) + seq![SEMICOLON] + decimal::decimal_digits(
        row as nat,
    ) + seq![
        if pressed {
            0x4du8
        } else {
            0x6du8
        },
    ]
}

/// A mouse report as a string: its bytes are those of the report.
pub fn sgr_mouse_sequence(button_value: u8, col: u16, row: u16, pressed: bool) -> (s: String)
    ensures
        encode_utf8(s@) == mouse_report(button_value, col, row, pressed),
{
    let mut out: Vec<u8> = vec![ESC, OPEN_BRACKET, 0x3c];
    push_decimal(&mut out, button_value as u32);
    out.push(SEMICOLON);
    push_decimal(&mut out, col as u32);
    out.push(SEMICOLON);
    push_decimal(&mut out, row as u32);
    out.push(
        if pressed {
            0x4d
        } else {
            0x6d
        },
    );
    assert(out@ =~= mouse_report(button_value, col, row, pressed));
    proof {
        let a = decimal::decimal_digits(button_value as nat);
        let b = decimal::decimal_digits(col as nat);
        let c = decimal::decimal_digits(row as nat);
        decimal::lemma_digits_value(button_value as nat);
        decimal::lemma_digits_value(col as nat);
        decimal::lemma_digits_value(row as nat);
        assert forall|i: int| 0 <= i < out@.len() implies #[trigger] out@[i] < 0x80 by {
            if 3 <= i < 3 + a.len() {
                assert(ascii::is_digit(a[i - 3]));
            } else if 4 + a.len() <= i < 4 + a.len() + b.len() {
                assert(ascii::is_digit(b[i - 4 - a.len()]));
            } else if 5 + a.len() + b.len() <= i < 5 + a.len() + b.len() + c.len() {
                assert(ascii::is_digit(c[i - 5 - a.len() - b.len()]));
            }
        }
    }
    ascii_string(out.as_slice())
}

/// Mouse events go to the program: it asked for them, in the form that is
/// spoken here, and the user does not hold Shift to keep them.
pub open spec fn reports_mouse(modes: TerminalModes, has_input: bool, shift: bool) -> bool {
    &&& has_input
    &&& !shift
    &&& modes.mouse_x10 || modes.mouse_button_event || modes.mouse_any_event
    &&& modes.mouse_sgr
}

/// Whether mouse events go to the program.
pub fn mouse_goes_to_program(modes: &TerminalModes, has_input: bool, shift: bool) -> (r: bool)
    ensures
        r == reports_mouse(*modes, has_input, shift),
{
    has_input && !shift && modes.mouse_reporting() && modes.mouse_sgr
}

/// The report of a button at a cell, if both are known.
pub open spec fn button_report(
    button: MouseButton,
    cell: Option<(u16, u16)>,
    m: Modifiers,
    pressed: bool,
) -> Option<Seq<u8>> {
    match cell {
        Some((col, row)) => match button_number(button) {
            Some(n) => Some(
                mouse_report(button_value(n, false, false, m.alt, m.control), col, row, pressed),
            ),
            None => None,
        },
        None => None,
    }
}

/// The report of a button that was pressed or released at a cell.
pub fn report_button(
    button: MouseButton,
    cell: Option<(u16, u16)>,
    m: Modifiers,
    pressed: bool,
) -> (r: Option<String>)
    ensures
        r is Some <==> button_report(button, cell, m, pressed) is Some,
        r matches Some(s) ==> encode_utf8(s@) == button_report(button, cell, m, pressed).unwrap(),
{
    let (col, row): (u16, u16) = match cell {
        Some(at) => at,
        None => {
            return None;
        },
    };
    let base: u8 = match button {
        MouseButton::Left => 0,
        MouseButton::Middle => 1,
        MouseButton::Right => 2,
        MouseButton::Other => {
            return None;
        },
    };
    let value = sgr_mouse_button_value(base, false, false, m.alt, m.control);
    Some(sgr_mouse_sequence(value, col, row, pressed))
}

/// What a mouse event does.
pub enum MouseAction {
    Nothing,
    /// Start a selection at this position.
    Select(usize),
    /// Send a report to the program.
    Report(String),
    /// Move the end of the selection to the pointer.
    Drag,
    /// End the selection.
    EndSelection,
}

/// What a press of a button is about.
#[derive(Clone, Copy, Debug, PartialEq, Eq, Structural)]
pub enum Press {
    /// Only to bring the window to the front.
    Focus,
    /// A link under the pointer, if there is one; else as usual.
    Link,
    Usual,
}

/// What a press of a button is about. `first` says that the window was not in
/// front.
pub fn press_kind(first: bool, button: MouseButton, m: Modifiers) -> (r: Press)
    ensures
        r == if first {
            Press::Focus
        } else if button == MouseButton::Left && m.platform {
            Press::Link
        } else {
            Press::Usual
        },
{
    if first {
        Press::Focus
    } else if button == MouseButton::Left && m.platform {
        Press::Link
    } else {
        Press::Usual
    }
}

/// What releasing a button does.
pub fn on_mouse_up(
    modes: &TerminalModes,
    has_input: bool,
    button: MouseButton,
    m: Modifiers,
    cell: Option<(u16, u16)>,
) -> (r: MouseAction)
    ensures
        !reports_mouse(*modes, has_input, m.shift) ==> r is EndSelection,
        reports_mouse(*modes, has_input, m.shift) ==> (match button_report(button, cell, m, false) {
            Some(bytes) => r matches MouseAction::Report(s) && encode_utf8(s@) == bytes,
            None => r is Nothing,
        }),
{
    if !mouse_goes_to_program(modes, has_input, m.shift) {
        return MouseAction::EndSelection;
    }
    match report_button(button, cell, m, false) {
        Some(s) => MouseAction::Report(s),
        None => MouseAction::Nothing,
    }
}

/// What pressing a button does. `index` is the position in the text at the
/// pointer.
pub fn on_mouse_down(
    modes: &TerminalModes,
    has_input: bool,
    button: MouseButton,
    m: Modifiers,
    cell: Option<(u16, u16)>,
    index: Option<usize>,
) -> (r: MouseAction)
    ensures
        !reports_mouse(*modes, has_input, m.shift) ==> r == (match index {
            Some(i) => if button == MouseButton::Left {
                MouseAction::Select(i)
            } else {
                MouseAction::Nothing
            },
            None => MouseAction::Nothing,
        }),
        reports_mouse(*modes, has_input, m.shift) ==> (match button_report(button, cell, m, true) {
            Some(bytes) => r matches MouseAction::Report(s) && encode_utf8(s@) == bytes,
            None => r is Nothing,
        }),
{
    if !mouse_goes_to_program(modes, has_input, m.shift) {
        if button == MouseButton::Left {
            if let Some(i) = index {
                return MouseAction::Select(i);
            }
        }
        return MouseAction::Nothing;
    }
    match report_button(button, cell, m, true) {
        Some(s) => MouseAction::Report(s),
        None => MouseAction::Nothing,
    }
}

/// The button field of a motion report: no button counts as a fourth one.
pub open spec fn motion_button(pressed: Option<MouseButton>) -> u8 {
    match pressed {
        Some(button) => match button_number(button) {
            Some(n) => n,
            None => 3u8,
        },
        None => 3u8,
    }
}

/// The program wants to hear of the pointer's motion.
pub open spec fn wants_motion(modes: TerminalModes, pressed: bool) -> bool {
    modes.mouse_any_event || (modes.mouse_button_event && pressed)
}

/// What moving the pointer does. `dragging` says that the button that selects is
/// held.
pub fn on_mouse_move(
    modes: &TerminalModes,
    has_input: bool,
    pressed: Option<MouseButton>,
    dragging: bool,
    m: Modifiers,
    cell: Option<(u16, u16)>,
) -> (r: MouseAction)
    ensures
        reports_mouse(*modes, has_input, m.shift) && wants_motion(*modes, pressed is Some) ==> (
        match cell {
            Some((col, row)) => r matches MouseAction::Report(s) && encode_utf8(s@) == mouse_report(
                button_value(motion_button(pressed), true, false, m.alt, m.control),
                col,
                row,
                true,
            ),
            None => r is Nothing,
        }),
        !(reports_mouse(*modes, has_input, m.shift) && wants_motion(*modes, pressed is Some))
            ==> if dragging {
            r is Drag
        } else {
            r is Nothing
        },
{
    if mouse_goes_to_program(modes, has_input, m.shift) && (modes.mouse_any_event || (
    modes.mouse_button_event && pressed.is_some())) {
        let base: u8 = match pressed {
            Some(MouseButton::Left) => 0,
            Some(MouseButton::Middle) => 1,
            Some(MouseButton::Right) => 2,
            Some(MouseButton::Other) => 3,
            None => 3,
        };
        return match cell {
            Some((col, row)) => {
                let value = sgr_mouse_button_value(base, true, false, m.alt, m.control);
                MouseAction::Report(sgr_mouse_sequence(value, col, row, true))
            },
            None => MouseAction::Nothing,
        };
    }
    if dragging {
        MouseAction::Drag
    } else {
        MouseAction::Nothing
    }
}

/// How often a wheel report is sent at most.
pub const MAX_WHEEL_STEPS: u32 = 10;

/// The wheel reports of one event: the same report, so many times.
pub struct WheelReports {
    pub report: String,
    pub steps: u32,
}

/// How many wheel reports `delta_lines` lines make.
pub open spec fn wheel_steps(delta_lines: int) -> int {
    let lines = if delta_lines < 0 {
        -delta_lines
    } else {
        delta_lines
    };
    if lines < MAX_WHEEL_STEPS {
        lines
    } else {
        MAX_WHEEL_STEPS as int
    }
}

/// The report of turning the wheel at a cell.
pub open spec fn wheel_report(delta_lines: int, cell: (u16, u16), m: Modifiers) -> Seq<u8> {
    let button = if delta_lines < 0 {
        64u8
    } else {
        65u8
    };
    mouse_report(
        button_value(button, false, false, m.alt, m.control),
        cell.0,
        cell.1,
        true,
    )
}

/// The wheel reports for turning the wheel by `delta_lines` lines, up where it is
/// negative; nothing where it did not move by a line.
pub fn wheel_reports(delta_lines: i32, cell: Option<(u16, u16)>, m: Modifiers) -> (r: Option<
    WheelReports,
>)
    ensures
        r is Some <==> delta_lines != 0 && cell is Some,
        r matches Some(w) ==> {
            &&& w.steps == wheel_steps(delta_lines as int)
            &&& encode_utf8(w.report@) == wheel_report(delta_lines as int, cell.unwrap(), m)
        },
{
    if delta_lines == 0 {
        return None;
    }
    match cell {
        Some((col, row)) => {
            let button: u8 = if delta_lines < 0 {
                64
            } else {
                65
            };
            let value = sgr_mouse_button_value(button, false, false, m.alt, m.control);
            let steps: u32 = if delta_lines <= -10 || delta_lines >= 10 {
                MAX_WHEEL_STEPS
            } else if delta_lines < 0 {
                (-delta_lines) as u32
            } else {
                delta_lines as u32
            };
            Some(WheelReports { report: sgr_mouse_sequence(value, col, row, true), steps })
        },
        None => None,
    }
}

/// What turning the wheel does.
pub enum WheelAction {
    Nothing,
    /// Send reports to the program.
    Report(WheelReports),
    /// Scroll the view.
    Scroll,
}

/// What turning the wheel does, by so many lines, up where it is negative.
pub fn on_scroll_wheel(
    modes: &TerminalModes,
    has_input: bool,
    delta_lines: i32,
    m: Modifiers,
    cell: Option<(u16, u16)>,
) -> (r: WheelAction)
    ensures
        !reports_mouse(*modes, has_input, m.shift) ==> r is Scroll,
        reports_mouse(*modes, has_input, m.shift) && (delta_lines == 0 || cell is None)
            ==> r is Nothing,
        reports_mouse(*modes, has_input, m.shift) && delta_lines != 0 && cell is Some ==> {
            &&& r matches WheelAction::Report(w)
            &&& w.steps == wheel_steps(delta_lines as int)
            &&& encode_utf8(w.report@) == wheel_report(delta_lines as int, cell.unwrap(), m)
        },
{
    if !mouse_goes_to_program(modes, has_input, m.shift) {
        return WheelAction::Scroll;
    }
    match wheel_reports(delta_lines, cell, m) {
        Some(w) => WheelAction::Report(w),
        None => WheelAction::Nothing,
    }
}

/// `n` held between 1 and `top`; `top` where that is less than 1.
pub open spec fn held(n: int, top: int) -> int {
    let low = if n < 1 {
        1
    } else {
        n
    };
    if low > top {
        top
    } else {
        low
    }
}

fn hold(n: i64, top: u16) -> (r: u16)
    ensures
        r == held(n as int, top as int),
{
    let low: i64 = if n < 1 {
        1
    } else {
        n
    };
    if low > top as i64 {
        top
    } else {
        low as u16
    }
}

/// The cell, counted from 1, that a pointer over column `col` and row `row`,
/// counted from 0, stands for: the nearest one on the screen.
pub fn cell_on_screen(col: i32, row: i32, cols: u16, rows: u16) -> (r: (u16, u16))
    ensures
        r.0 == held(col + 1, cols as int),
        r.1 == held(row + 1, rows as int),
{
    (hold(col as i64 + 1, cols), hold(row as i64 + 1, rows))
}

/// The row of the screen, counted from 0, that a pointer over row `row` stands
/// for; nothing where the screen has none.
pub fn row_on_screen(row: i32, rows: u16) -> (r: Option<usize>)
    ensures
        rows == 0 ==> r is None,
        rows > 0 ==> r == Some((held(row + 1, rows as int) - 1) as usize),
{
    if rows == 0 {
        return None;
    }
    let at: u16 = hold(row as i64 + 1, rows);
    Some((at - 1) as usize)
}

/// Whether the emulator, asked to scroll `lines` lines back, moved otherwise: it
/// came to an end of what it has. `moved` is by how much its screen moved.
pub fn scroll_hit_boundary(lines: i32, moved: i32) -> (r: bool)
    ensures
        r == (-moved != lines),
{
    -(moved as i64) != lines as i64
}

/// Selected text: from where the selection began to where it ends now.
#[derive(Clone, Copy, Debug, PartialEq, Eq, Structural)]
pub struct ByteSelection {
    pub anchor: usize,
    pub active: usize,
}

impl ByteSelection {
    /// The selection's range, in whichever direction it was made.
    pub fn range(self) -> (r: Range<usize>)
        ensures
            r.start == (if self.anchor <= self.active {
                self.anchor
            } else {
                self.active
            }),
            r.end == (if self.anchor <= self.active {
                self.active
            } else {
                self.anchor
            }),
    {
        if self.anchor <= self.active {
            self.anchor..self.active
        } else {
            self.active..self.anchor
        }
    }

    /// Nothing is selected.
    pub open spec fn is_empty(self) -> bool {
        self.anchor == self.active
    }
}

/// Whenever a key is left to the emulator to encode, the modifiers are those of the
/// key, each in its own place, and never Super.
pub proof fn law_encoded_keys_keep_their_modifiers(
    raw: Keystroke,
    keystroke: Keystroke,
    has_input: bool,
    rows: u16,
)
    ensures
        key_action(raw, keystroke, has_input, rows) matches KeyActionModel::Encode(k) ==> {
            &&& k.shift == keystroke.modifiers.shift
            &&& k.control == keystroke.modifiers.control
            &&& k.alt == keystroke.modifiers.alt
            &&& !k.super_key
            &&& !keystroke.modifiers.platform && !keystroke.modifiers.function
        },
{
}

/// While an input method composes text, a shell gets no key but Enter, by any of
/// its four names; without a shell, or with no text being composed, no key is held
/// back on that account.
pub proof fn law_composing_holds_keys_back(
    raw: Keystroke,
    keystroke: Keystroke,
    has_input: bool,
    rows: u16,
)
    requires
        !keystroke.modifiers.platform,
        !keystroke.modifiers.function,
    ensures
        key_action(raw, keystroke, has_input, rows) is Ignore <==> has_input && raw.ime_in_progress
            && raw.key@ != "enter"@ && raw.key@ != "return"@ && raw.key@ != "kp_enter"@
            && raw.key@ != "numpad_enter"@,
{
}

/// With Command or the function key only three keys do something, and only for a
/// shell and with Command alone: Left goes to the start of the line, Right to its
/// end, Backspace deletes back to its start.
pub proof fn law_command_edits_the_line(
    raw: Keystroke,
    keystroke: Keystroke,
    has_input: bool,
    rows: u16,
)
    requires
        keystroke.modifiers.platform || keystroke.modifiers.function,
        !raw.ime_in_progress,
    ensures
        ({
            let action = key_action(raw, keystroke, has_input, rows);
            let edits = has_input && keystroke.modifiers.platform && !keystroke.modifiers.function;
            &&& action == KeyActionModel::SendByte(0x01) <==> edits && keystroke.key@ == "left"@
            &&& action == KeyActionModel::SendByte(0x05) <==> edits && keystroke.key@ == "right"@
            &&& action == KeyActionModel::SendByte(0x15) <==> edits && keystroke.key@
                == "backspace"@
            &&& action is Ignore || action is SendByte
            &&& action is SendByte ==> action->SendByte_0 == 0x01 || action->SendByte_0 == 0x05
                || action->SendByte_0 == 0x15
        }),
{
    reveal_strlit("left");
    reveal_strlit("right");
    reveal_strlit("backspace");
    assert("left"@.len() == 4 && "right"@.len() == 5 && "backspace"@.len() == 9);
}

/// Home and End scroll to the ends; the page keys, under each of their names, scroll
/// by half a screen, but at least a line: up is as far as down. No other key
/// scrolls.
pub proof fn law_scroll_keys(key: Seq<char>, rows: u16)
    ensures
        scroll_target(key, rows) == Some(ScrollTarget::Top) <==> key == "home"@,
        scroll_target(key, rows) == Some(ScrollTarget::Bottom) <==> key == "end"@,
        scroll_target(key, rows) matches Some(ScrollTarget::By(n)) ==> {
            let size = if n < 0 {
                -n
            } else {
                n as int
            };
            &&& size >= 1
            &&& rows >= 2 ==> rows - 1 <= 2 * size <= rows
            &&& rows < 2 ==> size == 1
        },
        (scroll_target(key, rows) matches Some(ScrollTarget::By(n)) && n < 0) <==> key
            == "pageup"@ || key == "page_up"@ || key == "page-up"@,
        (scroll_target(key, rows) matches Some(ScrollTarget::By(n)) && n > 0) <==> key
            == "pagedown"@ || key == "page_down"@ || key == "page-down"@,
{
    reveal_strlit("home");
    reveal_strlit("end");
    reveal_strlit("pageup");
    reveal_strlit("page_up");
    reveal_strlit("page-up");
    reveal_strlit("pagedown");
    reveal_strlit("page_down");
    reveal_strlit("page-down");
    assert("home"@.len() == 4 && "end"@.len() == 3 && "pageup"@.len() == 6);
    assert("page_up"@.len() == 7 && "page-up"@.len() == 7 && "pagedown"@.len() == 8);
    assert("page_down"@.len() == 9 && "page-down"@.len() == 9);
    assert("home"@[0] == 'h' && "pageup"@[0] == 'p' && "end"@[0] == 'e');
}

/// The keys that scroll do so in a terminal that is only looked at, and with Shift
/// for a shell.
pub proof fn law_scrolling(raw: Keystroke, keystroke: Keystroke, has_input: bool, rows: u16)
    requires
        !raw.ime_in_progress,
        !keystroke.modifiers.platform,
        !keystroke.modifiers.function,
    ensures
        ({
            let action = key_action(raw, keystroke, has_input, rows);
            let scrolls = scroll_target(keystroke.key@, rows);
            &&& action is Scroll <==> scrolls is Some && (!has_input
                || keystroke.modifiers.shift)
            &&& action matches KeyActionModel::Scroll(target) ==> scrolls == Some(target)
        }),
{
}

/// Control with a key that types one ASCII character sends its five lowest bits,
/// where the character lies between `@` and `_` or is a small letter: a letter sends
/// the same byte in either case.
pub proof fn law_control_sends_the_low_bits(text: Seq<char>, c: u8)
    requires
        encode_utf8(text) == seq![c],
    ensures
        ctrl_byte(text) is Some <==> 0x40 <= c <= 0x5f || 0x61 <= c <= 0x7a,
        ctrl_byte(text) matches Some(b) ==> b == c % 32,
{
    if text == "space"@ {
        lemma_space_is_five_bytes();
    }
}

proof fn lemma_space_is_five_bytes()
    ensures
        encode_utf8("space"@).len() >= 5,
{
    reveal_strlit("space");
    text::lemma_byte_offset_mono("space"@, 0, "space"@.len() as int);
}

/// The Space key by its name sends the byte 0; no other text of several bytes has a
/// control byte, nor has a key without a name and a text.
pub proof fn law_control_space(text: Seq<char>, keystroke: Keystroke)
    ensures
        text == "space"@ ==> ctrl_byte(text) == Some(0u8),
        text != "space"@ && encode_utf8(text).len() != 1 ==> ctrl_byte(text) is None,
        keystroke.key_char is None && keystroke.key@.len() == 0 ==> keystroke_ctrl_byte(
            keystroke,
        ) is None,
        keystroke.key_char is None && keystroke.key@.len() > 0 ==> keystroke_ctrl_byte(keystroke)
            == ctrl_byte(keystroke.key@),
        keystroke.key_char matches Some(t) ==> keystroke_ctrl_byte(keystroke) == ctrl_byte(t@),
{
}

/// For a shell, Control sends the key's control byte, if it has one; else Alt sends
/// the key's text behind `ESC`, if it has one; else the emulator encodes the key. A
/// key with neither is always encoded.
pub proof fn law_control_before_alt(raw: Keystroke, keystroke: Keystroke, rows: u16)
    requires
        !raw.ime_in_progress,
        !keystroke.modifiers.platform,
        !keystroke.modifiers.function,
        !keystroke.modifiers.shift || scroll_target(keystroke.key@, rows) is None,
    ensures
        ({
            let action = key_action(raw, keystroke, true, rows);
            let m = keystroke.modifiers;
            let byte = keystroke_ctrl_byte(keystroke);
            &&& action is SendByte <==> m.control && byte is Some
            &&& action matches KeyActionModel::SendByte(b) ==> byte == Some(b)
            &&& action is SendMeta <==> m.alt && keystroke.key_char is Some && !(m.control
                && byte is Some)
            &&& action matches KeyActionModel::SendMeta(v) ==> v == encode_utf8(
                keystroke.key_char.unwrap()@,
            )
            &&& !m.control && !m.alt ==> action is Encode
        }),
{
}

/// `report` is `ESC [ <`, three decimal numbers with semicolons between them, and `M`,
/// or `m` for a release; the numbers are `value`, `col` and `row`.
pub open spec fn report_reads(
    report: Seq<u8>,
    value: int,
    col: int,
    row: int,
    pressed: bool,
) -> bool {
    let n = report.len() as int;
    let numbers = modes::fields(report.subrange(3, n - 1));
    &&& n > 4
    &&& report[0] == 0x1b && report[1] == 0x5b && report[2] == 0x3c
    &&& report[n - 1] == if pressed {
        0x4du8
    } else {
        0x6du8
    }
    &&& numbers.len() == 3
    &&& decimal::decimal_value(numbers[0]) == value
    &&& decimal::decimal_value(numbers[1]) == col
    &&& decimal::decimal_value(numbers[2]) == row
}

/// What a mouse report was made of can be read back from it.
pub proof fn law_mouse_report_reads_back(button: u8, col: u16, row: u16, pressed: bool)
    ensures
        report_reads(
            mouse_report(button, col, row, pressed),
            button as int,
            col as int,
            row as int,
            pressed,
        ),
{
    let a = decimal::decimal_digits(button as nat);
    let b = decimal::decimal_digits(col as nat);
    let c = decimal::decimal_digits(row as nat);
    decimal::lemma_digits_value(button as nat);
    decimal::lemma_digits_value(col as nat);
    decimal::lemma_digits_value(row as nat);
    let report = mouse_report(button, col, row, pressed);
    let n = report.len() as int;
    let semi = seq![SEMICOLON];
    assert(report.subrange(3, n - 1) =~= a + semi + (b + semi + c));
    modes::lemma_digits_one_field(a);
    modes::lemma_digits_one_field(b);
    modes::lemma_digits_one_field(c);
    modes::lemma_fields_concat(b, c);
    modes::lemma_fields_concat(a, b + semi + c);
    assert(modes::fields(report.subrange(3, n - 1)) =~= seq![a, b, c]);
}

/// The button field holds the button, and one bit each for Shift, Alt, Control and
/// motion: 4, 8, 16 and 32. None of them disturbs the others.
pub proof fn law_button_field(base: u8, motion: bool, shift: bool, alt: bool, control: bool)
    requires
        base < 4 || base == 64 || base == 65,
    ensures
        ({
            let value = button_value(base, motion, shift, alt, control) as int;
            &&& value % 4 == base as int % 4
            &&& value / 4 % 2 == 1 <==> shift
            &&& value / 8 % 2 == 1 <==> alt
            &&& value / 16 % 2 == 1 <==> control
            &&& value / 32 % 2 == 1 <==> motion
            &&& value / 64 == base as int / 64
        }),
{
}

/// The button field never wraps around: it stays at the largest byte.
pub proof fn law_button_field_saturates(
    base: u8,
    motion: bool,
    shift: bool,
    alt: bool,
    control: bool,
)
    ensures
        button_value(base, motion, shift, alt, control) >= base,
        base <= 195 ==> button_value(base, motion, shift, alt, control) == base + (if motion {
            32int
        } else {
            0
        }) + (if shift {
            4int
        } else {
            0
        }) + (if alt {
            8int
        } else {
            0
        }) + (if control {
            16int
        } else {
            0
        }),
        base >= 0xfc && (motion || shift || alt || control) ==> button_value(
            base,
            motion,
            shift,
            alt,
            control,
        ) == 0xff,
        button_value(base, false, false, false, false) == base,
{
}

/// A press or a release of one of the three buttons is reported where the cell is
/// known; the report names the button, 0, 1 or 2, Alt and Control, the cell, and
/// whether the button went down. Shift and motion never stand in it.
pub proof fn law_button_report_reads_back(
    button: MouseButton,
    cell: Option<(u16, u16)>,
    m: Modifiers,
    pressed: bool,
)
    ensures
        button_report(button, cell, m, pressed) is Some <==> button != MouseButton::Other
            && cell is Some,
        button_report(button, cell, m, pressed) matches Some(report) ==> {
            let n = if button == MouseButton::Left {
                0int
            } else if button == MouseButton::Middle {
                1int
            } else {
                2int
            };
            report_reads(
                report,
                n + (if m.alt {
                    8int
                } else {
                    0
                }) + (if m.control {
                    16int
                } else {
                    0
                }),
                cell.unwrap().0 as int,
                cell.unwrap().1 as int,
                pressed,
            )
        },
{
    if let Some((col, row)) = cell {
        if let Some(n) = button_number(button) {
            law_mouse_report_reads_back(
                button_value(n, false, false, m.alt, m.control),
                col,
                row,
                pressed,
            );
        }
    }
}

/// A motion report names the button that is held, 0, 1 or 2, and 3 where none of
/// these is.
pub proof fn law_motion_buttons(pressed: Option<MouseButton>)
    ensures
        motion_button(pressed) == 0 <==> pressed == Some(MouseButton::Left),
        motion_button(pressed) == 1 <==> pressed == Some(MouseButton::Middle),
        motion_button(pressed) == 2 <==> pressed == Some(MouseButton::Right),
        motion_button(pressed) == 3 <==> pressed is None || pressed == Some(MouseButton::Other),
{
}

/// Motion is reported always under mode 1003, and under mode 1002 while a button is
/// held; mode 1000 reports none.
pub proof fn law_which_motion_is_reported(modes: TerminalModes, pressed: bool)
    ensures
        modes.mouse_any_event ==> wants_motion(modes, pressed),
        modes.mouse_button_event && pressed ==> wants_motion(modes, pressed),
        !modes.mouse_any_event && !pressed ==> !wants_motion(modes, pressed),
        !modes.mouse_any_event && !modes.mouse_button_event ==> !wants_motion(modes, pressed),
{
}

/// The mouse goes to a program only over a shell, without Shift and in the SGR form;
/// then each of the three kinds of reporting is enough, and one is needed.
pub proof fn law_when_the_mouse_is_reported(modes: TerminalModes, has_input: bool, shift: bool)
    ensures
        !has_input || shift || !modes.mouse_sgr ==> !reports_mouse(modes, has_input, shift),
        !modes.mouse_x10 && !modes.mouse_button_event && !modes.mouse_any_event ==> !reports_mouse(
            modes,
            has_input,
            shift,
        ),
        modes.mouse_sgr && modes.mouse_x10 ==> reports_mouse(modes, true, false),
        modes.mouse_sgr && modes.mouse_button_event ==> reports_mouse(modes, true, false),
        modes.mouse_sgr && modes.mouse_any_event ==> reports_mouse(modes, true, false),
{
}

/// The wheel sends one report for each line, ten at most, as many up as down.
pub proof fn law_wheel_steps(lines: int)
    requires
        lines >= 0,
    ensures
        wheel_steps(lines) == wheel_steps(-lines),
        lines <= 10 ==> wheel_steps(lines) == lines,
        lines >= 10 ==> wheel_steps(lines) == 10,
{
}

/// A wheel report names 64 for up and 65 for down, with Alt and Control, at the cell;
/// it is always a press.
pub proof fn law_wheel_report_reads_back(delta_lines: int, cell: (u16, u16), m: Modifiers)
    ensures
        report_reads(
            wheel_report(delta_lines, cell, m),
            (if delta_lines < 0 {
                64int
            } else {
                65
            }) + (if m.alt {
                8int
            } else {
                0
            }) + (if m.control {
                16int
            } else {
                0
            }),
            cell.0 as int,
            cell.1 as int,
            true,
        ),
{
    let button = if delta_lines < 0 {
        64u8
    } else {
        65u8
    };
    law_mouse_report_reads_back(
        button_value(button, false, false, m.alt, m.control),
        cell.0,
        cell.1,
        true,
    );
}

/// Holding a number between 1 and `top` gives the nearest number there.
pub proof fn law_held_is_nearest(n: int, top: int, other: int)
    requires
        1 <= other <= top,
    ensures
        1 <= held(n, top) <= top,
        n <= other ==> n <= held(n, top) <= other,
        n >= other ==> other <= held(n, top) <= n,
        1 <= n <= top ==> held(n, top) == n,
{
}

/// On a screen without room there is no number to hold to but its size.
pub proof fn law_held_without_room(n: int, top: int)
    requires
        top < 1,
    ensures
        held(n, top) == top,
{
}

/// A selection is empty exactly where no byte lies between its ends, whichever comes
/// first.
pub proof fn law_empty_selection(s: ByteSelection)
    ensures
        s.is_empty() <==> !(s.anchor < s.active) && !(s.active < s.anchor),
        (ByteSelection { anchor: s.active, active: s.anchor }).is_empty() == s.is_empty(),
{
}

/// What an input method holds back is held back whatever modifiers go with it; where it
/// holds nothing back, that text is being composed makes no difference.
pub proof fn law_composing_comes_first(
    raw: Keystroke,
    keystroke: Keystroke,
    has_input: bool,
    rows: u16,
)
    ensures
        ({
            let enter = raw.key@ == "enter"@ || raw.key@ == "return"@ || raw.key@ == "kp_enter"@
                || raw.key@ == "numpad_enter"@;
            let idle = Keystroke { ime_in_progress: false, ..raw };
            &&& has_input && raw.ime_in_progress && !enter ==> key_action(
                raw,
                keystroke,
                has_input,
                rows,
            ) is Ignore
            &&& !has_input || enter ==> key_action(raw, keystroke, has_input, rows) == key_action(
                idle,
                keystroke,
                has_input,
                rows,
            )
        }),
{
}

} // verus!
