use ghostty_terminal::config::{ColorScheme, CursorStyle};
use ghostty_terminal::dump::{
    decode_cell_styles, decode_dirty_rows, decode_hyperlink, decode_key, decode_screen_row,
    decode_screen_row_style_runs, decode_style_runs, decode_style_runs_by_order, decode_text,
};
use ghostty_terminal::error::{create_result, feed_result, scroll_result};
use ghostty_terminal::glyph::{
    block_char_rects, box_drawing_mask, box_strokes, is_block_char, BlockRect, BoxStrokes,
    BoxWeight,
};
use ghostty_terminal::input::{
    cell_on_screen, cmd_line_editing_byte, ctrl_byte_for_keystroke, mouse_goes_to_program,
    on_key_down, on_key_encoded, on_mouse_down, on_mouse_move, on_mouse_up, on_scroll_wheel,
    press_kind, report_button, row_on_screen,
    scroll_hit_boundary, sgr_mouse_button_value, sgr_mouse_sequence, should_skip_key_down_for_ime,
    tab_bytes, wheel_reports, ByteSelection, KeyAction, KeyOutcome, Keystroke, Modifiers,
    MouseAction, MouseButton, Press, ScrollTarget, WheelAction,
};
use ghostty_terminal::modes::{scan_modes, TerminalModes};
use ghostty_terminal::osc::{scan_osc, PayloadRange};
use ghostty_terminal::paste::paste_bytes;
use ghostty_terminal::query::{
    csi_query, osc_color_query_response, value_to_after_semicolon_state, CsiQueryScanState, OscQuery,
    OscQueryScanState, TerminalQuery,
};
use ghostty_terminal::runs::{
    background_at_column, box_cells_by_width, build_backgrounds_for_row, build_box_cells_for_row,
    build_runs_for_line, opaque_rgba, BackgroundSpan, BoxCell, TextRunKey, TextSpan,
};
use ghostty_terminal::{CellStyle, Error, KeyModifiers, Rgb, StyleRun};

fn none() -> Modifiers {
    Modifiers { control: false, alt: false, shift: false, platform: false, function: false }
}

fn key(name: &str) -> Keystroke {
    Keystroke {
        key: name.to_string(),
        key_char: None,
        modifiers: none(),
        ime_in_progress: true,
    }
}

fn typed(name: &str, text: &str) -> Keystroke {
    Keystroke { key_char: Some(text.to_string()), ime_in_progress: false, ..key(name) }
}

fn with(mut k: Keystroke, modifiers: Modifiers) -> Keystroke {
    k.modifiers = modifiers;
    k.ime_in_progress = false;
    k
}

#[test]
fn wraps_when_bracketed() {
    assert_eq!(paste_bytes("a\nb", true), b"\x1b[200~a\nb\x1b[201~".to_vec());
}

#[test]
fn raw_when_not_bracketed() {
    assert_eq!(paste_bytes("a\nb", false), b"a\nb".to_vec());
}

#[test]
fn sgr_mouse_encoding_helpers_match_expected_format() {
    assert_eq!(sgr_mouse_button_value(0, false, false, false, false), 0);
    assert_eq!(sgr_mouse_button_value(2, true, false, true, true), 2 + 32 + 8 + 16);
    assert_eq!(sgr_mouse_sequence(0, 1, 1, true), "\u{1b}[<0;1;1M");
    assert_eq!(sgr_mouse_sequence(0, 1, 1, false), "\u{1b}[<0;1;1m");
}

#[test]
fn mouse_reports_with_large_numbers() {
    assert_eq!(sgr_mouse_button_value(250, true, true, true, true), 255);
    assert_eq!(sgr_mouse_sequence(255, 65535, 120, true), "\u{1b}[<255;65535;120M");
}

#[test]
fn ctrl_c_encodes_to_etx_even_without_key_char() {
    let mut ctrl_c = key("c");
    ctrl_c.modifiers.control = true;
    assert_eq!(ctrl_byte_for_keystroke(&ctrl_c), Some(0x03));
}

#[test]
fn control_bytes_of_keys() {
    assert_eq!(ctrl_byte_for_keystroke(&key("space")), Some(0x00));
    assert_eq!(ctrl_byte_for_keystroke(&key("@")), Some(0x00));
    assert_eq!(ctrl_byte_for_keystroke(&key("[")), Some(0x1b));
    assert_eq!(ctrl_byte_for_keystroke(&key("_")), Some(0x1f));
    assert_eq!(ctrl_byte_for_keystroke(&key("Z")), Some(0x1a));
    assert_eq!(ctrl_byte_for_keystroke(&key("z")), Some(0x1a));
    assert_eq!(ctrl_byte_for_keystroke(&key("1")), None);
    assert_eq!(ctrl_byte_for_keystroke(&key("enter")), None);
    assert_eq!(ctrl_byte_for_keystroke(&key("")), None);
    // What the key types comes before its name.
    assert_eq!(ctrl_byte_for_keystroke(&typed("x", "a")), Some(0x01));
    assert_eq!(ctrl_byte_for_keystroke(&typed("x", "")), None);
}

#[test]
fn cmd_arrows_and_backspace_map_to_emacs_line_editing_bytes() {
    assert_eq!(cmd_line_editing_byte("left"), Some(0x01));
    assert_eq!(cmd_line_editing_byte("right"), Some(0x05));
    assert_eq!(cmd_line_editing_byte("backspace"), Some(0x15));

    // Everything else keeps travelling as a Cmd shortcut, not as input.
    assert_eq!(cmd_line_editing_byte("up"), None);
    assert_eq!(cmd_line_editing_byte("down"), None);
    assert_eq!(cmd_line_editing_byte("a"), None);
    assert_eq!(cmd_line_editing_byte("delete"), None);
}

#[test]
fn does_not_skip_enter_key_when_ime_in_progress() {
    let enter = key("enter");
    assert!(enter.ime_in_progress);
    assert!(!should_skip_key_down_for_ime(true, &enter));

    let letter = key("a");
    assert!(letter.ime_in_progress);
    assert!(should_skip_key_down_for_ime(true, &letter));

    let committed = typed("a", "a");
    assert!(!committed.ime_in_progress);
    assert!(!should_skip_key_down_for_ime(true, &committed));
}

#[test]
fn keys_are_not_skipped_without_a_shell() {
    assert!(!should_skip_key_down_for_ime(false, &key("a")));
    for name in ["return", "kp_enter", "numpad_enter"] {
        assert!(!should_skip_key_down_for_ime(true, &key(name)));
    }
}

#[test]
fn keys_for_a_shell() {
    let shift = Modifiers { shift: true, ..none() };
    let control = Modifiers { control: true, ..none() };
    let alt = Modifiers { alt: true, ..none() };
    let platform = Modifiers { platform: true, ..none() };
    let function = Modifiers { function: true, ..none() };
    let press = |k: Keystroke| {
        let raw = Keystroke {
            key: k.key.clone(),
            key_char: k.key_char.clone(),
            modifiers: k.modifiers,
            ime_in_progress: k.ime_in_progress,
        };
        on_key_down(&raw, &k, true, 25)
    };

    assert!(matches!(press(key("a")), KeyAction::Ignore));
    assert!(matches!(press(with(key("home"), shift)), KeyAction::Scroll(ScrollTarget::Top)));
    assert!(matches!(press(with(key("end"), shift)), KeyAction::Scroll(ScrollTarget::Bottom)));
    assert!(matches!(press(with(key("page-up"), shift)), KeyAction::Scroll(ScrollTarget::By(-12))));
    assert!(matches!(press(with(key("pagedown"), shift)), KeyAction::Scroll(ScrollTarget::By(12))));
    assert!(matches!(press(with(key("c"), control)), KeyAction::SendByte(3)));
    match press(with(typed("x", "\u{e4}"), alt)) {
        KeyAction::SendMeta(bytes) => assert_eq!(bytes, "\u{e4}".as_bytes()),
        _ => panic!("Alt sends ESC and the text"),
    }
    match press(with(key("f1"), alt)) {
        KeyAction::Encode(m) => {
            assert_eq!(m, KeyModifiers { shift: false, control: false, alt: true, super_key: false })
        }
        _ => panic!("a key without text is encoded by name"),
    }
    assert!(matches!(press(with(key("home"), none())), KeyAction::Encode(_)));
    assert!(matches!(press(with(key("left"), platform)), KeyAction::SendByte(1)));
    assert!(matches!(press(with(key("v"), platform)), KeyAction::Ignore));
    assert!(matches!(press(with(key("left"), function)), KeyAction::Ignore));
}

#[test]
fn keys_without_a_shell() {
    let press = |k: Keystroke, rows: u16| on_key_down(&key("enter"), &k, false, rows);
    assert!(matches!(press(key("home"), 24), KeyAction::Scroll(ScrollTarget::Top)));
    assert!(matches!(press(key("page_up"), 1), KeyAction::Scroll(ScrollTarget::By(-1))));
    assert!(matches!(press(key("page_down"), 24), KeyAction::Scroll(ScrollTarget::By(12))));
    assert!(matches!(press(key("x"), 24), KeyAction::Encode(_)));
    let platform = Modifiers { platform: true, ..none() };
    assert!(matches!(press(with(key("left"), platform), 24), KeyAction::Ignore));
}

#[test]
fn encoded_keys() {
    assert!(matches!(on_key_encoded("up", true, Some(vec![1])), KeyOutcome::Send(v) if v == [1]));
    assert!(matches!(on_key_encoded("up", false, Some(vec![1])), KeyOutcome::Feed(v) if v == [1]));
    assert!(matches!(on_key_encoded("backspace", false, None), KeyOutcome::Feed(v) if v == [8]));
    assert!(matches!(on_key_encoded("backspace", true, None), KeyOutcome::Nothing));
    assert!(matches!(on_key_encoded("up", false, None), KeyOutcome::Nothing));
    assert_eq!(tab_bytes(false), b"\t");
    assert_eq!(tab_bytes(true), b"\x1b[Z");
}

#[test]
fn modes_act_where_their_sequence_ends() {
    let set = b"\x1b[?2004h";
    let on = scan_modes(TerminalModes::new(), set, 7);
    assert!(on.bracketed_paste);
    assert!(!scan_modes(TerminalModes::new(), set, 8).bracketed_paste);
    assert_eq!(scan_modes(on, b"\x1bc", 1), TerminalModes::new());
    assert_eq!(scan_modes(on, b"\x1bc", 2), on);
}

fn reporting(sequence: &[u8]) -> TerminalModes {
    scan_modes(TerminalModes::new(), sequence, 0)
}

#[test]
fn mouse_presses() {
    let modes = reporting(b"\x1b[?1000;1006h");
    assert!(mouse_goes_to_program(&modes, true, false));
    assert!(!mouse_goes_to_program(&modes, true, true));
    assert!(!mouse_goes_to_program(&modes, false, false));
    assert!(!mouse_goes_to_program(&reporting(b"\x1b[?1000h"), true, false));

    let alt = Modifiers { alt: true, ..none() };
    let press = |m: &TerminalModes, button, cell| {
        on_mouse_down(m, true, button, alt, cell, Some(7))
    };
    match press(&modes, MouseButton::Right, Some((3, 4))) {
        MouseAction::Report(s) => assert_eq!(s, "\u{1b}[<10;3;4M"),
        _ => panic!("a press is reported"),
    }
    assert!(matches!(press(&modes, MouseButton::Other, Some((3, 4))), MouseAction::Nothing));
    assert!(matches!(press(&modes, MouseButton::Left, None), MouseAction::Nothing));
    let quiet = TerminalModes::new();
    assert!(matches!(press(&quiet, MouseButton::Left, None), MouseAction::Select(7)));
    assert!(matches!(press(&quiet, MouseButton::Middle, None), MouseAction::Nothing));
    assert_eq!(
        report_button(MouseButton::Middle, Some((1, 2)), none(), false).as_deref(),
        Some("\u{1b}[<1;1;2m")
    );
}

#[test]
fn mouse_motion() {
    let any = reporting(b"\x1b[?1003;1006h");
    let buttons = reporting(b"\x1b[?1002;1006h");
    let at = Some((5, 6));
    match on_mouse_move(&any, true, None, false, none(), at) {
        MouseAction::Report(s) => assert_eq!(s, "\u{1b}[<35;5;6M"),
        _ => panic!("all motion is reported"),
    }
    assert!(matches!(
        on_mouse_move(&buttons, true, None, false, none(), at),
        MouseAction::Nothing
    ));
    match on_mouse_move(&buttons, true, Some(MouseButton::Left), true, none(), at) {
        MouseAction::Report(s) => assert_eq!(s, "\u{1b}[<32;5;6M"),
        _ => panic!("motion with a button is reported"),
    }
    let quiet = TerminalModes::new();
    assert!(matches!(
        on_mouse_move(&quiet, true, Some(MouseButton::Left), true, none(), at),
        MouseAction::Drag
    ));
    assert!(matches!(on_mouse_move(&any, true, None, false, none(), None), MouseAction::Nothing));
}

#[test]
fn wheel_turns() {
    assert!(wheel_reports(0, Some((1, 1)), none()).is_none());
    assert!(wheel_reports(3, None, none()).is_none());
    let up = wheel_reports(-3, Some((1, 2)), none()).unwrap();
    assert_eq!((up.report.as_str(), up.steps), ("\u{1b}[<64;1;2M", 3));
    let down = wheel_reports(i32::MAX, Some((1, 2)), none()).unwrap();
    assert_eq!((down.report.as_str(), down.steps), ("\u{1b}[<65;1;2M", 10));
    assert_eq!(wheel_reports(i32::MIN, Some((1, 2)), none()).unwrap().steps, 10);
}

#[test]
fn wheel_and_release_go_where_the_press_went() {
    let modes = reporting(b"\x1b[?1000;1006h");
    let quiet = TerminalModes::new();
    let at = Some((1, 2));
    assert!(matches!(on_scroll_wheel(&quiet, true, 3, none(), at), WheelAction::Scroll));
    assert!(matches!(on_scroll_wheel(&modes, true, 0, none(), at), WheelAction::Nothing));
    match on_scroll_wheel(&modes, true, 2, none(), at) {
        WheelAction::Report(w) => assert_eq!((w.report.as_str(), w.steps), ("\u{1b}[<65;1;2M", 2)),
        _ => panic!("the wheel is reported"),
    }
    let release = |m: &TerminalModes, cell| on_mouse_up(m, true, MouseButton::Left, none(), cell);
    assert!(matches!(release(&quiet, at), MouseAction::EndSelection));
    assert!(matches!(release(&modes, None), MouseAction::Nothing));
    match release(&modes, at) {
        MouseAction::Report(s) => assert_eq!(s, "\u{1b}[<0;1;2m"),
        _ => panic!("a release is reported"),
    }
    let platform = Modifiers { platform: true, ..none() };
    assert_eq!(press_kind(true, MouseButton::Left, platform), Press::Focus);
    assert_eq!(press_kind(false, MouseButton::Left, platform), Press::Link);
    assert_eq!(press_kind(false, MouseButton::Right, platform), Press::Usual);
    assert_eq!(press_kind(false, MouseButton::Left, none()), Press::Usual);
}

#[test]
fn pointers_are_held_on_the_screen() {
    assert_eq!(cell_on_screen(-5, 0, 80, 24), (1, 1));
    assert_eq!(cell_on_screen(79, 23, 80, 24), (80, 24));
    assert_eq!(cell_on_screen(i32::MAX, i32::MIN, 80, 24), (80, 1));
    assert_eq!(cell_on_screen(3, 3, 0, 24), (0, 4));
    assert_eq!(row_on_screen(-1, 24), Some(0));
    assert_eq!(row_on_screen(24, 24), Some(23));
    assert_eq!(row_on_screen(0, 0), None);
    assert!(!scroll_hit_boundary(3, -3));
    assert!(scroll_hit_boundary(3, -2));
    assert!(scroll_hit_boundary(0, i32::MIN));
}

#[test]
fn selections_have_a_range() {
    assert_eq!(ByteSelection { anchor: 2, active: 5 }.range(), 2..5);
    assert_eq!(ByteSelection { anchor: 5, active: 2 }.range(), 2..5);
}

#[test]
fn maps_common_box_drawing_glyphs() {
    for ch in ['─', '│', '┌', '┐', '└', '┘', '├', '┤', '┬', '┴', '┼'] {
        assert!(box_drawing_mask(ch).is_some(), "expected mask for {ch}");
    }
    assert!(box_drawing_mask('X').is_none());
}

#[test]
fn box_glyphs_have_strokes() {
    assert_eq!(box_drawing_mask('─'), Some((0x03, BoxWeight::Light)));
    assert_eq!(box_drawing_mask('╋'), Some((0x0f, BoxWeight::Heavy)));
    assert_eq!(box_drawing_mask('╚'), Some((0x06, BoxWeight::Double)));
    assert_eq!(box_drawing_mask('╯'), Some((0x05, BoxWeight::Light)));
    assert_eq!(
        box_strokes('┤'),
        Some(BoxStrokes {
            horizontal: Some((0, 1)),
            vertical: Some((0, 2)),
            weight: BoxWeight::Light
        })
    );
    assert_eq!(
        box_strokes('┏'),
        Some(BoxStrokes {
            horizontal: Some((1, 2)),
            vertical: Some((1, 2)),
            weight: BoxWeight::Heavy
        })
    );
    assert_eq!(box_strokes('x'), None);
}

#[test]
fn block_glyphs_have_rectangles() {
    assert!(is_block_char('█') && is_block_char('▞') && !is_block_char('a'));
    // A shade counts as a block, and is left to the font.
    for shade in ['░', '▒', '▓'] {
        assert!(is_block_char(shade));
        assert_eq!(block_char_rects(shade), None);
        assert!(build_box_cells_for_row(&shade.to_string(), &[]).is_empty());
    }
    assert_eq!(block_char_rects('▃'), Some(vec![BlockRect { x: 0, y: 5, w: 8, h: 3 }]));
    assert_eq!(block_char_rects('▕'), Some(vec![BlockRect { x: 7, y: 0, w: 1, h: 8 }]));
    assert_eq!(
        block_char_rects('▟'),
        Some(vec![BlockRect { x: 4, y: 0, w: 4, h: 8 }, BlockRect { x: 0, y: 4, w: 4, h: 4 }])
    );
    assert_eq!(block_char_rects('a'), None);
}

const WHITE: Rgb = Rgb { r: 255, g: 255, b: 255 };
const BLACK: Rgb = Rgb { r: 0, g: 0, b: 0 };
const RED: Rgb = Rgb { r: 255, g: 0, b: 0 };

fn run(start_col: u16, end_col: u16, fg: Rgb, bg: Rgb, flags: u8) -> StyleRun {
    StyleRun { start_col, end_col, fg, bg, flags }
}

#[test]
fn text_spans_of_a_row() {
    let key = |fg, flags| Some(TextRunKey { fg, flags });
    let runs = [run(2, 3, RED, BLACK, 0x03), run(5, 9, WHITE, BLACK, 0x10)];
    assert_eq!(
        build_runs_for_line("abcdef", &runs),
        vec![
            TextSpan { len: 1, key: None },
            TextSpan { len: 2, key: key(RED, 0x02) },
            TextSpan { len: 1, key: None },
            TextSpan { len: 2, key: key(WHITE, 0x10) },
        ]
    );
    assert_eq!(build_runs_for_line("abc", &[]), vec![TextSpan { len: 3, key: None }]);
    assert_eq!(build_runs_for_line("", &runs), vec![TextSpan { len: 0, key: None }]);
    // A wide character belongs to the run that holds its first column.
    assert_eq!(
        build_runs_for_line("Ｗa", &[run(1, 2, RED, BLACK, 0)]),
        vec![TextSpan { len: 3, key: key(RED, 0) }, TextSpan { len: 1, key: None }]
    );
    assert_eq!(
        build_runs_for_line("ab", &[run(1, u16::MAX, RED, BLACK, 0)]),
        vec![TextSpan { len: 2, key: key(RED, 0) }]
    );
    let attributes = TextRunKey { fg: RED, flags: 0x02 | 0x08 | 0x40 }.attributes();
    assert!(attributes.bold && attributes.underline && attributes.strikethrough);
    assert!(!attributes.italic && !attributes.faint);
}

#[test]
fn backgrounds_of_a_row() {
    let runs = [run(1, 2, WHITE, BLACK, 0), run(3, 3, WHITE, RED, 0), run(0, 4, WHITE, WHITE, 0)];
    assert_eq!(
        build_backgrounds_for_row(&runs, BLACK),
        vec![
            BackgroundSpan { first: 2, cells: 1, color: RED },
            BackgroundSpan { first: 0, cells: 5, color: WHITE },
        ]
    );
    assert_eq!(background_at_column(&runs, 3, BLACK), RED);
    assert_eq!(background_at_column(&runs, 4, BLACK), WHITE);
    assert_eq!(background_at_column(&runs, 9, BLACK), BLACK);
    assert_eq!(opaque_rgba(Rgb { r: 1, g: 2, b: 3 }), 0x010203ff);
}

#[test]
fn box_cells_of_a_row() {
    let runs = [run(1, 1, WHITE, BLACK, 0), run(3, 4, RED, BLACK, 0x12)];
    assert_eq!(
        build_box_cells_for_row("─x█Ｗ│", &runs),
        vec![
            BoxCell { col: 0, ch: '─', key: Some(TextRunKey { fg: WHITE, flags: 0 }) },
            BoxCell { col: 2, ch: '█', key: Some(TextRunKey { fg: RED, flags: 0x12 }) },
            BoxCell { col: 5, ch: '│', key: None },
        ]
    );
    assert_eq!(
        box_cells_by_width(&vec!['a', '─'], &vec![3, 1], &[]),
        vec![BoxCell { col: 3, ch: '─', key: None }]
    );
    assert!(box_cells_by_width(&vec!['─'], &vec![0], &[]).is_empty());
}

#[test]
fn modifier_bits() {
    assert_eq!(KeyModifiers::default().bits(), 0);
    let all = KeyModifiers { shift: true, control: true, alt: true, super_key: true };
    assert_eq!(all.bits(), 0x0f);
    let alt = KeyModifiers { alt: true, ..KeyModifiers::default() };
    assert_eq!(alt.bits(), 0x04);
}

#[test]
fn errors_in_words() {
    assert_eq!(Error::CreateFailed.message(), "terminal create failed");
    assert_eq!(Error::FeedFailed(-2147483648).message(), "terminal feed failed: -2147483648");
    assert_eq!(Error::ScrollFailed(17).message(), "terminal scroll failed: 17");
    assert_eq!(Error::DumpFailed.message(), "terminal dump failed");
    assert_eq!(create_result(false), Err(Error::CreateFailed));
    assert_eq!(create_result(true), Ok(()));
    assert_eq!(feed_result(3), Err(Error::FeedFailed(3)));
    assert_eq!(feed_result(0), Ok(()));
    assert_eq!(scroll_result(-1), Err(Error::ScrollFailed(-1)));
    assert_eq!(scroll_result(0), Ok(()));
}

#[test]
fn dumps_are_decoded() {
    assert_eq!(decode_cell_styles(None), Err(Error::DumpFailed));
    assert_eq!(decode_cell_styles(Some(&[1, 2, 3])), Err(Error::DumpFailed));
    assert_eq!(decode_cell_styles(Some(&[])), Ok(vec![]));
    assert_eq!(
        decode_cell_styles(Some(&[255, 0, 0, 0, 0, 0, 7, 99])),
        Ok(vec![CellStyle { fg: RED, bg: BLACK, flags: 7 }])
    );
    let little = [2, 1, 4, 3, 255, 0, 0, 0, 0, 0, 7, 99];
    assert_eq!(
        decode_style_runs_by_order(&little, false),
        Ok(vec![run(0x0102, 0x0304, RED, BLACK, 7)])
    );
    assert_eq!(
        decode_style_runs_by_order(&little, true),
        Ok(vec![run(0x0201, 0x0403, RED, BLACK, 7)])
    );
    let mut native = Vec::new();
    native.extend_from_slice(&300u16.to_ne_bytes());
    native.extend_from_slice(&400u16.to_ne_bytes());
    native.extend_from_slice(&little[4..]);
    assert_eq!(decode_style_runs(Some(&native)), Ok(vec![run(300, 400, RED, BLACK, 7)]));
    assert_eq!(decode_style_runs(None), Err(Error::DumpFailed));
    assert_eq!(decode_style_runs(Some(&native[1..])), Err(Error::DumpFailed));
    assert_eq!(decode_screen_row_style_runs(None), Ok(None));
    assert_eq!(decode_screen_row_style_runs(Some(&[])), Ok(Some(vec![])));
    assert_eq!(decode_screen_row_style_runs(Some(&[1])), Err(Error::DumpFailed));
    assert_eq!(decode_dirty_rows(None), Ok(vec![]));
    assert_eq!(decode_dirty_rows(Some(&[1, 0, 2, 1])), Ok(vec![1, 258]));
    assert_eq!(decode_dirty_rows(Some(&[1])), Err(Error::DumpFailed));
    assert_eq!(decode_text(Some(b"a\xff")).as_deref(), Ok("a\u{fffd}"));
    assert_eq!(decode_text(None), Err(Error::DumpFailed));
    assert_eq!(decode_screen_row(Some(b"")).as_deref(), Some(""));
    assert_eq!(decode_screen_row(None), None);
    assert_eq!(decode_hyperlink(Some(b"x")).as_deref(), Some("x"));
    assert_eq!(decode_hyperlink(Some(b"")), None);
    assert_eq!(decode_key(Some(b"\x1b[A")).as_deref(), Some(&b"\x1b[A"[..]));
    assert_eq!(decode_key(Some(b"")), None);
}

#[test]
fn scanners_step_by_step() {
    assert_eq!(csi_query(b'?', 996, false, b'n'), Some(TerminalQuery::ColorScheme));
    assert_eq!(csi_query(b'?', 996, true, b'n'), None);
    assert_eq!(csi_query(0, 6, false, b'n'), Some(TerminalQuery::CursorPosition));
    assert_eq!(csi_query(b'>', 0, false, b'c'), Some(TerminalQuery::SecondaryDeviceAttributes));
    assert_eq!(OscQuery::for_ps(12), Some(OscQuery::Cursor));
    assert_eq!(OscQuery::for_ps(13), None);
    assert_eq!(
        value_to_after_semicolon_state(10),
        OscQueryScanState::AfterSemicolon { ps: 10 }
    );
    assert_eq!(value_to_after_semicolon_state(9), OscQueryScanState::Idle);

    let mut csi = CsiQueryScanState::default();
    assert_eq!(csi, CsiQueryScanState::Idle);
    let mut found = None;
    for b in *b"\x1b[5n" {
        found = csi.advance(b);
    }
    assert_eq!(found, Some(TerminalQuery::DeviceStatus));
    assert_eq!(csi, CsiQueryScanState::Idle);

    let mut osc = OscQueryScanState::default();
    let mut found = None;
    for b in *b"\x1b]010;?\x07" {
        found = osc.advance(b);
    }
    assert_eq!(found, Some(OscQuery::Foreground));
    assert_eq!(
        osc_color_query_response(OscQuery::Cursor, (0x01, 0xab, 0x10)),
        "\u{1b}]12;rgb:0101/abab/1010\u{1b}\\"
    );
    assert_eq!(ColorScheme::default(), ColorScheme::Dark);
    assert_eq!(ColorScheme::Light.report(), b"\x1b[?997;2n");
    assert_eq!(CursorStyle::default(), CursorStyle::Block);
}

#[test]
fn commands_in_a_stream() {
    let found = scan_osc(b"\x1b]0;ab\x07\x1b]52;c;x\x1b\\\x1b]2;cd\x07", 0);
    assert_eq!(found.title, Some(PayloadRange { start: 21, end: 23 }));
    assert_eq!(found.clipboard, Some(PayloadRange { start: 12, end: 15 }));
    // A command without an end takes in the rest of the stream.
    assert_eq!(scan_osc(b"\x1b]0;ab\x1b]2;cd", 0).title, None);
    // Without a number there is no command.
    assert_eq!(scan_osc(b"\x1b];ab\x07", 0).title, None);
    // The semicolon may be missing.
    assert_eq!(scan_osc(b"\x1b]0ab\x07", 0).title, Some(PayloadRange { start: 3, end: 5 }));
    // What was complete before does not count again; what is completed now does.
    assert_eq!(scan_osc(b"\x1b]0;ab\x07x", 7).title, None);
    assert_eq!(scan_osc(b"\x1b]0;ab\x07x", 6).title, Some(PayloadRange { start: 4, end: 6 }));
}
