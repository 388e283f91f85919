use ghostty_terminal::input::ByteSelection;
use ghostty_terminal::stats::{stats_step, ScrollCounts, StatsStep};
use ghostty_terminal::view::{has_synchronized_output_mode_change, MAX_PENDING_OUTPUT_BYTES};
use ghostty_terminal::viewport::{Fetch, RowPatch, Viewport};
use ghostty_terminal::{
    CursorStyle, Rgb, ScrollPosition, StyleRun, TerminalConfig, TerminalSession, TerminalView,
};

fn view(rows: u16) -> TerminalView<u32> {
    let config = TerminalConfig { rows, ..TerminalConfig::default() };
    TerminalView::new_with_input(TerminalSession::new(config))
}

fn style(n: u8) -> Vec<StyleRun> {
    let c = Rgb { r: n, g: n, b: n };
    vec![StyleRun { start_col: 1, end_col: 1, fg: c, bg: c, flags: n }]
}

fn shown(v: &TerminalView<u32>) -> Vec<String> {
    (0..v.viewport.line_count()).map(|i| v.viewport.line(i).unwrap().to_string()).collect()
}

/// A view of four rows, with a layout for each.
fn four() -> TerminalView<u32> {
    let mut v = view(4);
    v.refresh_viewport("a\nb\nc\nd\n", vec![style(1), style(2), style(3), style(4)]);
    v.viewport.prepare_layouts(false);
    for i in 0..4 {
        v.viewport.set_layout(i, i as u32);
    }
    v
}

#[test]
fn scrolling_moves_the_cached_rows() {
    let mut v = four();
    match v.apply_viewport_scroll_delta(1) {
        Fetch::Rows(rows) => assert_eq!(rows, vec![3]),
        _ => panic!("one row comes in"),
    }
    assert_eq!(shown(&v), vec!["b", "c", "d", ""]);
    assert_eq!(v.viewport.style_runs(0).unwrap(), &style(2)[..]);
    assert!(v.viewport.style_runs(3).unwrap().is_empty());
    assert_eq!(v.viewport.layout(0), Some(&1));
    assert_eq!(v.viewport.layout(3), None);
    assert!(v.scroll_pos_stale());

    v.apply_dirty_viewport_rows(&vec![RowPatch {
        row: 3,
        text: "e\n".to_string(),
        style_runs: style(5),
    }]);
    assert_eq!(shown(&v), vec!["b", "c", "d", "e"]);
    assert_eq!(v.viewport.style_runs(3).unwrap(), &style(5)[..]);
    assert_eq!(v.viewport.total_len(), 8);

    let mut v = four();
    match v.apply_viewport_scroll_delta(-3) {
        Fetch::Rows(rows) => assert_eq!(rows, vec![0, 1, 2]),
        _ => panic!("three rows come in"),
    }
    assert_eq!(shown(&v), vec!["", "", "", "a"]);
    assert_eq!(v.viewport.layout(3), Some(&0));
    assert_eq!(v.viewport.total_len(), 5);
}

#[test]
fn scrolling_too_far_fetches_everything() {
    let mut v = four();
    assert!(matches!(v.apply_viewport_scroll_delta(0), Fetch::Nothing));
    assert!(matches!(v.apply_viewport_scroll_delta(4), Fetch::Everything));
    assert!(matches!(v.apply_viewport_scroll_delta(i32::MIN), Fetch::Everything));
    assert_eq!(shown(&v), vec!["a", "b", "c", "d"]);
    let mut empty = view(4);
    assert!(matches!(empty.apply_viewport_scroll_delta(1), Fetch::Everything));
    let mut none = view(0);
    assert!(matches!(none.apply_viewport_scroll_delta(1), Fetch::Nothing));
}

#[test]
fn scrolling_by_lines() {
    let mut v = four();
    v.set_peek(None, vec![]);
    let followed = v.lines_scrolled(2, -2, false);
    assert!(!followed.clamped);
    assert!(matches!(followed.fetch, Fetch::Rows(rows) if rows == [0, 1]));
    assert_eq!(shown(&v), vec!["", "", "a", "b"]);
    assert!(!v.peek_fetch_due(true));

    // The emulator had no more to show.
    let followed = v.lines_scrolled(2, 0, true);
    assert!(followed.clamped);
    assert!(matches!(followed.fetch, Fetch::Nothing));
    assert!(v.peek_fetch_due(true));
}

#[test]
fn dirty_rows_are_fetched_one_by_one() {
    let mut v = four();
    assert!(matches!(v.plan_dirty_rows(&[]), Fetch::Nothing));
    match v.plan_dirty_rows(&[2, 9, 0, 4]) {
        Fetch::Rows(rows) => assert_eq!(rows, vec![2, 0]),
        _ => panic!("only rows of the screen are fetched"),
    }
    assert!(matches!(view(4).plan_dirty_rows(&[1]), Fetch::Everything));

    v.select_all();
    v.apply_dirty_viewport_rows(&vec![
        RowPatch { row: 2, text: "long".to_string(), style_runs: vec![] },
        RowPatch { row: 7, text: "ignored".to_string(), style_runs: vec![] },
    ]);
    assert_eq!(shown(&v), vec!["a", "b", "long", "d"]);
    assert_eq!(v.viewport.layout(2), None);
    assert_eq!(v.viewport.layout(1), Some(&1));
    assert_eq!(v.selection(), None);
    assert_eq!(v.viewport.total_len(), 11);
}

#[test]
fn copying() {
    let mut v = view(3);
    v.refresh_viewport("ab\n\u{fc}x\nlast", vec![]);
    assert_eq!(v.copied_text(), "ab\n\u{fc}x\nlast\n");
    v.select_from(1);
    assert_eq!(v.copied_text(), "ab\n\u{fc}x\nlast\n");
    assert!(v.drag_selection(5));
    assert!(!v.drag_selection(5));
    assert_eq!(v.copied_text(), "b\n\u{fc}");
    assert!(v.drag_selection(0));
    assert_eq!(v.copied_text(), "a");
    assert_eq!(v.selection(), Some(ByteSelection { anchor: 1, active: 0 }));
    v.select_all();
    assert_eq!(v.copied_text(), "ab\n\u{fc}x\nlast\n");
    // Where the selection cuts a character, the text of its line is left out.
    assert_eq!(v.viewport.viewport_slice(0..4), "ab\n");
    assert_eq!(v.viewport.viewport_slice(2..3), "\n");
    assert_eq!(v.viewport.viewport_slice(5..999), "x\nlast\n");
    assert_eq!(v.viewport.viewport_slice(50..60), "");
}

#[test]
fn ending_a_selection() {
    let mut v = four();
    assert!(!v.end_selection());
    v.select_from(2);
    assert!(v.end_selection());
    assert_eq!(v.selection(), None);
    v.select_from(2);
    v.drag_selection(4);
    assert!(v.end_selection());
    assert_eq!(v.selection(), Some(ByteSelection { anchor: 2, active: 4 }));
}

#[test]
fn positions_in_the_viewport() {
    let mut vp: Viewport<u32> = Viewport::new();
    assert_eq!(vp.url_at_viewport_index(0), None);
    vp.refresh("ab\nhttp://x.y\n", vec![style(1)]);
    assert_eq!(vp.styled_row_count(), 1);
    assert_eq!(vp.index_for_cell(1, 3), Some(5));
    assert_eq!(vp.index_for_cell(2, 1), None);
    assert_eq!(vp.index_for_byte(1, 4), 7);
    assert_eq!(vp.index_for_byte(9, 4), 4);
    assert_eq!(vp.url_at_viewport_index(4).as_deref(), Some("http://x.y"));
    assert_eq!(vp.url_at_viewport_index(1), None);
    assert_eq!(vp.url_at_viewport_index(999).as_deref(), Some("http://x.y"));
    assert_eq!(vp.selection_segment(0, 1..5), Some((1, 2)));
    assert_eq!(vp.selection_segment(1, 1..5), Some((0, 2)));
    assert_eq!(vp.selection_segment(1, 0..3), None);
    assert_eq!(vp.selection_segment(7, 0..3), None);
}

#[test]
fn clicking_on_links() {
    let mut vp: Viewport<u32> = Viewport::new();
    vp.refresh("see http://x.y\nplain", vec![]);
    let link = Some("osc8".to_string());
    assert_eq!(vp.clicked_link(80, Some((1, 2)), link, None).as_deref(), Some("osc8"));
    assert_eq!(vp.clicked_link(80, Some((6, 1)), None, None).as_deref(), Some("http://x.y"));
    assert_eq!(vp.clicked_link(80, Some((1, 2)), None, Some(6)).as_deref(), Some("http://x.y"));
    assert_eq!(vp.clicked_link(80, Some((1, 2)), None, Some(16)), None);
    assert_eq!(vp.clicked_link(80, None, Some("unused".to_string()), None), None);
}

#[test]
fn clicking_on_links_that_wrap_or_stand_behind_a_prefix() {
    let config = TerminalConfig { cols: 10, rows: 3, ..TerminalConfig::default() };
    let mut v: TerminalView<u32> = TerminalView::new(TerminalSession::new(config));
    v.refresh_viewport("a=http://x\n.yz/path/t\no end\n", vec![]);
    let link = Some("http://x.yz/path/to".to_string());
    assert_eq!(v.clicked_link(Some((3, 1)), None, None), link);
    assert_eq!(v.clicked_link(Some((9, 2)), None, None), link);
    assert_eq!(v.clicked_link(Some((1, 3)), None, None), link);
    assert_eq!(v.clicked_link(Some((4, 3)), None, None), None);
    // Before the scheme there is no link.
    assert_eq!(v.clicked_link(Some((1, 1)), None, None), None);
    // With more columns no row is full.
    v.resize_terminal(40, 3, false);
    assert_eq!(v.clicked_link(Some((9, 2)), None, None), None);
    let osc8 = Some("osc8".to_string());
    assert_eq!(v.clicked_link(Some((3, 1)), osc8.clone(), None), osc8);
}

#[test]
fn layouts_are_kept_until_stale() {
    let mut v = four();
    v.viewport.prepare_layouts(false);
    assert_eq!(v.viewport.layout(2), Some(&2));
    v.viewport.prepare_layouts(true);
    assert_eq!(v.viewport.layout(2), None);
    v.viewport.set_layout(9, 1);
    assert_eq!(v.viewport.layout(9), None);
}

#[test]
fn output_waits_and_none_is_lost() {
    let mut v = view(4);
    let now = v.queue_output_bytes(b"abc");
    assert!(now.flush.is_none() && now.chunks.is_empty());
    let now = v.queue_output_bytes(b"def");
    assert!(now.flush.is_none() && now.chunks.is_empty());

    let big = vec![b'x'; MAX_PENDING_OUTPUT_BYTES];
    let now = v.queue_output_bytes(&big);
    assert_eq!(now.flush.as_deref(), Some(&b"abcdef"[..]));
    assert!(now.chunks.is_empty());
    assert!(v.refresh_due(true));

    let huge = vec![b'y'; 2 * MAX_PENDING_OUTPUT_BYTES + 1];
    let now = v.queue_output_bytes(&huge);
    assert_eq!(now.flush.map(|f| f.len()), Some(MAX_PENDING_OUTPUT_BYTES));
    let m = MAX_PENDING_OUTPUT_BYTES;
    assert_eq!(now.chunks, vec![(0, m), (m, 2 * m), (2 * m, 2 * m + 1)]);
    assert!(v.take_frame_output().is_none());

    v.queue_output_bytes(b"z");
    assert_eq!(v.take_frame_output().map(|f| f.bytes).as_deref(), Some(&b"z"[..]));
    assert!(v.take_frame_output().is_none());
}

#[test]
fn frames_wait_for_synchronized_output() {
    let mut v = view(4);
    v.queue_output_bytes(b"x\x1b[?2026h");
    let frame = v.take_frame_output().unwrap();
    assert!(!frame.sync_before && frame.touched_sync);
    assert!(v.after_frame_output(false, false));
    assert!(!v.refresh_due(true));

    assert!(!v.after_frame_output(false, true));
    assert!(v.refresh_due(true));
    assert!(!v.refresh_due(true));

    v.session.feed(b"\x1b[?2026h");
    assert!(!v.after_frame_output(false, true));
    // Output has to wait; what the user asked for has not.
    assert!(!v.refresh_due(true));
    assert!(v.refresh_due(false));
    assert!(!v.after_direct_output());
    v.session.feed(b"\x1b[?2026l");
    assert!(v.refresh_due(true));
    assert!(v.after_direct_output());
    v.schedule_viewport_refresh();
    assert!(v.refresh_due(true));
}

#[test]
fn switches_of_synchronized_output() {
    assert!(has_synchronized_output_mode_change(b"ab\x1b[?2026hcd"));
    assert!(has_synchronized_output_mode_change(b"\x1b[?2026l"));
    assert!(!has_synchronized_output_mode_change(b"\x1b[?2026x"));
    assert!(!has_synchronized_output_mode_change(b"\x1b[?2026"));
    assert!(!has_synchronized_output_mode_change(b""));
}

#[test]
fn window_titles() {
    let mut v = view(4);
    assert_eq!(
        v.window_title_update().as_deref(),
        Some("GPUI Embedded Terminal (Ghostty VT)")
    );
    assert_eq!(v.window_title_update(), None);
    v.session.feed(b"\x1b]0;new\x07");
    assert_eq!(v.window_title_update().as_deref(), Some("new"));
    assert_eq!(v.window_title_update(), None);

    let config = TerminalConfig { update_window_title: false, ..TerminalConfig::default() };
    let mut quiet: TerminalView<u32> = TerminalView::new(TerminalSession::new(config));
    assert_eq!(quiet.window_title_update(), None);
    assert!(!quiet.has_input());
}

#[test]
fn blinking() {
    let mut v = view(4);
    assert!(v.has_input());
    let at = Some((2, 3));
    assert_eq!(v.shown_cursor(true, at), at);
    assert_eq!(v.shown_cursor(false, at), None);
    assert!(v.blink_tick());
    assert_eq!(v.shown_cursor(true, at), None);
    // Output brings the cursor back, and so does turning the blinking off.
    v.queue_output_bytes(b"x");
    assert_eq!(v.shown_cursor(true, at), at);
    v.blink_tick();
    assert!(v.set_cursor_blink_enabled(false));
    assert!(!v.set_cursor_blink_enabled(false));
    assert!(!v.blink_tick());
    assert_eq!(v.shown_cursor(true, at), at);
    assert!(v.set_cursor_blink_enabled(true));
    assert!(!v.set_window_active(false));
    assert!(!v.blink_tick());
    assert_eq!(v.shown_cursor(true, at), None);
    assert!(v.set_window_active(true));
    assert_eq!(v.shown_cursor(true, at), at);
    v.session.feed(b"\x1b[?25l");
    assert_eq!(v.shown_cursor(true, at), None);
}

#[test]
fn composed_text() {
    let mut v = view(4);
    assert_eq!(v.marked_text_range(), None);
    assert_eq!(v.text_for_range(0..1), None);
    assert_eq!(v.marked_column(3), 3);
    assert_eq!(v.marked_columns(), None);

    v.set_marked_text("a\u{1f600}b".to_string(), None);
    assert_eq!(v.marked_text(), Some("a\u{1f600}b"));
    assert_eq!(v.selected_text_range(), 4..4);
    assert_eq!(v.marked_text_range(), Some(0..4));
    assert_eq!(v.text_for_range(1..9), Some((1..4, Some("\u{1f600}b".to_string()))));
    assert_eq!(v.text_for_range(3..1), Some((3..1, None)));
    assert_eq!(v.marked_column(3), 3);
    assert_eq!(v.marked_columns(), Some(4));

    v.set_marked_text("xy".to_string(), Some(1..99));
    assert_eq!(v.selected_text_range(), 1..2);
    v.set_marked_text("\u{301}".to_string(), Some(0..0));
    assert_eq!(v.marked_columns(), Some(1));
    v.set_marked_text(String::new(), None);
    assert_eq!(v.marked_text(), None);
    v.set_marked_text("z".to_string(), None);
    v.clear_marked_text();
    assert_eq!(v.marked_text(), None);
    assert_eq!(v.selected_text_range(), 0..0);
}

#[test]
fn the_row_above_and_the_scrollbar() {
    let mut v = view(4);
    assert!(!v.peek_fetch_due(true));
    v.mark_peek_dirty();
    assert!(v.peek_fetch_due(true));
    assert!(!v.peek_fetch_due(false));
    assert!(v.set_peek(Some("up".to_string()), style(3)));
    assert!(!v.peek_fetch_due(true));
    assert_eq!(v.peek_text(), Some("up"));
    assert_eq!(v.peek_runs(), &style(3)[..]);
    assert!(!v.set_peek(None, vec![]));

    let pos = |total_rows, viewport_rows| ScrollPosition { viewport_top: 0, total_rows, viewport_rows };
    assert_eq!(v.scrollbar(), None);
    v.set_scroll_pos(Some(pos(4, 4)));
    assert!(!v.scroll_pos_stale());
    assert_eq!(v.scrollbar(), None);
    v.set_scroll_pos(Some(pos(9, 0)));
    assert_eq!(v.scrollbar(), None);
    v.set_scroll_pos(Some(pos(9, 4)));
    assert_eq!(v.scrollbar(), Some(pos(9, 4)));
    v.sync_viewport_scroll_tracking(true);
    assert!(v.peek_fetch_due(true));
    assert!(v.scroll_pos_stale());
}

#[test]
fn changes_of_size_and_colours() {
    let mut v = view(4);
    v.set_scroll_pos(None);
    v.resize_terminal(100, 50, false);
    assert_eq!((v.session.cols(), v.session.rows()), (100, 50));
    assert!(v.scroll_pos_stale());
    assert!(v.refresh_due(true));
    let red = Rgb { r: 255, g: 0, b: 0 };
    v.set_default_colors(red, red);
    assert_eq!(v.session.default_foreground(), red);
    assert!(v.refresh_due(true));
    v.set_cursor_color(Some(red));
    v.set_cursor_style(CursorStyle::Bar);
    assert_eq!(v.session.cursor_color(), Some(red));
    assert_eq!(v.session.cursor_style(), CursorStyle::Bar);
    assert!(!v.refresh_due(true));
}

#[test]
fn counters_are_written_about_twice_a_second() {
    assert_eq!(stats_step(7, 0), StatsStep::Begin);
    assert_eq!(stats_step(0, 0), StatsStep::Begin);
    assert_eq!(stats_step(599, 100), StatsStep::Wait);
    assert_eq!(stats_step(50, 100), StatsStep::Wait);
    assert_eq!(stats_step(600, 100), StatsStep::End(500));
    let none = ScrollCounts {
        events: 0,
        subline_paints: 0,
        line_snaps: 0,
        peek_fetches: 0,
        paint_calls: 0,
    };
    assert!(!none.any());
    assert!(ScrollCounts { events: 1, ..none }.any());
    assert!(ScrollCounts { subline_paints: 1, ..none }.any());
    assert!(ScrollCounts { line_snaps: 1, ..none }.any());
    assert!(ScrollCounts { peek_fetches: 1, ..none }.any());
    assert!(ScrollCounts { paint_calls: 1, ..none }.any());
}
