use ghostty_terminal::query::osc_color_response;
use ghostty_terminal::{ColorScheme, CursorStyle, Rgb, TerminalConfig, TerminalEvent, TerminalSession};

fn session() -> TerminalSession {
    TerminalSession::new(TerminalConfig::default())
}

/// Feeds `bytes` as a host does, with the emulator's cursor at `cursor`, and
/// collects the replies.
fn replies_at(s: &mut TerminalSession, bytes: &[u8], cursor: Option<(u16, u16)>) -> Vec<u8> {
    s.feed(bytes);
    let mut out = Vec::new();
    let mut start = 0;
    while let Some(segment) = s.next_pty_segment(bytes, start) {
        assert!(segment.end > start && segment.end <= bytes.len());
        if let Some(query) = segment.query {
            out.extend_from_slice(&s.pty_reply(query, cursor));
        }
        start = segment.end;
    }
    assert_eq!(start, bytes.len());
    out
}

fn replies(s: &mut TerminalSession, bytes: &[u8]) -> Vec<u8> {
    replies_at(s, bytes, Some((1, 1)))
}

#[test]
fn modes_at_the_head_of_a_huge_batch_are_applied() {
    let mut vt = session();
    let mut replay =
        b"\x1b[2J\x1b[H\x1b[?1000h\x1b[?1002h\x1b[?1003h\x1b[?1006h\x1b[?1049h".to_vec();
    replay.extend(std::iter::repeat(b'x').take(128 * 1024));
    vt.feed(&replay);

    assert!(vt.alternate_screen_active(), "?1049h lost");
    assert!(vt.mouse_reporting_enabled(), "?1000h/?1002h/?1003h lost");
    assert!(vt.mouse_sgr_enabled(), "?1006h lost");
}

#[test]
fn an_osc_title_at_the_head_of_a_huge_batch_is_applied() {
    let mut vt = session();
    let mut replay = b"\x1b]0;agent - analytics-ops\x07".to_vec();
    replay.extend(std::iter::repeat(b'y').take(64 * 1024));
    vt.feed(&replay);

    assert_eq!(vt.title(), Some("agent - analytics-ops"));
}

#[test]
fn a_mode_split_across_two_batches_is_applied() {
    let mut vt = session();
    vt.feed(b"\x1b[?10");
    assert!(!vt.mouse_sgr_enabled(), "half a sequence must decide nothing");
    vt.feed(b"06h");
    assert!(vt.mouse_sgr_enabled(), "the split ?1006h was never completed");
}

#[test]
fn the_carry_stays_bounded() {
    let mut vt = session();
    for _ in 0..8 {
        vt.feed(&vec![b'z'; 64 * 1024]);
    }
    assert!(vt.carry_len() <= 2048, "carry grew to {} bytes", vt.carry_len());
}

#[test]
fn tracks_bracketed_paste_mode_from_output() {
    let mut session = session();
    assert!(!session.bracketed_paste_enabled());

    session.feed(b"\x1b[?2004h");
    assert!(session.bracketed_paste_enabled());

    session.feed(b"\x1b[?2004l");
    assert!(!session.bracketed_paste_enabled());
}

#[test]
fn tracks_cursor_visibility_from_output() {
    let mut session = session();
    assert!(session.cursor_visible());

    session.feed(b"\x1b[?25l");
    assert!(!session.cursor_visible());

    session.feed(b"\x1b[?25h");
    assert!(session.cursor_visible());
}

#[test]
fn tracks_cursor_visibility_across_chunk_boundaries() {
    let mut session = session();
    session.feed(b"\x1b[?2");
    assert!(session.cursor_visible());

    session.feed(b"5l");
    assert!(!session.cursor_visible());

    session.feed(b"\x1b[?25");
    assert!(!session.cursor_visible());

    session.feed(b"h");
    assert!(session.cursor_visible());
}

#[test]
fn tracks_synchronized_output_mode_from_output() {
    let mut session = session();
    assert!(!session.synchronized_output_active());

    session.feed(b"\x1b[?2026h");
    assert!(session.synchronized_output_active());

    session.feed(b"\x1b[?2026l");
    assert!(!session.synchronized_output_active());
}

#[test]
fn tracks_synchronized_output_mode_across_chunk_boundaries() {
    let mut session = session();

    session.feed(b"\x1b[?20");
    assert!(!session.synchronized_output_active());

    session.feed(b"26h");
    assert!(session.synchronized_output_active());

    session.feed(b"\x1b[?202");
    assert!(session.synchronized_output_active());

    session.feed(b"6l");
    assert!(!session.synchronized_output_active());
}

#[test]
fn tracks_mouse_reporting_mode_from_output() {
    let mut session = session();
    assert!(!session.mouse_reporting_enabled());
    assert!(!session.mouse_sgr_enabled());

    session.feed(b"\x1b[?1000;1006h");
    assert!(session.mouse_reporting_enabled());
    assert!(session.mouse_sgr_enabled());

    session.feed(b"\x1b[?1000l");
    assert!(!session.mouse_reporting_enabled());
    assert!(session.mouse_sgr_enabled());

    session.feed(b"\x1b[?1006l");
    assert!(!session.mouse_sgr_enabled());
}

#[test]
fn tracks_modes_across_chunk_boundaries() {
    let mut session = session();
    session.feed(b"\x1b[?1000;");
    assert!(!session.mouse_reporting_enabled());

    session.feed(b"1006h");
    assert!(session.mouse_reporting_enabled());
    assert!(session.mouse_sgr_enabled());
}

#[test]
fn tracks_osc_title_across_chunk_boundaries() {
    let mut session = session();
    session.feed(b"\x1b]0;hi");
    assert!(session.title().is_none());

    session.feed(b"\x07");
    assert_eq!(session.title(), Some("hi"));
}

#[test]
fn tracks_osc_52_clipboard_across_chunk_boundaries() {
    let mut session = session();
    session.feed(b"\x1b]52;c;");
    assert!(session.take_clipboard_write().is_none());

    session.feed(b"aGk=\x07");
    assert_eq!(session.take_clipboard_write().as_deref(), Some("hi"));
}

#[test]
fn responds_to_csi_6n_cursor_position_request() {
    let mut session = session();
    let response = replies_at(&mut session, b"hi\x1b[6n", Some((3, 1)));
    assert_eq!(response, b"\x1b[1;3R");
}

#[test]
fn responds_to_csi_6n_across_chunk_boundaries() {
    let mut session = session();
    let mut response = replies_at(&mut session, b"hi\x1b[", Some((3, 1)));
    assert!(response.is_empty());

    response.extend(replies_at(&mut session, b"6n", Some((3, 1))));
    assert_eq!(response, b"\x1b[1;3R");
}

#[test]
fn responds_to_csi_5n_device_status_request() {
    let mut session = session();
    assert_eq!(replies(&mut session, b"\x1b[5n"), b"\x1b[0n");
}

#[test]
fn responds_to_csi_5n_across_chunk_boundaries() {
    let mut session = session();
    let mut response = replies(&mut session, b"\x1b[");
    assert!(response.is_empty());

    response.extend(replies(&mut session, b"5n"));
    assert_eq!(response, b"\x1b[0n");
}

#[test]
fn responds_to_osc_10_default_foreground_color_query() {
    let mut session = session();
    let response = replies(&mut session, b"\x1b]10;?\x1b\\");
    let expected = osc_color_response(10, (0xFF, 0xFF, 0xFF));
    assert_eq!(response, expected.as_bytes());
    assert_eq!(expected, "\u{1b}]10;rgb:ffff/ffff/ffff\u{1b}\\");
}

#[test]
fn responds_to_osc_11_default_background_color_query() {
    let mut session = session();
    let response = replies(&mut session, b"\x1b]11;?\x1b\\");
    let expected = osc_color_response(11, (0x00, 0x00, 0x00));
    assert_eq!(response, expected.as_bytes());
}

#[test]
fn responds_to_osc_10_and_11_use_configured_defaults() {
    let config = TerminalConfig {
        default_fg: Rgb { r: 0x11, g: 0x22, b: 0x33 },
        default_bg: Rgb { r: 0x44, g: 0x55, b: 0x66 },
        ..TerminalConfig::default()
    };
    let mut session = TerminalSession::new(config);
    let response = replies(&mut session, b"\x1b]10;?\x1b\\\x1b]11;?\x1b\\");

    let expected_fg = osc_color_response(10, (0x11, 0x22, 0x33));
    let expected_bg = osc_color_response(11, (0x44, 0x55, 0x66));
    let mut expected = Vec::new();
    expected.extend_from_slice(expected_fg.as_bytes());
    expected.extend_from_slice(expected_bg.as_bytes());
    assert_eq!(response, expected);
}

#[test]
fn responds_to_osc_11_across_chunk_boundaries() {
    let mut session = session();
    let mut response = replies(&mut session, b"\x1b]11;?\x1b");
    assert!(response.is_empty());

    response.extend(replies(&mut session, b"\\"));
    let expected = osc_color_response(11, (0x00, 0x00, 0x00));
    assert_eq!(response, expected.as_bytes());
}

#[test]
fn responds_to_osc_11_query_terminated_by_bel() {
    let mut session = session();
    let response = replies(&mut session, b"\x1b]11;?\x07");
    let expected = osc_color_response(11, (0x00, 0x00, 0x00));
    assert_eq!(response, expected.as_bytes());
}

#[test]
fn responds_to_osc_12_cursor_color_query_with_foreground_when_unset() {
    let mut session = session();
    let response = replies(&mut session, b"\x1b]12;?\x1b\\");
    let expected = osc_color_response(12, (0xFF, 0xFF, 0xFF));
    assert_eq!(response, expected.as_bytes());
}

#[test]
fn responds_to_osc_12_cursor_color_query_with_configured_cursor_color() {
    let config = TerminalConfig {
        cursor_color: Some(Rgb { r: 0x11, g: 0x22, b: 0x33 }),
        ..TerminalConfig::default()
    };
    let mut session = TerminalSession::new(config);
    let response = replies(&mut session, b"\x1b]12;?\x07");
    let expected = osc_color_response(12, (0x11, 0x22, 0x33));
    assert_eq!(response, expected.as_bytes());
}

#[test]
fn responds_to_primary_device_attributes_query() {
    for query in [&b"\x1b[c"[..], &b"\x1b[0c"[..]] {
        let mut session = session();
        assert_eq!(replies(&mut session, query), b"\x1b[?62;22c", "query {:?}", query);
    }
}

#[test]
fn responds_to_secondary_device_attributes_query() {
    for query in [&b"\x1b[>c"[..], &b"\x1b[>0c"[..]] {
        let mut session = session();
        assert_eq!(replies(&mut session, query), b"\x1b[>1;10;0c", "query {:?}", query);
    }
}

#[test]
fn device_attributes_responses_and_multi_param_csis_are_not_queries() {
    let mut session = session();
    let response = replies(
        &mut session,
        b"\x1b[?62;22c\x1b[>1;10;0c\x1b[1c\x1b[?1;996n\x1b[996n",
    );
    assert!(response.is_empty(), "unexpected response {:?}", response);
}

#[test]
fn responds_to_dsr_996_color_scheme_query() {
    let mut dark = session();
    assert_eq!(replies(&mut dark, b"\x1b[?996n"), b"\x1b[?997;1n");

    let mut light = TerminalSession::new(TerminalConfig {
        color_scheme: ColorScheme::Light,
        ..TerminalConfig::default()
    });
    assert_eq!(replies(&mut light, b"\x1b[?996n"), b"\x1b[?997;2n");
}

#[test]
fn responds_to_dsr_996_across_chunk_boundaries() {
    let mut session = session();
    let mut response = Vec::new();
    for chunk in [&b"\x1b["[..], &b"?9"[..], &b"96"[..], &b"n"[..]] {
        response.extend(replies(&mut session, chunk));
    }
    assert_eq!(response, b"\x1b[?997;1n");
}

#[test]
fn color_scheme_change_is_reported_only_while_mode_2031_is_set() {
    let mut session = session();
    assert_eq!(session.color_scheme(), ColorScheme::Dark);

    assert_eq!(session.set_color_scheme(ColorScheme::Light), None);
    assert_eq!(session.color_scheme(), ColorScheme::Light);

    session.feed(b"\x1b[?2031h");
    assert!(session.color_scheme_reports_enabled());

    assert_eq!(session.set_color_scheme(ColorScheme::Light), None);
    assert_eq!(
        session.set_color_scheme(ColorScheme::Dark).as_deref(),
        Some(&b"\x1b[?997;1n"[..])
    );
    assert_eq!(
        session.set_color_scheme(ColorScheme::Light).as_deref(),
        Some(&b"\x1b[?997;2n"[..])
    );

    session.feed(b"\x1b[?2031l");
    assert!(!session.color_scheme_reports_enabled());
    assert_eq!(session.set_color_scheme(ColorScheme::Dark), None);
}

#[test]
fn mode_2031_is_tracked_inside_a_multi_mode_decset() {
    let mut session = session();
    session.feed(b"\x1b[?1049;2031h");
    assert!(session.color_scheme_reports_enabled());
    assert!(session.alternate_screen_active());
}

#[test]
fn esc_restarts_a_half_parsed_csi_query() {
    let mut session = session();
    assert_eq!(replies(&mut session, b"\x1b[?99\x1b[?996n"), b"\x1b[?997;1n");
}

#[test]
fn intermediate_or_unknown_bytes_abort_a_csi_query() {
    let mut session = session();
    let out = replies(
        &mut session,
        b"\x1b[?996 n\x1b[5$n\x1b[<0c\x1b[5?6n\x1b[?c\x1b[?0c\x1b[>1c",
    );
    assert!(out.is_empty(), "unexpected response {:?}", out);
}

#[test]
fn adjacent_osc_and_csi_queries_are_answered_in_order() {
    let mut session = session();
    let mut expected = osc_color_response(11, (0x00, 0x00, 0x00)).into_bytes();
    expected.extend_from_slice(b"\x1b[?62;22c");
    assert_eq!(replies(&mut session, b"\x1b]11;?\x07\x1b[c"), expected);
}

#[test]
fn osc_13_query_is_not_answered() {
    let mut session = session();
    assert!(replies(&mut session, b"\x1b]13;?\x07").is_empty());
}

#[test]
fn ris_clears_mode_2031_and_the_other_mirrored_modes() {
    let mut session = session();
    session.feed(b"\x1b[?2031h\x1b[?2004h\x1b[?1049h");
    assert!(session.color_scheme_reports_enabled());
    assert!(session.bracketed_paste_enabled());
    assert!(session.alternate_screen_active());

    session.feed(b"\x1bc");
    assert!(!session.color_scheme_reports_enabled());
    assert!(!session.bracketed_paste_enabled());
    assert!(!session.alternate_screen_active());
    assert_eq!(session.set_color_scheme(ColorScheme::Light), None);
}

#[test]
fn a_mode_set_after_ris_in_the_same_chunk_survives_it() {
    let mut session = session();
    session.feed(b"\x1b[?2031h\x1bc\x1b[?2031h");
    assert!(session.color_scheme_reports_enabled());
    session.feed(b"x");
    assert!(session.color_scheme_reports_enabled());
}

#[test]
fn full_reset_clears_mode_2031() {
    let mut session = session();
    session.feed(b"\x1b[?2031h");
    session.full_reset();
    assert!(!session.color_scheme_reports_enabled());
    assert_eq!(session.set_color_scheme(ColorScheme::Light), None);
}

#[test]
fn reset_for_new_pty_forgets_modes_and_half_parsed_queries() {
    let mut session = session();
    assert!(replies(&mut session, b"\x1b[?2031h\x1b[?99").is_empty());
    session.reset_for_new_pty();
    assert!(!session.color_scheme_reports_enabled());
    assert!(replies(&mut session, b"6n").is_empty());
    assert_eq!(replies(&mut session, b"\x1b[?996n"), b"\x1b[?997;1n");
}

#[test]
fn every_mirrored_mode_is_set_and_cleared() {
    let mut s = session();
    s.feed(b"\x1b[?1;47;1002;1003h");
    assert!(s.application_cursor_keys());
    assert!(s.alternate_screen_active());
    assert!(s.mouse_button_event_enabled());
    assert!(s.mouse_any_event_enabled());
    assert!(s.mouse_alternate_scroll_enabled());
    s.feed(b"\x1b[?1;1047;1002;1003;1007l");
    assert!(!s.application_cursor_keys());
    assert!(!s.alternate_screen_active());
    assert!(!s.mouse_button_event_enabled());
    assert!(!s.mouse_any_event_enabled());
    assert!(!s.mouse_alternate_scroll_enabled());
    // Without the question mark, or with another final byte, nothing happens.
    s.feed(b"\x1b[1h\x1b[?1x\x1b[?;;h");
    assert!(!s.application_cursor_keys());
    // Empty parameters are skipped, and a number too large is no mode.
    s.feed(b"\x1b[?;1;;99999999999h");
    assert!(s.application_cursor_keys());
}

#[test]
fn cutting_the_stream_anywhere_changes_nothing() {
    let stream = b"a\x1b[?25l\x1b]2;one\x1b\\\x1b[?1049;1006h\x1bc\x1b[?2004h\x1b]0;two\x07\x1b]52;c;aGk=\x07z";
    let mut whole = session();
    whole.feed(stream);
    for cut in 0..=stream.len() {
        let mut s = session();
        s.feed(&stream[..cut]);
        s.feed(&stream[cut..]);
        assert_eq!(s.modes(), whole.modes(), "cut at {cut}");
        assert_eq!(s.title(), whole.title(), "cut at {cut}");
        assert_eq!(s.carry_len(), whole.carry_len());
        assert_eq!(s.take_clipboard_write().as_deref(), Some("hi"), "cut at {cut}");
    }
}

#[test]
fn queries_are_found_wherever_the_stream_is_cut() {
    let stream = b"x\x1b[c\x1b]10;?\x07y\x1b[6n\x1b[?996n\x1b]12;?\x1b\\";
    let mut whole = session();
    let expected = replies_at(&mut whole, stream, Some((4, 2)));
    assert!(expected.starts_with(b"\x1b[?62;22c\x1b]10;"));
    for cut in 0..=stream.len() {
        let mut s = session();
        let mut out = replies_at(&mut s, &stream[..cut], Some((4, 2)));
        out.extend(replies_at(&mut s, &stream[cut..], Some((4, 2))));
        assert_eq!(out, expected, "cut at {cut}");
    }
}

#[test]
fn replies_that_come_back_are_not_answered() {
    let mut s = session();
    let queries: &[u8] = b"\x1b[c\x1b[>c\x1b[5n\x1b[6n\x1b[?996n\x1b]10;?\x07";
    let out = replies_at(&mut s, queries, Some((80, 24)));
    assert!(!out.is_empty());
    assert!(replies(&mut s, &out).is_empty());
}

#[test]
fn an_unknown_cursor_counts_as_the_first_cell() {
    let mut s = session();
    assert_eq!(replies_at(&mut s, b"\x1b[6n", None), b"\x1b[1;1R");
    assert_eq!(replies_at(&mut s, b"\x1b[6n", Some((65535, 100))), b"\x1b[100;65535R");
}

#[test]
fn titles_are_read_as_text() {
    let mut s = session();
    s.feed("\u{1b}]2;gr\u{fc}n\u{7}".as_bytes());
    assert_eq!(s.title(), Some("gr\u{fc}n"));
    s.feed(b"\x1b]0;a\xffb\x1b\\");
    assert_eq!(s.title(), Some("a\u{fffd}b"));
    // Another number is no title, and an empty title is one.
    s.feed(b"\x1b]1;icon\x07");
    assert_eq!(s.title(), Some("a\u{fffd}b"));
    s.feed(b"\x1b]0;\x07");
    assert_eq!(s.title(), Some(""));
}

#[test]
fn clipboard_writes_that_are_ignored() {
    let mut s = session();
    // Another selection, no data, a question, and no base64.
    s.feed(b"\x1b]52;p;aGk=\x07");
    assert_eq!(s.take_clipboard_write(), None);
    s.feed(b"\x1b]52;c;\x07");
    assert_eq!(s.take_clipboard_write(), None);
    s.feed(b"\x1b]52;c;?\x07");
    assert_eq!(s.take_clipboard_write(), None);
    s.feed(b"\x1b]52;c\x07");
    assert_eq!(s.take_clipboard_write(), None);
    s.feed(b"\x1b]52;pc;aGVsbG8=\x1b\\");
    assert_eq!(s.take_clipboard_write().as_deref(), Some("hello"));
}

#[test]
fn an_ignored_clipboard_write_hides_an_earlier_one_only_in_the_same_read() {
    let mut one = session();
    one.feed(b"\x1b]52;c;aGk=\x07\x1b]52;c;!\x07");
    assert_eq!(one.take_clipboard_write(), None);

    let mut two = session();
    two.feed(b"\x1b]52;c;aGk=\x07");
    two.feed(b"\x1b]52;c;!\x07");
    assert_eq!(two.take_clipboard_write().as_deref(), Some("hi"));
}

#[test]
fn default_backgrounds_are_remembered() {
    let gray = |n: u8| Rgb { r: n, g: n, b: n };
    let mut s = session();
    assert_eq!(s.transparent_default_backgrounds(), &[gray(0)]);
    for n in 1..10 {
        s.set_default_colors(gray(255), gray(n));
        assert_eq!(s.default_background(), gray(n));
        assert_eq!(s.default_foreground(), gray(255));
        assert!(s.transparent_default_backgrounds().contains(&gray(n)));
        assert!(s.transparent_default_backgrounds().len() <= 8);
    }
    let expected: Vec<Rgb> = (2..10).map(gray).collect();
    assert_eq!(s.transparent_default_backgrounds(), &expected[..]);
    s.set_default_colors(gray(255), gray(5));
    assert_eq!(s.transparent_default_backgrounds(), &expected[..]);
}

#[test]
fn the_input_line_is_anchored_by_events() {
    let mut s = session();
    assert_eq!(s.input_anchor(), None);
    s.drain_events(&vec![TerminalEvent::Other, TerminalEvent::InputStart], Some((3, 7)));
    assert_eq!(s.input_anchor(), Some((3, 7)));
    s.drain_events(&vec![TerminalEvent::PromptStart], Some((9, 9)));
    assert_eq!(s.input_anchor(), Some((3, 7)));
    s.drain_events(&vec![TerminalEvent::CommandStart { cmd: None }], Some((9, 9)));
    assert_eq!(s.input_anchor(), None);
    s.drain_events(&vec![TerminalEvent::CommandEnd { exit_code: 0 }, TerminalEvent::InputStart], Some((1, 2)));
    assert_eq!(s.input_anchor(), Some((1, 2)));
    // The alternate screen forgets it; leaving that screen does not bring it back.
    s.feed(b"\x1b[?1049h");
    assert_eq!(s.input_anchor(), None);
    s.feed(b"\x1b[?1049l");
    assert_eq!(s.input_anchor(), None);
    s.drain_events(&vec![TerminalEvent::InputStart], Some((1, 2)));
    s.resize(100, 40);
    assert_eq!(s.input_anchor(), None);
    assert_eq!((s.cols(), s.rows()), (100, 40));
}

#[test]
fn configuration_is_read_back() {
    let mut s = session();
    assert_eq!((s.cols(), s.rows()), (80, 24));
    assert_eq!(s.cursor_blink_ms(), None);
    assert_eq!(s.font_family(), None);
    assert_eq!(s.cursor_color(), None);
    assert_eq!(s.cursor_style(), CursorStyle::Block);
    assert!(s.window_title_updates_enabled());
    s.set_font_family(Some("Menlo".to_string()));
    s.set_cursor_color(Some(Rgb { r: 1, g: 2, b: 3 }));
    s.set_cursor_style(CursorStyle::Bar);
    assert_eq!(s.font_family(), Some("Menlo"));
    assert_eq!(s.cursor_color(), Some(Rgb { r: 1, g: 2, b: 3 }));
    assert_eq!(s.cursor_style(), CursorStyle::Bar);
}

#[test]
fn a_mode_set_before_a_hard_reset_does_not_come_back() {
    let mut s = session();
    s.feed(b"\x1b[?2031h");
    s.full_reset();
    s.feed(b"x");
    assert!(!s.color_scheme_reports_enabled());
    assert_eq!(s.set_color_scheme(ColorScheme::Light), None);

    // The stream goes on: a sequence that the reset cut is completed after it.
    s.feed(b"\x1b[?2004h\x1b[?20");
    s.full_reset();
    s.feed(b"31h");
    assert!(!s.bracketed_paste_enabled());
    assert!(s.color_scheme_reports_enabled());
    assert!(replies(&mut s, b"\x1b[6").is_empty());
    s.full_reset();
    assert_eq!(replies(&mut s, b"n"), b"\x1b[1;1R");
}

#[test]
fn a_clipboard_write_is_delivered_once() {
    let mut s = session();
    s.feed(b"\x1b]52;c;aGk=\x07");
    assert_eq!(s.take_clipboard_write().as_deref(), Some("hi"));
    s.feed(b"x");
    assert_eq!(s.take_clipboard_write(), None);
    s.feed(b"\x1b[?25l\x1b]0;title\x07");
    assert_eq!(s.take_clipboard_write(), None);
    s.feed(b"\x1b]52;c;aGk=\x1b");
    assert_eq!(s.take_clipboard_write(), None);
    s.feed(b"\\");
    assert_eq!(s.take_clipboard_write().as_deref(), Some("hi"));
    s.feed(b"");
    assert_eq!(s.take_clipboard_write(), None);
}

#[test]
fn an_earlier_alternate_screen_does_not_clear_a_later_anchor() {
    let mut s = session();
    s.feed(b"\x1b[?1049h\x1b[?1049l$ ");
    s.drain_events(&vec![TerminalEvent::InputStart], Some((3, 1)));
    s.feed(b"ls");
    assert_eq!(s.input_anchor(), Some((3, 1)));
    s.feed(b"\x1b[?1049h");
    assert_eq!(s.input_anchor(), None);
}

#[test]
fn the_number_of_a_colour_query_may_have_leading_zeros() {
    let mut s = session();
    let white = osc_color_response(10, (0xFF, 0xFF, 0xFF));
    assert_eq!(replies(&mut s, b"\x1b]0010;?\x07"), white.as_bytes());
    assert!(replies(&mut s, b"\x1b]13;?\x1b\\").is_empty());
}
