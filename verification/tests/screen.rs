use ghostty_terminal::cells::{
    byte_index_for_column, byte_index_for_column_in_line, cell_offset_for_utf16, line_columns,
    line_has_wide,
};
use ghostty_terminal::lines::{split_viewport_lines, viewport_index_for_cell};
use ghostty_terminal::links::{osc8_link_spans, spans_between};
use ghostty_terminal::text::{text_slice, utf16_len, utf16_range_to_utf8};
use ghostty_terminal::url::{url_at_byte_index, url_at_column_in_line};
use ghostty_terminal::wrap::{url_at_cell_in_wrapped_lines, url_spans_at_cell_in_wrapped_lines};

#[test]
fn viewport_index_maps_row_and_column_to_byte_index() {
    let viewport = "abc\ndef";
    assert_eq!(viewport_index_for_cell(viewport, 1, 1), 0);
    assert_eq!(viewport_index_for_cell(viewport, 1, 2), 1);
    assert_eq!(viewport_index_for_cell(viewport, 1, 4), 3);
    assert_eq!(viewport_index_for_cell(viewport, 2, 1), 4);
    assert_eq!(viewport_index_for_cell(viewport, 2, 3), 6);
}

#[test]
fn viewport_index_accounts_for_wide_characters() {
    let viewport = "Ｗa\n";
    assert_eq!(viewport_index_for_cell(viewport, 1, 1), 0);
    assert_eq!(viewport_index_for_cell(viewport, 1, 2), 0);
    assert_eq!(viewport_index_for_cell(viewport, 1, 3), "Ｗ".len());
    assert_eq!(viewport_index_for_cell(viewport, 1, 4), "Ｗ".len() + 1);
}

#[test]
fn viewport_index_past_the_last_row_is_the_end() {
    assert_eq!(viewport_index_for_cell("abc\ndef", 3, 1), 7);
    assert_eq!(viewport_index_for_cell("abc\n", 2, 1), 4);
    assert_eq!(viewport_index_for_cell("", 1, 1), 0);
    assert_eq!(viewport_index_for_cell("abc\ndef", 0, 0), 0);
    assert_eq!(viewport_index_for_cell("abc\n\ndef", 2, 5), 4);
}

#[test]
fn byte_index_for_column_in_line_handles_wide_characters() {
    assert_eq!(byte_index_for_column_in_line("Ｗa", 1), 0);
    assert_eq!(byte_index_for_column_in_line("Ｗa", 2), 0);
    assert_eq!(byte_index_for_column_in_line("Ｗa", 3), "Ｗ".len());
    assert_eq!(byte_index_for_column_in_line("Ｗa", 4), "Ｗ".len() + 1);
}

#[test]
fn byte_index_for_column_skips_characters_without_width() {
    // A combining accent has no column of its own.
    let line = "e\u{301}x";
    assert_eq!(byte_index_for_column_in_line(line, 0), 0);
    assert_eq!(byte_index_for_column_in_line(line, 1), 0);
    assert_eq!(byte_index_for_column_in_line(line, 2), 3);
    assert_eq!(byte_index_for_column_in_line(line, 3), 4);
    assert_eq!(byte_index_for_column_in_line("", 5), 0);
}

#[test]
fn byte_index_by_given_widths() {
    let chars = vec!['a', 'b', 'c'];
    assert_eq!(byte_index_for_column(&chars, &vec![2, 0, 3], 2), 0);
    assert_eq!(byte_index_for_column(&chars, &vec![2, 0, 3], 3), 2);
    assert_eq!(byte_index_for_column(&chars, &vec![2, 0, 3], 5), 2);
    assert_eq!(byte_index_for_column(&chars, &vec![2, 0, 3], 6), 3);
}

#[test]
fn columns_of_lines() {
    assert_eq!(line_columns("abc"), 3);
    assert_eq!(line_columns("Ｗa"), 3);
    assert_eq!(line_columns("e\u{301}\u{7}"), 1);
    assert!(line_has_wide("aＷ"));
    assert!(!line_has_wide("abc"));
}

#[test]
fn utf16_positions() {
    let s = "a\u{1f600}b";
    assert_eq!(utf16_len(s), 4);
    assert_eq!(utf16_range_to_utf8(s, 0..1), Some(0..1));
    assert_eq!(utf16_range_to_utf8(s, 1..3), Some(1..5));
    // Inside a pair of units, the position is that of the next character.
    assert_eq!(utf16_range_to_utf8(s, 2..4), Some(5..6));
    assert_eq!(utf16_range_to_utf8(s, 0..5), None);
    assert_eq!(cell_offset_for_utf16(s, 0), 0);
    assert_eq!(cell_offset_for_utf16(s, 1), 1);
    assert_eq!(cell_offset_for_utf16(s, 2), 1);
    assert_eq!(cell_offset_for_utf16(s, 3), 3);
    assert_eq!(cell_offset_for_utf16(s, 9), 4);
}

#[test]
fn slices_of_text() {
    let s = "a\u{fc}b";
    assert_eq!(text_slice(s, 0, 4).as_deref(), Some("a\u{fc}b"));
    assert_eq!(text_slice(s, 1, 3).as_deref(), Some("\u{fc}"));
    assert_eq!(text_slice(s, 2, 3), None);
    assert_eq!(text_slice(s, 1, 2), None);
    assert_eq!(text_slice(s, 3, 1), None);
    assert_eq!(text_slice(s, 4, 4).as_deref(), Some(""));
    assert_eq!(text_slice(s, 4, 5), None);
}

#[test]
fn lines_of_a_screen() {
    assert_eq!(split_viewport_lines("a\nb\n"), vec!["a", "b"]);
    assert_eq!(split_viewport_lines("a\n\nb"), vec!["a", "", "b"]);
    assert_eq!(split_viewport_lines("a\n\n"), vec!["a", ""]);
    assert!(split_viewport_lines("\n").is_empty());
    assert!(split_viewport_lines("").is_empty());
}

#[test]
fn url_detection_finds_https_links() {
    let text = "Visit https://google.com for search";
    let idx = text.find("google").unwrap();
    assert_eq!(url_at_byte_index(text, idx).as_deref(), Some("https://google.com"));
}

#[test]
fn url_detection_finds_https_links_by_cell_column() {
    let line = "https://google.com";
    assert_eq!(url_at_column_in_line(line, 1).as_deref(), Some("https://google.com"));
    assert_eq!(url_at_column_in_line(line, 10).as_deref(), Some("https://google.com"));
}

#[test]
fn url_detection_edges() {
    assert_eq!(url_at_byte_index("", 0), None);
    assert_eq!(url_at_byte_index("no link here", 3), None);
    // Just behind a link still counts, and so does a position past the end.
    assert_eq!(url_at_byte_index("http://a.b c", 10).as_deref(), Some("http://a.b"));
    assert_eq!(url_at_byte_index("http://a.b", 99).as_deref(), Some("http://a.b"));
    // Punctuation at the end is not part of it.
    assert_eq!(url_at_byte_index("http://a.b).", 11).as_deref(), Some("http://a.b"));
    // The run must begin with the scheme.
    assert_eq!(url_at_byte_index("x=http://a.b", 5), None);
    assert_eq!(url_at_byte_index("ftp://a.b", 5), None);
    assert_eq!(url_at_column_in_line("", 1), None);
}

#[test]
fn url_at_cell_single_line() {
    let lines = vec!["see https://example.com/docs for info".to_string()];
    // Click inside the URL (col is 1-based).
    assert_eq!(
        url_at_cell_in_wrapped_lines(&lines, 80, 0, 10),
        Some("https://example.com/docs".to_string())
    );
    // Click outside the URL.
    assert_eq!(url_at_cell_in_wrapped_lines(&lines, 80, 0, 2), None);
}

#[test]
fn url_at_cell_joins_wrapped_rows() {
    let cols = 20;
    let lines = vec![
        "see https://example.".to_string(),
        "com/a/very/long/path".to_string(),
        "?q=1 and more text".to_string(),
    ];
    let expected = Some("https://example.com/a/very/long/path?q=1".to_string());

    assert_eq!(url_at_cell_in_wrapped_lines(&lines, cols, 0, 8), expected);
    assert_eq!(url_at_cell_in_wrapped_lines(&lines, cols, 1, 5), expected);
    assert_eq!(url_at_cell_in_wrapped_lines(&lines, cols, 2, 2), expected);
    assert_eq!(url_at_cell_in_wrapped_lines(&lines, cols, 2, 10), None);
}

#[test]
fn url_at_cell_does_not_join_short_rows() {
    let lines = vec!["https://example.com".to_string(), "unrelated".to_string()];
    assert_eq!(
        url_at_cell_in_wrapped_lines(&lines, 40, 0, 3),
        Some("https://example.com".to_string())
    );
    assert_eq!(url_at_cell_in_wrapped_lines(&lines, 40, 1, 3), None);
}

#[test]
fn url_at_cell_strips_trailing_punctuation() {
    let lines = vec!["(https://example.com/x).".to_string()];
    assert_eq!(
        url_at_cell_in_wrapped_lines(&lines, 80, 0, 5),
        Some("https://example.com/x".to_string())
    );
}

#[test]
fn url_spans_cover_each_wrapped_row() {
    let cols = 20;
    let lines = vec![
        "see https://example.".to_string(),
        "com/a/very/long/path".to_string(),
        "?q=1 and more text".to_string(),
    ];
    let (url, spans) = url_spans_at_cell_in_wrapped_lines(&lines, cols, 1, 5).unwrap();
    assert_eq!(url, "https://example.com/a/very/long/path?q=1");
    assert_eq!(
        spans,
        vec![(0usize, 4..20), (1usize, 0..20), (2usize, 0..4)]
    );
    let joined: String = spans.iter().map(|(row, range)| &lines[*row][range.clone()]).collect();
    assert_eq!(joined, url);
}

#[test]
fn osc8_link_spans_expand_over_link_cells() {
    // 20-col, 3-row screen. "Docs Page" link occupies row 2, cols 6..=14.
    let lines = vec![
        "header text".to_string(),
        "see  Docs Page  end".to_string(),
        "footer".to_string(),
    ];
    let link = |c: u16, r: u16| {
        (r == 2 && (6..=14).contains(&c)).then(|| "https://example.com/docs".to_string())
    };

    let (url, spans) = osc8_link_spans(link, &lines, 20, 3, 9, 2).unwrap();
    assert_eq!(url, "https://example.com/docs");
    assert_eq!(spans, vec![(1usize, 5..14)]);

    // Hover outside the link region: no spans.
    assert!(osc8_link_spans(link, &lines, 20, 3, 2, 2).is_none());
}

#[test]
fn osc8_link_spans_join_wrapped_rows() {
    // Link wraps: row 1 cols 15..=20, row 2 cols 1..=8.
    let lines = vec![
        "intro and link starts".to_string(),
        "and ends here padded".to_string(),
    ];
    let link = |c: u16, r: u16| {
        let hit = (r == 1 && (15..=20).contains(&c)) || (r == 2 && (1..=8).contains(&c));
        hit.then(|| "https://example.com/wrapped".to_string())
    };

    let (url, spans) = osc8_link_spans(link, &lines, 20, 2, 3, 2).unwrap();
    assert_eq!(url, "https://example.com/wrapped");
    assert_eq!(spans, vec![(0usize, 14..21), (1usize, 0..8)]);
}

#[test]
fn osc8_links_end_where_another_begins() {
    let lines = vec!["aabb".to_string()];
    let link = |c: u16, _: u16| Some(if c <= 2 { "x".to_string() } else { "y".to_string() });
    let (url, spans) = osc8_link_spans(link, &lines, 4, 1, 2, 1).unwrap();
    assert_eq!((url.as_str(), spans), ("x", vec![(0usize, 0..2)]));
    let (url, spans) = osc8_link_spans(link, &lines, 4, 1, 3, 1).unwrap();
    assert_eq!((url.as_str(), spans), ("y", vec![(0usize, 2..4)]));
    // Off the screen there is no link.
    assert!(osc8_link_spans(link, &lines, 4, 1, 5, 1).is_none());
    assert!(osc8_link_spans(link, &lines, 4, 1, 0, 1).is_none());
    assert!(osc8_link_spans(link, &lines, 4, 1, 1, 2).is_none());
    assert_eq!(spans_between(&lines, (2, 1), (3, 2)), vec![(0usize, 1..4)]);
}

#[test]
fn url_detected_inside_tool_call_prefix() {
    let lines = vec!["Fetch(https://amplitude.com/docs/data/persisted-properties)".to_string()];
    // Click inside the URL (col 10 = byte 9, the "s" of https).
    assert_eq!(
        url_at_cell_in_wrapped_lines(&lines, 120, 0, 10),
        Some("https://amplitude.com/docs/data/persisted-properties".to_string())
    );
    // Click on the "Fetch(" prefix: not a link.
    assert_eq!(url_at_cell_in_wrapped_lines(&lines, 120, 0, 2), None);

    // Same shape but wrapped across two rows at 30 cols.
    let cols = 30;
    let wrapped = vec![
        "Fetch(https://amplitude.com/do".to_string(),
        "cs/data/persisted-properties)".to_string(),
    ];
    let expected = Some("https://amplitude.com/docs/data/persisted-properties".to_string());
    assert_eq!(url_at_cell_in_wrapped_lines(&wrapped, cols, 0, 12), expected);
    assert_eq!(url_at_cell_in_wrapped_lines(&wrapped, cols, 1, 5), expected);
}
