use emmylua_formatter::range_format::{
    build_range_edits, edit_intersects_requested_lines, merge_replace_edits, normalize_newlines,
    Position, Range, TextEdit,
};

fn pos(line: u32, character: u32) -> Position {
    Position { line, character }
}

fn range(sl: u32, sc: u32, el: u32, ec: u32) -> Range {
    Range { start: pos(sl, sc), end: pos(el, ec) }
}

fn edit(r: Range, text: &str) -> TextEdit {
    TextEdit { range: r, new_text: text.to_string() }
}

#[test]
fn insertion_intersects_only_requested_lines() {
    let request = range(2, 0, 4, 5);
    assert!(edit_intersects_requested_lines(&range(2, 3, 2, 3), &request));
    assert!(edit_intersects_requested_lines(&range(4, 9, 4, 9), &request));
    assert!(!edit_intersects_requested_lines(&range(5, 0, 5, 0), &request));
    assert!(!edit_intersects_requested_lines(&range(1, 7, 1, 7), &request));
}

#[test]
fn replacement_ending_at_line_start_does_not_cover_that_line() {
    let request = range(3, 0, 3, 4);
    assert!(!edit_intersects_requested_lines(&range(1, 0, 3, 0), &request));
    assert!(edit_intersects_requested_lines(&range(1, 0, 3, 1), &request));
    // A request that ends at column 0 does not cover its last line either.
    assert!(!edit_intersects_requested_lines(&range(3, 0, 3, 2), &range(0, 0, 3, 0)));
    assert!(edit_intersects_requested_lines(&range(2, 0, 2, 2), &range(0, 0, 3, 0)));
}

#[test]
fn delete_then_insert_at_same_place_becomes_one_replacement() {
    let edits = vec![
        edit(range(0, 0, 0, 9), ""),
        edit(range(0, 0, 0, 0), "local a = 1"),
        edit(range(1, 0, 1, 0), "x"),
    ];
    let merged = merge_replace_edits(edits);
    assert_eq!(merged.len(), 2);
    assert_eq!(merged[0].range, range(0, 0, 0, 9));
    assert_eq!(merged[0].new_text, "local a = 1");
    assert_eq!(merged[1].range, range(1, 0, 1, 0));
    assert_eq!(merged[1].new_text, "x");
}

#[test]
fn deletion_followed_by_insertion_elsewhere_is_kept() {
    let edits = vec![edit(range(0, 0, 0, 3), ""), edit(range(0, 5, 0, 5), "y")];
    let merged = merge_replace_edits(edits);
    assert_eq!(merged.len(), 2);
    assert_eq!(merged[0].new_text, "");
    assert_eq!(merged[1].new_text, "y");
}

#[test]
fn range_edits_keep_overlapping_lines_and_normalize() {
    let edits = vec![
        edit(range(0, 0, 1, 0), ""),
        edit(range(0, 0, 0, 0), "local a = 1\r\n"),
        edit(range(1, 0, 2, 0), "local b = 2\n"),
    ];
    let kept = build_range_edits(edits, &range(0, 0, 0, 999), true);
    assert_eq!(kept.len(), 1);
    assert_eq!(kept[0].range.start.line, 0);
    assert_eq!(kept[0].range, range(0, 0, 1, 0));
    assert_eq!(kept[0].new_text, "local a = 1\n");
}

#[test]
fn range_edits_without_normalizing_keep_carriage_returns() {
    let edits = vec![edit(range(0, 0, 0, 0), "a\r\nb")];
    let kept = build_range_edits(edits, &range(0, 0, 0, 1), false);
    assert_eq!(kept.len(), 1);
    assert_eq!(kept[0].new_text, "a\r\nb");
}

#[test]
fn newline_normalization_replaces_only_crlf_pairs() {
    assert_eq!(normalize_newlines("a\r\nb\rc\n\r\r\n"), "a\nb\rc\n\r\n");
    assert_eq!(normalize_newlines(""), "");
}

#[test]
fn range_edits_only_keep_overlapping_lines() {
    // The line edits that turn "local a=1\nlocal b=2\n" into "local a = 1\nlocal b = 2\n":
    // each old line deleted, each new line inserted in its place.
    let full = vec![
        edit(range(0, 0, 1, 0), ""),
        edit(range(0, 0, 0, 0), "local a = 1\n"),
        edit(range(1, 0, 2, 0), ""),
        edit(range(1, 0, 1, 0), "local b = 2\n"),
    ];
    let edits = build_range_edits(full, &range(0, 0, 0, 999), false);
    assert_eq!(edits.len(), 1);
    assert_eq!(edits[0].range.start.line, 0);
    assert_eq!(edits[0].new_text, "local a = 1\n");
}
