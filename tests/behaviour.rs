use patch::{apply, find_replace_apply, ApplyError, File, Hunk, Line, Patch, Range};

fn file() -> File {
    File { path: String::new(), meta: None }
}

fn hunk_at(start: u64, lines: Vec<Line>) -> Hunk {
    Hunk {
        old_range: Range { start, count: 0 },
        new_range: Range { start, count: 0 },
        range_hint: String::new(),
        lines,
    }
}

fn patch_of(hunks: Vec<Hunk>, end_newline: bool) -> Patch {
    Patch { old: file(), new: file(), hunks, end_newline }
}

fn ctx(s: &str) -> Line {
    Line::Context(s.to_string())
}

fn add(s: &str) -> Line {
    Line::Add(s.to_string())
}

fn rem(s: &str) -> Line {
    Line::Remove(s.to_string())
}

#[test]
fn strict_no_hunks_keeps_text() {
    let p = patch_of(vec![], true);
    assert_eq!(apply(&p, "a\nb\n").unwrap(), "a\nb\n");
    assert_eq!(apply(&p, "a\nb").unwrap(), "a\nb\n");
    assert_eq!(apply(&p, "").unwrap(), "");
}

#[test]
fn strict_no_hunks_without_end_newline() {
    let p = patch_of(vec![], false);
    assert_eq!(apply(&p, "a\nb\n").unwrap(), "a\nb");
}

#[test]
fn strict_carriage_returns_are_dropped() {
    let p = patch_of(vec![], true);
    assert_eq!(apply(&p, "a\r\nb\r\n").unwrap(), "a\nb\n");
}

#[test]
fn strict_lone_newline_gives_empty_text() {
    let p = patch_of(vec![], true);
    assert_eq!(apply(&p, "\n").unwrap(), "");
}

#[test]
fn strict_start_zero_counts_as_one() {
    let p = patch_of(vec![hunk_at(0, vec![rem("A"), add("Z")])], true);
    assert_eq!(apply(&p, "A\nB\n").unwrap(), "Z\nB\n");
}

#[test]
fn strict_two_hunks_copy_lines_between() {
    let p = patch_of(
        vec![
            hunk_at(2, vec![rem("b"), add("B")]),
            hunk_at(4, vec![ctx("d"), add("x")]),
        ],
        true,
    );
    assert_eq!(apply(&p, "a\nb\nc\nd\ne\n").unwrap(), "a\nB\nc\nd\nx\ne\n");
}

#[test]
fn strict_start_past_end_is_out_of_bounds() {
    let p = patch_of(vec![hunk_at(5, vec![ctx("A")])], true);
    match apply(&p, "A\n").unwrap_err() {
        ApplyError::LineOutOfBounds { line, total_lines } => {
            assert_eq!(line, 2);
            assert_eq!(total_lines, 1);
        }
        other => panic!("unexpected {:?}", other),
    }
}

#[test]
fn strict_removed_line_mismatch() {
    let p = patch_of(vec![hunk_at(3, vec![rem("q")])], true);
    match apply(&p, "a\nb\nc\n").unwrap_err() {
        ApplyError::ContextMismatch { line, expected, actual } => {
            assert_eq!(line, 3);
            assert_eq!(expected, "q");
            assert_eq!(actual, "c");
        }
        other => panic!("unexpected {:?}", other),
    }
}

#[test]
fn strict_empty_hunk_is_no_op() {
    let p = patch_of(vec![hunk_at(2, vec![])], false);
    assert_eq!(apply(&p, "a\nb\nc").unwrap(), "a\nb\nc");
}

#[test]
fn fuzzy_single_far_occurrence_is_used() {
    let p = patch_of(vec![hunk_at(0, vec![rem("e"), add("E")])], false);
    assert_eq!(find_replace_apply(&p, "a\nb\nc\nd\ne").unwrap(), "a\nb\nc\nd\nE");
}

#[test]
fn fuzzy_tie_takes_lower_offset() {
    let p = patch_of(vec![hunk_at(2, vec![rem("A"), add("B")])], false);
    assert_eq!(find_replace_apply(&p, "x\nA\ny\nA\nz").unwrap(), "x\nB\ny\nA\nz");
}

#[test]
fn fuzzy_nearer_later_offset_wins() {
    let p = patch_of(vec![hunk_at(4, vec![rem("A"), add("B")])], false);
    assert_eq!(find_replace_apply(&p, "A\nx\ny\nA\nz").unwrap(), "A\nx\ny\nB\nz");
}

#[test]
fn fuzzy_hunks_see_earlier_edits() {
    let p = patch_of(
        vec![
            hunk_at(0, vec![rem("a"), add("b")]),
            hunk_at(0, vec![rem("b"), rem("c"), add("d")]),
        ],
        false,
    );
    assert_eq!(find_replace_apply(&p, "a\nc").unwrap(), "d");
}

#[test]
fn fuzzy_pure_insertion_at_clamped_target() {
    let far = patch_of(vec![hunk_at(5, vec![add("z")])], false);
    assert_eq!(find_replace_apply(&far, "a\nb").unwrap(), "a\nb\nz");
    let near = patch_of(vec![hunk_at(1, vec![add("z")])], false);
    assert_eq!(find_replace_apply(&near, "a\nb").unwrap(), "a\nz\nb");
}

#[test]
fn fuzzy_block_longer_than_text_not_found() {
    let p = patch_of(vec![hunk_at(0, vec![ctx("a"), ctx("b"), rem("c")])], false);
    assert_eq!(find_replace_apply(&p, "a\nb"), Err(ApplyError::HunkNotFound));
}

#[test]
fn fuzzy_drops_trailing_newline() {
    let p = patch_of(vec![], true);
    assert_eq!(find_replace_apply(&p, "a\nb\n").unwrap(), "a\nb");
}

#[test]
fn strict_non_ascii_lines() {
    let p = patch_of(vec![hunk_at(2, vec![rem("ß"), add("ss")])], true);
    assert_eq!(apply(&p, "é\r\nß\nü").unwrap(), "é\nss\nü\n");
}

#[test]
fn fuzzy_non_ascii_lines() {
    let p = patch_of(vec![hunk_at(0, vec![ctx("é"), rem("ß"), add("ss")])], false);
    assert_eq!(find_replace_apply(&p, "a\né\nß\n").unwrap(), "a\né\nss");
}
