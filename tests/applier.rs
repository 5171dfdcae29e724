use patch::{apply, find_replace_apply, ApplyError, File, Hunk, Line, Patch, Range};

fn file() -> File {
    File { path: String::new(), meta: None }
}

fn ctx(s: &str) -> Line {
    Line::Context(s.to_string())
}

fn add(s: &str) -> Line {
    Line::Add(s.to_string())
}

fn rem(s: &str) -> Line {
    Line::Remove(s.to_string())
}

fn hunk(old: (u64, u64), new: (u64, u64), lines: Vec<Line>) -> Hunk {
    Hunk {
        old_range: Range { start: old.0, count: old.1 },
        new_range: Range { start: new.0, count: new.1 },
        range_hint: String::new(),
        lines,
    }
}

fn patch_of(hunks: Vec<Hunk>, end_newline: bool) -> Patch {
    Patch { old: file(), new: file(), hunks, end_newline }
}

#[test]
fn test_simple_replace() {
    let content = "line1\nline2\nline3";
    let patch = patch_of(
        vec![hunk((1, 1), (1, 1), vec![rem("line2"), add("line2 modified")])],
        true,
    );
    let result = find_replace_apply(&patch, content);
    assert!(result.is_ok());
    assert_eq!(result.unwrap(), "line1\nline2 modified\nline3".to_string());
}

#[test]
fn test_multiple_occurrences_choose_closest() {
    let content = "line1\nline2\nline3\nline2\nline3";
    let patch = patch_of(
        vec![hunk(
            (1, 2),
            (1, 2),
            vec![rem("line2"), rem("line3"), add("new2"), add("new3")],
        )],
        true,
    );
    let result = find_replace_apply(&patch, content);
    assert!(result.is_ok());
    let expected = "line1\nnew2\nnew3\nline2\nline3".to_string();
    assert_eq!(result.unwrap(), expected);
}

#[test]
fn test_hunk_not_found_error() {
    let content = "line1\nline2\nline3";
    let patch = patch_of(
        vec![hunk((1, 1), (1, 1), vec![rem("lineX"), add("lineX modified")])],
        true,
    );
    let result = find_replace_apply(&patch, content);
    assert!(result.is_err());
    assert!(matches!(result.unwrap_err(), ApplyError::HunkNotFound));
}

#[test]
fn test_context_lines() {
    let content = "line1\nline2\nline3\nline4";
    let patch = patch_of(
        vec![hunk(
            (1, 2),
            (1, 2),
            vec![ctx("line2"), rem("line3"), add("line3 modified")],
        )],
        true,
    );
    let result = find_replace_apply(&patch, content);
    assert!(result.is_ok());
    let expected = "line1\nline2\nline3 modified\nline4".to_string();
    assert_eq!(result.unwrap(), expected);
}

#[test]
fn test_apply_simple_patch() {
    let content = "line 1\nline 2\nline 3\n";
    // @@ -1,3 +1,3 @@
    let patch = patch_of(
        vec![hunk(
            (1, 3),
            (1, 3),
            vec![ctx("line 1"), rem("line 2"), add("new line 2"), ctx("line 3")],
        )],
        true,
    );
    let result = apply(&patch, content).unwrap();
    assert_eq!(result, "line 1\nnew line 2\nline 3\n");
}

#[test]
fn test_apply_patch_with_additions() {
    let content = "A\nB\nC\n";
    // @@ -1,3 +1,5 @@
    let patch = patch_of(
        vec![hunk(
            (1, 3),
            (1, 5),
            vec![ctx("A"), add("X"), ctx("B"), add("Y"), ctx("C")],
        )],
        true,
    );
    let result = apply(&patch, content).unwrap();
    assert_eq!(result, "A\nX\nB\nY\nC\n");
}

#[test]
fn test_apply_patch_with_removals() {
    let content = "A\nB\nC\nD\n";
    // @@ -1,4 +1,2 @@
    let patch = patch_of(
        vec![hunk((1, 4), (1, 2), vec![ctx("A"), rem("B"), rem("C"), ctx("D")])],
        true,
    );
    let result = apply(&patch, content).unwrap();
    assert_eq!(result, "A\nD\n");
}

#[test]
fn test_apply_patch_line_out_of_bounds() {
    let content = "A\nB\n";
    // @@ -1,3 +1,3 @@
    let patch = patch_of(
        vec![hunk((1, 3), (1, 3), vec![ctx("A"), ctx("B"), rem("C"), add("D")])],
        true,
    );
    let err = apply(&patch, content).unwrap_err();
    match err {
        ApplyError::LineOutOfBounds { line, total_lines } => {
            assert_eq!(line, 3);
            assert_eq!(total_lines, 2);
        }
        _ => panic!("Expected LineOutOfBounds error"),
    }
}

#[test]
fn test_apply_patch_context_mismatch() {
    let content = "A\nB\nC\n";
    // @@ -1,3 +1,3 @@
    let patch = patch_of(
        vec![hunk((1, 3), (1, 3), vec![ctx("A"), rem("X"), add("Y"), ctx("C")])],
        true,
    );
    let err = apply(&patch, content).unwrap_err();
    match err {
        ApplyError::ContextMismatch { line, expected, actual } => {
            assert_eq!(line, 2);
            assert_eq!(expected, "X");
            assert_eq!(actual, "B");
        }
        _ => panic!("Expected ContextMismatch error"),
    }
}
