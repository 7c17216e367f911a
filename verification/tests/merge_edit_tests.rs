use softwrap::edit::{get_row_len, mut_backspace, mut_delete_line, mut_new_line, mut_type};
use softwrap::merge::{get_cursor_distance, normalize};
use softwrap::model::{Cursor, Segment};

fn seg(text: &str, continuation: bool, owner: usize) -> Segment {
    Segment { text: text.chars().collect(), continuation, owner }
}

fn text_of(s: &Segment) -> String {
    s.text.iter().collect()
}

#[test]
fn normalize_merges_continuations() {
    let rows = vec![
        seg("abc", false, 0),
        seg("def", true, 0),
        seg("xy", false, 1),
        seg("z", true, 1),
    ];
    let lines = normalize(&rows);
    assert_eq!(lines.len(), 2);
    assert_eq!(text_of(&lines[0]), "abcdef");
    assert_eq!(text_of(&lines[1]), "xyz");
    assert!(!lines[0].continuation);
    assert_eq!(lines[0].owner, 0);
    assert_eq!(lines[1].owner, 1);
}

#[test]
fn normalize_single_line() {
    let rows = vec![seg("hello", false, 0)];
    let lines = normalize(&rows);
    assert_eq!(lines.len(), 1);
    assert_eq!(text_of(&lines[0]), "hello");
}

#[test]
fn cursor_distance_counts_earlier_segments() {
    let rows = vec![
        seg("abc", false, 0),
        seg("def", true, 0),
        seg("xy", false, 1),
    ];
    // cursor on the continuation segment, column 2: offset 3 + 2
    let r = get_cursor_distance(&rows, &Cursor { x: 2, y: 1 });
    assert_eq!(r, (5, 0, 0));
    // cursor on the second logical line
    let r2 = get_cursor_distance(&rows, &Cursor { x: 1, y: 2 });
    assert_eq!(r2, (1, 1, 2));
}

#[test]
fn type_inserts_at_cursor() {
    let mut rows = vec![seg("ac", false, 0)];
    let cur = mut_type(&Cursor { x: 1, y: 0 }, &mut rows, 'b');
    assert_eq!(text_of(&rows[0]), "abc");
    assert_eq!(cur, Cursor { x: 2, y: 0 });
}

#[test]
fn backspace_removes_before_cursor() {
    let mut rows = vec![seg("abc", false, 0)];
    let cur = mut_backspace(&Cursor { x: 2, y: 0 }, &mut rows);
    assert_eq!(text_of(&rows[0]), "ac");
    assert_eq!(cur, Cursor { x: 1, y: 0 });
}

#[test]
fn new_line_opens_fresh_line_after_current() {
    let mut rows = vec![seg("abc", false, 0), seg("def", true, 0), seg("xy", false, 1)];
    let (temp, cur) = mut_new_line(&Cursor { x: 1, y: 0 }, &mut rows);
    // the fresh empty segment sits right after the current line's pieces
    assert_eq!(rows.len(), 4);
    assert_eq!(text_of(&rows[2]), "");
    assert!(!rows[2].continuation);
    assert_eq!(temp.y, 1);
    assert_eq!(temp.x, 0);
    // parked on the current line's last segment; the one-line correction
    // then points at the new segment
    assert_eq!(cur, Cursor { x: 0, y: 1 });
}

#[test]
fn delete_line_splices_into_previous() {
    let mut rows = vec![
        seg("abc", false, 0),
        seg("def", false, 1),
        seg("gh", true, 1),
    ];
    let cur = mut_delete_line(&Cursor { x: 0, y: 1 }, &mut rows);
    // the line-start segment leaves, its text splices onto the previous
    // segment, and the rest of the line continues line 0
    assert_eq!(rows.len(), 2);
    assert_eq!(text_of(&rows[0]), "abcdef");
    assert_eq!(text_of(&rows[1]), "gh");
    assert!(rows[1].continuation);
    assert_eq!(rows[1].owner, 0);
    // the cursor sits where the previous line used to end
    assert_eq!(cur, Cursor { x: 3, y: 0 });
}

#[test]
fn row_len_reads_cursor_segment() {
    let rows = vec![seg("abc", false, 0), seg("de", true, 0)];
    assert_eq!(get_row_len(&rows, &Cursor { x: 0, y: 1 }), 2);
}
