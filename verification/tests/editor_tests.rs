use softwrap::editor::{EditorState, KeyCommand};
use softwrap::model::GlyphTable;

fn uniform_table(width: u64) -> GlyphTable {
    GlyphTable { first: 0x21, advances: vec![width; 94] }
}

fn type_str(state: &mut EditorState, table: &GlyphTable, s: &str) {
    for c in s.chars() {
        state.apply_command(KeyCommand::Value(c), table).unwrap();
    }
}

fn row_texts(state: &EditorState) -> Vec<String> {
    state.rows.iter().map(|s| s.text.iter().collect()).collect()
}

fn logical_lines(state: &EditorState) -> Vec<String> {
    let mut lines: Vec<String> = Vec::new();
    for s in &state.rows {
        let piece: String = s.text.iter().collect();
        if s.continuation {
            lines.last_mut().unwrap().push_str(&piece);
        } else {
            lines.push(piece);
        }
    }
    lines
}

#[test]
fn fresh_editor_is_one_empty_line() {
    let state = EditorState::new();
    assert_eq!(row_texts(&state), vec![String::new()]);
    assert_eq!(state.cursor.x, 0);
    assert_eq!(state.cursor.y, 0);
}

#[test]
fn typing_wraps_against_the_budget() {
    let table = uniform_table(10);
    let mut state = EditorState::new();
    state.apply_command(KeyCommand::Size(35, 300), &table).unwrap();
    type_str(&mut state, &table, "abcdefgh");
    assert_eq!(row_texts(&state), vec!["abc".to_string(), "defg".to_string(), "h".to_string()]);
    // the cursor followed the last character
    assert_eq!(state.cursor.y, 2);
    assert_eq!(state.cursor.x, 1);
}

#[test]
fn width_change_keeps_the_character_before_the_cursor() {
    let table = uniform_table(10);
    let mut state = EditorState::new();
    state.apply_command(KeyCommand::Size(35, 300), &table).unwrap();
    type_str(&mut state, &table, "abcdefgh");
    // walk the cursor back to offset 5, right after 'e'
    for _ in 0..3 {
        state.apply_command(KeyCommand::Left, &table).unwrap();
    }
    let before = state.rows[state.cursor.y].text[state.cursor.x - 1];
    assert_eq!(before, 'e');
    // shrink the budget: wrap points move, the cursor's character does not
    state.apply_command(KeyCommand::Size(25, 300), &table).unwrap();
    assert_eq!(row_texts(&state), vec!["ab".to_string(), "cde".to_string(), "fgh".to_string()]);
    let after = state.rows[state.cursor.y].text[state.cursor.x - 1];
    assert_eq!(after, 'e');
}

#[test]
fn reflow_twice_is_stable() {
    let table = uniform_table(10);
    let mut state = EditorState::new();
    state.apply_command(KeyCommand::Size(35, 300), &table).unwrap();
    type_str(&mut state, &table, "abcdefgh");
    state.apply_command(KeyCommand::Size(35, 300), &table).unwrap();
    let rows_once = row_texts(&state);
    let cursor_once = state.cursor;
    state.apply_command(KeyCommand::Size(35, 300), &table).unwrap();
    assert_eq!(row_texts(&state), rows_once);
    assert_eq!(state.cursor, cursor_once);
}

#[test]
fn backspace_at_document_start_is_a_no_op() {
    let table = uniform_table(10);
    let mut state = EditorState::new();
    state.apply_command(KeyCommand::Size(35, 300), &table).unwrap();
    type_str(&mut state, &table, "ab");
    for _ in 0..2 {
        state.apply_command(KeyCommand::Left, &table).unwrap();
    }
    assert_eq!(state.cursor.x, 0);
    assert_eq!(state.cursor.y, 0);
    let rows_before = row_texts(&state);
    state.apply_command(KeyCommand::Back, &table).unwrap();
    assert_eq!(row_texts(&state), rows_before);
    assert_eq!(state.cursor.x, 0);
    assert_eq!(state.cursor.y, 0);
}

#[test]
fn insert_then_backspace_restores_the_text() {
    let table = uniform_table(10);
    let mut state = EditorState::new();
    state.apply_command(KeyCommand::Size(35, 300), &table).unwrap();
    type_str(&mut state, &table, "abcdef");
    state.apply_command(KeyCommand::Left, &table).unwrap();
    state.apply_command(KeyCommand::Left, &table).unwrap();
    let lines_before = logical_lines(&state);
    state.apply_command(KeyCommand::Value('x'), &table).unwrap();
    assert_eq!(logical_lines(&state), vec!["abcdxef".to_string()]);
    state.apply_command(KeyCommand::Back, &table).unwrap();
    assert_eq!(logical_lines(&state), lines_before);
}

#[test]
fn newline_opens_an_empty_line_below() {
    let table = uniform_table(10);
    let mut state = EditorState::new();
    state.apply_command(KeyCommand::Size(35, 300), &table).unwrap();
    type_str(&mut state, &table, "ab");
    state.apply_command(KeyCommand::NewLine, &table).unwrap();
    assert_eq!(logical_lines(&state), vec!["ab".to_string(), String::new()]);
    // the cursor starts the new line
    assert_eq!(state.cursor.y, 1);
    assert_eq!(state.cursor.x, 0);
}

#[test]
fn backspace_after_newline_composes_merge_and_delete() {
    let table = uniform_table(10);
    let mut state = EditorState::new();
    state.apply_command(KeyCommand::Size(35, 300), &table).unwrap();
    type_str(&mut state, &table, "ab");
    state.apply_command(KeyCommand::NewLine, &table).unwrap();
    assert_eq!(logical_lines(&state), vec!["ab".to_string(), String::new()]);
    // backspace on the fresh empty line: its one segment leaves, and the
    // composed deletion takes the previous line's last character with it
    state.apply_command(KeyCommand::Back, &table).unwrap();
    assert_eq!(logical_lines(&state), vec!["a".to_string()]);
    assert_eq!(state.cursor.y, 0);
    assert_eq!(state.cursor.x, 1);
}

#[test]
fn backspace_at_line_start_splices_continuations_back() {
    let table = uniform_table(10);
    let mut state = EditorState::new();
    state.apply_command(KeyCommand::Size(35, 300), &table).unwrap();
    type_str(&mut state, &table, "ab");
    state.apply_command(KeyCommand::NewLine, &table).unwrap();
    type_str(&mut state, &table, "cdefg");
    // the second line wraps into a start segment and a continuation
    assert_eq!(row_texts(&state), vec![
        "ab".to_string(),
        "cde".to_string(),
        "fg".to_string(),
    ]);
    // back to the start of the second logical line
    for _ in 0..5 {
        state.apply_command(KeyCommand::Left, &table).unwrap();
    }
    assert_eq!(state.cursor.x, 0);
    assert_eq!(state.cursor.y, 1);
    // the whole second line splices onto the first, whose last character
    // the composed delete takes; no other character is lost
    state.apply_command(KeyCommand::Back, &table).unwrap();
    assert_eq!(logical_lines(&state), vec!["acdefg".to_string()]);
    // the cursor sits at the join position, right after the deletion
    let before = state.rows[state.cursor.y].text[state.cursor.x - 1];
    assert_eq!(before, 'a');
}

#[test]
fn rejected_command_keeps_the_snapshot() {
    let table = uniform_table(10);
    let mut state = EditorState::new();
    state.apply_command(KeyCommand::Size(35, 300), &table).unwrap();
    type_str(&mut state, &table, "ab");
    let rows_before = row_texts(&state);
    let cursor_before = state.cursor;
    // a character without a glyph metric aborts the cycle
    let r = state.apply_command(KeyCommand::Value(' '), &table);
    assert!(r.is_err());
    assert_eq!(row_texts(&state), rows_before);
    assert_eq!(state.cursor, cursor_before);
}

#[test]
fn right_is_a_no_op() {
    let table = uniform_table(10);
    let mut state = EditorState::new();
    state.apply_command(KeyCommand::Size(35, 300), &table).unwrap();
    type_str(&mut state, &table, "ab");
    let rows_before = row_texts(&state);
    let cursor_before = state.cursor;
    state.apply_command(KeyCommand::Right, &table).unwrap();
    assert_eq!(row_texts(&state), rows_before);
    assert_eq!(state.cursor, cursor_before);
}

#[test]
fn doc_len_counts_every_character() {
    let table = uniform_table(10);
    let mut state = EditorState::new();
    state.apply_command(KeyCommand::Size(35, 300), &table).unwrap();
    type_str(&mut state, &table, "abcdefgh");
    state.apply_command(KeyCommand::NewLine, &table).unwrap();
    type_str(&mut state, &table, "xy");
    assert_eq!(state.doc_len(), 10);
}
