use softwrap::model::{Cursor, GlyphTable, WrapError};
use softwrap::wrap::get_split;

fn uniform_table(width: u64) -> GlyphTable {
    // printable ASCII from '!' to '~', one advance width for all
    GlyphTable { first: 0x21, advances: vec![width; 94] }
}

fn chars(s: &str) -> Vec<char> {
    s.chars().collect()
}

fn strings(segs: &Vec<Vec<char>>) -> Vec<String> {
    segs.iter().map(|v| v.iter().collect()).collect()
}

#[test]
fn splits_on_budget() {
    let table = uniform_table(10);
    let line = chars("abcdefgh");
    let (segs, _) = get_split(&line, &table, 35, 0).unwrap();
    // the running width restarts at zero on overflow, so the character
    // that opened a segment is not counted against its budget
    assert_eq!(strings(&segs), vec!["abc".to_string(), "defg".to_string(), "h".to_string()]);
}

#[test]
fn round_trip_concrete() {
    let table = uniform_table(10);
    let line = chars("the quick brown fox".replace(' ', "_").as_str());
    let (segs, _) = get_split(&line, &table, 50, 0).unwrap();
    let mut joined: Vec<char> = Vec::new();
    for seg in &segs {
        joined.extend(seg.iter());
    }
    assert_eq!(joined, line);
}

#[test]
fn empty_line_gives_one_empty_segment() {
    let table = uniform_table(10);
    let line: Vec<char> = Vec::new();
    let (segs, cur) = get_split(&line, &table, 35, 0).unwrap();
    assert_eq!(segs.len(), 1);
    assert!(segs[0].is_empty());
    assert_eq!(cur, Cursor { x: 0, y: 0 });
}

#[test]
fn tiny_budget_one_segment_per_character() {
    let table = uniform_table(10);
    let line = chars("abc");
    let (segs, _) = get_split(&line, &table, 5, 0).unwrap();
    assert_eq!(strings(&segs), vec!["a".to_string(), "b".to_string(), "c".to_string()]);
}

#[test]
fn zero_budget_still_never_empty() {
    let table = uniform_table(10);
    let line = chars("ab");
    let (segs, _) = get_split(&line, &table, 0, 0).unwrap();
    assert_eq!(strings(&segs), vec!["a".to_string(), "b".to_string()]);
}

#[test]
fn missing_glyph_is_reported() {
    let table = uniform_table(10);
    let line = chars("a b"); // space has no metric in the table
    let r = get_split(&line, &table, 35, 0);
    assert_eq!(r.unwrap_err(), WrapError::MissingGlyphMetric);
}

#[test]
fn cursor_replay_lands_after_offset() {
    let table = uniform_table(10);
    let line = chars("abcdefgh");
    // offset 5 sits right after 'e', which lands on the second segment
    let (_, cur) = get_split(&line, &table, 35, 5).unwrap();
    assert_eq!(cur, Cursor { x: 2, y: 1 });
}

#[test]
fn cursor_at_zero_stays_at_line_start() {
    let table = uniform_table(10);
    let line = chars("abcdefgh");
    let (_, cur) = get_split(&line, &table, 35, 0).unwrap();
    assert_eq!(cur, Cursor { x: 0, y: 0 });
}

#[test]
fn lookup_reads_the_table() {
    let mut advances = vec![10; 94];
    advances[('b' as usize) - 0x21] = 17;
    let table = GlyphTable { first: 0x21, advances };
    assert_eq!(table.lookup('b'), Some(17));
    assert_eq!(table.lookup('a'), Some(10));
    assert_eq!(table.lookup(' '), None);
}
