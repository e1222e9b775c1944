use irv::ElectionError;
use irv::grid::GridPos;
use irv::grid::select_region;

#[test]
fn grid_pos_resolves_column_and_row() {
    // with H absent from the alphabet, R sits at position 16 and V at 20
    let p = GridPos::from_str("R3").unwrap();
    assert_eq!(p.col, 16);
    assert_eq!(p.row, 2);
    let p = GridPos::from_str("V18").unwrap();
    assert_eq!(p.col, 20);
    assert_eq!(p.row, 17);
    let p = GridPos::from_str("A1").unwrap();
    assert_eq!(p.col, 0);
    assert_eq!(p.row, 0);
    let p = GridPos::from_str("Z100").unwrap();
    assert_eq!(p.col, 24);
    assert_eq!(p.row, 99);
}

#[test]
fn grid_pos_rejects_bad_references() {
    for s in ["H3", "3", "", "A", "Ax", "A0", "A+3", "a3", "A1x"] {
        match GridPos::from_str(s) {
            Err(ElectionError::InvalidCellReference(f)) => assert_eq!(f, s),
            _ => panic!("expected {s:?} to be rejected"),
        }
    }
}

fn sheet(rows: &[&[&str]]) -> Vec<Vec<String>> {
    rows.iter()
        .map(|r| r.iter().map(|s| s.to_string()).collect())
        .collect()
}

#[test]
fn select_region_cuts_span_with_column_offset() {
    // start B2 (row 1, col 1), end C3 (row 2, col 2): rows 0..2 of the
    // records, columns offset by two metadata columns, so columns 2..4
    let start = GridPos::from_str("B2").unwrap();
    let end = GridPos::from_str("C3").unwrap();
    let rows = sheet(&[
        &["a0", "a1", "a2", "a3", "a4"],
        &["b0", "b1", "b2", "b3", "b4"],
        &["c0", "c1", "c2", "c3", "c4"],
    ]);
    let region = select_region(&rows, &start, &end);
    assert_eq!(region.len(), 2);
    assert_eq!(region[0], vec!["a2".to_string(), "a3".to_string()]);
    assert_eq!(region[1], vec!["b2".to_string(), "b3".to_string()]);
}

#[test]
fn select_region_is_cut_short_at_the_sheet_edge() {
    let start = GridPos::from_str("B2").unwrap();
    let end = GridPos::from_str("E9").unwrap();
    let rows = sheet(&[&["a0", "a1", "a2", "a3"], &["b0", "b1", "b2"]]);
    let region = select_region(&rows, &start, &end);
    assert_eq!(region.len(), 2);
    assert_eq!(region[0], vec!["a2".to_string(), "a3".to_string()]);
    assert_eq!(region[1], vec!["b2".to_string()]);
}
