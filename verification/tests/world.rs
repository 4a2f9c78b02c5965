use game_of_life::{get_cell, Coord, World, WorldError};

fn grid(rows: Vec<Vec<bool>>) -> World {
    World::from_rows(rows).unwrap()
}

#[test]
fn from_rows_accepts_a_square() {
    let w = grid(vec![vec![true, false], vec![false, true]]);
    assert_eq!(w.size(), 2);
    assert_eq!(w.to_rows(), vec![vec![true, false], vec![false, true]]);
}

#[test]
fn from_rows_accepts_a_single_cell() {
    let w = grid(vec![vec![true]]);
    assert_eq!(w.size(), 1);
    assert_eq!(get_cell(&Coord { x: 0, y: 0 }, &w), Ok(true));
}

#[test]
fn from_rows_rejects_no_rows() {
    assert_eq!(World::from_rows(vec![]), Err(WorldError::MalformedInput));
}

#[test]
fn from_rows_rejects_a_short_row() {
    let rows = vec![vec![true, false], vec![false]];
    assert_eq!(World::from_rows(rows), Err(WorldError::MalformedInput));
}

#[test]
fn from_rows_rejects_a_long_row() {
    let rows = vec![vec![true, false, true], vec![false, true]];
    assert_eq!(World::from_rows(rows), Err(WorldError::MalformedInput));
}

#[test]
fn from_rows_rejects_a_rectangle() {
    let rows = vec![vec![true, false, true], vec![false, true, true]];
    assert_eq!(World::from_rows(rows), Err(WorldError::MalformedInput));
}

#[test]
fn from_rows_rejects_empty_rows() {
    let rows = vec![vec![], vec![]];
    assert_eq!(World::from_rows(rows), Err(WorldError::MalformedInput));
}

#[test]
fn get_cell_reads_row_then_column() {
    let w = grid(vec![
        vec![false, true, false],
        vec![false, false, false],
        vec![true, false, false],
    ]);
    assert_eq!(get_cell(&Coord { x: 0, y: 1 }, &w), Ok(true));
    assert_eq!(get_cell(&Coord { x: 1, y: 0 }, &w), Ok(false));
    assert_eq!(get_cell(&Coord { x: 2, y: 0 }, &w), Ok(true));
    assert_eq!(get_cell(&Coord { x: 0, y: 2 }, &w), Ok(false));
}

#[test]
fn get_cell_rejects_a_row_past_the_end() {
    let w = grid(vec![vec![true, true], vec![true, true]]);
    assert_eq!(get_cell(&Coord { x: 2, y: 0 }, &w), Err(WorldError::OutOfBounds));
}

#[test]
fn get_cell_rejects_a_column_past_the_end() {
    let w = grid(vec![vec![true, true], vec![true, true]]);
    assert_eq!(get_cell(&Coord { x: 0, y: 2 }, &w), Err(WorldError::OutOfBounds));
    assert_eq!(
        get_cell(&Coord { x: usize::MAX, y: usize::MAX }, &w),
        Err(WorldError::OutOfBounds)
    );
}

#[test]
fn clone_keeps_every_cell() {
    let w = grid(vec![vec![true, false], vec![false, false]]);
    let copy = w.clone();
    assert_eq!(copy, w);
    assert_eq!(copy.to_rows(), vec![vec![true, false], vec![false, false]]);
}
