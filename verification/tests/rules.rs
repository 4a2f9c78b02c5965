use game_of_life::{get_cell, moore_sum, tick_cell, tick_world, Coord, World, WorldError, OFFSETS};

fn square(rows: Vec<Vec<bool>>) -> World {
    World::from_rows(rows).unwrap()
}

fn full(n: usize) -> World {
    square(vec![vec![true; n]; n])
}

fn from_marks(lines: &[&str]) -> World {
    square(
        lines
            .iter()
            .map(|line| line.chars().map(|c| c == '#').collect())
            .collect(),
    )
}

#[test]
fn offsets_are_the_eight_neighbours() {
    assert_eq!(OFFSETS.len(), 8);
    for dx in -1isize..=1 {
        for dy in -1isize..=1 {
            let listed = OFFSETS.iter().filter(|o| **o == (dx, dy)).count();
            assert_eq!(listed, if dx == 0 && dy == 0 { 0 } else { 1 });
        }
    }
}

#[test]
fn moore_sum_counts_all_eight_in_the_interior() {
    let w = full(3);
    assert_eq!(moore_sum(&Coord { x: 1, y: 1 }, &w), Ok(8));
}

#[test]
fn moore_sum_leaves_out_the_cell_itself() {
    let w = from_marks(&["...", ".#.", "..."]);
    assert_eq!(moore_sum(&Coord { x: 1, y: 1 }, &w), Ok(0));
    assert_eq!(moore_sum(&Coord { x: 0, y: 0 }, &w), Ok(1));
}

#[test]
fn moore_sum_sees_each_direction() {
    let marks = [
        (["#..", "...", "..."], 1u8),
        ([".#.", "...", "..."], 1),
        (["..#", "...", "..."], 1),
        (["...", "#..", "..."], 1),
        (["...", "..#", "..."], 1),
        (["...", "...", "#.."], 1),
        (["...", "...", ".#."], 1),
        (["...", "...", "..#"], 1),
    ];
    for (lines, expected) in marks {
        let w = from_marks(&lines);
        assert_eq!(moore_sum(&Coord { x: 1, y: 1 }, &w), Ok(expected));
    }
}

#[test]
fn moore_sum_stays_within_zero_and_eight() {
    for n in 1usize..=5 {
        let w = full(n);
        for x in 0..n {
            for y in 0..n {
                let sum = moore_sum(&Coord { x, y }, &w).unwrap();
                assert!(sum <= 8);
            }
        }
    }
}

#[test]
fn moore_sum_at_a_corner_is_at_most_three() {
    let w = full(4);
    for (x, y) in [(0, 0), (0, 3), (3, 0), (3, 3)] {
        assert_eq!(moore_sum(&Coord { x, y }, &w), Ok(3));
    }
}

#[test]
fn moore_sum_on_an_edge_is_at_most_five() {
    let w = full(4);
    for (x, y) in [(0, 1), (0, 2), (1, 0), (2, 0), (3, 1), (3, 2), (1, 3), (2, 3)] {
        assert_eq!(moore_sum(&Coord { x, y }, &w), Ok(5));
    }
}

#[test]
fn moore_sum_does_not_wrap_around() {
    let w = from_marks(&["#..#", "....", "....", "#..#"]);
    assert_eq!(moore_sum(&Coord { x: 0, y: 0 }, &w), Ok(0));
    assert_eq!(moore_sum(&Coord { x: 0, y: 1 }, &w), Ok(1));
    assert_eq!(moore_sum(&Coord { x: 3, y: 3 }, &w), Ok(0));
}

#[test]
fn moore_sum_of_a_lone_cell_is_zero() {
    let w = full(1);
    assert_eq!(moore_sum(&Coord { x: 0, y: 0 }, &w), Ok(0));
}

#[test]
fn moore_sum_in_a_two_by_two_world() {
    let w = from_marks(&[".#", "##"]);
    assert_eq!(moore_sum(&Coord { x: 0, y: 0 }, &w), Ok(3));
    assert_eq!(moore_sum(&Coord { x: 0, y: 1 }, &w), Ok(2));
}

#[test]
fn moore_sum_rejects_a_coord_outside() {
    let w = full(3);
    assert_eq!(moore_sum(&Coord { x: 3, y: 0 }, &w), Err(WorldError::OutOfBounds));
    assert_eq!(moore_sum(&Coord { x: 0, y: 3 }, &w), Err(WorldError::OutOfBounds));
    assert_eq!(
        moore_sum(&Coord { x: usize::MAX, y: 1 }, &w),
        Err(WorldError::OutOfBounds)
    );
}

#[test]
fn tick_cell_rejects_a_coord_outside() {
    let w = full(3);
    assert_eq!(tick_cell(&Coord { x: 0, y: 7 }, &w), Err(WorldError::OutOfBounds));
    assert_eq!(tick_cell(&Coord { x: 7, y: 0 }, &w), Err(WorldError::OutOfBounds));
}

#[test]
fn dead_cell_with_three_neighbours_is_born() {
    let w = from_marks(&["##.", "...", "..#"]);
    assert_eq!(get_cell(&Coord { x: 1, y: 1 }, &w), Ok(false));
    assert_eq!(moore_sum(&Coord { x: 1, y: 1 }, &w), Ok(3));
    assert_eq!(tick_cell(&Coord { x: 1, y: 1 }, &w), Ok(true));
    let next = tick_world(&w);
    assert_eq!(get_cell(&Coord { x: 1, y: 1 }, &next), Ok(true));
}

#[test]
fn dead_cell_with_two_neighbours_stays_dead() {
    let w = from_marks(&["##.", "...", "..."]);
    assert_eq!(moore_sum(&Coord { x: 1, y: 1 }, &w), Ok(2));
    assert_eq!(tick_cell(&Coord { x: 1, y: 1 }, &w), Ok(false));
}

#[test]
fn dead_cell_with_four_or_more_neighbours_stays_dead() {
    let lines = [
        ["##.", "...", "#.#"],
        ["###", "...", "#.#"],
        ["###", "#..", "#.#"],
        ["###", "#.#", "#.#"],
        ["###", "#.#", "###"],
    ];
    for (i, marks) in lines.iter().enumerate() {
        let w = from_marks(marks);
        assert_eq!(moore_sum(&Coord { x: 1, y: 1 }, &w), Ok(4 + i as u8));
        assert_eq!(tick_cell(&Coord { x: 1, y: 1 }, &w), Ok(false));
    }
}

#[test]
fn live_cell_survives_with_two_or_three_neighbours() {
    let two = from_marks(&["#..", ".#.", "..#"]);
    assert_eq!(tick_cell(&Coord { x: 1, y: 1 }, &two), Ok(true));
    let three = from_marks(&["#.#", ".#.", "..#"]);
    assert_eq!(tick_cell(&Coord { x: 1, y: 1 }, &three), Ok(true));
}

#[test]
fn live_cell_starves_with_fewer_than_two_neighbours() {
    let none = from_marks(&["...", ".#.", "..."]);
    assert_eq!(tick_cell(&Coord { x: 1, y: 1 }, &none), Ok(false));
    let one = from_marks(&["#..", ".#.", "..."]);
    assert_eq!(tick_cell(&Coord { x: 1, y: 1 }, &one), Ok(false));
}

#[test]
fn live_cell_is_crowded_out_with_more_than_three_neighbours() {
    let four = from_marks(&["#.#", ".#.", "#.#"]);
    assert_eq!(tick_cell(&Coord { x: 1, y: 1 }, &four), Ok(false));
    let eight = from_marks(&["###", "###", "###"]);
    assert_eq!(tick_cell(&Coord { x: 1, y: 1 }, &eight), Ok(false));
}

#[test]
fn block_is_a_still_life() {
    let w = from_marks(&["....", ".##.", ".##.", "...."]);
    assert_eq!(tick_world(&w), w);
}

#[test]
fn block_without_margin_is_a_still_life() {
    let filled = full(2);
    assert_eq!(tick_world(&filled), filled);
    let cornered = from_marks(&["##...", "##...", ".....", ".....", "....."]);
    assert_eq!(tick_world(&cornered), cornered);
}

#[test]
fn blinker_has_period_two() {
    let flat = from_marks(&["...", "###", "..."]);
    let upright = from_marks(&[".#.", ".#.", ".#."]);
    let once = tick_world(&flat);
    assert_eq!(once, upright);
    let twice = tick_world(&once);
    assert_eq!(twice, flat);
}

#[test]
fn tick_world_leaves_its_input_alone() {
    let w = from_marks(&["...", "###", "..."]);
    let before = w.clone();
    let _next = tick_world(&w);
    assert_eq!(w, before);
}

#[test]
fn tick_world_keeps_the_size() {
    for n in 1usize..=6 {
        assert_eq!(tick_world(&full(n)).size(), n);
    }
}

#[test]
fn tick_world_judges_every_cell_against_the_old_generation() {
    let w = from_marks(&["##.", "#..", "..."]);
    let next = tick_world(&w);
    assert_eq!(next, from_marks(&["##.", "##.", "..."]));
}

#[test]
fn tick_world_agrees_with_tick_cell_everywhere() {
    let w = from_marks(&["#..#.", ".##..", "..#.#", "#...#", ".#.#."]);
    let next = tick_world(&w);
    for x in 0..5 {
        for y in 0..5 {
            let c = Coord { x, y };
            assert_eq!(get_cell(&c, &next), tick_cell(&c, &w));
        }
    }
}

#[test]
fn lone_cell_dies() {
    let w = full(1);
    assert_eq!(tick_world(&w), square(vec![vec![false]]));
}

#[test]
fn glider_moves_one_cell_diagonally_in_four_generations() {
    let start = from_marks(&[
        ".#.......",
        "..#......",
        "###......",
        ".........",
        ".........",
        ".........",
        ".........",
        ".........",
        ".........",
    ]);
    let moved = from_marks(&[
        ".........",
        "..#......",
        "...#.....",
        ".###.....",
        ".........",
        ".........",
        ".........",
        ".........",
        ".........",
    ]);
    let mut w = start;
    for _ in 0..4 {
        w = tick_world(&w);
    }
    assert_eq!(w, moved);
}
