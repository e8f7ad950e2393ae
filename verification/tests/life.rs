use life::builder::CellSetBuilder;
use life::life::{CellSet, Coord};

fn cs(v: &[(i64, i64)]) -> CellSet {
    CellSet::from_cells(v.iter().map(|&(x, y)| Coord { x, y }).collect())
}

fn sorted(s: &CellSet) -> Vec<(i64, i64)> {
    let mut v: Vec<(i64, i64)> = s.live_cells().iter().map(|c| (c.x, c.y)).collect();
    v.sort();
    v
}

fn sorted_of(v: &[(i64, i64)]) -> Vec<(i64, i64)> {
    let mut v: Vec<(i64, i64)> = v.to_vec();
    v.sort();
    v
}

#[test]
fn step_of_empty_is_empty() {
    let empty = CellSet::new();
    let next = empty.update_cells();
    assert_eq!(next.len(), 0);
    assert!(!next.contains(&Coord { x: 0, y: 0 }));
}

#[test]
fn dead_cell_with_three_neighbors_is_born() {
    let s = cs(&[(0, -1), (1, -1), (1, 0)]);
    let next = s.update_cells();
    assert!(next.contains(&Coord { x: 0, y: 0 }));
}

#[test]
fn isolated_cells_die() {
    let s = cs(&[(0, 0), (5, 5)]);
    let next = s.update_cells();
    assert!(!next.contains(&Coord { x: 0, y: 0 }));
    assert!(!next.contains(&Coord { x: 5, y: 5 }));
    assert_eq!(next.len(), 0);
}

#[test]
fn overcrowded_cell_dies() {
    // The center of a plus shape has 4 live neighbors.
    let s = cs(&[(0, 0), (1, 0), (-1, 0), (0, 1), (0, -1)]);
    let next = s.update_cells();
    assert!(!next.contains(&Coord { x: 0, y: 0 }));
}

#[test]
fn block_is_still_life() {
    let block = [(0, 0), (1, 0), (0, 1), (1, 1)];
    let s = cs(&block);
    let next = s.update_cells();
    assert_eq!(sorted(&next), sorted_of(&block));
}

#[test]
fn blinker_oscillates_with_period_two() {
    let s = CellSetBuilder::new().blinker().build();
    assert_eq!(sorted(&s), sorted_of(&[(-1, 0), (0, 0), (1, 0)]));
    let one = s.update_cells();
    assert_eq!(sorted(&one), sorted_of(&[(0, -1), (0, 0), (0, 1)]));
    let two = one.update_cells();
    assert_eq!(sorted(&two), sorted(&s));
}

#[test]
fn glider_returns_translated_after_four_steps() {
    let start = CellSetBuilder::new().glider().build();
    let mut s = start.update_cells();
    for _ in 0..3 {
        s = s.update_cells();
    }
    let expected: Vec<(i64, i64)> = start
        .live_cells()
        .iter()
        .map(|c| (c.x + 1, c.y + 1))
        .collect();
    assert_eq!(sorted(&s), sorted_of(&expected));
}

#[test]
fn step_leaves_its_input_untouched() {
    let s = cs(&[(-1, 0), (0, 0), (1, 0)]);
    let before = sorted(&s);
    let _ = s.update_cells();
    assert_eq!(sorted(&s), before);
}

#[test]
fn neighbor_count_never_counts_the_cell_itself() {
    let alone = cs(&[(3, 3)]);
    assert_eq!(alone.count_neighbors(&Coord { x: 3, y: 3 }), 0);
}

#[test]
fn neighbor_count_caps_at_eight_positions() {
    // A 5x5 solid square: the center sees only its 8 surrounding cells,
    // however many further cells are alive.
    let s = CellSetBuilder::new()
        .solid_rect(Coord { x: 5, y: 5 })
        .build();
    assert_eq!(s.len(), 25);
    assert_eq!(s.count_neighbors(&Coord { x: 2, y: 2 }), 8);
}

#[test]
fn neighbor_count_of_empty_set_is_zero() {
    let empty = CellSet::new();
    assert_eq!(empty.count_neighbors(&Coord { x: 0, y: 0 }), 0);
}

#[test]
fn neighborhood_has_exactly_eight_keys() {
    let s = cs(&[(7, 7)]);
    let n = s.get_neighbors_keys(&Coord { x: 0, y: 0 });
    assert_eq!(n.len(), 8);
    assert!(!n.contains(&Coord { x: 0, y: 0 }));
    let expected = [
        (-1, -1),
        (0, -1),
        (1, -1),
        (-1, 0),
        (1, 0),
        (-1, 1),
        (0, 1),
        (1, 1),
    ];
    assert_eq!(sorted(&n), sorted_of(&expected));
}

#[test]
fn self_and_neighborhood_has_exactly_nine_keys() {
    let s = CellSet::new();
    let n = s.get_self_and_neighbors_keys(&Coord { x: 2, y: -3 });
    assert_eq!(n.len(), 9);
    assert!(n.contains(&Coord { x: 2, y: -3 }));
}

#[test]
fn from_cells_collapses_duplicates() {
    let s = cs(&[(1, 1), (2, 2), (1, 1), (2, 2), (1, 1)]);
    assert_eq!(s.len(), 2);
    assert!(s.contains(&Coord { x: 1, y: 1 }));
    assert!(s.contains(&Coord { x: 2, y: 2 }));
}

#[test]
fn cell_fate_matches_the_rule() {
    let s = cs(&[(0, -1), (1, -1), (1, 0)]);
    // Dead with 3 live neighbors: born.
    assert!(s.cell_fate(&Coord { x: 0, y: 0 }));
    // Alive with 2 live neighbors: survives.
    assert!(s.cell_fate(&Coord { x: 1, y: -1 }));
    // Dead with 1 live neighbor: stays dead.
    assert!(!s.cell_fate(&Coord { x: 2, y: -2 }));
    // The center of a plus shape is alive with 4 live neighbors: dies.
    let plus = cs(&[(0, 0), (1, 0), (-1, 0), (0, 1), (0, -1)]);
    assert!(!plus.cell_fate(&Coord { x: 0, y: 0 }));
}

#[test]
fn builder_translate_moves_the_draft_only() {
    let s = CellSetBuilder::new()
        .blinker()
        .translate(Coord { x: 10, y: -5 })
        .build();
    assert_eq!(sorted(&s), sorted_of(&[(9, -5), (10, -5), (11, -5)]));
}

#[test]
fn builder_commit_accumulates_shapes() {
    let s = CellSetBuilder::new()
        .glider()
        .translate(Coord { x: 100, y: 100 })
        .blinker()
        .build();
    let mut expected = vec![(99, 100), (100, 100), (101, 100), (101, 99), (100, 98)];
    expected.extend_from_slice(&[(-1, 0), (0, 0), (1, 0)]);
    assert_eq!(sorted(&s), sorted_of(&expected));
}

#[test]
fn builder_overlapping_shapes_collapse() {
    let s = CellSetBuilder::new().blinker().blinker().build();
    assert_eq!(s.len(), 3);
}

#[test]
fn pentadecathlon_seed_has_nine_cells() {
    let s = CellSetBuilder::new().pentadecathlon().build();
    assert_eq!(s.len(), 9);
    assert!(s.contains(&Coord { x: 7, y: -1 }));
}

#[test]
fn solid_rect_fills_the_grid() {
    let s = CellSetBuilder::new()
        .solid_rect(Coord { x: 3, y: 2 })
        .build();
    assert_eq!(
        sorted(&s),
        sorted_of(&[(0, 0), (0, 1), (1, 0), (1, 1), (2, 0), (2, 1)])
    );
}

#[test]
fn solid_rect_with_empty_dimension_is_empty() {
    let s = CellSetBuilder::new()
        .solid_rect(Coord { x: 0, y: 5 })
        .build();
    assert_eq!(s.len(), 0);
}

#[test]
fn hollow_rect_keeps_only_the_walls() {
    let s = CellSetBuilder::new()
        .hollow_rect(1, Coord { x: 4, y: 4 })
        .build();
    assert_eq!(s.len(), 12);
    assert!(!s.contains(&Coord { x: 1, y: 1 }));
    assert!(!s.contains(&Coord { x: 2, y: 2 }));
    assert!(s.contains(&Coord { x: 0, y: 0 }));
    assert!(s.contains(&Coord { x: 3, y: 3 }));
    assert!(s.contains(&Coord { x: 2, y: 0 }));
}

#[test]
fn random_cells_stay_inside_the_given_extent() {
    let s = CellSetBuilder::new()
        .random(10, Coord { x: 5, y: 5 })
        .build();
    assert!(s.len() <= 10);
    for c in s.live_cells() {
        assert!(0 <= c.x && c.x < 5);
        assert!(0 <= c.y && c.y < 5);
    }
}

#[test]
fn random_in_a_single_cell_extent_hits_that_cell() {
    let s = CellSetBuilder::new()
        .random(4, Coord { x: 1, y: 1 })
        .build();
    assert_eq!(sorted(&s), vec![(0, 0)]);
}

#[test]
fn random_of_zero_cells_is_empty() {
    let s = CellSetBuilder::new()
        .random(0, Coord { x: 5, y: 5 })
        .build();
    assert_eq!(s.len(), 0);
}

#[test]
fn live_cells_reflects_the_exact_snapshot() {
    let s = cs(&[(2, 3), (4, 5)]);
    let mut got: Vec<(i64, i64)> = s.live_cells().iter().map(|c| (c.x, c.y)).collect();
    got.sort();
    assert_eq!(got, vec![(2, 3), (4, 5)]);
}
