//! Tests of the engine's construction, tile accessors and step
//! algorithm.

use wfc_engine::wfc::{FixedRules, StepOutcome, Tile, Wfc};

#[test]
fn construction_sizes_the_grid() {
    let wfc = Wfc::new(4, 4, (0..16).map(Tile::Definite).collect(), FixedRules);
    assert_eq!(wfc.width(), 4);
    assert_eq!(wfc.height(), 4);
    assert_eq!(wfc.map.len(), 16);
    assert_eq!(wfc.xy_pair(3, 2), 11);
}

#[test]
fn tile_accessors() {
    let d: Tile<i32> = Tile::Definite(5);
    assert_eq!(d.as_definite(), &5);
    assert_eq!(d.into_definite(), 5);

    let i: Tile<i32> = Tile::Indefinite(vec![1, 2, 3]);
    assert_eq!(i.as_indefinite(), &vec![1, 2, 3]);
    assert_eq!(i.into_indefinite(), vec![1, 2, 3]);
}

#[test]
fn solved_grid_reports_solved() {
    let mut wfc = Wfc::new(4, 4, (0..16).map(Tile::Definite).collect(), FixedRules);
    assert_eq!(wfc.step(), StepOutcome::Solved);
    // The grid is untouched.
    for i in 0..16 {
        assert_eq!(wfc.map[i as usize], Tile::Definite(i as i32));
    }
}

#[test]
fn single_cell_collapses_to_its_candidate() {
    let mut wfc = Wfc::new(1, 1, vec![Tile::Indefinite(vec![7])], FixedRules);
    assert_eq!(wfc.step(), StepOutcome::Progress);
    assert_eq!(wfc.map[0], Tile::Definite(7));
    assert_eq!(wfc.step(), StepOutcome::Solved);
}

#[test]
fn empty_candidates_report_stuck() {
    let mut wfc = Wfc::new(1, 1, vec![Tile::Indefinite(vec![])], FixedRules);
    assert_eq!(wfc.step(), StepOutcome::Stuck);
    assert_eq!(wfc.map[0], Tile::Indefinite(vec![]));
}

#[test]
fn propagation_collapses_single_state_cells() {
    // Two indefinite cells: whichever is selected commits one of its
    // candidates, and the other is re-derived to the rule set's only
    // state, 0, without any further randomness.
    let tiles = vec![Tile::Indefinite(vec![1, 2]), Tile::Indefinite(vec![1, 2])];
    let mut wfc = Wfc::new(2, 1, tiles, FixedRules);
    assert_eq!(wfc.step(), StepOutcome::Progress);
    let a = wfc.map[0].clone();
    let b = wfc.map[1].clone();
    let selected_first = matches!((&a, &b), (Tile::Definite(v), Tile::Definite(0)) if *v == 1 || *v == 2);
    let selected_second = matches!((&a, &b), (Tile::Definite(0), Tile::Definite(v)) if *v == 1 || *v == 2);
    assert!(selected_first || selected_second);
    assert_eq!(wfc.step(), StepOutcome::Solved);
}

#[test]
fn definite_cells_survive_steps() {
    let tiles = vec![Tile::Definite(3), Tile::Indefinite(vec![1, 2])];
    let mut wfc = Wfc::new(2, 1, tiles, FixedRules);
    assert_eq!(wfc.step(), StepOutcome::Progress);
    assert_eq!(wfc.map[0], Tile::Definite(3));
    assert!(matches!(wfc.map[1], Tile::Definite(v) if v == 1 || v == 2));
}
