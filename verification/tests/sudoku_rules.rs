//! Tests of the Sudoku rule set: digit exclusion by row, column and
//! 3x3 block, and whole-puzzle solves driven by the engine.

use wfc_engine::sudoku::{SudokuNum, SudokuRules};
use wfc_engine::wfc::{StepOutcome, Tile, Wfc, WfcRules};

fn digit(n: usize) -> SudokuNum {
    match n {
        1 => SudokuNum::One,
        2 => SudokuNum::Two,
        3 => SudokuNum::Three,
        4 => SudokuNum::Four,
        5 => SudokuNum::Five,
        6 => SudokuNum::Six,
        7 => SudokuNum::Seven,
        8 => SudokuNum::Eight,
        9 => SudokuNum::Nine,
        _ => panic!("not a Sudoku digit"),
    }
}

#[test]
fn full_set_has_each_digit_once() {
    let full = SudokuNum::full_set();
    assert_eq!(full.len(), 9);
    for n in 1..=9 {
        assert!(full.contains(&digit(n)));
    }
}

#[test]
fn get_states_excludes_row_digits() {
    // A 3x1 grid: the committed One and Two of the row are no longer
    // possible in the open first cell.
    let tiles = vec![
        Tile::Indefinite(SudokuNum::full_set()),
        Tile::Definite(SudokuNum::One),
        Tile::Definite(SudokuNum::Two),
    ];
    let wfc = Wfc::new(3, 1, tiles, SudokuRules);
    let states = SudokuRules.get_states(wfc.view(0));
    let expected: Vec<SudokuNum> = (3..=9).map(digit).collect();
    assert_eq!(states, expected);
}

#[test]
fn get_states_excludes_column_and_block_digits() {
    // A 9x9 grid, empty but for Three at (0, 5) in the first column
    // and Seven at (1, 1) in the first block. Cell (0, 0) sees both.
    let mut tiles: Vec<Tile<SudokuNum>> = Vec::new();
    for idx in 0..81 {
        let tile = match idx {
            45 => Tile::Definite(SudokuNum::Three),
            10 => Tile::Definite(SudokuNum::Seven),
            _ => Tile::Indefinite(SudokuNum::full_set()),
        };
        tiles.push(tile);
    }
    let wfc = Wfc::new(9, 9, tiles, SudokuRules);
    let states = SudokuRules.get_states(wfc.view(0));
    assert!(!states.contains(&SudokuNum::Three));
    assert!(!states.contains(&SudokuNum::Seven));
    assert_eq!(states.len(), 7);
}

#[test]
fn exhausted_alternative_reports_stuck() {
    // A 9x3 grid. Both open cells sit in the top row holding only
    // One; the rest of the row shows Two..Eight and every cell below
    // shows Nine. Whichever open cell commits its One, the other
    // then sees all nine digits and has nothing left, and the
    // committed cell has no alternative to retry: the step is stuck.
    let mut tiles: Vec<Tile<SudokuNum>> = Vec::new();
    tiles.push(Tile::Indefinite(vec![SudokuNum::One]));
    tiles.push(Tile::Indefinite(vec![SudokuNum::One]));
    for n in 2..=8 {
        tiles.push(Tile::Definite(digit(n)));
    }
    for _ in 0..18 {
        tiles.push(Tile::Definite(SudokuNum::Nine));
    }
    let mut wfc = Wfc::new(9, 3, tiles, SudokuRules);
    assert_eq!(wfc.step(), StepOutcome::Stuck);
}

#[test]
fn seeded_puzzle_converges_or_sticks() {
    // A valid solved grid with nine cells blanked out, no two in the
    // same row, column or block. The blanks first hold the full
    // digit set; their candidate sets are then narrowed to what the
    // rule set allows, as a solver front end would. Repeated steps
    // must end in a fully committed grid satisfying the row, column
    // and block constraints, or report stuck.
    let value = |x: usize, y: usize| -> usize { (y * 3 + y / 3 + x) % 9 + 1 };
    let blanks = [
        (0, 0),
        (3, 1),
        (6, 2),
        (1, 3),
        (4, 4),
        (7, 5),
        (2, 6),
        (5, 7),
        (8, 8),
    ];
    let is_blank = |x: usize, y: usize| blanks.contains(&(x, y));
    let mut tiles: Vec<Tile<SudokuNum>> = Vec::new();
    for y in 0..9 {
        for x in 0..9 {
            if is_blank(x, y) {
                tiles.push(Tile::Indefinite(SudokuNum::full_set()));
            } else {
                tiles.push(Tile::Definite(digit(value(x, y))));
            }
        }
    }
    let probe = Wfc::new(9, 9, tiles.clone(), SudokuRules);
    for &(x, y) in blanks.iter() {
        let legal = SudokuRules.get_states(probe.view(y * 9 + x));
        assert!(!legal.is_empty());
        tiles[y * 9 + x] = Tile::Indefinite(legal);
    }
    let mut wfc = Wfc::new(9, 9, tiles, SudokuRules);
    let mut outcome = StepOutcome::Progress;
    for _ in 0..2000 {
        outcome = wfc.step();
        if outcome != StepOutcome::Progress {
            break;
        }
    }
    assert_ne!(outcome, StepOutcome::Progress);
    if outcome == StepOutcome::Solved {
        let at = |x: usize, y: usize| -> SudokuNum {
            match &wfc.map[y * 9 + x] {
                Tile::Definite(v) => *v,
                Tile::Indefinite(_) => panic!("solved grid held an open cell"),
            }
        };
        for y in 0..9 {
            for x in 0..9 {
                for x2 in 0..9 {
                    if x2 != x {
                        assert_ne!(at(x, y), at(x2, y));
                    }
                }
                for y2 in 0..9 {
                    if y2 != y {
                        assert_ne!(at(x, y), at(x, y2));
                    }
                }
                for dx in 0..3 {
                    for dy in 0..3 {
                        let bx = (x / 3) * 3 + dx;
                        let by = (y / 3) * 3 + dy;
                        if bx != x || by != y {
                            assert_ne!(at(x, y), at(bx, by));
                        }
                    }
                }
            }
        }
    }
}
