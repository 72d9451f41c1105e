//! Tests of the windowed views: rows, columns, rectangular spans and
//! their two traversal orders, on a 4x4 grid of the values 0..16.

use wfc_engine::wfc::{FixedRules, Tile, Wfc};

fn wfc() -> Wfc<i32, FixedRules> {
    Wfc::new(4, 4, (0..16).map(Tile::Definite).collect(), FixedRules)
}

#[test]
fn row_iter() {
    let wfc = wfc();
    let view = wfc.view(0);

    let span = view.span(1..3, 0..3);

    let mut iter = span.row_iter();
    assert_eq!(iter.next(), Some(&Tile::Definite(1)));
    assert_eq!(iter.next(), Some(&Tile::Definite(2)));
    assert_eq!(iter.next(), Some(&Tile::Definite(5)));
    assert_eq!(iter.next(), Some(&Tile::Definite(6)));
    assert_eq!(iter.next(), Some(&Tile::Definite(9)));
    assert_eq!(iter.next(), Some(&Tile::Definite(10)));
    assert_eq!(iter.next(), None);
}

#[test]
fn col_iter() {
    let wfc = wfc();
    let view = wfc.view(0);

    let span = view.span(1..3, 0..3);

    let mut iter = span.col_iter();
    assert_eq!(iter.next(), Some(&Tile::Definite(1)));
    assert_eq!(iter.next(), Some(&Tile::Definite(5)));
    assert_eq!(iter.next(), Some(&Tile::Definite(9)));
    assert_eq!(iter.next(), Some(&Tile::Definite(2)));
    assert_eq!(iter.next(), Some(&Tile::Definite(6)));
    assert_eq!(iter.next(), Some(&Tile::Definite(10)));
    assert_eq!(iter.next(), None);
}

#[test]
fn row() {
    let wfc = wfc();
    let view = wfc.view(0);

    let row = view.row(0);
    let mut iter = row.row_iter();
    assert_eq!(iter.next(), Some(&Tile::Definite(0)));
    assert_eq!(iter.next(), Some(&Tile::Definite(1)));
    assert_eq!(iter.next(), Some(&Tile::Definite(2)));
    assert_eq!(iter.next(), Some(&Tile::Definite(3)));
    assert_eq!(iter.next(), None);
}

#[test]
fn col() {
    let wfc = wfc();
    let view = wfc.view(0);

    let col = view.col(0);

    let mut iter = col.row_iter();
    assert_eq!(iter.next(), Some(&Tile::Definite(0)));
    assert_eq!(iter.next(), Some(&Tile::Definite(4)));
    assert_eq!(iter.next(), Some(&Tile::Definite(8)));
    assert_eq!(iter.next(), Some(&Tile::Definite(12)));
    assert_eq!(iter.next(), None);
}

#[test]
fn row_span() {
    let wfc = wfc();
    let view = wfc.view(0);

    let span = view.row_span(0, 1..3);
    let mut iter = span.row_iter();
    assert_eq!(iter.next(), Some(&Tile::Definite(1)));
    assert_eq!(iter.next(), Some(&Tile::Definite(2)));
    assert_eq!(iter.next(), None);
}

#[test]
fn col_span() {
    let wfc = wfc();
    let view = wfc.view(0);

    let span = view.col_span(0, 1..3);
    let mut iter = span.row_iter();
    assert_eq!(iter.next(), Some(&Tile::Definite(4)));
    assert_eq!(iter.next(), Some(&Tile::Definite(8)));
    assert_eq!(iter.next(), None);
}

#[test]
fn span_dimensions_and_tiles() {
    let wfc = wfc();
    let view = wfc.view(0);

    assert_eq!(view.width(), 4);
    assert_eq!(view.height(), 4);
    assert_eq!(*view.pos(), (0, 0));
    assert_eq!(view.get_at(2, 3), &Tile::Definite(11));

    let span = view.span(1..3, 0..3);
    assert_eq!(span.width(), 2);
    assert_eq!(span.height(), 3);
}

#[test]
fn section_at_floors_to_block_boundary() {
    let tiles: Vec<Tile<i32>> = (0..16).map(Tile::Definite).collect();
    let wfc = Wfc::new(4, 4, tiles, FixedRules);
    let view = wfc.view(0);

    // Blocks of 2x2 on a 4x4 grid: the block containing (3, 1) is
    // the one whose corner is (2, 0), not a window centered there.
    let block = view.section_at(2, 2, 3, 1);
    let mut iter = block.row_iter();
    assert_eq!(iter.next(), Some(&Tile::Definite(2)));
    assert_eq!(iter.next(), Some(&Tile::Definite(3)));
    assert_eq!(iter.next(), Some(&Tile::Definite(6)));
    assert_eq!(iter.next(), Some(&Tile::Definite(7)));
    assert_eq!(iter.next(), None);
}
