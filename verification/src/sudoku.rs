//! A rule set for the engine that encodes Sudoku legality: a digit
//! is possible at a position exactly when no cell of the same row,
//! column or 3x3 block is already committed to it.

use vstd::prelude::*;

use crate::wfc::view::{Span, WfcView};
use crate::wfc::{GridModel, State, Tile, TileView, WfcRules};

verus! {

/// The nine digits a Sudoku cell can hold.
#[derive(Debug, Clone, Copy, Ord, PartialOrd, Eq, PartialEq, Structural)]
pub enum SudokuNum {
    One,
    Two,
    Three,
    Four,
    Five,
    Six,
    Seven,
    Eight,
    Nine,
}

/// All nine digits, in ascending order.
pub open spec fn full_digits() -> Seq<SudokuNum> {
    seq![
        SudokuNum::One,
        SudokuNum::Two,
        SudokuNum::Three,
        SudokuNum::Four,
        SudokuNum::Five,
        SudokuNum::Six,
        SudokuNum::Seven,
        SudokuNum::Eight,
        SudokuNum::Nine,
    ]
}

impl SudokuNum {
    /// The full candidate set of an unconstrained cell: all nine
    /// digits, each exactly once.
    pub fn full_set() -> (r: Vec<SudokuNum>)
        ensures
            r@ == full_digits(),
            r@.no_duplicates(),
    {
        let mut v: Vec<SudokuNum> = Vec::new();
        v.push(SudokuNum::One);
        v.push(SudokuNum::Two);
        v.push(SudokuNum::Three);
        v.push(SudokuNum::Four);
        v.push(SudokuNum::Five);
        v.push(SudokuNum::Six);
        v.push(SudokuNum::Seven);
        v.push(SudokuNum::Eight);
        v.push(SudokuNum::Nine);
        proof {
            assert(v@ =~= full_digits());
        }
        v
    }
}

impl State for SudokuNum {
    fn clone_state(&self) -> (r: Self) {
        *self
    }

    fn eq_state(&self, other: &Self) -> (r: bool) {
        *self == *other
    }
}

/// Some tile of the sequence is committed to the value `v`.
pub open spec fn seq_has_definite(s: Seq<TileView<SudokuNum>>, v: SudokuNum) -> bool {
    exists|k: int| 0 <= k < s.len() && s[k] == TileView::<SudokuNum>::Definite(v)
}

/// The tiles of row `y`, left to right.
pub open spec fn row_tiles(g: GridModel<SudokuNum>, y: int) -> Seq<TileView<SudokuNum>> {
    Seq::new(g.width, |i: int| g.at(i, y))
}

/// The tiles of column `x`, top to bottom.
pub open spec fn col_tiles(g: GridModel<SudokuNum>, x: int) -> Seq<TileView<SudokuNum>> {
    Seq::new(g.height, |j: int| g.at(x, j))
}

/// The grid is tiled exactly by 3x3 blocks.
pub open spec fn blocks_apply(g: GridModel<SudokuNum>) -> bool {
    g.width as int % 3 == 0 && g.height as int % 3 == 0
}

/// The tiles of the 3x3 block containing `(x, y)`, in row-major
/// order.
pub open spec fn block_tiles(g: GridModel<SudokuNum>, x: int, y: int) -> Seq<
    TileView<SudokuNum>,
> {
    Seq::new(9, |k: int| g.at((x / 3) * 3 + k % 3, (y / 3) * 3 + k / 3))
}

/// Digit `v` is ruled out at `(x, y)`: some cell of the row, the
/// column, or (on a block-tiled grid) the 3x3 block is committed
/// to it.
pub open spec fn digit_excluded(g: GridModel<SudokuNum>, x: int, y: int, v: SudokuNum) -> bool {
    ||| seq_has_definite(row_tiles(g, y), v)
    ||| seq_has_definite(col_tiles(g, x), v)
    ||| (blocks_apply(g) && seq_has_definite(block_tiles(g, x, y), v))
}

/// A full-row span reads exactly the tiles of that row.
proof fn lemma_row_span_tiles(s: Span<'_, SudokuNum>, g: GridModel<SudokuNum>, y: int)
    requires
        s.wf(),
        s.models(g),
        g.wf(),
        s.x0 == 0,
        s.y0 == y,
        s.w == g.width,
        s.h == 1,
    ensures
        s.row_major() == row_tiles(g, y),
{
    assert forall|k: int| 0 <= k < s.w * s.h implies s.row_major()[k] == row_tiles(g, y)[k] by {
        s.lemma_row_major_index(k);
        vstd::arithmetic::div_mod::lemma_fundamental_div_mod(k, s.w as int);
        s.lemma_tile_at(g, k / (s.w as int), k % (s.w as int));
        assert(k / (s.w as int) == 0);
        assert(k % (s.w as int) == k);
    }
    assert(s.row_major() =~= row_tiles(g, y));
}

/// A full-column span reads exactly the tiles of that column.
proof fn lemma_col_span_tiles(s: Span<'_, SudokuNum>, g: GridModel<SudokuNum>, x: int)
    requires
        s.wf(),
        s.models(g),
        g.wf(),
        s.x0 == x,
        s.y0 == 0,
        s.w == 1,
        s.h == g.height,
    ensures
        s.row_major() == col_tiles(g, x),
{
    assert forall|k: int| 0 <= k < s.w * s.h implies s.row_major()[k] == col_tiles(g, x)[k] by {
        s.lemma_row_major_index(k);
        vstd::arithmetic::div_mod::lemma_fundamental_div_mod(k, s.w as int);
        s.lemma_tile_at(g, k / (s.w as int), k % (s.w as int));
    }
    assert(s.row_major() =~= col_tiles(g, x));
}

/// The 3x3 block span at `(x, y)` reads exactly the tiles of the
/// block containing that position.
proof fn lemma_block_span_tiles(s: Span<'_, SudokuNum>, g: GridModel<SudokuNum>, x: int, y: int)
    requires
        s.wf(),
        s.models(g),
        g.wf(),
        s.x0 == (x / 3) * 3,
        s.y0 == (y / 3) * 3,
        s.w == 3,
        s.h == 3,
    ensures
        s.row_major() == block_tiles(g, x, y),
{
    assert forall|k: int| 0 <= k < s.w * s.h implies s.row_major()[k] == block_tiles(g, x, y)[k] by {
        s.lemma_row_major_index(k);
        vstd::arithmetic::div_mod::lemma_fundamental_div_mod(k, s.w as int);
        s.lemma_tile_at(g, k / (s.w as int), k % (s.w as int));
    }
    assert(s.row_major() =~= block_tiles(g, x, y));
}

/// Decides whether some tile of the span is committed to `v`, in one
/// pass over its row-major order.
fn span_has_definite(span: &Span<'_, SudokuNum>, v: SudokuNum) -> (b: bool)
    requires
        span.wf(),
    ensures
        b == seq_has_definite(span.row_major(), v),
{
    proof {
        assert(span.w * span.h <= (span.y0 + span.h) * span.grid_width) by (nonlinear_arith)
            requires
                span.w <= span.grid_width,
                span.h >= 1,
                span.y0 >= 0,
                span.w >= 0,
        ;
    }
    let n = span.grid.len();
    proof {
        assert(span.grid@.len() == n as int);
    }
    let total = span.width() * span.height();
    let mut it = span.row_iter();
    let mut found = false;
    let mut cnt: usize = 0;
    while cnt < total && !found
        invariant
            it.wf(),
            it.span() == *span,
            it.pos() == cnt,
            cnt <= total,
            total == span.w * span.h,
            span.wf(),
            !found ==> forall|k: int|
                0 <= k < cnt ==> #[trigger] span.row_major()[k] != TileView::<
                    SudokuNum,
                >::Definite(v),
            found ==> seq_has_definite(span.row_major(), v),
        decreases total - cnt,
    {
        let t = it.next().unwrap();
        match t {
            Tile::Definite(d) => {
                if d.eq_state(&v) {
                    found = true;
                    proof {
                        assert(span.row_major()[cnt as int] == TileView::<SudokuNum>::Definite(v));
                    }
                }
            },
            Tile::Indefinite(_) => {},
        }
        cnt = cnt + 1;
    }
    found
}

/// The Sudoku rule set: a digit stays possible at a position while
/// no cell of its row, column or 3x3 block is committed to it.
pub struct SudokuRules;

impl WfcRules<SudokuNum> for SudokuRules {
    /// The possible digits at `(x, y)`: the nine digits, in order,
    /// with every excluded one dropped.
    open spec fn states_spec(&self, g: GridModel<SudokuNum>, x: int, y: int) -> Seq<SudokuNum> {
        full_digits().filter(|v: SudokuNum| !digit_excluded(g, x, y, v))
    }

    /// Sudoku states no preference: the engine's tie-breaking makes
    /// the selection uniformly random.
    open spec fn entropy_spec(&self, tile: TileView<SudokuNum>) -> u64 {
        0
    }

    #[verifier::loop_isolation(false)]
    fn get_states(&self, map: WfcView<'_, SudokuNum, Self>) -> (r: Vec<SudokuNum>) {
        let ghost gm = map.wfc.model();
        let ghost pred = |v: SudokuNum| !digit_excluded(gm, map.pos.0 as int, map.pos.1 as int, v);
        let x = map.pos.0;
        let y = map.pos.1;
        let row = map.row(y);
        let col = map.col(x);
        proof {
            lemma_row_span_tiles(row, gm, y as int);
            lemma_col_span_tiles(col, gm, x as int);
            assert(full_digits().no_duplicates());
        }
        let use_block = map.width() % 3 == 0 && map.height() % 3 == 0;
        let block: Option<Span<'_, SudokuNum>> = if use_block {
            let b = map.section_at(3, 3, x, y);
            proof {
                lemma_block_span_tiles(b, gm, x as int, y as int);
            }
            Some(b)
        } else {
            None
        };
        let full = SudokuNum::full_set();
        let mut possible: Vec<SudokuNum> = Vec::new();
        let mut vi: usize = 0;
        while vi < full.len()
            invariant
                vi <= full@.len(),
                possible@ == full_digits().take(vi as int).filter(pred),
                possible@.no_duplicates(),
                forall|q: int|
                    0 <= q < possible@.len() ==> exists|w: int|
                        0 <= w < vi && full_digits()[w] == #[trigger] possible@[q],
            decreases full@.len() - vi,
        {
            let v = full[vi];
            let mut excl = span_has_definite(&row, v);
            if !excl {
                excl = span_has_definite(&col, v);
            }
            if !excl {
                match &block {
                    Some(b) => {
                        excl = span_has_definite(b, v);
                    },
                    None => {},
                }
            }
            proof {
                assert(excl == digit_excluded(gm, x as int, y as int, v));
                assert(pred(v) == !excl);
                assert(full_digits().take(vi as int + 1).drop_last() =~= full_digits().take(
                    vi as int,
                ));
                assert(full_digits().take(vi as int + 1).last() == v);
                reveal_with_fuel(Seq::filter, 2);
                assert(full_digits().take(vi as int + 1).filter(pred) == if pred(v) {
                    full_digits().take(vi as int).filter(pred).push(v)
                } else {
                    full_digits().take(vi as int).filter(pred)
                });
            }
            if !excl {
                proof {
                    if possible@.contains(v) {
                        let q = choose|q: int| 0 <= q < possible@.len() && possible@[q] == v;
                        let w = choose|w: int|
                            0 <= w < vi && full_digits()[w] == possible@[q];
                        assert(full_digits()[w] == full_digits()[vi as int]);
                        assert(false);
                    }
                }
                possible.push(v);
            }
            vi = vi + 1;
        }
        proof {
            assert(full_digits().take(full_digits().len() as int) =~= full_digits());
        }
        possible
    }

    #[allow(unused_variables)]
    fn entropy(&self, tile: &Tile<SudokuNum>) -> (r: u64) {
        0
    }
}

} // verus!
