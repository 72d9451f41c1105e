//! Read-only windows into the grid: a positioned cursor (`WfcView`)
//! and rectangular sub-windows (`Span`) with row-major and
//! column-major traversal.

use vstd::prelude::*;

use crate::wfc::{GridModel, Tile, TileView, Wfc, grid_index_bound};

verus! {

/// A view of the map: a borrow of the whole grid together with one
/// fixed position. Rule sets inspect the surroundings of that
/// position through the span accessors below.
#[derive(Debug)]
pub struct WfcView<'wfc, T, R> {
    pub wfc: &'wfc Wfc<T, R>,
    pub pos: (usize, usize),
}

/// A rectangular, read-only window of the grid: `w` columns starting
/// at `x0` and `h` rows starting at `y0`, over a grid whose rows are
/// `grid_width` tiles wide.
#[derive(Debug)]
pub struct Span<'wfc, T> {
    pub grid: &'wfc Vec<Tile<T>>,
    pub grid_width: usize,
    pub x0: usize,
    pub y0: usize,
    pub w: usize,
    pub h: usize,
}

impl<'wfc, T, R> WfcView<'wfc, T, R> {
    /// The underlying grid is well formed and the position lies
    /// inside it.
    pub open spec fn wf(self) -> bool {
        &&& self.wfc.model().wf()
        &&& self.pos.0 < self.wfc.model().width
        &&& self.pos.1 < self.wfc.model().height
    }

    /// Returns the width of the map.
    pub fn width(&self) -> (r: usize)
        ensures
            r == self.wfc.model().width,
    {
        self.wfc.width()
    }

    /// Returns the height of the map.
    pub fn height(&self) -> (r: usize)
        ensures
            r == self.wfc.model().height,
    {
        self.wfc.height()
    }

    /// Returns the position associated with this view.
    pub fn pos(&self) -> (r: &(usize, usize))
        ensures
            *r == self.pos,
    {
        &self.pos
    }

    /// Returns the tile at the coordinate pair `(col, row)`.
    pub fn get_at(&self, row: usize, col: usize) -> (r: &'wfc Tile<T>)
        requires
            self.wf(),
            row < self.wfc.model().height,
            col < self.wfc.model().width,
        ensures
            r@ == self.wfc.model().at(col as int, row as int),
    {
        let n = self.wfc.map.len();
        proof {
            grid_index_bound(
                self.wfc.model().width as int,
                self.wfc.model().height as int,
                col as int,
                row as int,
            );
            assert(self.wfc.model().tiles.len() == n as int);
        }
        &self.wfc.map[row * self.wfc.width + col]
    }

    /// Returns the tile at this view's own position.
    pub fn get(&self) -> (r: &'wfc Tile<T>)
        requires
            self.wf(),
        ensures
            r@ == self.wfc.model().at(self.pos.0 as int, self.pos.1 as int),
    {
        self.get_at(self.pos.1, self.pos.0)
    }

    /// Returns a span of the elements in the row at `row`.
    pub fn row(&self, row: usize) -> (r: Span<'wfc, T>)
        requires
            self.wf(),
            row < self.wfc.model().height,
        ensures
            r.wf(),
            r.models(self.wfc.model()),
            r.x0 == 0 && r.y0 == row && r.w == self.wfc.model().width && r.h == 1,
    {
        let r = Span {
            grid: &self.wfc.map,
            grid_width: self.wfc.width,
            x0: 0,
            y0: row,
            w: self.wfc.width,
            h: 1,
        };
        proof {
            lemma_rect_inside(
                self.wfc.model().width as int,
                self.wfc.model().height as int,
                0,
                row as int,
                self.wfc.model().width as int,
                1,
            );
        }
        r
    }

    /// Returns a span of the elements in the column at `col`.
    pub fn col(&self, col: usize) -> (r: Span<'wfc, T>)
        requires
            self.wf(),
            col < self.wfc.model().width,
        ensures
            r.wf(),
            r.models(self.wfc.model()),
            r.x0 == col && r.y0 == 0 && r.w == 1 && r.h == self.wfc.model().height,
    {
        let r = Span {
            grid: &self.wfc.map,
            grid_width: self.wfc.width,
            x0: col,
            y0: 0,
            w: 1,
            h: self.wfc.height,
        };
        proof {
            lemma_rect_inside(
                self.wfc.model().width as int,
                self.wfc.model().height as int,
                col as int,
                0,
                1,
                self.wfc.model().height as int,
            );
        }
        r
    }

    /// Returns a span of the elements in the rectangle formed by the
    /// x-range `x` and the y-range `y`; both ranges must be non-empty
    /// and lie within the grid bounds.
    pub fn span(&self, x: core::ops::Range<usize>, y: core::ops::Range<usize>) -> (r: Span<
        'wfc,
        T,
    >)
        requires
            self.wf(),
            x.start < x.end <= self.wfc.model().width,
            y.start < y.end <= self.wfc.model().height,
        ensures
            r.wf(),
            r.models(self.wfc.model()),
            r.x0 == x.start && r.y0 == y.start,
            r.w == x.end - x.start && r.h == y.end - y.start,
    {
        let r = Span {
            grid: &self.wfc.map,
            grid_width: self.wfc.width,
            x0: x.start,
            y0: y.start,
            w: x.end - x.start,
            h: y.end - y.start,
        };
        proof {
            lemma_rect_inside(
                self.wfc.model().width as int,
                self.wfc.model().height as int,
                x.start as int,
                y.start as int,
                x.end - x.start,
                y.end - y.start,
            );
        }
        r
    }

    /// Returns the span over the x-range `x` of the row at `row`.
    pub fn row_span(&self, row: usize, x: core::ops::Range<usize>) -> (r: Span<'wfc, T>)
        requires
            self.wf(),
            row < self.wfc.model().height,
            x.start < x.end <= self.wfc.model().width,
        ensures
            r.wf(),
            r.models(self.wfc.model()),
            r.x0 == x.start && r.y0 == row,
            r.w == x.end - x.start && r.h == 1,
    {
        let r = Span {
            grid: &self.wfc.map,
            grid_width: self.wfc.width,
            x0: x.start,
            y0: row,
            w: x.end - x.start,
            h: 1,
        };
        proof {
            lemma_rect_inside(
                self.wfc.model().width as int,
                self.wfc.model().height as int,
                x.start as int,
                row as int,
                x.end - x.start,
                1,
            );
        }
        r
    }

    /// Returns the span over the y-range `y` of the column at `col`.
    pub fn col_span(&self, col: usize, y: core::ops::Range<usize>) -> (r: Span<'wfc, T>)
        requires
            self.wf(),
            col < self.wfc.model().width,
            y.start < y.end <= self.wfc.model().height,
        ensures
            r.wf(),
            r.models(self.wfc.model()),
            r.x0 == col && r.y0 == y.start,
            r.w == 1 && r.h == y.end - y.start,
    {
        let r = Span {
            grid: &self.wfc.map,
            grid_width: self.wfc.width,
            x0: col,
            y0: y.start,
            w: 1,
            h: y.end - y.start,
        };
        proof {
            lemma_rect_inside(
                self.wfc.model().width as int,
                self.wfc.model().height as int,
                col as int,
                y.start as int,
                1,
                y.end - y.start,
            );
        }
        r
    }

    /// Returns the `block_w * block_h` tiling block that contains
    /// `(x, y)`: the block boundary is found by flooring the
    /// coordinate to a multiple of the block size, so the window is
    /// not centered on `(x, y)`. The block sizes must tile the grid
    /// exactly.
    pub fn section_at(&self, block_w: usize, block_h: usize, x: usize, y: usize) -> (r: Span<
        'wfc,
        T,
    >)
        requires
            self.wf(),
            block_w > 0,
            block_h > 0,
            x < self.wfc.model().width,
            y < self.wfc.model().height,
            self.wfc.model().width as int % block_w as int == 0,
            self.wfc.model().height as int % block_h as int == 0,
        ensures
            r.wf(),
            r.models(self.wfc.model()),
            r.x0 == (x as int / block_w as int) * block_w,
            r.y0 == (y as int / block_h as int) * block_h,
            r.w == block_w && r.h == block_h,
            r.x0 <= x < r.x0 + block_w,
            r.y0 <= y < r.y0 + block_h,
    {
        proof {
            lemma_block_origin(self.wfc.model().width as int, block_w as int, x as int);
            lemma_block_origin(self.wfc.model().height as int, block_h as int, y as int);
        }
        let x0 = (x / block_w) * block_w;
        let y0 = (y / block_h) * block_h;
        let r = Span {
            grid: &self.wfc.map,
            grid_width: self.wfc.width,
            x0,
            y0,
            w: block_w,
            h: block_h,
        };
        proof {
            lemma_rect_inside(
                self.wfc.model().width as int,
                self.wfc.model().height as int,
                x0 as int,
                y0 as int,
                block_w as int,
                block_h as int,
            );
        }
        r
    }
}

/// The block that contains coordinate `c` starts at
/// `(c / b) * b`, contains `c`, and ends within a dimension `d` that
/// is a whole number of blocks.
proof fn lemma_block_origin(d: int, b: int, c: int)
    requires
        d > 0,
        b > 0,
        0 <= c < d,
        d % b == 0,
    ensures
        0 <= (c / b) * b <= c,
        c < (c / b) * b + b,
        (c / b) * b + b <= d,
{
    vstd::arithmetic::div_mod::lemma_fundamental_div_mod(c, b);
    vstd::arithmetic::div_mod::lemma_mod_bound(c, b);
    vstd::arithmetic::div_mod::lemma_fundamental_div_mod(d, b);
    assert((c / b) * b + b <= d) by (nonlinear_arith)
        requires
            b > 0,
            c < d,
            c == b * (c / b) + c % b,
            0 <= c % b < b,
            d == b * (d / b),
    ;
}

/// A rectangle whose right and bottom edges lie within the grid
/// rectangle ends at or before the end of the tile sequence.
proof fn lemma_rect_inside(width: int, height: int, x0: int, y0: int, w: int, h: int)
    requires
        width > 0,
        height > 0,
        0 <= x0,
        0 <= y0,
        x0 + w <= width,
        y0 + h <= height,
    ensures
        (y0 + h) * width <= width * height,
{
    assert((y0 + h) * width <= width * height) by (nonlinear_arith)
        requires
            width > 0,
            y0 + h <= height,
    ;
}

impl<'wfc, T> Span<'wfc, T> {
    /// The window is non-empty and lies inside the underlying grid.
    pub open spec fn wf(self) -> bool {
        &&& self.w >= 1
        &&& self.h >= 1
        &&& self.grid_width >= 1
        &&& self.x0 + self.w <= self.grid_width
        &&& (self.y0 + self.h) * self.grid_width <= self.grid@.len()
    }

    /// The span borrows the tiles of grid model `g`.
    pub open spec fn models(self, g: GridModel<T>) -> bool {
        &&& self.grid@.map_values(|t: Tile<T>| t@) == g.tiles
        &&& self.grid_width == g.width
    }

    /// The tile in row `r`, column `c` of the window.
    pub open spec fn tile_at(self, r: int, c: int) -> TileView<T>
        recommends
            0 <= r < self.h,
            0 <= c < self.w,
    {
        self.grid@[(self.y0 + r) * self.grid_width + self.x0 + c]@
    }

    /// The tiles of the window in row-major order.
    pub open spec fn row_major(self) -> Seq<TileView<T>> {
        Seq::new((self.w * self.h) as nat, |k: int| self.tile_at(k / self.w as int, k % self.w as int))
    }

    /// The tiles of the window in column-major order.
    pub open spec fn col_major(self) -> Seq<TileView<T>> {
        Seq::new((self.w * self.h) as nat, |k: int| self.tile_at(k % self.h as int, k / self.h as int))
    }

    /// Returns the length of each row in this span.
    pub fn width(&self) -> (r: usize)
        ensures
            r == self.w,
    {
        self.w
    }

    /// Returns the length of the columns in this span.
    pub fn height(&self) -> (r: usize)
        ensures
            r == self.h,
    {
        self.h
    }

    /// Every tile of the window lies inside the grid sequence, and a
    /// span over a grid model reads that model's tiles.
    pub proof fn lemma_tile_at(self, g: GridModel<T>, r: int, c: int)
        requires
            self.wf(),
            self.models(g),
            g.wf(),
            0 <= r < self.h,
            0 <= c < self.w,
        ensures
            0 <= (self.y0 + r) * self.grid_width + self.x0 + c < self.grid@.len(),
            self.x0 + c < g.width,
            self.y0 + r < g.height,
            self.tile_at(r, c) == g.at(self.x0 + c, self.y0 + r),
    {
        let gw = self.grid_width as int;
        assert(0 <= (self.y0 + r) * gw + self.x0 + c < (self.y0 + self.h) * gw)
            by (nonlinear_arith)
            requires
                gw >= 1,
                0 <= self.y0,
                0 <= r < self.h,
                0 <= self.x0 + c < gw,
        ;
        assert(self.y0 + self.h <= g.height) by (nonlinear_arith)
            requires
                gw >= 1,
                0 <= self.y0,
                self.h >= 1,
                (self.y0 + self.h) * gw <= g.width * g.height,
                gw == g.width,
        ;
        assert(g.tiles[(self.y0 + r) * gw + self.x0 + c]
            == self.grid@.map_values(|t: Tile<T>| t@)[(self.y0 + r) * gw + self.x0 + c]);
    }

    /// Every tile of the window lies inside the grid sequence.
    pub proof fn lemma_index_bound(self, r: int, c: int)
        requires
            self.wf(),
            0 <= r < self.h,
            0 <= c < self.w,
        ensures
            0 <= (self.y0 + r) * self.grid_width + self.x0 + c < self.grid@.len(),
            self.y0 + r <= (self.y0 + r) * self.grid_width,
    {
        let gw = self.grid_width as int;
        assert(0 <= (self.y0 + r) * gw + self.x0 + c < (self.y0 + self.h) * gw
            && self.y0 + r <= (self.y0 + r) * gw)
            by (nonlinear_arith)
            requires
                gw >= 1,
                0 <= self.y0,
                0 <= r < self.h,
                0 <= self.x0 + c < gw,
        ;
    }

    /// Position `k` of the row-major order is the tile in row
    /// `k / w`, column `k % w` of the window.
    pub proof fn lemma_row_major_index(self, k: int)
        requires
            self.wf(),
            0 <= k < self.w * self.h,
        ensures
            0 <= k / (self.w as int) < self.h,
            0 <= k % (self.w as int) < self.w,
            self.row_major()[k] == self.tile_at(k / self.w as int, k % self.w as int),
    {
        vstd::arithmetic::div_mod::lemma_fundamental_div_mod(k, self.w as int);
        vstd::arithmetic::div_mod::lemma_mod_bound(k, self.w as int);
        assert(k / (self.w as int) < self.h) by (nonlinear_arith)
            requires
                self.w >= 1,
                k < self.w * self.h,
                k == self.w * (k / self.w as int) + k % self.w as int,
                0 <= k % self.w as int,
        ;
        assert(0 <= k / self.w as int) by (nonlinear_arith)
            requires
                self.w >= 1,
                0 <= k,
                k == self.w * (k / self.w as int) + k % self.w as int,
                k % (self.w as int) < self.w,
        ;
    }

    /// Row `r`, column `c` of the window sits at position `r * w + c`
    /// of the row-major order.
    pub proof fn lemma_row_major_position(self, r: int, c: int)
        requires
            self.wf(),
            0 <= r < self.h,
            0 <= c < self.w,
        ensures
            0 <= r * self.w + c < self.w * self.h,
            self.row_major()[r * self.w + c] == self.tile_at(r, c),
    {
        assert(0 <= r * self.w + c < self.w * self.h) by (nonlinear_arith)
            requires
                self.w >= 1,
                0 <= r < self.h,
                0 <= c < self.w,
        ;
        vstd::arithmetic::div_mod::lemma_fundamental_div_mod_converse(
            r * self.w + c, self.w as int, r, c);
    }

    /// Position `k` of the column-major order is the tile in row
    /// `k % h`, column `k / h` of the window.
    pub proof fn lemma_col_major_index(self, k: int)
        requires
            self.wf(),
            0 <= k < self.w * self.h,
        ensures
            0 <= k % (self.h as int) < self.h,
            0 <= k / (self.h as int) < self.w,
            self.col_major()[k] == self.tile_at(k % self.h as int, k / self.h as int),
    {
        vstd::arithmetic::div_mod::lemma_fundamental_div_mod(k, self.h as int);
        vstd::arithmetic::div_mod::lemma_mod_bound(k, self.h as int);
        assert(k / (self.h as int) < self.w) by (nonlinear_arith)
            requires
                self.h >= 1,
                k < self.w * self.h,
                k == self.h * (k / self.h as int) + k % self.h as int,
                0 <= k % self.h as int,
        ;
        assert(0 <= k / self.h as int) by (nonlinear_arith)
            requires
                self.h >= 1,
                0 <= k,
                k == self.h * (k / self.h as int) + k % self.h as int,
                k % (self.h as int) < self.h,
        ;
    }

    /// Row `r`, column `c` of the window sits at position `c * h + r`
    /// of the column-major order.
    pub proof fn lemma_col_major_position(self, r: int, c: int)
        requires
            self.wf(),
            0 <= r < self.h,
            0 <= c < self.w,
        ensures
            0 <= c * self.h + r < self.w * self.h,
            self.col_major()[c * self.h + r] == self.tile_at(r, c),
    {
        assert(0 <= c * self.h + r < self.w * self.h) by (nonlinear_arith)
            requires
                self.h >= 1,
                0 <= c < self.w,
                0 <= r < self.h,
        ;
        vstd::arithmetic::div_mod::lemma_fundamental_div_mod_converse(
            c * self.h + r, self.h as int, c, r);
    }

    /// The law of row-major traversal: a span over grid `g` yields
    /// exactly `w * h` tiles, and the `k`-th tile of the row-major
    /// order is the grid tile at column `x0 + k % w`, row
    /// `y0 + k / w` — the rows of the window, left to right, top to
    /// bottom.
    pub proof fn lemma_row_major_tiles(self, g: GridModel<T>)
        requires
            self.wf(),
            self.models(g),
            g.wf(),
        ensures
            self.row_major().len() == self.w * self.h,
            forall|k: int|
                0 <= k < self.w * self.h ==> #[trigger] self.row_major()[k] == g.at(
                    self.x0 + k % self.w as int,
                    self.y0 + k / self.w as int,
                ),
    {
        assert forall|k: int| 0 <= k < self.w * self.h implies #[trigger] self.row_major()[k]
            == g.at(self.x0 + k % self.w as int, self.y0 + k / self.w as int) by {
            self.lemma_row_major_index(k);
            self.lemma_tile_at(g, k / (self.w as int), k % (self.w as int));
        }
    }

    /// The law of column-major traversal: the same span yields the
    /// same `w * h` tiles transposed, the `k`-th tile of the
    /// column-major order being the grid tile at column
    /// `x0 + k / h`, row `y0 + k % h` — the columns of the window,
    /// top to bottom, left to right.
    pub proof fn lemma_col_major_tiles(self, g: GridModel<T>)
        requires
            self.wf(),
            self.models(g),
            g.wf(),
        ensures
            self.col_major().len() == self.w * self.h,
            forall|k: int|
                0 <= k < self.w * self.h ==> #[trigger] self.col_major()[k] == g.at(
                    self.x0 + k / self.h as int,
                    self.y0 + k % self.h as int,
                ),
    {
        assert forall|k: int| 0 <= k < self.w * self.h implies #[trigger] self.col_major()[k]
            == g.at(self.x0 + k / self.h as int, self.y0 + k % self.h as int) by {
            self.lemma_col_major_index(k);
            self.lemma_tile_at(g, k % (self.h as int), k / (self.h as int));
        }
    }

    /// Returns a row-iterator for this span.
    pub fn row_iter(&self) -> (r: RowIter<'wfc, T>)
        requires
            self.wf(),
        ensures
            r.wf(),
            r.span() == *self,
            r.pos() == 0,
    {
        RowIter {
            grid: self.grid,
            grid_width: self.grid_width,
            x0: self.x0,
            y0: self.y0,
            w: self.w,
            h: self.h,
            x: 0,
            y: 0,
        }
    }

    /// Returns a new column-iterator for this span.
    pub fn col_iter(&self) -> (r: ColIter<'wfc, T>)
        requires
            self.wf(),
        ensures
            r.wf(),
            r.span() == *self,
            r.pos() == 0,
    {
        ColIter {
            grid: self.grid,
            grid_width: self.grid_width,
            x0: self.x0,
            y0: self.y0,
            w: self.w,
            h: self.h,
            x: 0,
            y: 0,
        }
    }
}

/// An iterator over the tiles of a `Span` in row-major order. It
/// carries the window geometry of the span it came from and the
/// coordinates of the next tile to yield.
pub struct RowIter<'wfc, T> {
    pub grid: &'wfc Vec<Tile<T>>,
    pub grid_width: usize,
    pub x0: usize,
    pub y0: usize,
    pub w: usize,
    pub h: usize,
    pub x: usize,
    pub y: usize,
}

impl<'wfc, T> RowIter<'wfc, T> {
    /// The window this iterator walks.
    pub open spec fn span(self) -> Span<'wfc, T> {
        Span {
            grid: self.grid,
            grid_width: self.grid_width,
            x0: self.x0,
            y0: self.y0,
            w: self.w,
            h: self.h,
        }
    }

    /// How many tiles were already yielded: the position of the next
    /// tile in the row-major order.
    pub open spec fn pos(self) -> int {
        self.y * self.w + self.x
    }

    /// The window is well formed and the cursor is inside it or just
    /// past its last row.
    pub open spec fn wf(self) -> bool {
        &&& self.span().wf()
        &&& self.x < self.w
        &&& self.y <= self.h
    }

    /// The cursor has rows left exactly while its position is below
    /// the window size.
    proof fn lemma_pos_len(self)
        requires
            self.wf(),
        ensures
            self.y < self.h <==> self.pos() < self.w * self.h,
    {
        assert(self.y < self.h <==> self.y * self.w + self.x < self.w * self.h)
            by (nonlinear_arith)
            requires
                0 <= self.x < self.w,
                0 <= self.y <= self.h,
        ;
    }

    /// Yields the next tile in row-major order, or nothing once the
    /// window is exhausted.
    pub fn next(&mut self) -> (r: Option<&'wfc Tile<T>>)
        requires
            old(self).wf(),
        ensures
            final(self).wf(),
            final(self).span() == old(self).span(),
            old(self).pos() < old(self).span().row_major().len() ==> {
                &&& r matches Some(t) && t@ == old(self).span().row_major()[old(self).pos()]
                &&& final(self).pos() == old(self).pos() + 1
            },
            old(self).pos() >= old(self).span().row_major().len() ==> {
                &&& r is None
                &&& *final(self) == *old(self)
            },
    {
        proof {
            self.lemma_pos_len();
        }
        if self.y < self.h {
            proof {
                self.span().lemma_index_bound(self.y as int, self.x as int);
                self.span().lemma_row_major_position(self.y as int, self.x as int);
            }
            let n = self.grid.len();
            proof {
                assert(self.span().grid@.len() == n as int);
            }
            let t = &self.grid[(self.y0 + self.y) * self.grid_width + self.x0 + self.x];
            if self.x + 1 < self.w {
                self.x = self.x + 1;
            } else {
                self.x = 0;
                self.y = self.y + 1;
            }
            proof {
                let yy = old(self).y as int;
                let ww = self.w as int;
                assert((yy + 1) * ww == yy * ww + ww) by (nonlinear_arith);
            }
            Some(t)
        } else {
            None
        }
    }
}

/// An iterator over the tiles of a `Span` in column-major order: it
/// walks each column top to bottom before moving one column right.
pub struct ColIter<'wfc, T> {
    pub grid: &'wfc Vec<Tile<T>>,
    pub grid_width: usize,
    pub x0: usize,
    pub y0: usize,
    pub w: usize,
    pub h: usize,
    pub x: usize,
    pub y: usize,
}

impl<'wfc, T> ColIter<'wfc, T> {
    /// The window this iterator walks.
    pub open spec fn span(self) -> Span<'wfc, T> {
        Span {
            grid: self.grid,
            grid_width: self.grid_width,
            x0: self.x0,
            y0: self.y0,
            w: self.w,
            h: self.h,
        }
    }

    /// How many tiles were already yielded: the position of the next
    /// tile in the column-major order.
    pub open spec fn pos(self) -> int {
        self.x * self.h + self.y
    }

    /// The window is well formed and the cursor is inside it or just
    /// past its last column.
    pub open spec fn wf(self) -> bool {
        &&& self.span().wf()
        &&& self.y < self.h
        &&& self.x <= self.w
    }

    /// The cursor has columns left exactly while its position is
    /// below the window size.
    proof fn lemma_pos_len(self)
        requires
            self.wf(),
        ensures
            self.x < self.w <==> self.pos() < self.w * self.h,
    {
        assert(self.x < self.w <==> self.x * self.h + self.y < self.w * self.h)
            by (nonlinear_arith)
            requires
                0 <= self.y < self.h,
                0 <= self.x <= self.w,
        ;
    }

    /// Yields the next tile in column-major order, or nothing once
    /// the window is exhausted.
    pub fn next(&mut self) -> (r: Option<&'wfc Tile<T>>)
        requires
            old(self).wf(),
        ensures
            final(self).wf(),
            final(self).span() == old(self).span(),
            old(self).pos() < old(self).span().col_major().len() ==> {
                &&& r matches Some(t) && t@ == old(self).span().col_major()[old(self).pos()]
                &&& final(self).pos() == old(self).pos() + 1
            },
            old(self).pos() >= old(self).span().col_major().len() ==> {
                &&& r is None
                &&& *final(self) == *old(self)
            },
    {
        proof {
            self.lemma_pos_len();
        }
        if self.x < self.w {
            proof {
                self.span().lemma_index_bound(self.y as int, self.x as int);
                self.span().lemma_col_major_position(self.y as int, self.x as int);
            }
            let n = self.grid.len();
            proof {
                assert(self.span().grid@.len() == n as int);
            }
            let t = &self.grid[(self.y0 + self.y) * self.grid_width + self.x0 + self.x];
            if self.y + 1 < self.h {
                self.y = self.y + 1;
            } else {
                self.y = 0;
                self.x = self.x + 1;
            }
            proof {
                let xx = old(self).x as int;
                let hh = self.h as int;
                assert((xx + 1) * hh == xx * hh + hh) by (nonlinear_arith);
            }
            Some(t)
        } else {
            None
        }
    }
}

} // verus!
