//! The tile data model and the collapse engine.

use vstd::prelude::*;

use rand::Rng;

pub mod view;

use view::WfcView;

verus! {

/// A value domain usable by the engine: values can be duplicated and
/// compared, and both operations agree with mathematical equality.
pub trait State: Sized {
    /// Produces a copy of the value.
    fn clone_state(&self) -> (r: Self)
        ensures
            r == *self,
    ;

    /// Decides equality of two values.
    fn eq_state(&self, other: &Self) -> (r: bool)
        ensures
            r == (*self == *other),
    ;
}

impl State for i32 {
    fn clone_state(&self) -> (r: Self) {
        *self
    }

    fn eq_state(&self, other: &Self) -> (r: bool) {
        *self == *other
    }
}

/// The mathematical model of a tile: a committed value, or the
/// sequence of candidate values that remain possible.
pub enum TileView<T> {
    Definite(T),
    Indefinite(Seq<T>),
}

impl<T> TileView<T> {
    /// The candidate sequence of an indefinite tile.
    pub open spec fn cands(self) -> Seq<T>
        recommends
            self is Indefinite,
    {
        self->Indefinite_0
    }

    /// A well-formed tile never repeats a candidate value.
    pub open spec fn wf(self) -> bool {
        self is Indefinite ==> self.cands().no_duplicates()
    }
}

/// One grid cell: either committed to a value, or holding the set of
/// candidate values that are still possible. The candidate vector
/// plays the role of a set: a well-formed tile holds no duplicates.
#[derive(Debug, Clone, PartialEq, Eq)]
pub enum Tile<T> {
    Definite(T),
    Indefinite(Vec<T>),
}

impl<T> View for Tile<T> {
    type V = TileView<T>;

    open spec fn view(&self) -> TileView<T> {
        match self {
            Tile::Definite(v) => TileView::Definite(*v),
            Tile::Indefinite(s) => TileView::Indefinite(s@),
        }
    }
}

impl<T> Tile<T> {
    /// The committed value of a definite tile.
    pub fn as_definite(&self) -> (r: &T)
        requires
            self@ is Definite,
        ensures
            self@ == TileView::Definite(*r),
    {
        match self {
            Tile::Definite(s) => s,
            _ => unreached(),
        }
    }

    /// Consumes a definite tile, yielding its committed value.
    pub fn into_definite(self) -> (r: T)
        requires
            self@ is Definite,
        ensures
            self@ == TileView::Definite(r),
    {
        match self {
            Tile::Definite(s) => s,
            _ => unreached(),
        }
    }

    /// The candidate values of an indefinite tile.
    pub fn as_indefinite(&self) -> (r: &Vec<T>)
        requires
            self@ is Indefinite,
        ensures
            self@ == TileView::Indefinite(r@),
    {
        match self {
            Tile::Indefinite(states) => states,
            _ => unreached(),
        }
    }

    /// Consumes an indefinite tile, yielding its candidate values.
    pub fn into_indefinite(self) -> (r: Vec<T>)
        requires
            self@ is Indefinite,
        ensures
            self@ == TileView::Indefinite(r@),
    {
        match self {
            Tile::Indefinite(states) => states,
            _ => unreached(),
        }
    }
}

/// The mathematical model of the whole map: its dimensions and the
/// tile models in row-major order. Position `(x, y)` lives at linear
/// index `y * width + x`.
pub struct GridModel<T> {
    pub width: nat,
    pub height: nat,
    pub tiles: Seq<TileView<T>>,
}

impl<T> GridModel<T> {
    /// Both dimensions are positive, the tile count is exactly
    /// `width * height`, and every tile is well formed.
    pub open spec fn wf(self) -> bool {
        &&& self.width > 0
        &&& self.height > 0
        &&& self.tiles.len() == self.width * self.height
        &&& forall|i: int| 0 <= i < self.tiles.len() ==> #[trigger] self.tiles[i].wf()
    }

    /// The tile at position `(x, y)`.
    pub open spec fn at(self, x: int, y: int) -> TileView<T>
        recommends
            0 <= x < self.width,
            0 <= y < self.height,
    {
        self.tiles[y * self.width as int + x]
    }

    /// Every tile is committed.
    pub open spec fn solved(self) -> bool {
        forall|i: int| 0 <= i < self.tiles.len() ==> #[trigger] self.tiles[i] is Definite
    }

    /// The grid after committing cell `i` to value `v`.
    pub open spec fn commit(self, i: int, v: T) -> GridModel<T> {
        GridModel { tiles: self.tiles.update(i, TileView::Definite(v)), ..self }
    }
}

/// The rules a consumer supplies to steer the collapse: which values
/// stay legal at a position, and how strongly a tile is constrained.
pub trait WfcRules<T: State>: Sized {
    /// The values legal at position `(x, y)` of grid `g`, as a
    /// duplicate-free sequence. `get_states` must return exactly this,
    /// which pins it to the grid contents alone.
    spec fn states_spec(&self, g: GridModel<T>, x: int, y: int) -> Seq<T>;

    /// The selection score of a tile: a lower score means a more
    /// constrained tile, which the engine collapses first. A constant
    /// (conventionally zero) makes the selection uniformly random.
    spec fn entropy_spec(&self, tile: TileView<T>) -> u64;

    /// Returns the valid states that are possible at `map.pos`.
    fn get_states(&self, map: WfcView<'_, T, Self>) -> (r: Vec<T>)
        requires
            map.wf(),
        ensures
            r@ == self.states_spec(map.wfc.model(), map.pos.0 as int, map.pos.1 as int),
            r@.no_duplicates(),
    ;

    /// Scores a tile for the selection ordering.
    fn entropy(&self, tile: &Tile<T>) -> (r: u64)
        ensures
            r == self.entropy_spec(tile@),
    ;
}

/// The main structure of the collapse engine: the owned grid of tiles
/// and the rule set that drives propagation.
#[derive(Debug)]
pub struct Wfc<T, R> {
    pub width: usize,
    pub height: usize,
    pub rules: R,
    pub map: Vec<Tile<T>>,
}

impl<T, R> Wfc<T, R> {
    /// The mathematical model of the engine's grid.
    pub open spec fn model(self) -> GridModel<T> {
        GridModel {
            width: self.width as nat,
            height: self.height as nat,
            tiles: self.map@.map_values(|t: Tile<T>| t@),
        }
    }

    /// Creates a new engine over a `width * height` grid given in
    /// row-major order. Construction demands positive dimensions, a
    /// tile vector of exactly the right length, and duplicate-free
    /// candidate sets.
    pub fn new(width: usize, height: usize, tiles: Vec<Tile<T>>, rules: R) -> (r: Self)
        requires
            width > 0,
            height > 0,
            tiles@.len() == width * height,
            forall|i: int| 0 <= i < tiles@.len() ==> (#[trigger] tiles@[i]@).wf(),
        ensures
            r.model() == (GridModel {
                width: width as nat,
                height: height as nat,
                tiles: tiles@.map_values(|t: Tile<T>| t@),
            }),
            r.model().wf(),
            r.model().tiles.len() == width * height,
            r.rules == rules,
    {
        Self { map: tiles, width, height, rules }
    }

    /// Returns the width of the map.
    pub fn width(&self) -> (r: usize)
        ensures
            r == self.model().width,
    {
        self.width
    }

    /// Returns the height of the map.
    pub fn height(&self) -> (r: usize)
        ensures
            r == self.model().height,
    {
        self.height
    }

    /// Returns a new view centered at the cell with linear index `idx`.
    pub fn view(&self, idx: usize) -> (r: WfcView<'_, T, R>)
        requires
            self.model().wf(),
            idx < self.model().width * self.model().height,
        ensures
            r.wfc == self,
            r.pos.0 == idx as int % self.model().width as int,
            r.pos.1 == idx as int / self.model().width as int,
            r.wf(),
    {
        assert(idx as int / (self.width as int) < self.height as int) by {
            vstd::arithmetic::div_mod::lemma_multiply_divide_lt(
                idx as int, self.width as int, self.height as int);
        };
        WfcView { pos: (idx % self.width, idx / self.width), wfc: self }
    }

    /// Converts an `(x, y)` coordinate pair into a linear index.
    pub fn xy_pair(&self, x: usize, y: usize) -> (r: usize)
        requires
            self.model().wf(),
            x < self.model().width,
            y < self.model().height,
        ensures
            r == y * self.model().width + x,
            r < self.model().tiles.len(),
    {
        let n = self.map.len();
        proof {
            grid_index_bound(self.model().width as int, self.model().height as int, x as int, y as int);
            assert(self.model().tiles.len() == n as int);
        }
        y * self.width + x
    }
}

/// A rule set that ignores the grid entirely: every queried cell has
/// exactly the single state `0` left. It collapses any grid in one
/// pass and gives the engine's selection no preference.
pub struct FixedRules;

impl WfcRules<i32> for FixedRules {
    open spec fn states_spec(&self, g: GridModel<i32>, x: int, y: int) -> Seq<i32> {
        seq![0i32]
    }

    open spec fn entropy_spec(&self, tile: TileView<i32>) -> u64 {
        0
    }

    #[allow(unused_variables)]
    fn get_states(&self, map: WfcView<'_, i32, Self>) -> (r: Vec<i32>) {
        let mut v: Vec<i32> = Vec::new();
        v.push(0);
        proof {
            assert(v@ =~= seq![0i32]);
        }
        v
    }

    #[allow(unused_variables)]
    fn entropy(&self, tile: &Tile<i32>) -> (r: u64) {
        0
    }
}

/// The result of one collapse attempt.
#[derive(Debug, Clone, Copy, PartialEq, Eq, Structural)]
pub enum StepOutcome {
    /// The step changed the grid and the solve goes on.
    Progress,
    /// Every cell was already committed before the step.
    Solved,
    /// A contradiction arose and no alternative value was left.
    Stuck,
}

/// Relies on rand::Rng::gen_range over the half-open range of the
/// naturals below `n`, which returns a value of that range, and on
/// rand::thread_rng for the generator. Nothing more is assumed: the
/// result depends on the generator's state.
#[verifier::external_body]
fn random_below(n: usize) -> (r: usize)
    requires
        n > 0,
    ensures
        r < n,
{
    rand::thread_rng().gen_range(0..n)
}

/// Index `i` occurs among the collected cell indices.
pub open spec fn touched(ai: Seq<usize>, i: int) -> bool {
    exists|q: int| 0 <= q < ai.len() && ai[q] == i
}

/// The legal values of cell `i` of grid `g` under the rule set.
pub open spec fn cell_states<T: State, R: WfcRules<T>>(rules: R, g: GridModel<T>, i: int) -> Seq<
    T,
> {
    rules.states_spec(g, i % g.width as int, i / g.width as int)
}

/// The tile a recomputed candidate sequence collapses to: committed
/// if exactly one value is left, indefinite otherwise.
pub open spec fn collapse_tile<T>(s: Seq<T>) -> TileView<T> {
    if s.len() == 1 {
        TileView::Definite(s[0])
    } else {
        TileView::Indefinite(s)
    }
}

/// Cell `sel` is indefinite and no indefinite cell scores lower.
pub open spec fn min_entropy_choice<T: State, R: WfcRules<T>>(
    rules: R,
    g: GridModel<T>,
    sel: int,
) -> bool {
    &&& 0 <= sel < g.tiles.len()
    &&& g.tiles[sel] is Indefinite
    &&& forall|j: int|
        0 <= j < g.tiles.len() && (#[trigger] g.tiles[j]) is Indefinite ==> rules.entropy_spec(
            g.tiles[sel],
        ) <= rules.entropy_spec(g.tiles[j])
}

/// Some cell other than `sel`, indefinite in `g`, has no legal value
/// in grid `mid`.
pub open spec fn has_contradiction<T: State, R: WfcRules<T>>(
    rules: R,
    g: GridModel<T>,
    mid: GridModel<T>,
    sel: int,
) -> bool {
    exists|j: int|
        0 <= j < g.tiles.len() && j != sel && (#[trigger] g.tiles[j]) is Indefinite
            && cell_states(rules, mid, j).len() == 0
}

/// Every cell other than `sel` that is indefinite in `g` holds in
/// `g2` exactly the values the rule set allows in grid `mid`.
pub open spec fn propagated<T: State, R: WfcRules<T>>(
    rules: R,
    g: GridModel<T>,
    g2: GridModel<T>,
    mid: GridModel<T>,
    sel: int,
) -> bool {
    forall|j: int|
        0 <= j < g.tiles.len() && j != sel && (#[trigger] g.tiles[j]) is Indefinite ==> {
            let s = cell_states(rules, mid, j);
            &&& s.len() > 0
            &&& g2.tiles[j] == collapse_tile(s)
        }
}

/// One productive step from `g` to `g2`: the lowest-entropy
/// indefinite cell `sel` was committed to its candidate at position
/// `ci`, and either propagation re-derived every other indefinite
/// cell, or a contradiction arose, the commit was undone and the
/// tried value was removed from the cell's candidates.
pub open spec fn step_progress_at<T: State, R: WfcRules<T>>(
    rules: R,
    g: GridModel<T>,
    g2: GridModel<T>,
    sel: int,
    ci: int,
) -> bool {
    &&& min_entropy_choice(rules, g, sel)
    &&& 0 <= ci < g.tiles[sel].cands().len()
    &&& {
        let v = g.tiles[sel].cands()[ci];
        let mid = g.commit(sel, v);
        ||| {
            &&& g2.tiles[sel] == TileView::Definite(v)
            &&& propagated(rules, g, g2, mid, sel)
        }
        ||| {
            &&& has_contradiction(rules, g, mid, sel)
            &&& g.tiles[sel].cands().len() > 1
            &&& g2 == (GridModel {
                tiles: g.tiles.update(sel, TileView::Indefinite(g.tiles[sel].cands().remove(ci))),
                ..g
            })
        }
    }
}

/// Some collapse choice relates `g` to `g2` as one productive step.
pub open spec fn step_progress<T: State, R: WfcRules<T>>(
    rules: R,
    g: GridModel<T>,
    g2: GridModel<T>,
) -> bool {
    exists|sel: int, ci: int| #[trigger] step_progress_at(rules, g, g2, sel, ci)
}

/// A terminally failed step: the selected lowest-entropy cell either
/// had no candidate at all (the grid is unchanged), or had exactly
/// one, whose commit contradicted some other indefinite cell and
/// leaves nothing to retry (the forced commit stays in place).
pub open spec fn step_stuck_at<T: State, R: WfcRules<T>>(
    rules: R,
    g: GridModel<T>,
    g2: GridModel<T>,
    sel: int,
) -> bool {
    &&& min_entropy_choice(rules, g, sel)
    &&& {
        let cands = g.tiles[sel].cands();
        ||| (cands.len() == 0 && g2 == g)
        ||| {
            &&& cands.len() == 1
            &&& has_contradiction(rules, g, g.commit(sel, cands[0]), sel)
            &&& g2 == g.commit(sel, cands[0])
        }
    }
}

/// Some selected cell shows `g2` to be a terminally failed step
/// from `g`.
pub open spec fn step_stuck<T: State, R: WfcRules<T>>(
    rules: R,
    g: GridModel<T>,
    g2: GridModel<T>,
) -> bool {
    exists|sel: int| #[trigger] step_stuck_at(rules, g, g2, sel)
}

/// After a successful collapse (the selected cell stands committed,
/// so the step did not roll back), every cell that the step
/// committed by propagation — indefinite before, definite after, and
/// not the selected cell — had exactly one legal value under the
/// rule set, evaluated against the grid holding the step's own
/// commit, and now holds exactly that value: no cell with several
/// candidates left was silently forced.
pub proof fn lemma_propagation_commits_forced_cells<T: State, R: WfcRules<T>>(
    rules: R,
    g: GridModel<T>,
    g2: GridModel<T>,
    sel: int,
    ci: int,
    j: int,
)
    requires
        step_progress_at(rules, g, g2, sel, ci),
        g2.tiles[sel] == TileView::Definite(g.tiles[sel].cands()[ci]),
        0 <= j < g.tiles.len(),
        j != sel,
        g.tiles[j] is Indefinite,
        g2.tiles[j] is Definite,
    ensures
        cell_states(rules, g.commit(sel, g.tiles[sel].cands()[ci]), j).len() == 1,
        g2.tiles[j] == TileView::Definite(
            cell_states(rules, g.commit(sel, g.tiles[sel].cands()[ci]), j)[0],
        ),
{
    let v = g.tiles[sel].cands()[ci];
    let mid = g.commit(sel, v);
    assert(propagated(rules, g, g2, mid, sel)) by {
        if !propagated(rules, g, g2, mid, sel) {
            // Only the rollback branch of the step is left, and it
            // leaves the selected cell indefinite.
            assert(g2.tiles[sel] is Indefinite);
        }
    }
    let s = cell_states(rules, mid, j);
    assert(g2.tiles[j] == collapse_tile(s));
    if s.len() != 1 {
        assert(g2.tiles[j] == TileView::Indefinite(s));
    }
}

/// A rolled-back step (the selected cell is still indefinite after
/// a productive step) leaves every other cell exactly as it was and
/// strictly shrinks the selected cell's candidate set: the tried
/// value is excluded for good, so a contradiction cannot repeat on
/// the same choice and the state is never corrupted.
pub proof fn lemma_rollback_excludes_tried_value<T: State, R: WfcRules<T>>(
    rules: R,
    g: GridModel<T>,
    g2: GridModel<T>,
    sel: int,
    ci: int,
)
    requires
        g.wf(),
        step_progress_at(rules, g, g2, sel, ci),
        g2.tiles[sel] is Indefinite,
    ensures
        g2.tiles[sel].cands().len() + 1 == g.tiles[sel].cands().len(),
        !g2.tiles[sel].cands().contains(g.tiles[sel].cands()[ci]),
        forall|i: int| 0 <= i < g.tiles.len() && i != sel ==> g2.tiles[i] == #[trigger] g.tiles[i],
{
    let cands = g.tiles[sel].cands();
    let rest = cands.remove(ci);
    assert(g2.tiles[sel] == TileView::Indefinite(rest));
    assert(g.tiles[sel].wf());
    if rest.contains(cands[ci]) {
        let p = choose|p: int| 0 <= p < rest.len() && rest[p] == cands[ci];
        assert(rest[p] == if p < ci {
            cands[p]
        } else {
            cands[p + 1]
        });
    }
}

/// Removing one position from a duplicate-free sequence keeps it
/// duplicate-free.
proof fn lemma_remove_no_duplicates<T>(s: Seq<T>, i: int)
    requires
        s.no_duplicates(),
        0 <= i < s.len(),
    ensures
        s.remove(i).no_duplicates(),
{
    let r = s.remove(i);
    assert forall|p1: int, p2: int|
        0 <= p1 < r.len() && 0 <= p2 < r.len() && p1 != p2 implies r[p1] != r[p2] by {
        assert(r[p1] == if p1 < i {
            s[p1]
        } else {
            s[p1 + 1]
        });
        assert(r[p2] == if p2 < i {
            s[p2]
        } else {
            s[p2 + 1]
        });
    }
}

/// A position inside the grid rectangle has a linear index below
/// `width * height`.
pub proof fn grid_index_bound(width: int, height: int, x: int, y: int)
    requires
        width > 0,
        height > 0,
        0 <= x < width,
        0 <= y < height,
    ensures
        0 <= y * width + x < width * height,
{
    assert(y * width + x < width * height) by (nonlinear_arith)
        requires
            width > 0,
            0 <= x < width,
            0 <= y <= height - 1,
    ;
}

impl<T: State, R: WfcRules<T>> Wfc<T, R> {
    /// Performs one collapse attempt: scores every indefinite cell,
    /// selects one of the lowest-scoring cells at random, commits it
    /// to a randomly chosen candidate, and re-derives every other
    /// indefinite cell's candidates from the rule set. On a
    /// contradiction the tried value is excluded and the commit
    /// undone, unless it was the cell's last candidate, which leaves
    /// the solve stuck.
    #[verifier::loop_isolation(false)]
    #[verifier::rlimit(60)]
    pub fn step(&mut self) -> (r: StepOutcome)
        requires
            old(self).model().wf(),
        ensures
            final(self).rules == old(self).rules,
            final(self).model().wf(),
            final(self).model().width == old(self).model().width,
            final(self).model().height == old(self).model().height,
            (r == StepOutcome::Solved) <==> old(self).model().solved(),
            r == StepOutcome::Solved ==> final(self).model() == old(self).model(),
            r == StepOutcome::Progress ==> step_progress(
                old(self).rules,
                old(self).model(),
                final(self).model(),
            ),
            r == StepOutcome::Stuck ==> step_stuck(
                old(self).rules,
                old(self).model(),
                final(self).model(),
            ),
            forall|i: int|
                0 <= i < old(self).model().tiles.len() && (#[trigger] old(
                    self,
                ).model().tiles[i]) is Definite ==> final(self).model().tiles[i] == old(
                    self,
                ).model().tiles[i],
    {
        let ghost g0 = old(self).model();
        let ghost rl = old(self).rules;
        let n = self.map.len();

        // Score every indefinite cell.
        let mut idxs: Vec<usize> = Vec::new();
        let mut ents: Vec<u64> = Vec::new();
        let mut i: usize = 0;
        while i < n
            invariant
                i <= n,
                *self == *old(self),
                idxs@.len() == ents@.len(),
                forall|k: int|
                    0 <= k < idxs@.len() ==> (#[trigger] idxs@[k]) < i && g0.tiles[idxs@[k] as int] is Indefinite
                        && ents@[k] == rl.entropy_spec(g0.tiles[idxs@[k] as int]),
                forall|k1: int, k2: int|
                    0 <= k1 < k2 < idxs@.len() ==> idxs@[k1] < idxs@[k2],
                forall|j: int|
                    0 <= j < i && (#[trigger] g0.tiles[j]) is Indefinite ==> touched(idxs@, j),
            decreases n - i,
        {
            let indefinite = match &self.map[i] {
                Tile::Indefinite(_) => true,
                Tile::Definite(_) => false,
            };
            let ghost idxs0 = idxs@;
            if indefinite {
                let e = self.rules.entropy(&self.map[i]);
                idxs.push(i);
                ents.push(e);
                proof {
                    assert forall|j: int|
                        0 <= j < i + 1 && (#[trigger] g0.tiles[j]) is Indefinite implies touched(
                        idxs@,
                        j,
                    ) by {
                        if j == i {
                            assert(idxs@[idxs@.len() - 1] == i);
                        } else {
                            assert(touched(idxs0, j));
                            let q = choose|q: int| 0 <= q < idxs0.len() && idxs0[q] == j;
                            assert(idxs@[q] == j);
                        }
                    }
                }
            }
            i = i + 1;
        }

        if idxs.len() == 0 {
            proof {
                assert forall|j: int| 0 <= j < g0.tiles.len() implies (#[trigger] g0.tiles[j]) is Definite by {
                    if g0.tiles[j] is Indefinite {
                        assert(touched(idxs@, j));
                    }
                }
            }
            return StepOutcome::Solved;
        }

        // The lowest score among the indefinite cells.
        let mut min_e: u64 = ents[0];
        let mut k: usize = 1;
        while k < ents.len()
            invariant
                1 <= k <= ents@.len(),
                forall|q: int| 0 <= q < k ==> min_e <= #[trigger] ents@[q],
                exists|q: int| 0 <= q < k && min_e == #[trigger] ents@[q],
            decreases ents@.len() - k,
        {
            if ents[k] < min_e {
                min_e = ents[k];
            }
            k = k + 1;
        }

        // The pool of cells that attain the lowest score.
        let mut pool: Vec<usize> = Vec::new();
        k = 0;
        while k < idxs.len()
            invariant
                k <= idxs@.len(),
                forall|p: int|
                    0 <= p < pool@.len() ==> (#[trigger] pool@[p]) < n
                        && g0.tiles[pool@[p] as int] is Indefinite && rl.entropy_spec(
                        g0.tiles[pool@[p] as int],
                    ) == min_e,
                (exists|q: int| 0 <= q < k && min_e == #[trigger] ents@[q]) ==> pool@.len() > 0,
            decreases idxs@.len() - k,
        {
            if ents[k] == min_e {
                pool.push(idxs[k]);
            }
            k = k + 1;
        }

        // Select one of them at random.
        let sel = pool[random_below(pool.len())];
        proof {
            assert forall|j: int|
                0 <= j < g0.tiles.len() && (#[trigger] g0.tiles[j]) is Indefinite implies rl.entropy_spec(
                g0.tiles[sel as int],
            ) <= rl.entropy_spec(g0.tiles[j]) by {
                assert(touched(idxs@, j));
                let q = choose|q: int| 0 <= q < idxs@.len() && idxs@[q] == j;
                assert(ents@[q] == rl.entropy_spec(g0.tiles[j]));
            }
            assert(min_entropy_choice(rl, g0, sel as int));
            assert(!g0.solved());
        }

        // Commit the selected cell to a random candidate, holding the
        // remaining candidates back as the rollback set.
        let ghost cands = g0.tiles[sel as int].cands();
        let (v, ci, rollback) = {
            let c = self.map[sel].as_indefinite();
            if c.len() == 0 {
                proof {
                    assert(step_stuck_at(rl, g0, g0, sel as int));
                }
                return StepOutcome::Stuck;
            }
            let ci = random_below(c.len());
            let v = c[ci].clone_state();
            let mut rollback: Vec<T> = Vec::new();
            let mut j: usize = 0;
            while j < c.len()
                invariant
                    j <= c@.len(),
                    ci < c@.len(),
                    j <= ci ==> rollback@ == c@.subrange(0, j as int),
                    j > ci ==> rollback@ == c@.subrange(0, ci as int) + c@.subrange(
                        ci as int + 1,
                        j as int,
                    ),
                decreases c@.len() - j,
            {
                if j != ci {
                    rollback.push(c[j].clone_state());
                    proof {
                        if j > ci {
                            assert(rollback@ =~= c@.subrange(0, ci as int) + c@.subrange(
                                ci as int + 1,
                                j as int + 1,
                            ));
                        } else {
                            assert(rollback@ =~= c@.subrange(0, j as int + 1));
                        }
                    }
                } else {
                    proof {
                        assert(rollback@ =~= c@.subrange(0, ci as int) + c@.subrange(
                            ci as int + 1,
                            j as int + 1,
                        ));
                    }
                }
                j = j + 1;
            }
            proof {
                assert(rollback@ =~= cands.remove(ci as int));
            }
            (v, ci, rollback)
        };
        let ghost vg = v;
        self.map[sel] = Tile::Definite(v);
        let ghost mid = g0.commit(sel as int, vg);
        proof {
            assert(self.model().tiles =~= mid.tiles);
            assert(self.model() == mid);
            assert forall|t: int| 0 <= t < mid.tiles.len() implies (#[trigger] mid.tiles[t]).wf() by {
                if t != sel as int {
                    assert(mid.tiles[t] == g0.tiles[t]);
                }
            }
            assert(mid.wf());
        }

        // Re-derive every other cell that was indefinite at the start
        // of the step, all against the same committed snapshot.
        let mut news_idx: Vec<usize> = Vec::new();
        let mut news: Vec<Vec<T>> = Vec::new();
        let mut valid: bool = true;
        k = 0;
        while k < idxs.len() && valid
            invariant
                k <= idxs@.len(),
                self.model() == mid,
                self.rules == rl,
                n == self.map@.len(),
                news_idx@.len() == news@.len(),
                forall|p: int|
                    0 <= p < news_idx@.len() ==> {
                        let ii = #[trigger] news_idx@[p] as int;
                        &&& ii < n
                        &&& ii != sel as int
                        &&& g0.tiles[ii] is Indefinite
                        &&& news@[p]@ == cell_states(rl, mid, ii)
                        &&& news@[p]@.len() > 0
                        &&& news@[p]@.no_duplicates()
                    },
                forall|p1: int, p2: int|
                    0 <= p1 < p2 < news_idx@.len() ==> news_idx@[p1] < news_idx@[p2],
                forall|pp: int|
                    0 <= pp < news_idx@.len() ==> exists|q: int|
                        0 <= q < k && idxs@[q] == #[trigger] news_idx@[pp],
                valid ==> forall|q: int|
                    0 <= q < k && idxs@[q] != sel ==> touched(news_idx@, #[trigger] idxs@[q] as int),
                !valid ==> has_contradiction(rl, g0, mid, sel as int),
            decreases idxs@.len() - k,
        {
            let idx = idxs[k];
            if idx != sel {
                let view = self.view(idx);
                let collapsed = self.rules.get_states(view);
                if collapsed.len() == 0 {
                    valid = false;
                } else {
                    let ghost ni0 = news_idx@;
                    news_idx.push(idx);
                    news.push(collapsed);
                    proof {
                        assert forall|q: int|
                            0 <= q < k + 1 && idxs@[q] != sel implies touched(
                            news_idx@,
                            #[trigger] idxs@[q] as int,
                        ) by {
                            if q < k {
                                assert(touched(ni0, idxs@[q] as int));
                                let pw = choose|pw: int|
                                    0 <= pw < ni0.len() && ni0[pw] == idxs@[q];
                                assert(news_idx@[pw] == idxs@[q]);
                            } else {
                                assert(news_idx@[news_idx@.len() - 1] == idx);
                            }
                        }
                        assert forall|pp: int|
                            0 <= pp < news_idx@.len() implies exists|q: int|
                            0 <= q < k + 1 && idxs@[q] == #[trigger] news_idx@[pp] by {
                            if pp == news_idx@.len() - 1 {
                                assert(idxs@[k as int] == news_idx@[pp]);
                            } else {
                                let qo = choose|qo: int| 0 <= qo < k && idxs@[qo] == ni0[pp];
                                assert(news_idx@[pp] == ni0[pp]);
                                assert(idxs@[qo] == news_idx@[pp]);
                            }
                        }
                        assert forall|p1: int, p2: int|
                            0 <= p1 < p2 < news_idx@.len() implies news_idx@[p1]
                            < news_idx@[p2] by {
                            if p2 == news_idx@.len() - 1 {
                                assert(news_idx@[p1] == ni0[p1]);
                                let q1 = choose|q1: int| 0 <= q1 < k && idxs@[q1] == ni0[p1];
                                assert(idxs@[q1] < idxs@[k as int]);
                            } else {
                                assert(news_idx@[p1] == ni0[p1]);
                                assert(news_idx@[p2] == ni0[p2]);
                            }
                        }
                    }
                }
            }
            k = k + 1;
        }

        if !valid {
            if rollback.len() == 0 {
                proof {
                    assert(cands.len() == 1);
                    assert(cands[0] == vg);
                    assert(step_stuck_at(rl, g0, mid, sel as int));
                }
                return StepOutcome::Stuck;
            }
            self.map[sel] = Tile::Indefinite(rollback);
            proof {
                let g2 = GridModel {
                    tiles: g0.tiles.update(
                        sel as int,
                        TileView::Indefinite(cands.remove(ci as int)),
                    ),
                    ..g0
                };
                assert(self.model().tiles =~= g2.tiles);
                assert(self.model() == g2);
                assert(g0.tiles[sel as int].wf());
                lemma_remove_no_duplicates(cands, ci as int);
                assert forall|t: int| 0 <= t < g2.tiles.len() implies (#[trigger] g2.tiles[t]).wf() by {
                    if t != sel as int {
                        assert(g2.tiles[t] == g0.tiles[t]);
                    }
                }
                assert(step_progress_at(rl, g0, g2, sel as int, ci as int));
            }
            return StepOutcome::Progress;
        }

        // Commit the recomputed candidate sets.
        let ghost all_ai = news_idx@;
        let ghost all_s = news@.map_values(|s: Vec<T>| s@);
        proof {
            assert(all_ai.take(all_ai.len() as int) =~= all_ai);
            assert(all_s.take(all_s.len() as int) =~= all_s);
            assert(all_ai.skip(all_ai.len() as int) =~= Seq::<usize>::empty());
        }
        while news.len() > 0
            invariant
                news_idx@.len() == news@.len(),
                news_idx@.len() <= all_ai.len(),
                news_idx@ == all_ai.take(news_idx@.len() as int),
                news@.map_values(|s: Vec<T>| s@) == all_s.take(news@.len() as int),
                self.rules == rl,
                self.model().width == g0.width,
                self.model().height == g0.height,
                self.model().tiles.len() == g0.tiles.len(),
                forall|t: int|
                    0 <= t < g0.tiles.len() && !touched(
                        all_ai.skip(news_idx@.len() as int),
                        t,
                    ) ==> #[trigger] self.model().tiles[t] == mid.tiles[t],
                forall|q: int|
                    news_idx@.len() <= q < all_ai.len() ==> #[trigger] self.model().tiles[all_ai[q] as int]
                        == collapse_tile(all_s[q]),
            decreases news@.len(),
        {
            let ghost p = news@.len() as int;
            let i = news_idx.pop().unwrap();
            let s = news.pop().unwrap();
            proof {
                assert(news_idx@ =~= all_ai.take(p - 1));
                assert(news@.map_values(|s: Vec<T>| s@) =~= all_s.take(p - 1));
                assert(i == all_ai[p - 1]);
                assert(s@ == all_s[p - 1]);
            }
            let t = if s.len() == 1 {
                let mut s = s;
                let last = s.pop().unwrap();
                Tile::Definite(last)
            } else {
                Tile::Indefinite(s)
            };
            proof {
                assert(t@ == collapse_tile(all_s[p - 1]));
            }
            let ghost prev = self.model();
            self.map[i] = t;
            proof {
                assert(self.model().tiles =~= prev.tiles.update(i as int, t@));
                assert forall|tt: int|
                    0 <= tt < g0.tiles.len() && !touched(all_ai.skip(p - 1), tt) implies #[trigger] self.model().tiles[tt]
                        == mid.tiles[tt] by {
                    assert(!touched(all_ai.skip(p), tt)) by {
                        if touched(all_ai.skip(p), tt) {
                            let q = choose|q: int|
                                0 <= q < all_ai.skip(p).len() && all_ai.skip(p)[q] == tt;
                            assert(all_ai.skip(p - 1)[q + 1] == tt);
                        }
                    }
                    assert(tt != i as int) by {
                        if tt == i as int {
                            assert(all_ai.skip(p - 1)[0] == i);
                        }
                    }
                    assert(prev.tiles[tt] == mid.tiles[tt]);
                    assert(self.model().tiles[tt] == prev.tiles[tt]);
                }
                assert forall|q: int|
                    p - 1 <= q < all_ai.len() implies #[trigger] self.model().tiles[all_ai[q] as int]
                        == collapse_tile(all_s[q]) by {
                    if q == p - 1 {
                        assert(self.model().tiles[i as int] == t@);
                    } else {
                        assert(all_ai[p - 1] < all_ai[q]);
                        assert(prev.tiles[all_ai[q] as int] == collapse_tile(all_s[q]));
                        assert(self.model().tiles[all_ai[q] as int] == prev.tiles[all_ai[q] as int]);
                    }
                }
            }
        }

        proof {
            let gf = self.model();
            assert forall|j: int|
                0 <= j < g0.tiles.len() && j != sel as int && (#[trigger] g0.tiles[j]) is Indefinite implies {
                let s = cell_states(rl, mid, j);
                &&& s.len() > 0
                &&& gf.tiles[j] == collapse_tile(s)
            } by {
                assert(touched(idxs@, j));
                let q = choose|q: int| 0 <= q < idxs@.len() && idxs@[q] == j;
                assert(touched(all_ai, j));
                let p = choose|p: int| 0 <= p < all_ai.len() && all_ai[p] == j;
                assert(all_ai.skip(0) =~= all_ai);
                assert(gf.tiles[all_ai[p] as int] == collapse_tile(all_s[p]));
                assert(all_s[p] == cell_states(rl, mid, j));
            }
            assert(gf.tiles[sel as int] == TileView::Definite(vg)) by {
                assert(all_ai.skip(0) =~= all_ai);
                assert(!touched(all_ai, sel as int));
            }
            assert(step_progress_at(rl, g0, gf, sel as int, ci as int));
            assert forall|t: int| 0 <= t < gf.tiles.len() implies (#[trigger] gf.tiles[t]).wf() by {
                assert(all_ai.skip(0) =~= all_ai);
                if touched(all_ai, t) {
                    let q = choose|q: int| 0 <= q < all_ai.len() && all_ai[q] == t;
                    assert(gf.tiles[all_ai[q] as int] == collapse_tile(all_s[q]));
                } else {
                    assert(gf.tiles[t] == mid.tiles[t]);
                }
            }
            assert forall|t: int|
                0 <= t < g0.tiles.len() && (#[trigger] g0.tiles[t]) is Definite implies gf.tiles[t]
                    == g0.tiles[t] by {
                assert(all_ai.skip(0) =~= all_ai);
                assert(!touched(all_ai, t));
                assert(gf.tiles[t] == mid.tiles[t]);
            }
        }
        StepOutcome::Progress
    }
}

} // verus!
