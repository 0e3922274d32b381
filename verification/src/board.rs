use vstd::prelude::*;
use crate::cell::{Cell, Visibility};
use rand::SeedableRng;

verus! {

/// Where the game stands: still being played, won, or lost.
#[derive(Clone, Copy, Debug, PartialEq, Eq, Structural)]
pub enum State {
    InProgress,
    Victory,
    Defeat,
}

/// What a single board operation reports back to its caller.
#[derive(Clone, Copy, Debug, PartialEq, Eq, Structural)]
pub enum Event {
    Continue,
    InvalidOperation,
    AllMinesCleared,
    SteppedOnMine,
}

/// A rectangular Minesweeper grid. Cells live in one flat buffer, the cell
/// at `(x, y)` with `x < width`, `y < height` standing at index
/// `y * width + x`. The board owns mine placement, the reveal flood fill,
/// and win / loss detection.
///
/// Terminal states do not lock the board: `reveal_cell`, `flag` and
/// `unflag` stay callable on a won or lost board and keep their per-cell
/// visibility bookkeeping, exactly as when the game is in progress. Halting
/// input once the game ends is the caller's concern. Out-of-range
/// coordinates are likewise the caller's concern: every operation requires
/// valid grid coordinates, and the front end checks bounds before calling.
pub struct Board {
    cells: Vec<Cell>,
    width: usize,
    height: usize,
    mines: usize,
    cleared: usize,
    state: State,
}

/// How many of the cells in `s` hold a mine.
pub open spec fn count_mines(s: Seq<Cell>) -> int
    decreases s.len(),
{
    if s.len() == 0 {
        0
    } else {
        count_mines(s.drop_last()) + if s.last().is_mine {
            1int
        } else {
            0int
        }
    }
}

/// How many of the cells in `s` are visible.
pub open spec fn count_visible(s: Seq<Cell>) -> int
    decreases s.len(),
{
    if s.len() == 0 {
        0
    } else {
        count_visible(s.drop_last()) + if s.last().visibility == Visibility::Visible {
            1int
        } else {
            0int
        }
    }
}

/// The cell `(x, y)` of the `w` by `h` grid stored in `s` has a stored
/// neighbour count that agrees with the mines in its Moore neighbourhood.
pub open spec fn cell_count_ok(s: Seq<Cell>, w: int, h: int, x: int, y: int) -> bool {
    s[y * w + x].neighbouring_mines as int == adj_mines(s, w, h, x, y)
}

/// Every cell of the `w` by `h` grid stored in `s` has a stored neighbour
/// count that agrees with the mines in its Moore neighbourhood.
pub open spec fn counts_all_ok(s: Seq<Cell>, w: int, h: int) -> bool {
    forall|x: int, y: int| 0 <= x < w && 0 <= y < h ==> #[trigger] cell_count_ok(s, w, h, x, y)
}

/// Whether `(x, y)` is an in-range position of a `w` by `h` grid stored in
/// `s` and its cell holds a mine.
pub open spec fn mine_at(s: Seq<Cell>, w: int, h: int, x: int, y: int) -> bool {
    &&& 0 <= x < w
    &&& 0 <= y < h
    &&& 0 <= y * w + x < s.len()
    &&& s[y * w + x].is_mine
}

/// How many mines stand in the Moore neighbourhood of `(x, y)`: the up to
/// eight cells horizontally, vertically or diagonally adjacent to it, with
/// neighbours beyond the grid edge skipped.
pub open spec fn adj_mines(s: Seq<Cell>, w: int, h: int, x: int, y: int) -> int {
    (if mine_at(s, w, h, x - 1, y - 1) { 1int } else { 0int })
    + (if mine_at(s, w, h, x, y - 1) { 1int } else { 0int })
    + (if mine_at(s, w, h, x + 1, y - 1) { 1int } else { 0int })
    + (if mine_at(s, w, h, x - 1, y) { 1int } else { 0int })
    + (if mine_at(s, w, h, x + 1, y) { 1int } else { 0int })
    + (if mine_at(s, w, h, x - 1, y + 1) { 1int } else { 0int })
    + (if mine_at(s, w, h, x, y + 1) { 1int } else { 0int })
    + (if mine_at(s, w, h, x + 1, y + 1) { 1int } else { 0int })
}

/// Whether `(x1, y1)` and `(x2, y2)` are distinct cells at Chebyshev
/// distance at most one: each the other's Moore neighbour.
pub open spec fn moore_adj(x1: int, y1: int, x2: int, y2: int) -> bool {
    &&& -1 <= x1 - x2 <= 1
    &&& -1 <= y1 - y2 <= 1
    &&& !(x1 == x2 && y1 == y2)
}

/// Whether `(x, y)` is hidden or flagged on `pre` but visible on `post`.
pub open spec fn newly_visible(pre: Board, post: Board, x: int, y: int) -> bool {
    &&& !pre.is_visible(x, y)
    &&& post.is_visible(x, y)
}

/// The same cell, made visible.
pub open spec fn reveal_one(c: Cell) -> Cell {
    Cell { is_mine: c.is_mine, visibility: Visibility::Visible, neighbouring_mines: c.neighbouring_mines }
}

/// A step from `pre` to `post` did nothing to the grid but reveal cells:
/// every cell is either untouched or the same cell made visible.
pub open spec fn only_revealed_from(pre: Board, post: Board) -> bool {
    &&& post.grid().len() == pre.grid().len()
    &&& forall|i: int|
        0 <= i < pre.grid().len() ==> (#[trigger] post.grid()[i]) == pre.grid()[i]
            || post.grid()[i] == reveal_one(pre.grid()[i])
}

/// Whether `(x2, y2)` borders a zero-neighbour-count cell that the flood
/// fill starting at `(sx, sy)` on `pre` has revealed (or the start itself):
/// the witness that `(x2, y2)` was reached by the fill, not conjured from
/// nowhere.
#[verifier::opaque]
pub open spec fn flood_witness(pre: Board, post: Board, sx: int, sy: int, x2: int, y2: int) -> bool {
    exists|zx: int, zy: int|
        pre.in_bounds(zx, zy) && flood_member(pre, post, sx, sy, zx, zy) && (#[trigger] post.cell_at(
            zx,
            zy,
        )).neighbouring_mines == 0 && moore_adj(zx, zy, x2, y2)
}

/// Whether `(zx, zy)` took part in the flood fill from `(sx, sy)` on `pre`:
/// it is the start itself or a cell the fill revealed.
pub open spec fn flood_member(pre: Board, post: Board, sx: int, sy: int, zx: int, zy: int) -> bool {
    (zx == sx && zy == sy) || newly_visible(pre, post, zx, zy)
}

/// Whether `(x, y)` is among the coordinate pairs of `st`.
pub open spec fn on_stack(st: Seq<(usize, usize)>, x: int, y: int) -> bool {
    exists|j: int| 0 <= j < st.len() && ((#[trigger] st[j]).0 as int) == x && (st[j].1 as int) == y
}

/// The cell one Moore step from `(cx, cy)` in direction `j` of the fixed
/// nine-offset order (`j % 3` the column step, `j / 3` the row step, offset
/// four the centre itself) is visible on `b`, if it lies on the grid.
pub open spec fn offset_visited(b: Board, cx: int, cy: int, j: int) -> bool {
    b.in_bounds(cx + j % 3 - 1, cy + j / 3 - 1) ==> b.is_visible(cx + j % 3 - 1, cy + j / 3 - 1)
}

impl Board {
    /// The grid as a sequence, flat in row-major order.
    pub closed spec fn grid(self) -> Seq<Cell> {
        self.cells@
    }

    pub closed spec fn spec_width(self) -> int {
        self.width as int
    }

    pub closed spec fn spec_height(self) -> int {
        self.height as int
    }

    pub closed spec fn spec_mines(self) -> int {
        self.mines as int
    }

    pub closed spec fn spec_cleared(self) -> int {
        self.cleared as int
    }

    pub closed spec fn spec_state(self) -> State {
        self.state
    }

    /// How many cells the grid has in all.
    pub open spec fn total(self) -> int {
        self.spec_width() * self.spec_height()
    }

    /// How many cells must become visible for victory: every non-mine cell.
    pub open spec fn safe_total(self) -> int {
        self.total() - self.spec_mines()
    }

    pub open spec fn in_bounds(self, x: int, y: int) -> bool {
        &&& 0 <= x < self.spec_width()
        &&& 0 <= y < self.spec_height()
    }

    /// The flat index of `(x, y)`.
    pub open spec fn flat(self, x: int, y: int) -> int {
        y * self.spec_width() + x
    }

    pub open spec fn cell_at(self, x: int, y: int) -> Cell {
        self.grid()[self.flat(x, y)]
    }

    pub open spec fn is_visible(self, x: int, y: int) -> bool {
        self.cell_at(x, y).visibility == Visibility::Visible
    }

    /// Every cell's stored neighbour count agrees with the mines actually
    /// standing in its Moore neighbourhood.
    pub open spec fn counts_ok(self) -> bool {
        counts_all_ok(self.grid(), self.spec_width(), self.spec_height())
    }

    /// The board's invariant: the buffer spans the whole grid, fewer mines
    /// than cells, the mine and cleared counters agree with the cells, and
    /// every neighbour count is correct.
    pub open spec fn wf(self) -> bool {
        &&& self.grid().len() == self.total()
        &&& self.spec_mines() < self.total()
        &&& count_mines(self.grid()) == self.spec_mines()
        &&& count_visible(self.grid()) == self.spec_cleared()
        &&& self.counts_ok()
    }

    /// All nine cells around `(x, y)` (itself included) that lie on the
    /// grid are visible: nothing is left for a flood fill to do here.
    pub open spec fn expanded(self, x: int, y: int) -> bool {
        &&& (self.in_bounds(x - 1, y - 1) ==> self.is_visible(x - 1, y - 1))
        &&& (self.in_bounds(x, y - 1) ==> self.is_visible(x, y - 1))
        &&& (self.in_bounds(x + 1, y - 1) ==> self.is_visible(x + 1, y - 1))
        &&& (self.in_bounds(x - 1, y) ==> self.is_visible(x - 1, y))
        &&& (self.in_bounds(x, y) ==> self.is_visible(x, y))
        &&& (self.in_bounds(x + 1, y) ==> self.is_visible(x + 1, y))
        &&& (self.in_bounds(x - 1, y + 1) ==> self.is_visible(x - 1, y + 1))
        &&& (self.in_bounds(x, y + 1) ==> self.is_visible(x, y + 1))
        &&& (self.in_bounds(x + 1, y + 1) ==> self.is_visible(x + 1, y + 1))
    }

    /// The game state: read-only, no side effects.
    pub fn state(&self) -> (s: State)
        ensures
            s == self.spec_state(),
    {
        self.state
    }

    /// Flag a hidden cell; anything else is rejected. Flagging touches
    /// neither the cleared counter nor the game state.
    pub fn flag(&mut self, x: usize, y: usize) -> (e: Event)
        requires
            old(self).wf(),
            old(self).in_bounds(x as int, y as int),
        ensures
            final(self).wf(),
            final(self).spec_width() == old(self).spec_width(),
            final(self).spec_height() == old(self).spec_height(),
            final(self).spec_mines() == old(self).spec_mines(),
            final(self).spec_cleared() == old(self).spec_cleared(),
            final(self).spec_state() == old(self).spec_state(),
            old(self).cell_at(x as int, y as int).visibility == Visibility::Hidden ==> {
                &&& e == Event::Continue
                &&& final(self).grid() == old(self).grid().update(
                    old(self).flat(x as int, y as int),
                    Cell {
                        visibility: Visibility::Flagged,
                        ..old(self).cell_at(x as int, y as int)
                    },
                )
            },
            old(self).cell_at(x as int, y as int).visibility != Visibility::Hidden ==> {
                &&& e == Event::InvalidOperation
                &&& *final(self) == *old(self)
            },
    {
        let n = self.cells.len();
        proof {
            lemma_flat_index(self.spec_width(), self.spec_height(), x as int, y as int);
        }
        let fi = y * self.width + x;
        if self.cells[fi].visibility == Visibility::Hidden {
            let c = self.cells[fi];
            self.cells.set(
                fi,
                Cell {
                    is_mine: c.is_mine,
                    visibility: Visibility::Flagged,
                    neighbouring_mines: c.neighbouring_mines,
                },
            );
            proof {
                self.lemma_visibility_update_wf(*old(self), fi as int);
            }
            Event::Continue
        } else {
            Event::InvalidOperation
        }
    }

    /// Unflag a flagged cell; anything else is rejected.
    pub fn unflag(&mut self, x: usize, y: usize) -> (e: Event)
        requires
            old(self).wf(),
            old(self).in_bounds(x as int, y as int),
        ensures
            final(self).wf(),
            final(self).spec_width() == old(self).spec_width(),
            final(self).spec_height() == old(self).spec_height(),
            final(self).spec_mines() == old(self).spec_mines(),
            final(self).spec_cleared() == old(self).spec_cleared(),
            final(self).spec_state() == old(self).spec_state(),
            old(self).cell_at(x as int, y as int).visibility == Visibility::Flagged ==> {
                &&& e == Event::Continue
                &&& final(self).grid() == old(self).grid().update(
                    old(self).flat(x as int, y as int),
                    Cell {
                        visibility: Visibility::Hidden,
                        ..old(self).cell_at(x as int, y as int)
                    },
                )
            },
            old(self).cell_at(x as int, y as int).visibility != Visibility::Flagged ==> {
                &&& e == Event::InvalidOperation
                &&& *final(self) == *old(self)
            },
    {
        let n = self.cells.len();
        proof {
            lemma_flat_index(self.spec_width(), self.spec_height(), x as int, y as int);
        }
        let fi = y * self.width + x;
        if self.cells[fi].visibility == Visibility::Flagged {
            let c = self.cells[fi];
            self.cells.set(
                fi,
                Cell {
                    is_mine: c.is_mine,
                    visibility: Visibility::Hidden,
                    neighbouring_mines: c.neighbouring_mines,
                },
            );
            proof {
                self.lemma_visibility_update_wf(*old(self), fi as int);
            }
            Event::Continue
        } else {
            Event::InvalidOperation
        }
    }

    /// Helper for the mutating operations: after one cell's visibility field
    /// changed (all other fields and cells untouched), the counters move by
    /// the change in that one cell and every neighbour count stays correct.
    proof fn lemma_visibility_update_wf(self, pre: Board, i: int)
        requires
            pre.wf(),
            0 <= i < pre.grid().len(),
            self.width == pre.width,
            self.height == pre.height,
            self.mines == pre.mines,
            self.cleared == pre.cleared,
            self.grid().len() == pre.grid().len(),
            self.grid() == pre.grid().update(
                i,
                Cell { visibility: self.grid()[i].visibility, ..pre.grid()[i] },
            ),
        ensures
            count_mines(self.grid()) == count_mines(pre.grid()),
            count_visible(self.grid()) == count_visible(pre.grid()) + (if self.grid()[i].visibility
                == Visibility::Visible {
                1int
            } else {
                0int
            }) - (if pre.grid()[i].visibility == Visibility::Visible {
                1int
            } else {
                0int
            }),
            self.counts_ok(),
            count_visible(self.grid()) <= self.grid().len(),
    {
        lemma_count_mines_update(pre.grid(), i, self.grid()[i]);
        lemma_count_visible_update(pre.grid(), i, self.grid()[i]);
        lemma_count_bounds(self.grid());
        let w = pre.spec_width();
        let h = pre.spec_height();
        assert forall|x: int, y: int| 0 <= x < w && 0 <= y < h implies #[trigger] cell_count_ok(
            self.grid(),
            w,
            h,
            x,
            y,
        ) by {
            lemma_flat_index(w, h, x, y);
            assert(cell_count_ok(pre.grid(), w, h, x, y));
            lemma_adj_mines_same(pre.grid(), self.grid(), w, h, x, y);
        }
    }
}

/// An in-range coordinate pair maps to an in-range flat index.
pub proof fn lemma_flat_index(w: int, h: int, x: int, y: int)
    requires
        0 <= x < w,
        0 <= y < h,
    ensures
        0 <= y * w + x < w * h,
{
    assert(0 <= y * w + x < w * h) by (nonlinear_arith)
        requires
            0 <= x < w,
            0 <= y < h,
    {};
}

/// Distinct in-range coordinate pairs map to distinct flat indices.
pub proof fn lemma_flat_injective(w: int, x1: int, y1: int, x2: int, y2: int)
    requires
        0 <= x1 < w,
        0 <= x2 < w,
        0 <= y1,
        0 <= y2,
        y1 * w + x1 == y2 * w + x2,
    ensures
        x1 == x2 && y1 == y2,
{
    assert(x1 == x2 && y1 == y2) by (nonlinear_arith)
        requires
            0 <= x1 < w,
            0 <= x2 < w,
            0 <= y1,
            0 <= y2,
            y1 * w + x1 == y2 * w + x2,
    {};
}

/// Replacing one cell moves the mine count by the change at that cell.
pub proof fn lemma_count_mines_update(s: Seq<Cell>, i: int, c: Cell)
    requires
        0 <= i < s.len(),
    ensures
        count_mines(s.update(i, c)) == count_mines(s) + (if c.is_mine {
            1int
        } else {
            0int
        }) - (if s[i].is_mine {
            1int
        } else {
            0int
        }),
    decreases s.len(),
{
    let t = s.update(i, c);
    if i == s.len() - 1 {
        assert(t.drop_last() =~= s.drop_last());
    } else {
        assert(t.drop_last() =~= s.drop_last().update(i, c));
        lemma_count_mines_update(s.drop_last(), i, c);
    }
}

/// Replacing one cell moves the visible count by the change at that cell.
pub proof fn lemma_count_visible_update(s: Seq<Cell>, i: int, c: Cell)
    requires
        0 <= i < s.len(),
    ensures
        count_visible(s.update(i, c)) == count_visible(s) + (if c.visibility
            == Visibility::Visible {
            1int
        } else {
            0int
        }) - (if s[i].visibility == Visibility::Visible {
            1int
        } else {
            0int
        }),
    decreases s.len(),
{
    let t = s.update(i, c);
    if i == s.len() - 1 {
        assert(t.drop_last() =~= s.drop_last());
    } else {
        assert(t.drop_last() =~= s.drop_last().update(i, c));
        lemma_count_visible_update(s.drop_last(), i, c);
    }
}

/// Both counters stay between zero and the number of cells.
pub proof fn lemma_count_bounds(s: Seq<Cell>)
    ensures
        0 <= count_mines(s) <= s.len(),
        0 <= count_visible(s) <= s.len(),
    decreases s.len(),
{
    if s.len() > 0 {
        lemma_count_bounds(s.drop_last());
    }
}

/// Neighbour mine counts read only the mine flags: two grids that agree on
/// every mine flag agree on every neighbour count.
pub proof fn lemma_adj_mines_same(s1: Seq<Cell>, s2: Seq<Cell>, w: int, h: int, x: int, y: int)
    requires
        s1.len() == s2.len(),
        forall|i: int| 0 <= i < s1.len() ==> s1[i].is_mine == #[trigger] s2[i].is_mine,
    ensures
        adj_mines(s1, w, h, x, y) == adj_mines(s2, w, h, x, y),
{
}

/// No neighbour of a cell whose neighbour count is zero holds a mine: the
/// reason a flood fill can never reveal a mine.
pub proof fn lemma_zero_count_neighbours_safe(b: Board, x: int, y: int, nx: int, ny: int)
    requires
        b.wf(),
        b.in_bounds(x, y),
        b.cell_at(x, y).neighbouring_mines == 0,
        b.in_bounds(nx, ny),
        moore_adj(x, y, nx, ny),
    ensures
        !b.cell_at(nx, ny).is_mine,
{
    lemma_flat_index(b.spec_width(), b.spec_height(), nx, ny);
    lemma_flat_index(b.spec_width(), b.spec_height(), x, y);
    assert(cell_count_ok(b.grid(), b.spec_width(), b.spec_height(), x, y));
    assert(b.cell_at(x, y).neighbouring_mines as int == adj_mines(
        b.grid(),
        b.spec_width(),
        b.spec_height(),
        x,
        y,
    ));
    assert(mine_at(b.grid(), b.spec_width(), b.spec_height(), nx, ny) == b.cell_at(
        nx,
        ny,
    ).is_mine);
}

/// Pushing keeps every coordinate pair on the stack, and puts the new one on.
proof fn lemma_on_stack_push(st: Seq<(usize, usize)>, e: (usize, usize), x: int, y: int)
    requires
        on_stack(st, x, y) || ((e.0 as int) == x && (e.1 as int) == y),
    ensures
        on_stack(st.push(e), x, y),
{
    if on_stack(st, x, y) {
        let j = choose|j: int|
            0 <= j < st.len() && ((#[trigger] st[j]).0 as int) == x && (st[j].1 as int) == y;
        assert((st.push(e)[j].0 as int) == x && (st.push(e)[j].1 as int) == y);
    } else {
        assert((st.push(e)[st.len() as int].0 as int) == x && (st.push(e)[st.len() as int].1 as int)
            == y);
    }
}

/// Popping loses at most the popped coordinate pair.
proof fn lemma_on_stack_pop(st: Seq<(usize, usize)>, x: int, y: int)
    requires
        st.len() > 0,
        on_stack(st, x, y),
    ensures
        on_stack(st.subrange(0, st.len() - 1), x, y) || ((st[st.len() - 1].0 as int) == x && (st[st.len()
            - 1].1 as int) == y),
{
    let j = choose|j: int|
        0 <= j < st.len() && ((#[trigger] st[j]).0 as int) == x && (st[j].1 as int) == y;
    if j < st.len() - 1 {
        assert((st.subrange(0, st.len() - 1)[j].0 as int) == x && (st.subrange(0, st.len() - 1)[j].1
            as int) == y);
    }
}

/// The coordinate one Moore step from `v` in direction `d` (`0` back, `1`
/// in place, `2` forward), or `None` where that step leaves `0..bound`.
fn neighbour_coord(v: usize, d: usize, bound: usize) -> (r: Option<usize>)
    requires
        v < bound,
        d < 3,
    ensures
        match r {
            Some(u) => u < bound && (u as int) == v + d - 1,
            None => !(0 <= v + d - 1 < bound),
        },
{
    if d == 0 {
        if v >= 1 {
            Some(v - 1)
        } else {
            None
        }
    } else if d == 1 {
        Some(v)
    } else {
        if v + 1 < bound {
            Some(v + 1)
        } else {
            None
        }
    }
}


/// Two boards of the same shape that differ in at most the cell `(nx, ny)`
/// agree on every other cell.
proof fn lemma_cell_at_other(pre: Board, post: Board, nx: int, ny: int, x2: int, y2: int)
    requires
        pre.grid().len() == pre.total(),
        post.spec_width() == pre.spec_width(),
        post.spec_height() == pre.spec_height(),
        pre.in_bounds(nx, ny),
        pre.in_bounds(x2, y2),
        !(x2 == nx && y2 == ny),
        post.grid() == pre.grid().update(pre.flat(nx, ny), post.grid()[pre.flat(nx, ny)]),
    ensures
        post.cell_at(x2, y2) == pre.cell_at(x2, y2),
{
    lemma_flat_index(pre.spec_width(), pre.spec_height(), nx, ny);
    lemma_flat_index(pre.spec_width(), pre.spec_height(), x2, y2);
    if pre.flat(x2, y2) == pre.flat(nx, ny) {
        lemma_flat_injective(pre.spec_width(), x2, y2, nx, ny);
    }
}

/// A step that only reveals cells never hides one.
proof fn lemma_vis_monotone(pre: Board, post: Board, x2: int, y2: int)
    requires
        only_revealed_from(pre, post),
        pre.grid().len() == pre.total(),
        post.spec_width() == pre.spec_width(),
        post.spec_height() == pre.spec_height(),
        pre.in_bounds(x2, y2),
        pre.is_visible(x2, y2),
    ensures
        post.is_visible(x2, y2),
{
    lemma_flat_index(pre.spec_width(), pre.spec_height(), x2, y2);
    assert(post.grid()[pre.flat(x2, y2)] == pre.grid()[pre.flat(x2, y2)] || post.grid()[pre.flat(
        x2,
        y2,
    )] == reveal_one(pre.grid()[pre.flat(x2, y2)]));
}

impl Board {
    /// The flood fill behind `reveal_cell`: starting from an already visible cell
    /// with a zero neighbour count, reveal every neighbour of a revealed
    /// zero-count cell, working through an explicit worklist so the stack
    /// depth stays bounded whatever the region's size.
    #[verifier::rlimit(100)]
    fn clear_plains(&mut self, x: usize, y: usize)
        requires
            old(self).wf(),
            old(self).in_bounds(x as int, y as int),
            old(self).is_visible(x as int, y as int),
            old(self).cell_at(x as int, y as int).neighbouring_mines == 0,
        ensures
            final(self).wf(),
            final(self).spec_width() == old(self).spec_width(),
            final(self).spec_height() == old(self).spec_height(),
            final(self).spec_mines() == old(self).spec_mines(),
            final(self).spec_state() == old(self).spec_state(),
            only_revealed_from(*old(self), *final(self)),
            forall|x2: int, y2: int|
                old(self).in_bounds(x2, y2) && #[trigger] newly_visible(
                    *old(self),
                    *final(self),
                    x2,
                    y2,
                ) ==> !final(self).cell_at(x2, y2).is_mine,
            forall|zx: int, zy: int|
                old(self).in_bounds(zx, zy) && #[trigger] flood_member(
                    *old(self),
                    *final(self),
                    x as int,
                    y as int,
                    zx,
                    zy,
                ) && final(self).cell_at(zx, zy).neighbouring_mines == 0 ==> final(self).expanded(
                    zx,
                    zy,
                ),
            forall|x2: int, y2: int|
                old(self).in_bounds(x2, y2) && #[trigger] newly_visible(
                    *old(self),
                    *final(self),
                    x2,
                    y2,
                ) ==> flood_witness(*old(self), *final(self), x as int, y as int, x2, y2),
    {
        let ghost o = *old(self);
        let mut stack: Vec<(usize, usize)> = Vec::new();
        stack.push((x, y));
        proof {
            assert((stack@[0].0 as int) == x as int && (stack@[0].1 as int) == y as int);
            assert(on_stack(stack@, x as int, y as int));
        }
        while stack.len() != 0
            invariant
                o.wf(),
                o.in_bounds(x as int, y as int),
                o.is_visible(x as int, y as int),
                self.wf(),
                self.spec_width() == o.spec_width(),
                self.spec_height() == o.spec_height(),
                self.spec_mines() == o.spec_mines(),
                self.spec_state() == o.spec_state(),
                only_revealed_from(o, *self),
                forall|x2: int, y2: int|
                    o.in_bounds(x2, y2) && #[trigger] newly_visible(o, *self, x2, y2)
                        ==> !self.cell_at(x2, y2).is_mine,
                forall|j: int|
                    0 <= j < stack@.len() ==> {
                        &&& o.in_bounds(((#[trigger] stack@[j]).0 as int), (stack@[j].1 as int))
                        &&& self.cell_at(
                            (stack@[j].0 as int),
                            (stack@[j].1 as int),
                        ).neighbouring_mines == 0
                        &&& self.is_visible((stack@[j].0 as int), (stack@[j].1 as int))
                        &&& flood_member(
                            o,
                            *self,
                            x as int,
                            y as int,
                            (stack@[j].0 as int),
                            (stack@[j].1 as int),
                        )
                    },
                forall|zx: int, zy: int|
                    o.in_bounds(zx, zy) && #[trigger] flood_member(o, *self, x as int, y as int, zx, zy)
                        && self.cell_at(zx, zy).neighbouring_mines == 0 ==> on_stack(stack@, zx, zy)
                        || self.expanded(zx, zy),
                forall|x2: int, y2: int|
                    o.in_bounds(x2, y2) && #[trigger] newly_visible(o, *self, x2, y2)
                        ==> flood_witness(o, *self, x as int, y as int, x2, y2),
            decreases self.grid().len() - count_visible(self.grid()), stack@.len(),
        {
            proof {
                lemma_count_bounds(self.grid());
            }
            let ghost stack_full = stack@;
            let cur = stack.pop().unwrap();
            let (cx, cy) = cur;
            proof {
                assert(stack@ =~= stack_full.subrange(0, stack_full.len() - 1));
                assert forall|zx: int, zy: int|
                    o.in_bounds(zx, zy) && #[trigger] flood_member(o, *self, x as int, y as int, zx, zy)
                        && self.cell_at(zx, zy).neighbouring_mines == 0 implies on_stack(
                    stack@,
                    zx,
                    zy,
                ) || self.expanded(zx, zy) || (zx == cx as int && zy == cy as int) by {
                    if on_stack(stack_full, zx, zy) {
                        lemma_on_stack_pop(stack_full, zx, zy);
                    }
                }
            }
            let ghost vis0 = count_visible(self.grid());
            let ghost l0 = stack@.len();
            let mut k: usize = 0;
            while k < 9
                invariant
                    o.wf(),
                    o.in_bounds(x as int, y as int),
                    o.is_visible(x as int, y as int),
                    self.wf(),
                    self.spec_width() == o.spec_width(),
                    self.spec_height() == o.spec_height(),
                    self.spec_mines() == o.spec_mines(),
                    self.spec_state() == o.spec_state(),
                    only_revealed_from(o, *self),
                    k <= 9,
                    o.in_bounds(cx as int, cy as int),
                    self.cell_at(cx as int, cy as int).neighbouring_mines == 0,
                    self.is_visible(cx as int, cy as int),
                    flood_member(o, *self, x as int, y as int, cx as int, cy as int),
                    count_visible(self.grid()) >= vis0,
                    stack@.len() <= l0 + count_visible(self.grid()) - vis0,
                    forall|j: int| 0 <= j < k ==> offset_visited(*self, cx as int, cy as int, j),
                    forall|x2: int, y2: int|
                        o.in_bounds(x2, y2) && #[trigger] newly_visible(o, *self, x2, y2)
                            ==> !self.cell_at(x2, y2).is_mine,
                    forall|j: int|
                        0 <= j < stack@.len() ==> {
                            &&& o.in_bounds(((#[trigger] stack@[j]).0 as int), (stack@[j].1 as int))
                            &&& self.cell_at(
                                (stack@[j].0 as int),
                                (stack@[j].1 as int),
                            ).neighbouring_mines == 0
                            &&& self.is_visible((stack@[j].0 as int), (stack@[j].1 as int))
                            &&& flood_member(
                                o,
                                *self,
                                x as int,
                                y as int,
                                (stack@[j].0 as int),
                                (stack@[j].1 as int),
                            )
                        },
                    forall|zx: int, zy: int|
                        o.in_bounds(zx, zy) && #[trigger] flood_member(
                            o,
                            *self,
                            x as int,
                            y as int,
                            zx,
                            zy,
                        ) && self.cell_at(zx, zy).neighbouring_mines == 0 ==> on_stack(stack@, zx, zy)
                            || self.expanded(zx, zy) || (zx == cx as int && zy == cy as int),
                    forall|x2: int, y2: int|
                        o.in_bounds(x2, y2) && #[trigger] newly_visible(o, *self, x2, y2)
                            ==> flood_witness(o, *self, x as int, y as int, x2, y2),
                decreases 9 - k,
            {
                let dx = k % 3;
                let dy = k / 3;
                let ghost prev = *self;
                let ghost stack_prev = stack@;
                let maybe_nx = neighbour_coord(cx, dx, self.width);
                let maybe_ny = neighbour_coord(cy, dy, self.height);
                if let (Some(nx), Some(ny)) = (maybe_nx, maybe_ny) {
                    proof {
                        lemma_flat_index(self.spec_width(), self.spec_height(), nx as int, ny as int);
                    }
                    let n = self.cells.len();
                    let fi = ny * self.width + nx;
                    if self.cells[fi].visibility != Visibility::Visible {
                        proof {
                            assert(!(nx as int == cx as int && ny as int == cy as int));
                            lemma_zero_count_neighbours_safe(
                                *self,
                                cx as int,
                                cy as int,
                                nx as int,
                                ny as int,
                            );
                        }
                        let c = self.cells[fi];
                        self.cells.set(
                            fi,
                            Cell {
                                is_mine: c.is_mine,
                                visibility: Visibility::Visible,
                                neighbouring_mines: c.neighbouring_mines,
                            },
                        );
                        proof {
                            self.lemma_visibility_update_wf(prev, fi as int);
                        }
                        self.cleared = self.cleared + 1;
                        let count0 = self.cells[fi].neighbouring_mines == 0;
                        if count0 {
                            stack.push((nx, ny));
                        }
                        proof {
                            let w = o.spec_width();
                            let h = o.spec_height();
                            let nxi = nx as int;
                            let nyi = ny as int;
                            assert(self.grid() == prev.grid().update(
                                prev.flat(nxi, nyi),
                                self.grid()[prev.flat(nxi, nyi)],
                            ));
                            assert(self.cell_at(nxi, nyi) == reveal_one(prev.cell_at(nxi, nyi)));
                            assert(!prev.is_visible(nxi, nyi));
                            if o.is_visible(nxi, nyi) {
                                lemma_vis_monotone(o, prev, nxi, nyi);
                            }
                            assert(newly_visible(o, *self, nxi, nyi));
                            // the grids only reveal, composed across the step
                            assert forall|i: int| 0 <= i < o.grid().len() implies (#[trigger] self.grid()[i])
                                == o.grid()[i] || self.grid()[i] == reveal_one(o.grid()[i]) by {
                                assert(prev.grid()[i] == o.grid()[i] || prev.grid()[i] == reveal_one(
                                    o.grid()[i],
                                ));
                            }
                            // every cell but the marked one is untouched
                            assert forall|x2: int, y2: int|
                                o.in_bounds(x2, y2) && !(x2 == nxi && y2 == nyi) implies #[trigger] self.cell_at(
                                x2,
                                y2,
                            ) == prev.cell_at(x2, y2) by {
                                lemma_cell_at_other(prev, *self, nxi, nyi, x2, y2);
                            }
                            // no revealed mine
                            assert forall|x2: int, y2: int|
                                o.in_bounds(x2, y2) && #[trigger] newly_visible(o, *self, x2, y2)
                                    implies !self.cell_at(x2, y2).is_mine by {
                                if !(x2 == nxi && y2 == nyi) {
                                    assert(newly_visible(o, prev, x2, y2));
                                }
                            }
                            // every newly revealed cell has its flood witness
                            assert forall|x2: int, y2: int|
                                o.in_bounds(x2, y2) && #[trigger] newly_visible(o, *self, x2, y2)
                                    implies flood_witness(o, *self, x as int, y as int, x2, y2) by {
                                reveal(flood_witness);
                                if x2 == nxi && y2 == nyi {
                                    assert(self.cell_at(cx as int, cy as int).neighbouring_mines
                                        == 0);
                                    assert(moore_adj(cx as int, cy as int, x2, y2));
                                    assert(flood_member(o, *self, x as int, y as int, cx as int, cy as int));
                                } else {
                                    assert(newly_visible(o, prev, x2, y2));
                                    assert(flood_witness(o, prev, x as int, y as int, x2, y2));
                                    let (zx, zy) = choose|zx: int, zy: int|
                                        o.in_bounds(zx, zy) && flood_member(o, prev, x as int, y as int, zx, zy)
                                            && (#[trigger] prev.cell_at(zx, zy)).neighbouring_mines
                                            == 0 && moore_adj(zx, zy, x2, y2);
                                    if zx == nxi && zy == nyi {
                                        assert(prev.is_visible(zx, zy) || (zx == x as int && zy == y as int));
                                        assert(o.is_visible(x as int, y as int));
                                        lemma_vis_monotone(o, prev, x as int, y as int);
                                        assert(false);
                                    }
                                    assert(self.cell_at(zx, zy) == prev.cell_at(zx, zy));
                                    assert(flood_member(o, *self, x as int, y as int, zx, zy));
                                    assert((#[trigger] self.cell_at(zx, zy)).neighbouring_mines == 0
                                        && moore_adj(zx, zy, x2, y2));
                                }
                            }
                            // stack elements keep their properties
                            assert forall|j: int| 0 <= j < stack@.len() implies {
                                &&& o.in_bounds(((#[trigger] stack@[j]).0 as int), (stack@[j].1 as int))
                                &&& self.cell_at(
                                    (stack@[j].0 as int),
                                    (stack@[j].1 as int),
                                ).neighbouring_mines == 0
                                &&& self.is_visible((stack@[j].0 as int), (stack@[j].1 as int))
                                &&& flood_member(
                                    o,
                                    *self,
                                    x as int,
                                    y as int,
                                    (stack@[j].0 as int),
                                    (stack@[j].1 as int),
                                )
                            } by {
                                if count0 && j == stack@.len() - 1 {
                                    assert(stack@[j] == (nx, ny));
                                } else {
                                    assert(stack@[j] == stack_prev[j]);
                                    let sx = stack@[j].0 as int;
                                    let sy = stack@[j].1 as int;
                                    if !(sx == nxi && sy == nyi) {
                                        assert(self.cell_at(sx, sy) == prev.cell_at(sx, sy));
                                    }
                                    if o.is_visible(sx, sy) || prev.is_visible(sx, sy) {
                                        lemma_vis_monotone(prev, *self, sx, sy);
                                    }
                                }
                            }
                            // worklist completeness
                            assert forall|zx: int, zy: int|
                                o.in_bounds(zx, zy) && #[trigger] flood_member(
                                    o,
                                    *self,
                                    x as int,
                                    y as int,
                                    zx,
                                    zy,
                                ) && self.cell_at(zx, zy).neighbouring_mines == 0 implies on_stack(
                                stack@,
                                zx,
                                zy,
                            ) || self.expanded(zx, zy) || (zx == cx as int && zy == cy as int) by {
                                if zx == nxi && zy == nyi {
                                    if count0 {
                                        lemma_on_stack_push(stack_prev, (nx, ny), zx, zy);
                                        assert(on_stack(stack@, zx, zy));
                                    }
                                } else {
                                    assert(self.cell_at(zx, zy) == prev.cell_at(zx, zy));
                                    assert(flood_member(o, prev, x as int, y as int, zx, zy));
                                    if on_stack(stack_prev, zx, zy) {
                                        if count0 {
                                            lemma_on_stack_push(stack_prev, (nx, ny), zx, zy);
                                        }
                                        assert(on_stack(stack@, zx, zy));
                                    } else if prev.expanded(zx, zy) {
                                        assert forall|ex: int, ey: int|
                                            o.in_bounds(ex, ey) && -1 <= ex - zx <= 1 && -1 <= ey - zy
                                                <= 1 && prev.is_visible(ex, ey) implies #[trigger] self.is_visible(
                                            ex,
                                            ey,
                                        ) by {
                                            lemma_vis_monotone(prev, *self, ex, ey);
                                        }
                                        assert(self.expanded(zx, zy));
                                    }
                                }
                            }
                            // visited offsets stay visible
                            assert forall|j: int| 0 <= j < k + 1 implies offset_visited(
                                *self,
                                cx as int,
                                cy as int,
                                j,
                            ) by {
                                let ox = cx as int + j % 3 - 1;
                                let oy = cy as int + j / 3 - 1;
                                if j < k {
                                    assert(offset_visited(prev, cx as int, cy as int, j));
                                    if o.in_bounds(ox, oy) && prev.is_visible(ox, oy) {
                                        lemma_vis_monotone(prev, *self, ox, oy);
                                    }
                                } else {
                                    assert(ox == nxi && oy == nyi);
                                    assert(self.is_visible(nxi, nyi));
                                }
                            }
                            if o.is_visible(cx as int, cy as int) || prev.is_visible(cx as int, cy as int) {
                                lemma_vis_monotone(prev, *self, cx as int, cy as int);
                            }
                        }
                    } else {
                        proof {
                            assert forall|j: int| 0 <= j < k + 1 implies offset_visited(
                                *self,
                                cx as int,
                                cy as int,
                                j,
                            ) by {
                                if j == k {
                                    assert(self.is_visible(cx as int + j % 3 - 1, cy as int + j / 3 - 1));
                                }
                            }
                        }
                    }
                } else {
                    proof {
                        assert forall|j: int| 0 <= j < k + 1 implies offset_visited(
                            *self,
                            cx as int,
                            cy as int,
                            j,
                        ) by {
                            if j == k {
                                assert(!self.in_bounds(cx as int + j % 3 - 1, cy as int + j / 3 - 1));
                            }
                        }
                    }
                }
                k = k + 1;
            }
            proof {
                assert(offset_visited(*self, cx as int, cy as int, 0));
                assert(offset_visited(*self, cx as int, cy as int, 1));
                assert(offset_visited(*self, cx as int, cy as int, 2));
                assert(offset_visited(*self, cx as int, cy as int, 3));
                assert(offset_visited(*self, cx as int, cy as int, 4));
                assert(offset_visited(*self, cx as int, cy as int, 5));
                assert(offset_visited(*self, cx as int, cy as int, 6));
                assert(offset_visited(*self, cx as int, cy as int, 7));
                assert(offset_visited(*self, cx as int, cy as int, 8));
                assert(self.expanded(cx as int, cy as int));
                lemma_count_bounds(self.grid());
            }
        }
    }

    /// Reveal the cell at `(x, y)`: the one state-machine step of the game.
    ///
    /// An already visible cell is rejected; a flagged cell is revealable by
    /// design, the flag does not shield it. Otherwise the cell becomes
    /// visible: a mine loses the game at once; the last remaining safe cell
    /// wins it; a safe cell with no neighbouring mines flood fills its
    /// surroundings first, and the game is also won when that fill reveals
    /// the last safe cell.
    #[verifier::rlimit(50)]
    pub fn reveal_cell(&mut self, x: usize, y: usize) -> (e: Event)
        requires
            old(self).wf(),
            old(self).in_bounds(x as int, y as int),
        ensures
            final(self).wf(),
            final(self).spec_width() == old(self).spec_width(),
            final(self).spec_height() == old(self).spec_height(),
            final(self).spec_mines() == old(self).spec_mines(),
            only_revealed_from(*old(self), *final(self)),
            final(self).is_visible(x as int, y as int),
            old(self).is_visible(x as int, y as int) ==> {
                &&& *final(self) == *old(self)
                &&& e == Event::InvalidOperation
            },
            (!old(self).is_visible(x as int, y as int) && old(self).cell_at(
                x as int,
                y as int,
            ).is_mine) ==> {
                &&& final(self).grid() == old(self).grid().update(
                    old(self).flat(x as int, y as int),
                    reveal_one(old(self).cell_at(x as int, y as int)),
                )
                &&& final(self).spec_cleared() == old(self).spec_cleared() + 1
                &&& final(self).spec_state() == State::Defeat
                &&& e == Event::SteppedOnMine
            },
            (!old(self).is_visible(x as int, y as int) && !old(self).cell_at(
                x as int,
                y as int,
            ).is_mine && old(self).spec_cleared() + 1 >= old(self).safe_total()) ==> {
                &&& final(self).grid() == old(self).grid().update(
                    old(self).flat(x as int, y as int),
                    reveal_one(old(self).cell_at(x as int, y as int)),
                )
                &&& final(self).spec_cleared() == old(self).spec_cleared() + 1
                &&& final(self).spec_state() == State::Victory
                &&& e == Event::AllMinesCleared
            },
            (!old(self).is_visible(x as int, y as int) && !old(self).cell_at(
                x as int,
                y as int,
            ).is_mine && old(self).spec_cleared() + 1 < old(self).safe_total() && old(self).cell_at(
                x as int,
                y as int,
            ).neighbouring_mines != 0) ==> {
                &&& final(self).grid() == old(self).grid().update(
                    old(self).flat(x as int, y as int),
                    reveal_one(old(self).cell_at(x as int, y as int)),
                )
                &&& final(self).spec_cleared() == old(self).spec_cleared() + 1
                &&& final(self).spec_state() == old(self).spec_state()
                &&& e == Event::Continue
            },
            (!old(self).is_visible(x as int, y as int) && !old(self).cell_at(
                x as int,
                y as int,
            ).is_mine && old(self).spec_cleared() + 1 < old(self).safe_total() && old(self).cell_at(
                x as int,
                y as int,
            ).neighbouring_mines == 0) ==> {
                &&& newly_visible(*old(self), *final(self), x as int, y as int)
                &&& forall|x2: int, y2: int|
                    old(self).in_bounds(x2, y2) && #[trigger] newly_visible(
                        *old(self),
                        *final(self),
                        x2,
                        y2,
                    ) ==> !final(self).cell_at(x2, y2).is_mine
                &&& forall|zx: int, zy: int|
                    old(self).in_bounds(zx, zy) && #[trigger] flood_member(
                        *old(self),
                        *final(self),
                        x as int,
                        y as int,
                        zx,
                        zy,
                    ) && final(self).cell_at(zx, zy).neighbouring_mines == 0
                        ==> final(self).expanded(zx, zy)
                &&& forall|x2: int, y2: int|
                    old(self).in_bounds(x2, y2) && #[trigger] newly_visible(
                        *old(self),
                        *final(self),
                        x2,
                        y2,
                    ) && !(x2 == x as int && y2 == y as int) ==> flood_witness(
                        *old(self),
                        *final(self),
                        x as int,
                        y as int,
                        x2,
                        y2,
                    )
                &&& (final(self).spec_cleared() >= final(self).safe_total() ==> {
                    &&& final(self).spec_state() == State::Victory
                    &&& e == Event::AllMinesCleared
                })
                &&& (final(self).spec_cleared() < final(self).safe_total() ==> {
                    &&& final(self).spec_state() == old(self).spec_state()
                    &&& e == Event::Continue
                })
            },
    {
        let ghost o = *old(self);
        let n = self.cells.len();
        proof {
            lemma_flat_index(self.spec_width(), self.spec_height(), x as int, y as int);
        }
        let fi = y * self.width + x;
        if self.cells[fi].visibility == Visibility::Visible {
            Event::InvalidOperation
        } else {
            let c = self.cells[fi];
            self.cells.set(
                fi,
                Cell {
                    is_mine: c.is_mine,
                    visibility: Visibility::Visible,
                    neighbouring_mines: c.neighbouring_mines,
                },
            );
            proof {
                self.lemma_visibility_update_wf(o, fi as int);
                assert(self.cell_at(x as int, y as int) == reveal_one(o.cell_at(x as int, y as int)));
            }
            self.cleared = self.cleared + 1;
            let ghost mid = *self;
            if c.is_mine {
                self.state = State::Defeat;
                Event::SteppedOnMine
            } else if self.cleared >= self.width * self.height - self.mines {
                self.state = State::Victory;
                Event::AllMinesCleared
            } else if c.neighbouring_mines == 0 {
                self.clear_plains(x, y);
                proof {
                    let xi = x as int;
                    let yi = y as int;
                    let f = *self;
                    assert forall|i: int| 0 <= i < o.grid().len() implies (#[trigger] f.grid()[i])
                        == o.grid()[i] || f.grid()[i] == reveal_one(o.grid()[i]) by {
                        assert(f.grid()[i] == mid.grid()[i] || f.grid()[i] == reveal_one(
                            mid.grid()[i],
                        ));
                        assert(mid.grid()[i] == o.grid()[i] || mid.grid()[i] == reveal_one(
                            o.grid()[i],
                        ));
                    }
                    assert(only_revealed_from(o, f));
                    lemma_vis_monotone(mid, f, xi, yi);
                    assert forall|x2: int, y2: int|
                        o.in_bounds(x2, y2) && #[trigger] newly_visible(o, f, x2, y2) implies !f.cell_at(
                        x2,
                        y2,
                    ).is_mine by {
                        if !(x2 == xi && y2 == yi) {
                            lemma_cell_at_other(o, mid, xi, yi, x2, y2);
                            if o.is_visible(x2, y2) {
                                lemma_vis_monotone(o, mid, x2, y2);
                            }
                            assert(newly_visible(mid, f, x2, y2));
                        } else {
                            lemma_flat_index(o.spec_width(), o.spec_height(), xi, yi);
                        }
                    }
                    assert forall|zx: int, zy: int|
                        o.in_bounds(zx, zy) && #[trigger] flood_member(o, f, xi, yi, zx, zy)
                            && f.cell_at(zx, zy).neighbouring_mines == 0 implies f.expanded(
                        zx,
                        zy,
                    ) by {
                        if zx == xi && zy == yi {
                            assert(flood_member(mid, f, xi, yi, zx, zy));
                        } else {
                            lemma_cell_at_other(o, mid, xi, yi, zx, zy);
                            if o.is_visible(zx, zy) {
                                lemma_vis_monotone(o, mid, zx, zy);
                            }
                            assert(newly_visible(mid, f, zx, zy));
                            assert(flood_member(mid, f, xi, yi, zx, zy));
                        }
                    }
                    assert forall|x2: int, y2: int|
                        o.in_bounds(x2, y2) && #[trigger] newly_visible(o, f, x2, y2) && !(x2 == xi
                            && y2 == yi) implies flood_witness(o, f, xi, yi, x2, y2) by {
                        reveal(flood_witness);
                        lemma_cell_at_other(o, mid, xi, yi, x2, y2);
                        if o.is_visible(x2, y2) {
                            lemma_vis_monotone(o, mid, x2, y2);
                        }
                        assert(newly_visible(mid, f, x2, y2));
                        assert(flood_witness(mid, f, xi, yi, x2, y2));
                        let (zx, zy) = choose|zx: int, zy: int|
                            mid.in_bounds(zx, zy) && flood_member(mid, f, xi, yi, zx, zy) && (
                            #[trigger] f.cell_at(zx, zy)).neighbouring_mines == 0 && moore_adj(
                                zx,
                                zy,
                                x2,
                                y2,
                            );
                        if !(zx == xi && zy == yi) {
                            assert(newly_visible(mid, f, zx, zy));
                            lemma_cell_at_other(o, mid, xi, yi, zx, zy);
                            if o.is_visible(zx, zy) {
                                lemma_vis_monotone(o, mid, zx, zy);
                            }
                        }
                        assert(flood_member(o, f, xi, yi, zx, zy));
                        assert((#[trigger] f.cell_at(zx, zy)).neighbouring_mines == 0 && moore_adj(
                            zx,
                            zy,
                            x2,
                            y2,
                        ));
                    }
                }
                let ghost g = *self;
                if self.cleared >= self.width * self.height - self.mines {
                    self.state = State::Victory;
                    proof {
                        let xi = x as int;
                        let yi = y as int;
                        let f = *self;
                        assert(f.grid() == g.grid());
                        assert forall|x2: int, y2: int|
                            o.in_bounds(x2, y2) && #[trigger] newly_visible(o, f, x2, y2) implies !f.cell_at(
                            x2,
                            y2,
                        ).is_mine by {
                            assert(newly_visible(o, g, x2, y2));
                        }
                        assert forall|zx: int, zy: int|
                            o.in_bounds(zx, zy) && #[trigger] flood_member(o, f, xi, yi, zx, zy)
                                && f.cell_at(zx, zy).neighbouring_mines == 0 implies f.expanded(
                            zx,
                            zy,
                        ) by {
                            assert(flood_member(o, g, xi, yi, zx, zy));
                            assert(g.cell_at(zx, zy).neighbouring_mines == 0);
                            assert(g.expanded(zx, zy));
                            assert(f.expanded(zx, zy));
                        }
                        assert forall|x2: int, y2: int|
                            o.in_bounds(x2, y2) && #[trigger] newly_visible(o, f, x2, y2) && !(x2
                                == xi && y2 == yi) implies flood_witness(o, f, xi, yi, x2, y2) by {
                            reveal(flood_witness);
                            assert(newly_visible(o, g, x2, y2));
                            assert(flood_witness(o, g, xi, yi, x2, y2));
                            let (zx, zy) = choose|zx: int, zy: int|
                                o.in_bounds(zx, zy) && flood_member(o, g, xi, yi, zx, zy) && (
                                #[trigger] g.cell_at(zx, zy)).neighbouring_mines == 0 && moore_adj(
                                    zx,
                                    zy,
                                    x2,
                                    y2,
                                );
                            assert(flood_member(o, f, xi, yi, zx, zy));
                            assert((#[trigger] f.cell_at(zx, zy)).neighbouring_mines == 0
                                && moore_adj(zx, zy, x2, y2));
                        }
                    }
                    Event::AllMinesCleared
                } else {
                    Event::Continue
                }
            } else {
                Event::Continue
            }
        }
    }
}

} // verus!

verus! {

/// Whether some entry of `locs` names the flat index `i`.
pub open spec fn mine_listed(locs: Seq<usize>, i: int) -> bool {
    exists|m: int| 0 <= m < locs.len() && ((#[trigger] locs[m]) as int) == i
}

/// Where a sampled index lands once the guaranteed-safe cell `(x0, y0)` is
/// excluded: an index that names `(x0, y0)` is remapped to the grid's final
/// cell, every other index stands for itself.
pub open spec fn place_loc(r: int, w: int, h: int, x0: int, y0: int) -> int {
    if r % w == x0 && r / w == y0 {
        w * h - 1
    } else {
        r
    }
}

/// Distinct sampled indices land on distinct cells: the remap is injective
/// on `0 .. w * h - 1`, because the grid's final cell is itself outside
/// that index range.
proof fn lemma_place_loc_injective(r1: int, r2: int, w: int, h: int, x0: int, y0: int)
    requires
        w >= 1,
        h >= 1,
        0 <= r1 < w * h - 1,
        0 <= r2 < w * h - 1,
        r1 != r2,
    ensures
        place_loc(r1, w, h, x0, y0) != place_loc(r2, w, h, x0, y0),
{
    vstd::arithmetic::div_mod::lemma_fundamental_div_mod(r1, w);
    vstd::arithmetic::div_mod::lemma_fundamental_div_mod(r2, w);
}

/// No sampled index lands on the excluded cell `(x0, y0)`.
proof fn lemma_place_loc_avoids(r: int, w: int, h: int, x0: int, y0: int)
    requires
        w >= 1,
        h >= 1,
        0 <= x0 < w,
        0 <= y0 < h,
        0 <= r < w * h - 1,
    ensures
        place_loc(r, w, h, x0, y0) != y0 * w + x0,
{
    vstd::arithmetic::div_mod::lemma_fundamental_div_mod(r, w);
    if r % w == x0 && r / w == y0 {
        assert(r == w * y0 + x0);
        assert(y0 * w + x0 < w * h - 1);
    } else {
        if r == y0 * w + x0 {
            vstd::arithmetic::div_mod::lemma_fundamental_div_mod_converse(r, w, y0, x0);
        }
    }
}

/// Two grids that agree pointwise on the mine flags hold the same number of
/// mines.
proof fn lemma_count_mines_pointwise(s1: Seq<Cell>, s2: Seq<Cell>)
    requires
        s1.len() == s2.len(),
        forall|i: int| 0 <= i < s1.len() ==> s1[i].is_mine == (#[trigger] s2[i]).is_mine,
    ensures
        count_mines(s1) == count_mines(s2),
    decreases s1.len(),
{
    if s1.len() > 0 {
        assert forall|i: int| 0 <= i < s1.drop_last().len() implies s1.drop_last()[i].is_mine == (
        #[trigger] s2.drop_last()[i]).is_mine by {
            assert(s1.drop_last()[i] == s1[i]);
            assert(s2.drop_last()[i] == s2[i]);
        }
        lemma_count_mines_pointwise(s1.drop_last(), s2.drop_last());
    }
}

/// A grid with no visible cell has a zero visible count.
proof fn lemma_count_visible_hidden(s: Seq<Cell>)
    requires
        forall|i: int| 0 <= i < s.len() ==> (#[trigger] s[i]).visibility != Visibility::Visible,
    ensures
        count_visible(s) == 0,
    decreases s.len(),
{
    if s.len() > 0 {
        assert forall|i: int| 0 <= i < s.drop_last().len() implies (#[trigger] s.drop_last()[i])
            .visibility != Visibility::Visible by {
            assert(s.drop_last()[i] == s[i]);
        }
        lemma_count_visible_hidden(s.drop_last());
    }
}

/// Relies on rand::seq::index::sample, driven by a fresh SmallRng seeded
/// from entropy: it returns exactly `amount` distinct indices sampled from
/// `0..length`, in an order nothing here depends on, and panics only when
/// `amount > length`, which the precondition rules out.
#[verifier::external_body]
fn sample_indices(length: usize, amount: usize) -> (r: Vec<usize>)
    requires
        amount <= length,
    ensures
        r@.len() == amount,
        forall|i: int| 0 <= i < r@.len() ==> (#[trigger] r@[i]) < length,
        forall|i: int, j: int| 0 <= i < j < r@.len() ==> r@[i] != r@[j],
{
    rand::seq::index::sample(&mut rand::rngs::SmallRng::from_entropy(), length, amount).into_vec()
}

/// Whether the Moore neighbour of `(x, y)` one step in direction
/// `(dx, dy)` (each `0` back, `1` in place, `2` forward) lies on the grid
/// and holds a mine.
fn mine_bit(cells: &Vec<Cell>, width: usize, height: usize, x: usize, y: usize, dx: usize, dy: usize) -> (b:
    bool)
    requires
        (cells@.len() as int) == (width as int) * (height as int),
        x < width,
        y < height,
        dx < 3,
        dy < 3,
    ensures
        b == mine_at(
            cells@,
            width as int,
            height as int,
            x as int + dx as int - 1,
            y as int + dy as int - 1,
        ),
{
    let n = cells.len();
    let mx = neighbour_coord(x, dx, width);
    let my = neighbour_coord(y, dy, height);
    match (mx, my) {
        (Some(nx), Some(ny)) => {
            proof {
                lemma_flat_index(width as int, height as int, nx as int, ny as int);
            }
            cells[ny * width + nx].is_mine
        },
        _ => false,
    }
}

/// The exact number of mines among the Moore neighbours of `(x, y)`.
fn count_neighbour_mines(cells: &Vec<Cell>, width: usize, height: usize, x: usize, y: usize) -> (n:
    u8)
    requires
        (cells@.len() as int) == (width as int) * (height as int),
        x < width,
        y < height,
    ensures
        n as int == adj_mines(cells@, width as int, height as int, x as int, y as int),
{
    let mut n: u8 = 0;
    if mine_bit(cells, width, height, x, y, 0, 0) {
        n = n + 1;
    }
    if mine_bit(cells, width, height, x, y, 1, 0) {
        n = n + 1;
    }
    if mine_bit(cells, width, height, x, y, 2, 0) {
        n = n + 1;
    }
    if mine_bit(cells, width, height, x, y, 0, 1) {
        n = n + 1;
    }
    if mine_bit(cells, width, height, x, y, 2, 1) {
        n = n + 1;
    }
    if mine_bit(cells, width, height, x, y, 0, 2) {
        n = n + 1;
    }
    if mine_bit(cells, width, height, x, y, 1, 2) {
        n = n + 1;
    }
    if mine_bit(cells, width, height, x, y, 2, 2) {
        n = n + 1;
    }
    n
}

/// Walk the whole grid and store in every cell the count of mines among its
/// Moore neighbours. Mine flags and visibility are untouched.
fn fill_counts(cells: &mut Vec<Cell>, width: usize, height: usize)
    requires
        (old(cells)@.len() as int) == (width as int) * (height as int),
    ensures
        final(cells)@.len() == old(cells)@.len(),
        forall|i: int|
            0 <= i < old(cells)@.len() ==> (#[trigger] final(cells)@[i]).is_mine == old(
                cells,
            )@[i].is_mine && final(cells)@[i].visibility == old(cells)@[i].visibility,
        counts_all_ok(final(cells)@, width as int, height as int),
{
    let ghost orig = cells@;
    let total = cells.len();
    let mut i: usize = 0;
    while i < total
        invariant
            cells@.len() == orig.len(),
            (orig.len() as int) == (width as int) * (height as int),
            total == orig.len(),
            i <= total,
            forall|j: int|
                0 <= j < orig.len() ==> (#[trigger] cells@[j]).is_mine == orig[j].is_mine
                    && cells@[j].visibility == orig[j].visibility,
            forall|x: int, y: int|
                0 <= x < width && 0 <= y < height && y * (width as int) + x < i as int
                    ==> #[trigger] cell_count_ok(cells@, width as int, height as int, x, y),
        decreases total - i,
    {
        let x = i % width;
        let yy = i / width;
        proof {
            vstd::arithmetic::div_mod::lemma_fundamental_div_mod(i as int, width as int);
            assert((i as int) / (width as int) < height as int) by (nonlinear_arith)
                requires
                    (i as int) < (width as int) * (height as int),
                    width as int >= 1,
                    (i as int) == (width as int) * ((i as int) / (width as int)) + (i as int) % (
                    width as int),
                    0 <= (i as int) % (width as int) < width as int,
            {};
        }
        let cnt = count_neighbour_mines(cells, width, height, x, yy);
        let ghost prev = cells@;
        let c = cells[i];
        cells.set(
            i,
            Cell { is_mine: c.is_mine, visibility: c.visibility, neighbouring_mines: cnt },
        );
        proof {
            assert forall|x2: int, y2: int|
                0 <= x2 < width && 0 <= y2 < height && y2 * (width as int) + x2 < i + 1 implies #[trigger] cell_count_ok(
                cells@,
                width as int,
                height as int,
                x2,
                y2,
            ) by {
                lemma_flat_index(width as int, height as int, x2, y2);
                lemma_adj_mines_same(prev, cells@, width as int, height as int, x2, y2);
                if y2 * (width as int) + x2 < i as int {
                    assert(cell_count_ok(prev, width as int, height as int, x2, y2));
                    assert(cells@[y2 * (width as int) + x2] == prev[y2 * (width as int) + x2]);
                } else {
                    vstd::arithmetic::div_mod::lemma_fundamental_div_mod(i as int, width as int);
                    assert((yy as int) == (i as int) / (width as int));
                    assert((x as int) == (i as int) % (width as int));
                    assert((yy as int) * (width as int) + (x as int) == (i as int))
                        by (nonlinear_arith)
                        requires
                            (i as int) == (width as int) * ((i as int) / (width as int)) + (
                            i as int) % (width as int),
                            (yy as int) == (i as int) / (width as int),
                            (x as int) == (i as int) % (width as int),
                    {};
                    assert(y2 * (width as int) + x2 == i as int);
                    lemma_flat_injective(width as int, x2, y2, x as int, yy as int);
                    assert(x2 == x as int && y2 == yy as int);
                    assert(cells@[y2 * (width as int) + x2].neighbouring_mines == cnt);
                }
            }
        }
        i = i + 1;
    }
    proof {
        assert forall|x: int, y: int| 0 <= x < width && 0 <= y < height implies #[trigger] cell_count_ok(
            cells@,
            width as int,
            height as int,
            x,
            y,
        ) by {
            lemma_flat_index(width as int, height as int, x, y);
        }
    }
}

impl Board {
    /// Build a board from an explicit list of distinct mine positions,
    /// given as flat indices. This is the deterministic heart of both
    /// random constructors: it places the listed mines, computes every
    /// neighbour count, and leaves every cell hidden.
    pub fn from_mine_locations(locs: &Vec<usize>, width: usize, height: usize) -> (b: Board)
        requires
            (locs@.len() as int) < (width as int) * (height as int),
            (width as int) * (height as int) <= usize::MAX,
            forall|i: int|
                0 <= i < locs@.len() ==> ((#[trigger] locs@[i]) as int) < (width as int) * (
                height as int),
            forall|i: int, j: int| 0 <= i < j < locs@.len() ==> locs@[i] != locs@[j],
        ensures
            b.wf(),
            b.spec_width() == width,
            b.spec_height() == height,
            b.spec_mines() == locs@.len(),
            b.spec_cleared() == 0,
            b.spec_state() == State::InProgress,
            forall|i: int|
                0 <= i < b.grid().len() ==> ((#[trigger] b.grid()[i]).is_mine <==> mine_listed(
                    locs@,
                    i,
                )),
            forall|i: int|
                0 <= i < b.grid().len() ==> (#[trigger] b.grid()[i]).visibility
                    == Visibility::Hidden,
    {
        let total = width * height;
        let mut cells: Vec<Cell> = Vec::new();
        let mut i: usize = 0;
        while i < total
            invariant
                cells@.len() == i as int,
                i <= total,
                forall|j: int|
                    0 <= j < i as int ==> (#[trigger] cells@[j]) == (Cell {
                        is_mine: false,
                        visibility: Visibility::Hidden,
                        neighbouring_mines: 0u8,
                    }),
            decreases total - i,
        {
            cells.push(Cell::new(false));
            i = i + 1;
        }
        proof {
            lemma_count_mines_zero(cells@);
        }
        let mut k: usize = 0;
        while k < locs.len()
            invariant
                cells@.len() == total as int,
                (total as int) == (width as int) * (height as int),
                k <= locs@.len(),
                (locs@.len() as int) < (width as int) * (height as int),
                forall|i2: int|
                    0 <= i2 < locs@.len() ==> ((#[trigger] locs@[i2]) as int) < (width as int) * (
                    height as int),
                forall|i2: int, j2: int| 0 <= i2 < j2 < locs@.len() ==> locs@[i2] != locs@[j2],
                forall|j: int|
                    0 <= j < cells@.len() ==> (#[trigger] cells@[j]).visibility
                        == Visibility::Hidden && cells@[j].neighbouring_mines == 0,
                forall|j: int|
                    0 <= j < cells@.len() ==> ((#[trigger] cells@[j]).is_mine <==> exists|m: int|
                        0 <= m < k as int && ((#[trigger] locs@[m]) as int) == j),
                count_mines(cells@) == k as int,
            decreases locs@.len() - k,
        {
            let loc = locs[k];
            let c = cells[loc];
            let ghost prev = cells@;
            proof {
                if cells@[loc as int].is_mine {
                    let m = choose|m: int|
                        0 <= m < k as int && ((#[trigger] locs@[m]) as int) == loc as int;
                    assert(locs@[m] == locs@[k as int]);
                    assert(false);
                }
                lemma_count_mines_update(
                    cells@,
                    loc as int,
                    Cell {
                        is_mine: true,
                        visibility: c.visibility,
                        neighbouring_mines: c.neighbouring_mines,
                    },
                );
            }
            cells.set(
                loc,
                Cell {
                    is_mine: true,
                    visibility: c.visibility,
                    neighbouring_mines: c.neighbouring_mines,
                },
            );
            k = k + 1;
            proof {
                assert forall|j: int|
                    0 <= j < cells@.len() implies ((#[trigger] cells@[j]).is_mine <==> exists|m: int|
                        0 <= m < k as int && ((#[trigger] locs@[m]) as int) == j) by {
                    if j == loc as int {
                        assert(((#[trigger] locs@[k as int - 1]) as int) == j);
                    } else {
                        assert(cells@[j] == prev[j]);
                        if exists|m: int|
                            0 <= m < k as int && ((#[trigger] locs@[m]) as int) == j {
                            let m = choose|m: int|
                                0 <= m < k as int && ((#[trigger] locs@[m]) as int) == j;
                            assert(m < k as int - 1);
                        }
                    }
                }
            }
        }
        let ghost placed = cells@;
        fill_counts(&mut cells, width, height);
        proof {
            lemma_count_mines_pointwise(placed, cells@);
            lemma_count_visible_hidden(cells@);
        }
        let b = Board {
            cells,
            width,
            height,
            mines: locs.len(),
            cleared: 0,
            state: State::InProgress,
        };
        proof {
            assert(b.grid() == cells@);
            assert forall|i: int|
                0 <= i < b.grid().len() implies ((#[trigger] b.grid()[i]).is_mine <==> mine_listed(
                locs@,
                i,
            )) by {
                assert(b.grid()[i].is_mine == placed[i].is_mine);
            }
        }
        b
    }
}

impl Board {
    /// A fresh board: `mines` cells drawn uniformly at random, without
    /// replacement, from the whole `width` by `height` grid; every cell
    /// hidden; every neighbour count filled in.
    pub fn new(mines: usize, width: usize, height: usize) -> (b: Board)
        requires
            (mines as int) < (width as int) * (height as int),
            (width as int) * (height as int) <= usize::MAX,
        ensures
            b.wf(),
            b.spec_width() == width,
            b.spec_height() == height,
            b.spec_mines() == mines,
            b.spec_cleared() == 0,
            b.spec_state() == State::InProgress,
            forall|i: int|
                0 <= i < b.grid().len() ==> (#[trigger] b.grid()[i]).visibility
                    == Visibility::Hidden,
    {
        let total = width * height;
        let locs = sample_indices(total, mines);
        Board::from_mine_locations(&locs, width, height)
    }

    /// Like `new`, but the mines are drawn from the grid without the cell
    /// `(x, y)`: a sampled index that lands on `(x, y)` is remapped to the
    /// grid's final cell, so the first click at `(x, y)` is never a mine.
    pub fn new_with_clear(mines: usize, width: usize, height: usize, x: usize, y: usize) -> (b:
        Board)
        requires
            (mines as int) < (width as int) * (height as int),
            (width as int) * (height as int) <= usize::MAX,
            x < width,
            y < height,
        ensures
            b.wf(),
            b.spec_width() == width,
            b.spec_height() == height,
            b.spec_mines() == mines,
            b.spec_cleared() == 0,
            b.spec_state() == State::InProgress,
            forall|i: int|
                0 <= i < b.grid().len() ==> (#[trigger] b.grid()[i]).visibility
                    == Visibility::Hidden,
            !b.cell_at(x as int, y as int).is_mine,
    {
        let total = width * height;
        let raw = sample_indices(total - 1, mines);
        let mut locs: Vec<usize> = Vec::new();
        let mut k: usize = 0;
        while k < raw.len()
            invariant
                locs@.len() == k as int,
                k <= raw@.len(),
                raw@.len() == mines as int,
                (total as int) == (width as int) * (height as int),
                (mines as int) < (width as int) * (height as int),
                x < width,
                y < height,
                forall|i: int| 0 <= i < raw@.len() ==> (#[trigger] raw@[i]) < total - 1,
                forall|i: int, j: int| 0 <= i < j < raw@.len() ==> raw@[i] != raw@[j],
                forall|i: int|
                    0 <= i < k as int ==> ((#[trigger] locs@[i]) as int) == place_loc(
                        raw@[i] as int,
                        width as int,
                        height as int,
                        x as int,
                        y as int,
                    ),
            decreases raw@.len() - k,
        {
            let r = raw[k];
            let lx = r % width;
            let ly = r / width;
            let loc = if lx == x && ly == y {
                total - 1
            } else {
                r
            };
            locs.push(loc);
            k = k + 1;
        }
        proof {
            let w = width as int;
            let h = height as int;
            assert forall|i: int, j: int| 0 <= i < j < locs@.len() implies locs@[i] != locs@[j] by {
                lemma_place_loc_injective(raw@[i] as int, raw@[j] as int, w, h, x as int, y as int);
            }
            assert forall|i: int| 0 <= i < locs@.len() implies ((#[trigger] locs@[i]) as int) < w
                * h by {
                assert(((#[trigger] raw@[i]) as int) < w * h - 1);
            }
        }
        let b = Board::from_mine_locations(&locs, width, height);
        proof {
            let w = width as int;
            let h = height as int;
            let fi = (y as int) * w + (x as int);
            lemma_flat_index(w, h, x as int, y as int);
            if mine_listed(locs@, fi) {
                let m = choose|m: int| 0 <= m < locs@.len() && ((#[trigger] locs@[m]) as int) == fi;
                lemma_place_loc_avoids(raw@[m] as int, w, h, x as int, y as int);
            }
        }
        b
    }

    pub fn width(&self) -> (w: usize)
        ensures
            w as int == self.spec_width(),
    {
        self.width
    }

    pub fn height(&self) -> (h: usize)
        ensures
            h as int == self.spec_height(),
    {
        self.height
    }

    pub fn mines(&self) -> (m: usize)
        ensures
            m as int == self.spec_mines(),
    {
        self.mines
    }

    /// How many cells are visible so far.
    pub fn cleared(&self) -> (c: usize)
        ensures
            c as int == self.spec_cleared(),
    {
        self.cleared
    }

    /// Read one cell, for rendering.
    pub fn get(&self, x: usize, y: usize) -> (c: Cell)
        requires
            self.wf(),
            self.in_bounds(x as int, y as int),
        ensures
            c == self.cell_at(x as int, y as int),
    {
        let n = self.cells.len();
        proof {
            lemma_flat_index(self.spec_width(), self.spec_height(), x as int, y as int);
        }
        self.cells[y * self.width + x]
    }
}

/// An all-blank grid holds no mine.
proof fn lemma_count_mines_zero(s: Seq<Cell>)
    requires
        forall|i: int| 0 <= i < s.len() ==> !(#[trigger] s[i]).is_mine,
    ensures
        count_mines(s) == 0,
    decreases s.len(),
{
    if s.len() > 0 {
        assert forall|i: int| 0 <= i < s.drop_last().len() implies !(#[trigger] s.drop_last()[i])
            .is_mine by {
            assert(s.drop_last()[i] == s[i]);
        }
        lemma_count_mines_zero(s.drop_last());
    }
}

} // verus!
