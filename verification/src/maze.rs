//! The labyrinth: a grid of cells with four walls each, carved into a perfect
//! maze by a randomized depth-first search, then opened to the outside at
//! three exits.

use crate::inventory::{cell_at, lemma_cell_at_bounds, lemma_cell_at_order};
use crate::rng::Dice;
use vstd::prelude::*;

verus! {

/// One maze cell; `walls` are north, east, south, west.
#[derive(Clone, Copy, Debug)]
pub struct Cell {
    pub walls: [bool; 4],
}

/// A `w` x `h` maze stored row-major.
#[derive(Clone, Debug)]
pub struct Maze {
    pub w: u32,
    pub h: u32,
    pub cells: Vec<Cell>,
}

/// Column offset of direction `d` (north 0, east 1, south 2, west 3).
pub open spec fn dx(d: int) -> int {
    if d == 1 {
        1
    } else if d == 3 {
        -1
    } else {
        0
    }
}

/// Row offset of direction `d` (north is up, towards row 0).
pub open spec fn dy(d: int) -> int {
    if d == 0 {
        -1
    } else if d == 2 {
        1
    } else {
        0
    }
}

/// The direction opposite to `d`.
pub open spec fn opp(d: int) -> int {
    if d < 2 {
        d + 2
    } else {
        d - 2
    }
}

/// (`x`, `y`) is a cell of a `w` x `h` grid.
pub open spec fn in_grid(w: int, h: int, x: int, y: int) -> bool {
    0 <= x < w && 0 <= y < h
}

/// The wall of cell (`x`, `y`) facing direction `d` stands.
pub open spec fn wall(w: int, cells: Seq<Cell>, x: int, y: int, d: int) -> bool {
    cells[cell_at(w, x, y)].walls@[d]
}

/// One can walk from (`x1`, `y1`) to the adjacent (`x2`, `y2`) through an
/// open wall of the first cell.
pub open spec fn open_step(w: int, h: int, cells: Seq<Cell>, x1: int, y1: int, x2: int, y2: int) -> bool {
    &&& in_grid(w, h, x1, y1)
    &&& in_grid(w, h, x2, y2)
    &&& {
        ||| x2 == x1 && y2 == y1 - 1 && !wall(w, cells, x1, y1, 0)
        ||| x2 == x1 + 1 && y2 == y1 && !wall(w, cells, x1, y1, 1)
        ||| x2 == x1 && y2 == y1 + 1 && !wall(w, cells, x1, y1, 2)
        ||| x2 == x1 - 1 && y2 == y1 && !wall(w, cells, x1, y1, 3)
    }
}

/// `p` is a walk through open walls.
pub open spec fn valid_path(w: int, h: int, cells: Seq<Cell>, p: Seq<(int, int)>) -> bool {
    &&& p.len() >= 1
    &&& in_grid(w, h, p[0].0, p[0].1)
    &&& forall|k: int|
        0 <= k < p.len() - 1 ==> #[trigger] open_step(w, h, cells, p[k].0, p[k].1, p[k + 1].0, p[k + 1].1)
}

/// There is a walk from `a` to `b`.
pub open spec fn connected(w: int, h: int, cells: Seq<Cell>, a: (int, int), b: (int, int)) -> bool {
    exists|p: Seq<(int, int)>| #[trigger] valid_path(w, h, cells, p) && p[0] == a && p.last() == b
}

/// Neighbouring cells agree on the wall between them.
pub open spec fn symmetric(w: int, h: int, cells: Seq<Cell>) -> bool {
    forall|x: int, y: int, d: int|
        0 <= d < 4 && in_grid(w, h, x, y) && in_grid(w, h, x + dx(d), y + dy(d)) ==> #[trigger] wall(w, cells, x, y, d)
            == wall(w, cells, x + dx(d), y + dy(d), opp(d))
}

/// Every wall facing out of the grid stands.
pub open spec fn boundary_closed(w: int, h: int, cells: Seq<Cell>) -> bool {
    forall|x: int, y: int, d: int|
        0 <= d < 4 && in_grid(w, h, x, y) && !in_grid(w, h, x + dx(d), y + dy(d)) ==> #[trigger] wall(w, cells, x, y, d)
}

/// Every wall of every cell stands.
pub open spec fn all_closed(cells: Seq<Cell>) -> bool {
    forall|i: int, d: int| 0 <= i < cells.len() && 0 <= d < 4 ==> #[trigger] cells[i].walls@[d]
}

/// Every cell can be reached from every other.
pub open spec fn fully_connected(w: int, h: int, cells: Seq<Cell>) -> bool {
    forall|a: (int, int), b: (int, int)|
        in_grid(w, h, a.0, a.1) && in_grid(w, h, b.0, b.1) ==> #[trigger] connected(w, h, cells, a, b)
}

impl Maze {
    /// The maze holds exactly `w * h` cells.
    pub open spec fn wf(&self) -> bool {
        self.cells@.len() == self.w as int * self.h as int
    }

    /// A maze with every wall standing.
    pub fn new(w: u32, h: u32) -> (m: Self)
        requires
            w as int * h as int <= u32::MAX,
        ensures
            m.wf(),
            m.w == w,
            m.h == h,
            all_closed(m.cells@),
    {
        let n: usize = (w * h) as usize;
        let mut cells: Vec<Cell> = Vec::new();
        let mut i: usize = 0;
        while i < n
            invariant
                0 <= i <= n,
                n == w as int * h as int,
                cells@.len() == i,
                all_closed(cells@),
            decreases n - i,
        {
            cells.push(Cell { walls: [true, true, true, true] });
            i = i + 1;
        }
        Maze { w, h, cells }
    }

    fn idx(&self, x: u32, y: u32) -> (i: usize)
        requires
            self.wf(),
            self.w as int * self.h as int <= u32::MAX,
            x < self.w,
            y < self.h,
        ensures
            i == cell_at(self.w as int, x as int, y as int),
            i < self.cells@.len(),
    {
        proof {
            lemma_cell_at_bounds(self.w as int, self.h as int, x as int, y as int);
        }
        (y * self.w + x) as usize
    }
}

} // verus!

verus! {

/// Every in-grid neighbour of (`x`, `y`) has been visited.
pub open spec fn nb_visited(w: int, h: int, visited: Seq<bool>, x: int, y: int) -> bool {
    &&& in_grid(w, h, x, y - 1) ==> visited[cell_at(w, x, y - 1)]
    &&& in_grid(w, h, x + 1, y) ==> visited[cell_at(w, x + 1, y)]
    &&& in_grid(w, h, x, y + 1) ==> visited[cell_at(w, x, y + 1)]
    &&& in_grid(w, h, x - 1, y) ==> visited[cell_at(w, x - 1, y)]
}

/// (`x`, `y`) is somewhere on the stack.
pub open spec fn on_stack(s: Seq<(u32, u32)>, x: int, y: int) -> bool {
    exists|k: int| 0 <= k < s.len() && (#[trigger] s[k]).0 == x && s[k].1 == y
}

/// Number of unvisited cells.
pub open spec fn count_false(s: Seq<bool>) -> nat
    decreases s.len(),
{
    if s.len() == 0 {
        0
    } else {
        count_false(s.drop_last()) + if s.last() {
            0nat
        } else {
            1nat
        }
    }
}

/// Visiting a new cell lowers the number of unvisited cells by one.
pub proof fn lemma_count_false_visit(s: Seq<bool>, i: int)
    requires
        0 <= i < s.len(),
        !s[i],
    ensures
        count_false(s.update(i, true)) + 1 == count_false(s),
    decreases s.len(),
{
    if i < s.len() - 1 {
        lemma_count_false_visit(s.drop_last(), i);
        assert(s.update(i, true).drop_last() =~= s.drop_last().update(i, true));
    } else {
        assert(s.update(i, true).drop_last() =~= s.drop_last());
    }
}

/// Knocking down wall `d0` of cell (`x0`, `y0`) changes only that wall.
pub proof fn lemma_wall_knock(w: int, h: int, cells: Seq<Cell>, cells2: Seq<Cell>, x0: int, y0: int, d0: int)
    requires
        0 < w,
        cells.len() == w * h,
        in_grid(w, h, x0, y0),
        0 <= d0 < 4,
        cells2.len() == cells.len(),
        cells2[cell_at(w, x0, y0)].walls@ == cells[cell_at(w, x0, y0)].walls@.update(d0, false),
        forall|i: int| 0 <= i < cells.len() && i != cell_at(w, x0, y0) ==> #[trigger] cells2[i] == cells[i],
    ensures
        cells2.len() == cells.len(),
        forall|x: int, y: int, d: int|
            in_grid(w, h, x, y) && 0 <= d < 4 ==> #[trigger] wall(w, cells2, x, y, d) == if x == x0 && y == y0 && d == d0 {
                false
            } else {
                wall(w, cells, x, y, d)
            },
{
    lemma_cell_at_bounds(w, h, x0, y0);
    assert forall|x: int, y: int, d: int| in_grid(w, h, x, y) && 0 <= d < 4 implies #[trigger] wall(w, cells2, x, y, d)
        == if x == x0 && y == y0 && d == d0 {
        false
    } else {
        wall(w, cells, x, y, d)
    } by {
        lemma_cell_at_bounds(w, h, x, y);
        lemma_cell_at_order(w, x, y, x0, y0);
        if x == x0 && y == y0 {
            assert(cells[cell_at(w, x0, y0)].walls@.len() == 4);
        } else {
            assert(cell_at(w, x, y) != cell_at(w, x0, y0));
            assert(cells2[cell_at(w, x, y)] == cells[cell_at(w, x, y)]);
        }
    }
}

/// 1 when the east wall of (`x`, `y`) is down between two cells of the grid.
pub open spec fn east_passage(w: int, cells: Seq<Cell>, x: int, y: int) -> int {
    if x + 1 < w && !wall(w, cells, x, y, 1) {
        1
    } else {
        0
    }
}

/// 1 when the south wall of (`x`, `y`) is down between two cells of the grid.
pub open spec fn south_passage(w: int, h: int, cells: Seq<Cell>, x: int, y: int) -> int {
    if y + 1 < h && !wall(w, cells, x, y, 2) {
        1
    } else {
        0
    }
}

/// Passages east and south of the first `n` cells of row `y`.
pub open spec fn row_passages(w: int, h: int, cells: Seq<Cell>, y: int, n: int) -> int
    decreases n,
{
    if n <= 0 {
        0
    } else {
        row_passages(w, h, cells, y, n - 1) + east_passage(w, cells, n - 1, y) + south_passage(w, h, cells, n - 1, y)
    }
}

/// Passages east and south of the cells of the first `m` rows.
pub open spec fn passages_upto(w: int, h: int, cells: Seq<Cell>, m: int) -> int
    decreases m,
{
    if m <= 0 {
        0
    } else {
        passages_upto(w, h, cells, m - 1) + row_passages(w, h, cells, m - 1, w)
    }
}

/// The number of passages between neighbouring cells (each counted once).
pub open spec fn passage_count(w: int, h: int, cells: Seq<Cell>) -> int {
    passages_upto(w, h, cells, h)
}

/// `c2` is `c1` with wall `d0` of (`x0`, `y0`) down.
pub open spec fn knocked(w: int, h: int, c1: Seq<Cell>, c2: Seq<Cell>, x0: int, y0: int, d0: int) -> bool {
    forall|x: int, y: int, d: int|
        in_grid(w, h, x, y) && 0 <= d < 4 ==> #[trigger] wall(w, c2, x, y, d) == if x == x0 && y == y0 && d == d0 {
            false
        } else {
            wall(w, c1, x, y, d)
        }
}

proof fn lemma_row_knock(w: int, h: int, c1: Seq<Cell>, c2: Seq<Cell>, x0: int, y0: int, d0: int, y: int, n: int)
    requires
        knocked(w, h, c1, c2, x0, y0, d0),
        in_grid(w, h, x0, y0),
        0 <= d0 < 4,
        wall(w, c1, x0, y0, d0),
        0 <= y < h,
        0 <= n <= w,
    ensures
        row_passages(w, h, c2, y, n) == row_passages(w, h, c1, y, n) + if y == y0 && x0 < n && (d0 == 1 || d0 == 2) {
            if (d0 == 1 && x0 + 1 < w) || (d0 == 2 && y0 + 1 < h) {
                1int
            } else {
                0int
            }
        } else {
            0int
        },
    decreases n,
{
    if n > 0 {
        lemma_row_knock(w, h, c1, c2, x0, y0, d0, y, n - 1);
        assert(wall(w, c2, n - 1, y, 1) == if n - 1 == x0 && y == y0 && 1 == d0 {
            false
        } else {
            wall(w, c1, n - 1, y, 1)
        });
        assert(wall(w, c2, n - 1, y, 2) == if n - 1 == x0 && y == y0 && 2 == d0 {
            false
        } else {
            wall(w, c1, n - 1, y, 2)
        });
    }
}

proof fn lemma_rows_knock(w: int, h: int, c1: Seq<Cell>, c2: Seq<Cell>, x0: int, y0: int, d0: int, m: int)
    requires
        knocked(w, h, c1, c2, x0, y0, d0),
        in_grid(w, h, x0, y0),
        0 <= d0 < 4,
        wall(w, c1, x0, y0, d0),
        0 <= m <= h,
    ensures
        passages_upto(w, h, c2, m) == passages_upto(w, h, c1, m) + if y0 < m && (d0 == 1 || d0 == 2) {
            if (d0 == 1 && x0 + 1 < w) || (d0 == 2 && y0 + 1 < h) {
                1int
            } else {
                0int
            }
        } else {
            0int
        },
    decreases m,
{
    if m > 0 {
        lemma_rows_knock(w, h, c1, c2, x0, y0, d0, m - 1);
        lemma_row_knock(w, h, c1, c2, x0, y0, d0, m - 1, w);
    }
}

/// Knocking down a standing east or south wall between two cells adds one
/// passage; a north or west wall is counted on the neighbour's side, and a
/// wall facing out adds none.
pub proof fn lemma_passages_knock(w: int, h: int, c1: Seq<Cell>, c2: Seq<Cell>, x0: int, y0: int, d0: int)
    requires
        knocked(w, h, c1, c2, x0, y0, d0),
        in_grid(w, h, x0, y0),
        0 <= d0 < 4,
        wall(w, c1, x0, y0, d0),
    ensures
        passage_count(w, h, c2) == passage_count(w, h, c1) + if (d0 == 1 && x0 + 1 < w) || (d0 == 2 && y0 + 1 < h) {
            1int
        } else {
            0int
        },
{
    lemma_rows_knock(w, h, c1, c2, x0, y0, d0, h);
}

proof fn lemma_row_closed(w: int, h: int, cells: Seq<Cell>, y: int, n: int)
    requires
        forall|x: int, y2: int, d: int| in_grid(w, h, x, y2) && 0 <= d < 4 ==> #[trigger] wall(w, cells, x, y2, d),
        0 <= y < h,
        0 <= n <= w,
    ensures
        row_passages(w, h, cells, y, n) == 0,
    decreases n,
{
    if n > 0 {
        lemma_row_closed(w, h, cells, y, n - 1);
        assert(wall(w, cells, n - 1, y, 1));
        assert(wall(w, cells, n - 1, y, 2));
    }
}

/// A grid with every wall standing has no passage.
pub proof fn lemma_passages_closed(w: int, h: int, cells: Seq<Cell>, m: int)
    requires
        forall|x: int, y: int, d: int| in_grid(w, h, x, y) && 0 <= d < 4 ==> #[trigger] wall(w, cells, x, y, d),
        0 <= w,
        0 <= m <= h,
    ensures
        passages_upto(w, h, cells, m) == 0,
    decreases m,
{
    if m > 0 {
        lemma_passages_closed(w, h, cells, m - 1);
        lemma_row_closed(w, h, cells, m - 1, w);
    }
}

/// Cell index `i` of a `w`-wide grid of `n` cells is the cell
/// (`i % w`, `i / w`).
pub proof fn lemma_index_cell(w: int, h: int, i: int)
    requires
        0 < w,
        0 <= i < w * h,
    ensures
        in_grid(w, h, i % w, i / w),
        cell_at(w, i % w, i / w) == i,
{
    vstd::arithmetic::div_mod::lemma_fundamental_div_mod(i, w);
    vstd::arithmetic::div_mod::lemma_mod_pos_bound(i, w);
    vstd::arithmetic::div_mod::lemma_div_pos_is_pos(i, w);
    let x = i % w;
    let y = i / w;
    assert(y < h) by (nonlinear_arith)
        requires
            i == w * y + x,
            0 <= x,
            i < w * h,
            0 < w,
    ;
    assert(cell_at(w, x, y) == y * w + x);
    assert(y * w == w * y) by (nonlinear_arith);
}

/// A sequence of flags that are all set has no unset flag.
pub proof fn lemma_count_false_all_set(s: Seq<bool>)
    requires
        forall|i: int| 0 <= i < s.len() ==> #[trigger] s[i],
    ensures
        count_false(s) == 0,
    decreases s.len(),
{
    if s.len() > 0 {
        lemma_count_false_all_set(s.drop_last());
    }
}

/// A sequence of unset flags counts them all.
pub proof fn lemma_count_false_none_set(s: Seq<bool>)
    requires
        forall|i: int| 0 <= i < s.len() ==> !#[trigger] s[i],
    ensures
        count_false(s) == s.len(),
    decreases s.len(),
{
    if s.len() > 0 {
        lemma_count_false_none_set(s.drop_last());
    }
}

/// One carving step, from (`cx`, `cy`) into its unvisited neighbour through
/// wall `wc` (first the wall of the current cell, then the one facing back),
/// opens exactly one passage, and touches no unvisited cell but the
/// neighbour.
proof fn lemma_carve_step_passages(
    w: int,
    h: int,
    c0: Seq<Cell>,
    c1: Seq<Cell>,
    c2: Seq<Cell>,
    visited: Seq<bool>,
    cx: int,
    cy: int,
    nx: int,
    ny: int,
    wc: int,
)
    requires
        0 <= wc < 4,
        nx == cx + dx(wc),
        ny == cy + dy(wc),
        in_grid(w, h, cx, cy),
        in_grid(w, h, nx, ny),
        symmetric(w, h, c0),
        knocked(w, h, c0, c1, cx, cy, wc),
        knocked(w, h, c1, c2, nx, ny, opp(wc)),
        visited[cell_at(w, cx, cy)],
        !visited[cell_at(w, nx, ny)],
        forall|x: int, y: int, d: int|
            in_grid(w, h, x, y) && 0 <= d < 4 && !visited[cell_at(w, x, y)] ==> #[trigger] wall(w, c0, x, y, d),
    ensures
        passage_count(w, h, c2) == passage_count(w, h, c0) + 1,
        forall|x: int, y: int, d: int|
            in_grid(w, h, x, y) && 0 <= d < 4 && !(x == cx && y == cy) && !(x == nx && y == ny) ==> #[trigger] wall(
                w,
                c2,
                x,
                y,
                d,
            ) == wall(w, c0, x, y, d),
{
    assert(wall(w, c0, nx, ny, opp(wc)));
    assert(wall(w, c0, cx, cy, wc) == wall(w, c0, cx + dx(wc), cy + dy(wc), opp(wc)));
    lemma_passages_knock(w, h, c0, c1, cx, cy, wc);
    assert(wall(w, c1, nx, ny, opp(wc)) == wall(w, c0, nx, ny, opp(wc)));
    lemma_passages_knock(w, h, c1, c2, nx, ny, opp(wc));
    assert forall|x: int, y: int, d: int|
        in_grid(w, h, x, y) && 0 <= d < 4 && !(x == cx && y == cy) && !(x == nx && y == ny) implies #[trigger] wall(
        w,
        c2,
        x,
        y,
        d,
    ) == wall(w, c0, x, y, d) by {
        assert(wall(w, c1, x, y, d) == wall(w, c0, x, y, d));
    }
}

/// Walls only came down between `c1` and `c2`.
pub open spec fn opened_more(w: int, h: int, c1: Seq<Cell>, c2: Seq<Cell>) -> bool {
    forall|x: int, y: int, d: int|
        in_grid(w, h, x, y) && 0 <= d < 4 && !#[trigger] wall(w, c1, x, y, d) ==> !wall(w, c2, x, y, d)
}

/// A walk stays a walk when more walls come down.
pub proof fn lemma_path_monotone(w: int, h: int, c1: Seq<Cell>, c2: Seq<Cell>, p: Seq<(int, int)>)
    requires
        opened_more(w, h, c1, c2),
        valid_path(w, h, c1, p),
    ensures
        valid_path(w, h, c2, p),
{
    assert forall|k: int| 0 <= k < p.len() - 1 implies #[trigger] open_step(w, h, c2, p[k].0, p[k].1, p[k + 1].0, p[k + 1].1) by {
        assert(open_step(w, h, c1, p[k].0, p[k].1, p[k + 1].0, p[k + 1].1));
    }
}

/// Connections survive when more walls come down.
pub proof fn lemma_connected_monotone(w: int, h: int, c1: Seq<Cell>, c2: Seq<Cell>)
    requires
        opened_more(w, h, c1, c2),
        fully_connected(w, h, c1),
    ensures
        fully_connected(w, h, c2),
{
    assert forall|a: (int, int), b: (int, int)| in_grid(w, h, a.0, a.1) && in_grid(w, h, b.0, b.1) implies #[trigger] connected(
        w,
        h,
        c2,
        a,
        b,
    ) by {
        assert(connected(w, h, c1, a, b));
        let p = choose|p: Seq<(int, int)>| #[trigger] valid_path(w, h, c1, p) && p[0] == a && p.last() == b;
        lemma_path_monotone(w, h, c1, c2, p);
    }
}

/// With symmetric walls a walk can be walked backwards.
pub proof fn lemma_path_reverse(w: int, h: int, cells: Seq<Cell>, p: Seq<(int, int)>)
    requires
        0 < w,
        0 < h,
        cells.len() == w * h,
        symmetric(w, h, cells),
        valid_path(w, h, cells, p),
    ensures
        valid_path(w, h, cells, p.reverse()),
        p.reverse()[0] == p.last(),
        p.reverse().last() == p[0],
{
    let r = p.reverse();
    let n = p.len();
    assert forall|k: int| 0 <= k < r.len() - 1 implies #[trigger] open_step(w, h, cells, r[k].0, r[k].1, r[k + 1].0, r[k + 1].1) by {
        let j = n - 2 - k;
        assert(r[k] == p[j + 1]);
        assert(r[k + 1] == p[j]);
        assert(open_step(w, h, cells, p[j].0, p[j].1, p[j + 1].0, p[j + 1].1));
        let (x1, y1) = p[j];
        let (x2, y2) = p[j + 1];
        if x2 == x1 && y2 == y1 - 1 {
            assert(wall(w, cells, x1, y1, 0) == wall(w, cells, x1 + dx(0), y1 + dy(0), opp(0)));
        } else if x2 == x1 + 1 && y2 == y1 {
            assert(wall(w, cells, x1, y1, 1) == wall(w, cells, x1 + dx(1), y1 + dy(1), opp(1)));
        } else if x2 == x1 && y2 == y1 + 1 {
            assert(wall(w, cells, x1, y1, 2) == wall(w, cells, x1 + dx(2), y1 + dy(2), opp(2)));
        } else {
            assert(wall(w, cells, x1, y1, 3) == wall(w, cells, x1 + dx(3), y1 + dy(3), opp(3)));
        }
    }
    if n >= 2 {
        let k = n - 2;
        assert(open_step(w, h, cells, p[k].0, p[k].1, p[k + 1].0, p[k + 1].1));
    }
}

/// Two walks that meet can be joined.
pub proof fn lemma_path_concat(w: int, h: int, cells: Seq<Cell>, p: Seq<(int, int)>, q: Seq<(int, int)>)
    requires
        valid_path(w, h, cells, p),
        valid_path(w, h, cells, q),
        p.last() == q[0],
    ensures
        valid_path(w, h, cells, p + q.skip(1)),
        (p + q.skip(1))[0] == p[0],
        (p + q.skip(1)).last() == q.last(),
{
    let r = p + q.skip(1);
    let n = p.len();
    assert forall|k: int| 0 <= k < r.len() - 1 implies #[trigger] open_step(w, h, cells, r[k].0, r[k].1, r[k + 1].0, r[k + 1].1) by {
        if k < n - 1 {
            assert(open_step(w, h, cells, p[k].0, p[k].1, p[k + 1].0, p[k + 1].1));
        } else {
            let j = k - n + 1;
            assert(r[k] == q[j]);
            assert(r[k + 1] == q[j + 1]);
            assert(open_step(w, h, cells, q[j].0, q[j].1, q[j + 1].0, q[j + 1].1));
        }
    }
    if q.len() == 1 {
        assert(r =~= p);
    }
}

/// Walks from one cell to all others connect every pair.
pub proof fn lemma_star_connected(w: int, h: int, cells: Seq<Cell>, s: (int, int), paths: Map<(int, int), Seq<(int, int)>>)
    requires
        0 < w,
        0 < h,
        cells.len() == w * h,
        symmetric(w, h, cells),
        forall|x: int, y: int|
            in_grid(w, h, x, y) ==> #[trigger] paths.contains_key((x, y)) && valid_path(w, h, cells, paths[(x, y)])
                && paths[(x, y)][0] == s && paths[(x, y)].last() == (x, y),
    ensures
        fully_connected(w, h, cells),
{
    assert forall|a: (int, int), b: (int, int)| in_grid(w, h, a.0, a.1) && in_grid(w, h, b.0, b.1) implies #[trigger] connected(
        w,
        h,
        cells,
        a,
        b,
    ) by {
        assert(paths.contains_key((a.0, a.1)));
        assert(paths.contains_key((b.0, b.1)));
        let pa = paths[(a.0, a.1)];
        let pb = paths[(b.0, b.1)];
        lemma_path_reverse(w, h, cells, pa);
        lemma_path_concat(w, h, cells, pa.reverse(), pb);
        assert(valid_path(w, h, cells, pa.reverse() + pb.skip(1)));
    }
}

proof fn lemma_row_closure(w: int, h: int, visited: Seq<bool>, sx: int, sy: int, x: int)
    requires
        in_grid(w, h, sx, sy),
        0 <= x < w,
        visited[cell_at(w, sx, sy)],
        forall|x2: int, y2: int| in_grid(w, h, x2, y2) && #[trigger] visited[cell_at(w, x2, y2)] ==> nb_visited(w, h, visited, x2, y2),
    ensures
        visited[cell_at(w, x, sy)],
    decreases if x >= sx { x - sx } else { sx - x },
{
    if x > sx {
        lemma_row_closure(w, h, visited, sx, sy, x - 1);
        assert(nb_visited(w, h, visited, x - 1, sy));
    } else if x < sx {
        lemma_row_closure(w, h, visited, sx, sy, x + 1);
        assert(nb_visited(w, h, visited, x + 1, sy));
    }
}

proof fn lemma_col_closure(w: int, h: int, visited: Seq<bool>, sx: int, sy: int, x: int, y: int)
    requires
        in_grid(w, h, sx, sy),
        in_grid(w, h, x, y),
        visited[cell_at(w, sx, sy)],
        forall|x2: int, y2: int| in_grid(w, h, x2, y2) && #[trigger] visited[cell_at(w, x2, y2)] ==> nb_visited(w, h, visited, x2, y2),
    ensures
        visited[cell_at(w, x, y)],
    decreases if y >= sy { y - sy } else { sy - y },
{
    if y > sy {
        lemma_col_closure(w, h, visited, sx, sy, x, y - 1);
        assert(nb_visited(w, h, visited, x, y - 1));
    } else if y < sy {
        lemma_col_closure(w, h, visited, sx, sy, x, y + 1);
        assert(nb_visited(w, h, visited, x, y + 1));
    } else {
        lemma_row_closure(w, h, visited, sx, sy, x);
    }
}

/// A set of cells that holds the start and all neighbours of its members
/// holds the whole grid.
pub proof fn lemma_closure_all(w: int, h: int, visited: Seq<bool>, sx: int, sy: int)
    requires
        in_grid(w, h, sx, sy),
        visited[cell_at(w, sx, sy)],
        forall|x2: int, y2: int| in_grid(w, h, x2, y2) && #[trigger] visited[cell_at(w, x2, y2)] ==> nb_visited(w, h, visited, x2, y2),
    ensures
        forall|x: int, y: int| in_grid(w, h, x, y) ==> #[trigger] visited[cell_at(w, x, y)],
{
    assert forall|x: int, y: int| in_grid(w, h, x, y) implies #[trigger] visited[cell_at(w, x, y)] by {
        lemma_col_closure(w, h, visited, sx, sy, x, y);
    }
}

} // verus!

verus! {

/// The entry (`nx`, `ny`, `wc`, `wn`) names the unvisited neighbour of
/// (`cx`, `cy`) through wall `wc`; `wn` is the wall facing back.
pub open spec fn is_open_neighbor(w: int, h: int, visited: Seq<bool>, cx: int, cy: int, e: (u32, u32, usize, usize)) -> bool {
    let (nx, ny, wc, wn) = e;
    &&& wc < 4
    &&& wn == opp(wc as int)
    &&& nx == cx + dx(wc as int)
    &&& ny == cy + dy(wc as int)
    &&& in_grid(w, h, nx as int, ny as int)
    &&& !visited[cell_at(w, nx as int, ny as int)]
}

impl Maze {
    /// The unvisited neighbours of (`cx`, `cy`), in the order north, east,
    /// south, west.
    fn unvisited_neighbors(&self, visited: &Vec<bool>, cx: u32, cy: u32) -> (nbrs: Vec<(u32, u32, usize, usize)>)
        requires
            self.wf(),
            self.w as int * self.h as int <= u32::MAX,
            visited@.len() == self.cells@.len(),
            cx < self.w,
            cy < self.h,
        ensures
            forall|k: int|
                0 <= k < nbrs@.len() ==> is_open_neighbor(self.w as int, self.h as int, visited@, cx as int, cy as int, #[trigger] nbrs@[k]),
            nbrs@.len() == 0 ==> nb_visited(self.w as int, self.h as int, visited@, cx as int, cy as int),
    {
        let mut nbrs: Vec<(u32, u32, usize, usize)> = Vec::new();
        if cy > 0 {
            let i = self.idx(cx, cy - 1);
            if !visited[i] {
                nbrs.push((cx, cy - 1, 0, 2));
            }
        }
        if cx + 1 < self.w {
            let i = self.idx(cx + 1, cy);
            if !visited[i] {
                nbrs.push((cx + 1, cy, 1, 3));
            }
        }
        if cy + 1 < self.h {
            let i = self.idx(cx, cy + 1);
            if !visited[i] {
                nbrs.push((cx, cy + 1, 2, 0));
            }
        }
        if cx > 0 {
            let i = self.idx(cx - 1, cy);
            if !visited[i] {
                nbrs.push((cx - 1, cy, 3, 1));
            }
        }
        nbrs
    }

    /// Knocks down wall `d` of cell (`x`, `y`).
    fn knock(&mut self, x: u32, y: u32, d: usize)
        requires
            old(self).wf(),
            old(self).w as int * old(self).h as int <= u32::MAX,
            x < old(self).w,
            y < old(self).h,
            d < 4,
        ensures
            final(self).wf(),
            final(self).w == old(self).w,
            final(self).h == old(self).h,
            forall|x2: int, y2: int, d2: int|
                in_grid(old(self).w as int, old(self).h as int, x2, y2) && 0 <= d2 < 4 ==> #[trigger] wall(
                    old(self).w as int,
                    final(self).cells@,
                    x2,
                    y2,
                    d2,
                ) == if x2 == x && y2 == y && d2 == d {
                    false
                } else {
                    wall(old(self).w as int, old(self).cells@, x2, y2, d2)
                },
    {
        let i = self.idx(x, y);
        let mut c = self.cells[i];
        c.walls[d] = false;
        self.cells.set(i, c);
        proof {
            assert(self.cells@[i as int].walls@ =~= old(self).cells@[i as int].walls@.update(d as int, false));
            lemma_wall_knock(
                self.w as int,
                self.h as int,
                old(self).cells@,
                self.cells@,
                x as int,
                y as int,
                d as int,
            );
        }
    }
}

} // verus!

verus! {

impl Maze {
    /// Carves a perfect maze by randomized depth-first search from a random
    /// start cell: walk to a random unvisited neighbour, knocking down the wall
    /// between, and back up when there is none.
    fn carve(&mut self, seed: u64)
        requires
            old(self).wf(),
            all_closed(old(self).cells@),
            0 < old(self).w,
            0 < old(self).h,
            old(self).w as int * old(self).h as int <= u32::MAX,
        ensures
            final(self).wf(),
            final(self).w == old(self).w,
            final(self).h == old(self).h,
            symmetric(final(self).w as int, final(self).h as int, final(self).cells@),
            boundary_closed(final(self).w as int, final(self).h as int, final(self).cells@),
            fully_connected(final(self).w as int, final(self).h as int, final(self).cells@),
            passage_count(final(self).w as int, final(self).h as int, final(self).cells@) == final(self).w as int
                * final(self).h as int - 1,
    {
        let mut rng = Dice::from_seed(seed);
        let w = self.w;
        let h = self.h;
        let ghost gw = w as int;
        let ghost gh = h as int;
        let sx = rng.range_u32(0, w);
        let sy = rng.range_u32(0, h);
        let n: usize = (w * h) as usize;
        let mut visited: Vec<bool> = Vec::new();
        let mut i: usize = 0;
        while i < n
            invariant
                0 <= i <= n,
                visited@ == Seq::new(i as nat, |j: int| false),
            decreases n - i,
        {
            visited.push(false);
            i = i + 1;
            assert(visited@ =~= Seq::new(i as nat, |j: int| false));
        }
        let mut stack: Vec<(u32, u32)> = Vec::new();
        stack.push((sx, sy));
        let si = self.idx(sx, sy);
        let ghost unvisited = visited@;
        visited.set(si, true);
        let ghost s = (sx as int, sy as int);
        let ghost mut paths: Map<(int, int), Seq<(int, int)>> = Map::empty().insert(s, seq![s]);
        proof {
            assert forall|x: int, y: int, d: int| 0 <= d < 4 && in_grid(gw, gh, x, y) implies #[trigger] wall(gw, self.cells@, x, y, d) by {
                lemma_cell_at_bounds(gw, gh, x, y);
            }
            assert forall|x: int, y: int| in_grid(gw, gh, x, y) && #[trigger] visited@[cell_at(gw, x, y)] implies x == s.0 && y == s.1 by {
                lemma_cell_at_bounds(gw, gh, x, y);
                lemma_cell_at_order(gw, x, y, s.0, s.1);
            }
            assert(on_stack(stack@, s.0, s.1)) by {
                assert(stack@[0] == (sx, sy));
            }
            lemma_passages_closed(gw, gh, self.cells@, gh);
            lemma_count_false_none_set(unvisited);
            lemma_count_false_visit(unvisited, si as int);
        }
        while stack.len() > 0
            invariant
                self.wf(),
                self.w == w,
                self.h == h,
                gw == w as int,
                gh == h as int,
                0 < w,
                0 < h,
                w as int * h as int <= u32::MAX,
                visited@.len() == gw * gh,
                in_grid(gw, gh, s.0, s.1),
                visited@[cell_at(gw, s.0, s.1)],
                symmetric(gw, gh, self.cells@),
                boundary_closed(gw, gh, self.cells@),
                forall|k: int|
                    0 <= k < stack@.len() ==> in_grid(gw, gh, (#[trigger] stack@[k]).0 as int, stack@[k].1 as int)
                        && visited@[cell_at(gw, stack@[k].0 as int, stack@[k].1 as int)],
                forall|k1: int, k2: int| 0 <= k1 < k2 < stack@.len() ==> #[trigger] stack@[k1] != #[trigger] stack@[k2],
                forall|x: int, y: int|
                    in_grid(gw, gh, x, y) && #[trigger] visited@[cell_at(gw, x, y)] && !on_stack(stack@, x, y)
                        ==> nb_visited(gw, gh, visited@, x, y),
                forall|x: int, y: int|
                    in_grid(gw, gh, x, y) && #[trigger] visited@[cell_at(gw, x, y)] ==> paths.contains_key((x, y))
                        && valid_path(gw, gh, self.cells@, paths[(x, y)]) && paths[(x, y)][0] == s
                        && paths[(x, y)].last() == (x, y),
                passage_count(gw, gh, self.cells@) + count_false(visited@) == gw * gh - 1,
                forall|x: int, y: int, d: int|
                    in_grid(gw, gh, x, y) && 0 <= d < 4 && !visited@[cell_at(gw, x, y)] ==> #[trigger] wall(
                        gw,
                        self.cells@,
                        x,
                        y,
                        d,
                    ),
            decreases 2 * count_false(visited@) + stack@.len(),
        {
            let (cx, cy) = stack[stack.len() - 1];
            let nbrs = self.unvisited_neighbors(&visited, cx, cy);
            if nbrs.len() == 0 {
                let ghost old_stack = stack@;
                stack.pop();
                proof {
                    assert(stack@ =~= old_stack.drop_last());
                    assert forall|x: int, y: int|
                        in_grid(gw, gh, x, y) && #[trigger] visited@[cell_at(gw, x, y)] && !on_stack(stack@, x, y) implies nb_visited(
                        gw,
                        gh,
                        visited@,
                        x,
                        y,
                    ) by {
                        if on_stack(old_stack, x, y) {
                            let k = choose|k: int| 0 <= k < old_stack.len() && (#[trigger] old_stack[k]).0 == x && old_stack[k].1 == y;
                            if k < old_stack.len() - 1 {
                                assert(stack@[k] == old_stack[k]);
                                assert(on_stack(stack@, x, y));
                            } else {
                                assert(x == cx && y == cy);
                            }
                        }
                    }
                }
            } else {
                let k = rng.range_usize(0, nbrs.len());
                let (nx, ny, wc, wn) = nbrs[k];
                assert(is_open_neighbor(gw, gh, visited@, cx as int, cy as int, nbrs@[k as int]));
                let ghost old_cells = self.cells@;
                let ghost old_vis = visited@;
                let ghost old_stack = stack@;
                self.knock(cx, cy, wc);
                let ghost mid_cells = self.cells@;
                self.knock(nx, ny, wn);
                let ni = self.idx(nx, ny);
                visited.set(ni, true);
                stack.push((nx, ny));
                proof {
                    let c = (cx as int, cy as int);
                    let nn = (nx as int, ny as int);
                    lemma_count_false_visit(old_vis, ni as int);
                    lemma_carve_step_passages(gw, gh, old_cells, mid_cells, self.cells@, old_vis, cx as int, cy as int, nx as int, ny as int, wc as int);
                    assert forall|x: int, y: int, d: int|
                        in_grid(gw, gh, x, y) && 0 <= d < 4 && !visited@[cell_at(gw, x, y)] implies #[trigger] wall(
                        gw,
                        self.cells@,
                        x,
                        y,
                        d,
                    ) by {
                        lemma_cell_at_bounds(gw, gh, x, y);
                        assert(visited@[cell_at(gw, nx as int, ny as int)]);
                        assert(old_vis[cell_at(gw, cx as int, cy as int)]);
                        assert(!old_vis[cell_at(gw, x, y)]);
                        assert(wall(gw, old_cells, x, y, d));
                    }
                    lemma_cell_at_bounds(gw, gh, s.0, s.1);
                    lemma_cell_at_bounds(gw, gh, nx as int, ny as int);
                    assert(opened_more(gw, gh, old_cells, self.cells@));
                    // walls still agree pairwise, and the outside is still closed
                    assert forall|x: int, y: int, d: int|
                        0 <= d < 4 && in_grid(gw, gh, x, y) && in_grid(gw, gh, x + dx(d), y + dy(d)) implies #[trigger] wall(
                        gw,
                        self.cells@,
                        x,
                        y,
                        d,
                    ) == wall(gw, self.cells@, x + dx(d), y + dy(d), opp(d)) by {
                        assert(wall(gw, old_cells, x, y, d) == wall(gw, old_cells, x + dx(d), y + dy(d), opp(d)));
                    }
                    assert forall|x: int, y: int, d: int|
                        0 <= d < 4 && in_grid(gw, gh, x, y) && !in_grid(gw, gh, x + dx(d), y + dy(d)) implies #[trigger] wall(
                        gw,
                        self.cells@,
                        x,
                        y,
                        d,
                    ) by {
                        assert(wall(gw, old_cells, x, y, d));
                    }
                    // the visited cells before the step, and the new one
                    assert forall|x: int, y: int| in_grid(gw, gh, x, y) && #[trigger] visited@[cell_at(gw, x, y)] implies (x == nn.0
                        && y == nn.1) || old_vis[cell_at(gw, x, y)] by {
                        lemma_cell_at_bounds(gw, gh, x, y);
                        lemma_cell_at_order(gw, x, y, nn.0, nn.1);
                    }
                    assert(visited@[cell_at(gw, nn.0, nn.1)]);
                    assert(on_stack(stack@, nn.0, nn.1)) by {
                        assert(stack@[stack@.len() - 1] == (nx, ny));
                    }
                    // the stack stays duplicate-free: the new cell was unvisited
                    assert forall|k1: int, k2: int| 0 <= k1 < k2 < stack@.len() implies #[trigger] stack@[k1] != #[trigger] stack@[k2] by {
                        if k2 == stack@.len() - 1 {
                            assert(stack@[k1] == old_stack[k1]);
                            assert(old_vis[cell_at(gw, old_stack[k1].0 as int, old_stack[k1].1 as int)]);
                        } else {
                            assert(stack@[k1] == old_stack[k1]);
                            assert(stack@[k2] == old_stack[k2]);
                        }
                    }
                    assert forall|k2: int| 0 <= k2 < stack@.len() implies in_grid(gw, gh, (#[trigger] stack@[k2]).0 as int, stack@[k2].1 as int)
                        && visited@[cell_at(gw, stack@[k2].0 as int, stack@[k2].1 as int)] by {
                        if k2 < stack@.len() - 1 {
                            assert(stack@[k2] == old_stack[k2]);
                            lemma_cell_at_bounds(gw, gh, old_stack[k2].0 as int, old_stack[k2].1 as int);
                        }
                    }
                    // closed cells: visited before, off the stack, so off the old stack
                    assert forall|x: int, y: int|
                        in_grid(gw, gh, x, y) && #[trigger] visited@[cell_at(gw, x, y)] && !on_stack(stack@, x, y) implies nb_visited(
                        gw,
                        gh,
                        visited@,
                        x,
                        y,
                    ) by {
                        assert(!(x == nn.0 && y == nn.1));
                        assert(old_vis[cell_at(gw, x, y)]);
                        if on_stack(old_stack, x, y) {
                            let k2 = choose|k2: int| 0 <= k2 < old_stack.len() && (#[trigger] old_stack[k2]).0 == x && old_stack[k2].1 == y;
                            assert(stack@[k2] == old_stack[k2]);
                        }
                        assert(nb_visited(gw, gh, old_vis, x, y));
                        if in_grid(gw, gh, x, y - 1) {
                            lemma_cell_at_bounds(gw, gh, x, y - 1);
                        }
                        if in_grid(gw, gh, x + 1, y) {
                            lemma_cell_at_bounds(gw, gh, x + 1, y);
                        }
                        if in_grid(gw, gh, x, y + 1) {
                            lemma_cell_at_bounds(gw, gh, x, y + 1);
                        }
                        if in_grid(gw, gh, x - 1, y) {
                            lemma_cell_at_bounds(gw, gh, x - 1, y);
                        }
                    }
                    // walks to every visited cell
                    let pc = paths[c];
                    let pn = pc.push(nn);
                    lemma_path_monotone(gw, gh, old_cells, self.cells@, pc);
                    assert forall|j: int| 0 <= j < pn.len() - 1 implies #[trigger] open_step(
                        gw,
                        gh,
                        self.cells@,
                        pn[j].0,
                        pn[j].1,
                        pn[j + 1].0,
                        pn[j + 1].1,
                    ) by {
                        if j < pc.len() - 1 {
                            assert(open_step(gw, gh, self.cells@, pc[j].0, pc[j].1, pc[j + 1].0, pc[j + 1].1));
                        } else {
                            assert(!wall(gw, self.cells@, cx as int, cy as int, wc as int));
                        }
                    }
                    let old_paths = paths;
                    paths = paths.insert(nn, pn);
                    assert forall|x: int, y: int| in_grid(gw, gh, x, y) && #[trigger] visited@[cell_at(gw, x, y)] implies paths.contains_key(
                        (x, y),
                    ) && valid_path(gw, gh, self.cells@, paths[(x, y)]) && paths[(x, y)][0] == s && paths[(x, y)].last() == (x, y) by {
                        if !(x == nn.0 && y == nn.1) {
                            assert(old_vis[cell_at(gw, x, y)]);
                            lemma_path_monotone(gw, gh, old_cells, self.cells@, old_paths[(x, y)]);
                        }
                    }
                }
            }
        }
        proof {
            assert forall|x2: int, y2: int| in_grid(gw, gh, x2, y2) && #[trigger] visited@[cell_at(gw, x2, y2)] implies nb_visited(
                gw,
                gh,
                visited@,
                x2,
                y2,
            ) by {
                assert(!on_stack(stack@, x2, y2));
            }
            lemma_closure_all(gw, gh, visited@, s.0, s.1);
            assert forall|x: int, y: int| in_grid(gw, gh, x, y) implies #[trigger] paths.contains_key((x, y)) && valid_path(
                gw,
                gh,
                self.cells@,
                paths[(x, y)],
            ) && paths[(x, y)][0] == s && paths[(x, y)].last() == (x, y) by {
                assert(visited@[cell_at(gw, x, y)]);
            }
            lemma_star_connected(gw, gh, self.cells@, s, paths);
            assert forall|i: int| 0 <= i < visited@.len() implies #[trigger] visited@[i] by {
                lemma_index_cell(gw, gh, i);
                assert(visited@[cell_at(gw, i % gw, i / gw)]);
            }
            lemma_count_false_all_set(visited@);
        }
    }
}

} // verus!

verus! {

/// The walls facing out of the grid that are down are exactly the north wall
/// of (`x1`, 0), the east wall of (w - 1, `y2`) and the south wall of
/// (`x3`, h - 1).
pub open spec fn exits_at(w: int, h: int, cells: Seq<Cell>, x1: int, y2: int, x3: int) -> bool {
    &&& 0 <= x1 < w
    &&& 0 <= y2 < h
    &&& 0 <= x3 < w
    &&& forall|x: int, y: int, d: int|
        0 <= d < 4 && in_grid(w, h, x, y) && !in_grid(w, h, x + dx(d), y + dy(d)) ==> (!#[trigger] wall(w, cells, x, y, d)
            <==> ((x == x1 && y == 0 && d == 0) || (x == w - 1 && y == y2 && d == 1) || (x == x3 && y == h - 1
            && d == 2)))
}

/// A maze fit to play: neighbouring cells agree on their walls, every cell
/// can be reached from every other, and the outside is reached through three
/// exits on the north, east and south borders.
pub open spec fn is_playable(m: Maze) -> bool {
    &&& m.wf()
    &&& symmetric(m.w as int, m.h as int, m.cells@)
    &&& fully_connected(m.w as int, m.h as int, m.cells@)
    &&& exists|x1: int, y2: int, x3: int| #[trigger] exits_at(m.w as int, m.h as int, m.cells@, x1, y2, x3)
}

impl Maze {
    /// Opens one exit on each of the north, east and south borders.
    fn open_three_exits(&mut self, seed: u64)
        requires
            old(self).wf(),
            0 < old(self).w,
            0 < old(self).h,
            old(self).w as int * old(self).h as int <= u32::MAX,
            symmetric(old(self).w as int, old(self).h as int, old(self).cells@),
            boundary_closed(old(self).w as int, old(self).h as int, old(self).cells@),
        ensures
            final(self).wf(),
            final(self).w == old(self).w,
            final(self).h == old(self).h,
            symmetric(final(self).w as int, final(self).h as int, final(self).cells@),
            opened_more(final(self).w as int, final(self).h as int, old(self).cells@, final(self).cells@),
            exists|x1: int, y2: int, x3: int| #[trigger] exits_at(final(self).w as int, final(self).h as int, final(self).cells@, x1, y2, x3),
            passage_count(final(self).w as int, final(self).h as int, final(self).cells@) == passage_count(
                old(self).w as int,
                old(self).h as int,
                old(self).cells@,
            ),
    {
        let mut rng = Dice::from_seed(seed ^ 0xDEADBEEF);
        let w = self.w;
        let h = self.h;
        let ghost gw = w as int;
        let ghost gh = h as int;
        let ghost c0 = self.cells@;
        let x1 = rng.range_u32(0, w);
        let y2 = rng.range_u32(0, h);
        let x3 = rng.range_u32(0, w);
        self.knock(x1, 0, 0);
        let ghost k1 = self.cells@;
        proof {
            assert(wall(gw, c0, x1 as int, 0, 0));
            lemma_passages_knock(gw, gh, c0, k1, x1 as int, 0, 0);
        }
        self.knock(w - 1, y2, 1);
        let ghost k2 = self.cells@;
        proof {
            assert(wall(gw, c0, gw - 1, y2 as int, 1));
            assert(wall(gw, k1, gw - 1, y2 as int, 1));
            lemma_passages_knock(gw, gh, k1, k2, gw - 1, y2 as int, 1);
        }
        self.knock(x3, h - 1, 2);
        proof {
            assert(wall(gw, c0, x3 as int, gh - 1, 2));
            assert(wall(gw, k1, x3 as int, gh - 1, 2));
            assert(wall(gw, k2, x3 as int, gh - 1, 2));
            lemma_passages_knock(gw, gh, k2, self.cells@, x3 as int, gh - 1, 2);
        }
        assert(exits_at(gw, gh, self.cells@, x1 as int, y2 as int, x3 as int)) by {
            assert forall|x: int, y: int, d: int|
                0 <= d < 4 && in_grid(gw, gh, x, y) && !in_grid(gw, gh, x + dx(d), y + dy(d)) implies (!#[trigger] wall(
                gw,
                self.cells@,
                x,
                y,
                d,
            ) <==> ((x == x1 && y == 0 && d == 0) || (x == gw - 1 && y == y2 && d == 1) || (x == x3 && y == gh - 1 && d
                == 2))) by {
                assert(wall(gw, c0, x, y, d));
            }
        }
        assert forall|x: int, y: int, d: int|
            0 <= d < 4 && in_grid(gw, gh, x, y) && in_grid(gw, gh, x + dx(d), y + dy(d)) implies #[trigger] wall(
            gw,
            self.cells@,
            x,
            y,
            d,
        ) == wall(gw, self.cells@, x + dx(d), y + dy(d), opp(d)) by {
            assert(wall(gw, c0, x, y, d) == wall(gw, c0, x + dx(d), y + dy(d), opp(d)));
        }
    }

    /// Generates a `w` x `h` maze from `seed`: a perfect maze carved by
    /// depth-first search, then opened at three exits. Perfect: every cell
    /// is reached, through exactly `w * h - 1` passages, so the passages form
    /// a tree and there is one way between any two cells that does not turn
    /// back.
    pub fn generate_with_three_exits(w: u32, h: u32, seed: u64) -> (m: Self)
        requires
            0 < w,
            0 < h,
            w as int * h as int <= u32::MAX,
        ensures
            m.w == w,
            m.h == h,
            is_playable(m),
            passage_count(w as int, h as int, m.cells@) == w as int * h as int - 1,
    {
        let mut m = Self::new(w, h);
        m.carve(seed);
        let ghost carved = m.cells@;
        m.open_three_exits(seed);
        proof {
            lemma_connected_monotone(w as int, h as int, carved, m.cells@);
        }
        m
    }
}

} // verus!
