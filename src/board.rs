//! The game board: where the mines are, and what a revealed cell shows.

use vstd::prelude::*;
use crate::knowledge::listed_in;
use crate::cells::{
    Cell, contains_cell, in_bounds, insert_cell, is_neighbor_slot, lemma_neighbors_where_ext,
    neighbors_where, window_cell,
};
use crate::tally::in_set;
use crate::random::random_below;

verus! {

/// A board of `height` rows and `width` columns with mines on some cells.
pub struct Minesweeper {
    height: usize,
    width: usize,
    mines: Vec<Cell>,
    mines_found: Vec<Cell>,
    board: Vec<Vec<bool>>,
}

impl Minesweeper {
    /// Rows of the board.
    pub closed spec fn height_view(&self) -> nat {
        self.height as nat
    }

    /// Columns of the board.
    pub closed spec fn width_view(&self) -> nat {
        self.width as nat
    }

    /// The cells that hold a mine.
    pub closed spec fn mines_view(&self) -> Seq<Cell> {
        self.mines@
    }

    /// The cells that the player has flagged as mines.
    pub closed spec fn found_view(&self) -> Seq<Cell> {
        self.mines_found@
    }

    /// The mine list holds each mine once, and the grid of flags agrees with
    /// it on every cell of the board.
    pub closed spec fn wf(&self) -> bool {
        &&& self.mines@.no_duplicates()
        &&& forall|k: int| 0 <= k < self.mines@.len() ==> in_bounds(#[trigger] self.mines@[k], self.height as int, self.width as int)
        &&& self.board@.len() == self.height
        &&& forall|i: int| 0 <= i < self.height ==> (#[trigger] self.board@[i])@.len() == self.width
        &&& forall|i: int, j: int|
            0 <= i < self.height && 0 <= j < self.width ==> (#[trigger] self.board@[i]@[j]
                <==> self.mines@.contains((i as usize, j as usize)))
    }

    /// A board with `num_of_mines` mines on distinct cells drawn at random.
    pub fn new(height: usize, width: usize, num_of_mines: usize) -> (r: Minesweeper)
        requires
            height * width <= usize::MAX,
            num_of_mines <= height * width,
        ensures
            r.wf(),
            r.height_view() == height,
            r.width_view() == width,
            r.mines_view().len() == num_of_mines,
            r.found_view().len() == 0,
    {
        // every cell of the board, in row-major order
        let mut cells: Vec<Cell> = Vec::new();
        let mut i: usize = 0;
        while i < height
            invariant
                i <= height,
                height * width <= usize::MAX,
                cells@.len() == i * width,
                cells@.no_duplicates(),
                forall|k: int| 0 <= k < cells@.len() ==> (#[trigger] cells@[k]).0 < i && cells@[k].1 < width,
            decreases height - i,
        {
            proof {
                assert((i + 1) * width == i * width + width) by (nonlinear_arith);
                assert((i + 1) * width <= height * width) by (nonlinear_arith)
                    requires i + 1 <= height;
            }
            let mut j: usize = 0;
            while j < width
                invariant
                    i < height,
                    j <= width,
                    (i + 1) * width <= usize::MAX,
                    (i + 1) * width == i * width + width,
                    cells@.len() == i * width + j,
                    cells@.no_duplicates(),
                    forall|k: int| 0 <= k < cells@.len() ==> (#[trigger] cells@[k]).0 < i && cells@[k].1 < width
                        || (cells@[k].0 == i && cells@[k].1 < j),
                decreases width - j,
            {
                cells.push((i, j));
                j = j + 1;
            }
            i = i + 1;
        }
        // move a uniformly drawn remaining cell to the front, `num_of_mines` times
        let n = cells.len();
        let mut t: usize = 0;
        while t < num_of_mines
            invariant
                t <= num_of_mines,
                num_of_mines <= n,
                n == cells@.len(),
                cells@.no_duplicates(),
                forall|k: int| 0 <= k < n ==> in_bounds(#[trigger] cells@[k], height as int, width as int),
            decreases num_of_mines - t,
        {
            let r = t + random_below(n - t);
            let a = cells[t];
            let b = cells[r];
            let ghost before = cells@;
            cells[t] = b;
            cells[r] = a;
            proof {
                assert forall|x: int, y: int| 0 <= x < y < n implies cells@[x] != cells@[y] by {
                    let ox = if x == t { r as int } else if x == r { t as int } else { x };
                    let oy = if y == t { r as int } else if y == r { t as int } else { y };
                    assert(cells@[x] == before[ox]);
                    assert(cells@[y] == before[oy]);
                }
                assert forall|k: int| 0 <= k < n implies in_bounds(#[trigger] cells@[k], height as int, width as int) by {
                    let ok = if k == t { r as int } else if k == r { t as int } else { k };
                    assert(cells@[k] == before[ok]);
                }
            }
            t = t + 1;
        }
        let mut mines: Vec<Cell> = Vec::new();
        let mut t: usize = 0;
        while t < num_of_mines
            invariant
                t <= num_of_mines,
                num_of_mines <= cells@.len(),
                cells@.no_duplicates(),
                mines@ == cells@.subrange(0, t as int),
            decreases num_of_mines - t,
        {
            mines.push(cells[t]);
            t = t + 1;
            assert(mines@ =~= cells@.subrange(0, t as int));
        }
        proof {
            assert forall|x: int, y: int| 0 <= x < y < mines@.len() implies mines@[x] != mines@[y] by {
                assert(mines@[x] == cells@[x] && mines@[y] == cells@[y]);
            }
            assert forall|k: int| 0 <= k < mines@.len() implies in_bounds(#[trigger] mines@[k], height as int, width as int) by {
                assert(mines@[k] == cells@[k]);
            }
        }
        let board = Self::grid_of(height, width, &mines);
        Minesweeper { height, width, mines, mines_found: Vec::new(), board }
    }

    /// The grid of flags that says, cell by cell, whether it is in `mines`.
    fn grid_of(height: usize, width: usize, mines: &Vec<Cell>) -> (r: Vec<Vec<bool>>)
        ensures
            r@.len() == height,
            forall|i: int| 0 <= i < height ==> (#[trigger] r@[i])@.len() == width,
            forall|i: int, j: int|
                0 <= i < height && 0 <= j < width ==> (#[trigger] r@[i]@[j] <==> mines@.contains((i as usize, j as usize))),
    {
        let mut grid: Vec<Vec<bool>> = Vec::new();
        let mut i: usize = 0;
        while i < height
            invariant
                i <= height,
                grid@.len() == i,
                forall|a: int| 0 <= a < i ==> (#[trigger] grid@[a])@.len() == width,
                forall|a: int, j: int|
                    0 <= a < i && 0 <= j < width ==> (#[trigger] grid@[a]@[j] <==> mines@.contains((a as usize, j as usize))),
            decreases height - i,
        {
            let mut row: Vec<bool> = Vec::new();
            let mut j: usize = 0;
            while j < width
                invariant
                    j <= width,
                    row@.len() == j,
                    forall|b: int| 0 <= b < j ==> (#[trigger] row@[b] <==> mines@.contains((i, b as usize))),
                decreases width - j,
            {
                row.push(contains_cell(mines, (i, j)));
                j = j + 1;
            }
            grid.push(row);
            i = i + 1;
        }
        grid
    }

    /// Rows of the board.
    pub fn height(&self) -> (r: usize)
        ensures
            r == self.height_view(),
    {
        self.height
    }

    /// Columns of the board.
    pub fn width(&self) -> (r: usize)
        ensures
            r == self.width_view(),
    {
        self.width
    }

    /// The cells that hold a mine.
    pub fn mines(&self) -> (r: &Vec<Cell>)
        ensures
            r@ == self.mines_view(),
    {
        &self.mines
    }

    /// The cells that the player has flagged as mines.
    pub fn mines_found(&self) -> (r: &Vec<Cell>)
        ensures
            r@ == self.found_view(),
    {
        &self.mines_found
    }

    /// Flags `cell` as a mine, once.
    pub fn flag_mine(&mut self, cell: Cell)
        requires
            old(self).found_view().no_duplicates(),
        ensures
            final(self).found_view() == if old(self).found_view().contains(cell) {
                old(self).found_view()
            } else {
                old(self).found_view().push(cell)
            },
            final(self).mines_view() == old(self).mines_view(),
            final(self).height_view() == old(self).height_view(),
            final(self).width_view() == old(self).width_view(),
            old(self).wf() ==> final(self).wf(),
    {
        insert_cell(&mut self.mines_found, cell);
    }

    /// Whether `cell` holds a mine.
    pub fn is_mine(&self, cell: Cell) -> (r: bool)
        requires
            self.wf(),
            in_bounds(cell, self.height_view() as int, self.width_view() as int),
        ensures
            r == self.mines_view().contains(cell),
    {
        let (i, j) = cell;
        self.board[i][j]
    }

    /// The number of mines among the up to eight cells around `cell`.
    pub fn nearby_mines(&self, cell: Cell) -> (r: usize)
        requires
            self.wf(),
            in_bounds(cell, self.height_view() as int, self.width_view() as int),
        ensures
            r == neighbors_where(
                cell,
                self.height_view() as int,
                self.width_view() as int,
                listed_in(self.mines_view()),
                9,
            ).len(),
    {
        let ghost h = self.height as int;
        let ghost w = self.width as int;
        let ghost p = listed_in(self.mines@);
        let mut count: usize = 0;
        let mut a: usize = 0;
        while a < 3
            invariant
                a <= 3,
                self.wf(),
                h == self.height,
                w == self.width,
                in_bounds(cell, h, w),
                p == listed_in(self.mines@),
                count == neighbors_where(cell, h, w, p, 3 * a).len(),
                count <= 3 * a,
            decreases 3 - a,
        {
            let mut b: usize = 0;
            while b < 3
                invariant
                    a < 3,
                    b <= 3,
                    self.wf(),
                    h == self.height,
                    w == self.width,
                    in_bounds(cell, h, w),
                    p == listed_in(self.mines@),
                    count == neighbors_where(cell, h, w, p, 3 * a + b).len(),
                    count <= 3 * a + b,
                decreases 3 - b,
            {
                let ghost k = 3 * a + b;
                if !(a == 1 && b == 1) && !(a == 0 && cell.0 == 0) && !(b == 0 && cell.1 == 0) {
                    let i: usize = if a == 0 { cell.0 - 1 } else { cell.0 + (a - 1) };
                    let j: usize = if b == 0 { cell.1 - 1 } else { cell.1 + (b - 1) };
                    if i < self.height && j < self.width {
                        assert(is_neighbor_slot(cell, k, h, w));
                        assert(window_cell(cell, k) == (i, j));
                        if self.board[i][j] {
                            count = count + 1;
                        }
                    } else {
                        assert(!is_neighbor_slot(cell, k, h, w));
                    }
                } else {
                    assert(!is_neighbor_slot(cell, k, h, w));
                }
                b = b + 1;
            }
            a = a + 1;
        }
        count
    }

    /// Whether the flagged cells are exactly the mines.
    pub fn won(&self) -> (r: bool)
        ensures
            r == (self.found_view().to_set() == self.mines_view().to_set()),
    {
        let r = all_listed(&self.mines_found, &self.mines) && all_listed(&self.mines, &self.mines_found);
        proof {
            if r {
                assert(self.mines_found@.to_set() =~= self.mines@.to_set());
            }
            if self.mines_found@.to_set() == self.mines@.to_set() {
                assert forall|c: Cell| #[trigger] self.mines_found@.contains(c) implies self.mines@.contains(c) by {
                    assert(self.mines_found@.to_set().contains(c));
                }
                assert forall|c: Cell| #[trigger] self.mines@.contains(c) implies self.mines_found@.contains(c) by {
                    assert(self.mines@.to_set().contains(c));
                }
            }
        }
        r
    }
}

/// The clue a board shows for a cell, counted over its mine list, is the
/// count over its set of mines that `add_knowledge` takes as true evidence.
pub proof fn lemma_clue_counts_layout(cell: Cell, height: int, width: int, mines: Seq<Cell>)
    requires
        height <= usize::MAX,
        width <= usize::MAX,
    ensures
        neighbors_where(cell, height, width, listed_in(mines), 9) == neighbors_where(
            cell,
            height,
            width,
            in_set(mines.to_set()),
            9,
        ),
{
    assert forall|d: Cell| d != cell implies #[trigger] listed_in(mines)(d) == in_set(mines.to_set())(d) by {}
    lemma_neighbors_where_ext(cell, height, width, listed_in(mines), in_set(mines.to_set()), 9);
}

/// Whether every cell of `a` is in `b`.
fn all_listed(a: &Vec<Cell>, b: &Vec<Cell>) -> (r: bool)
    ensures
        r == forall|c: Cell| #[trigger] a@.contains(c) ==> b@.contains(c),
{
    let mut i: usize = 0;
    while i < a.len()
        invariant
            i <= a@.len(),
            forall|k: int| 0 <= k < i ==> b@.contains(#[trigger] a@[k]),
        decreases a@.len() - i,
    {
        if !contains_cell(b, a[i]) {
            assert(a@.contains(a@[i as int]));
            return false;
        }
        i = i + 1;
    }
    proof {
        assert forall|c: Cell| #[trigger] a@.contains(c) implies b@.contains(c) by {
            let k = choose|k: int| 0 <= k < a@.len() && a@[k] == c;
        }
    }
    true
}

} // verus!
