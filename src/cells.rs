//! Board cells, the 3×3 window around a cell, and small helpers on cell lists.

use vstd::prelude::*;

verus! {

/// A board coordinate `(row, col)`.
pub type Cell = (usize, usize);

/// Whether `c` lies on a board of `height` rows and `width` columns.
pub open spec fn in_bounds(c: Cell, height: int, width: int) -> bool {
    c.0 < height && c.1 < width
}

/// Row of position `k` (0..9, row-major) of the 3×3 window centred on `c`.
pub open spec fn window_row(c: Cell, k: int) -> int {
    c.0 + row_offset(k)
}

/// Row offset of window position `k` from the centre.
pub open spec fn row_offset(k: int) -> int {
    if k < 3 {
        -1
    } else if k < 6 {
        0
    } else {
        1
    }
}

/// Column offset of window position `k` from the centre.
pub open spec fn col_offset(k: int) -> int {
    k - 3 * (row_offset(k) + 1) - 1
}

/// Column of position `k` (0..9, row-major) of the 3×3 window centred on `c`.
pub open spec fn window_col(c: Cell, k: int) -> int {
    c.1 + col_offset(k)
}

/// The cell at window position `k`, meaningful when it is on the board.
pub open spec fn window_cell(c: Cell, k: int) -> Cell {
    (window_row(c, k) as usize, window_col(c, k) as usize)
}

/// Whether window position `k` around `c` is a neighbour of `c` on the board
/// (on the board, and not `c` itself).
pub open spec fn is_neighbor_slot(c: Cell, k: int, height: int, width: int) -> bool {
    &&& 0 <= k < 9
    &&& k != 4
    &&& 0 <= window_row(c, k) < height
    &&& 0 <= window_col(c, k) < width
}

/// The neighbours of `c` among the first `n` window positions that satisfy
/// `pred`, in row-major order.
pub open spec fn neighbors_where(
    c: Cell,
    height: int,
    width: int,
    pred: spec_fn(Cell) -> bool,
    n: int,
) -> Seq<Cell>
    decreases n,
{
    if n <= 0 {
        Seq::empty()
    } else {
        let prev = neighbors_where(c, height, width, pred, n - 1);
        if is_neighbor_slot(c, n - 1, height, width) && pred(window_cell(c, n - 1)) {
            prev.push(window_cell(c, n - 1))
        } else {
            prev
        }
    }
}

/// Whether `d` is one of the up to eight board cells around `c`.
pub open spec fn adjacent_on_board(c: Cell, d: Cell, height: int, width: int) -> bool {
    &&& d != c
    &&& in_bounds(d, height, width)
    &&& c.0 <= d.0 + 1 && d.0 <= c.0 + 1
    &&& c.1 <= d.1 + 1 && d.1 <= c.1 + 1
}

/// Every cell listed by `neighbors_where` is an on-board neighbour satisfying
/// `pred`, at a window position below `n`; and the list has no repeats.
pub proof fn lemma_neighbors_where(
    c: Cell,
    height: int,
    width: int,
    pred: spec_fn(Cell) -> bool,
    n: int,
)
    requires
        n <= 9,
        height <= usize::MAX,
        width <= usize::MAX,
    ensures
        neighbors_where(c, height, width, pred, n).no_duplicates(),
        forall|d: Cell| #[trigger]
            neighbors_where(c, height, width, pred, n).contains(d) ==> pred(d)
                && adjacent_on_board(c, d, height, width) && exists|k: int|
                0 <= k < n && is_neighbor_slot(c, k, height, width) && window_cell(c, k) == d,
    decreases n,
{
    if n > 0 {
        lemma_neighbors_where(c, height, width, pred, n - 1);
        let prev = neighbors_where(c, height, width, pred, n - 1);
        let m = n - 1;
        if is_neighbor_slot(c, m, height, width) && pred(window_cell(c, m)) {
            let d = window_cell(c, m);
            assert(!prev.contains(d)) by {
                if prev.contains(d) {
                    let k = choose|k: int|
                        0 <= k < m && is_neighbor_slot(c, k, height, width) && window_cell(c, k)
                            == d;
                    assert(window_row(c, k) == window_row(c, m));
                    assert(window_col(c, k) == window_col(c, m));
                    assert(false);
                }
            }
            assert forall|e: Cell| #[trigger]
                prev.push(d).contains(e) implies pred(e) && adjacent_on_board(c, e, height, width)
                && exists|k: int|
                0 <= k < n && is_neighbor_slot(c, k, height, width) && window_cell(c, k)
                    == e by {
                if e == d {
                    assert(0 <= m < n && is_neighbor_slot(c, m, height, width) && window_cell(c, m) == e);
                } else {
                    assert(prev.contains(e));
                }
            }
        }
    }
}

/// Two predicates that agree away from `c` pick the same neighbours of `c`.
pub proof fn lemma_neighbors_where_ext(
    c: Cell,
    height: int,
    width: int,
    left: spec_fn(Cell) -> bool,
    right: spec_fn(Cell) -> bool,
    n: int,
)
    requires
        height <= usize::MAX,
        width <= usize::MAX,
        forall|d: Cell| d != c ==> #[trigger] left(d) == right(d),
    ensures
        neighbors_where(c, height, width, left, n) == neighbors_where(c, height, width, right, n),
    decreases n,
{
    if n > 0 {
        lemma_neighbors_where_ext(c, height, width, left, right, n - 1);
        if is_neighbor_slot(c, n - 1, height, width) {
            let d = window_cell(c, n - 1);
            assert(d != c) by {
                if d == c {
                    assert(window_row(c, n - 1) == c.0);
                    assert(window_col(c, n - 1) == c.1);
                }
            }
            assert(left(d) == right(d));
        }
    }
}

/// Whether `c` is in `v`.
pub fn contains_cell(v: &Vec<Cell>, c: Cell) -> (r: bool)
    ensures
        r == v@.contains(c),
{
    let mut i: usize = 0;
    while i < v.len()
        invariant
            i <= v@.len(),
            forall|k: int| 0 <= k < i ==> v@[k] != c,
        decreases v@.len() - i,
    {
        if v[i].0 == c.0 && v[i].1 == c.1 {
            assert(v@[i as int] == c);
            return true;
        }
        i = i + 1;
    }
    false
}

/// A copy of the cell list `v`.
pub fn copy_cells(v: &Vec<Cell>) -> (r: Vec<Cell>)
    ensures
        r@ == v@,
{
    let mut r: Vec<Cell> = Vec::new();
    let mut i: usize = 0;
    while i < v.len()
        invariant
            i <= v@.len(),
            r@ == v@.subrange(0, i as int),
        decreases v@.len() - i,
    {
        r.push(v[i]);
        i = i + 1;
        assert(r@ =~= v@.subrange(0, i as int));
    }
    assert(r@ =~= v@);
    r
}

/// Adds `c` to the duplicate-free list `v` unless it is already there.
pub fn insert_cell(v: &mut Vec<Cell>, c: Cell)
    requires
        old(v)@.no_duplicates(),
    ensures
        final(v)@.no_duplicates(),
        final(v)@ == if old(v)@.contains(c) { old(v)@ } else { old(v)@.push(c) },
{
    if !contains_cell(v, c) {
        v.push(c);
    }
}

/// The predicate "not in `w`".
pub open spec fn not_in(w: Seq<Cell>) -> spec_fn(Cell) -> bool {
    |d: Cell| !w.contains(d)
}

/// The predicate "other than `c`".
pub open spec fn other_than(c: Cell) -> spec_fn(Cell) -> bool {
    |d: Cell| d != c
}

/// The cells of `v` that are not in `w`, in their order in `v`.
pub fn cells_minus(v: &Vec<Cell>, w: &Vec<Cell>) -> (r: Vec<Cell>)
    requires
        v@.no_duplicates(),
    ensures
        r@ == v@.filter(not_in(w@)),
        r@.no_duplicates(),
{
    let ghost p = not_in(w@);
    let mut r: Vec<Cell> = Vec::new();
    let mut i: usize = 0;
    assert(v@.subrange(0, 0) =~= Seq::<Cell>::empty());
    while i < v.len()
        invariant
            i <= v@.len(),
            v@.no_duplicates(),
            p == not_in(w@),
            r@ == v@.subrange(0, i as int).filter(p),
            r@.no_duplicates(),
            forall|d: Cell| r@.contains(d) ==> v@.subrange(0, i as int).contains(d),
        decreases v@.len() - i,
    {
        let d = v[i];
        assert(v@.subrange(0, i + 1) =~= v@.subrange(0, i as int).push(d));
        proof {
            v@.subrange(0, i as int).lemma_filter_push(d, p);
        }
        assert(!v@.subrange(0, i as int).contains(d)) by {
            if v@.subrange(0, i as int).contains(d) {
                let ghost prev = v@.subrange(0, i as int);
                let k = choose|k: int| 0 <= k < prev.len() && prev[k] == d;
                assert(v@[k] == v@[i as int]);
            }
        }
        let ghost r0 = r@;
        let ghost prev = v@.subrange(0, i as int);
        assert(!r0.contains(d));
        if !contains_cell(w, d) {
            r.push(d);
            assert forall|a: int, b: int| 0 <= a < b < r@.len() implies r@[a] != r@[b] by {
                if b == r@.len() - 1 {
                    assert(r0.contains(r@[a]));
                }
            }
        }
        i = i + 1;
        assert forall|e: Cell| r@.contains(e) implies v@.subrange(0, i as int).contains(e) by {
            if e != d {
                assert(r0.contains(e)) by {
                    let k = choose|k: int| 0 <= k < r@.len() && r@[k] == e;
                    assert(r0[k] == e);
                }
                let k = choose|k: int| 0 <= k < prev.len() && prev[k] == e;
                assert(v@.subrange(0, i as int)[k] == e);
            } else {
                assert(v@.subrange(0, i as int)[i - 1] == e);
            }
        }
    }
    assert(v@.subrange(0, v@.len() as int) =~= v@);
    r
}

/// The cells of `v` other than `c`, in their order in `v`.
pub fn cells_without(v: &Vec<Cell>, c: Cell) -> (r: Vec<Cell>)
    requires
        v@.no_duplicates(),
    ensures
        r@ == v@.filter(other_than(c)),
        r@.no_duplicates(),
        r@.len() == if v@.contains(c) { v@.len() - 1 } else { v@.len() as int },
{
    let single: Vec<Cell> = vec![c];
    let r = cells_minus(v, &single);
    proof {
        assert(single@ =~= seq![c]);
        let left = not_in(single@);
        let right = other_than(c);
        assert(left =~= right) by {
            assert forall|d: Cell| #[trigger] left(d) == right(d) by {
                if d == c {
                    assert(single@[0] == d);
                }
            }
        }
        lemma_filter_len_without(v@, c);
    }
    r
}

/// Filtering one element out of a duplicate-free list shortens it by one
/// exactly when the element is there.
pub proof fn lemma_filter_len_without(v: Seq<Cell>, c: Cell)
    requires
        v.no_duplicates(),
    ensures
        v.filter(other_than(c)).len() == if v.contains(c) { v.len() - 1 } else { v.len() as int },
    decreases v.len(),
{
    broadcast use Seq::lemma_filter_push;

    if v.len() > 0 {
        let u = v.drop_last();
        assert(v =~= u.push(v.last()));
        assert(u.no_duplicates());
        lemma_filter_len_without(u, c);
        if v.last() == c {
            assert(!u.contains(c)) by {
                if u.contains(c) {
                    let k = choose|k: int| 0 <= k < u.len() && u[k] == c;
                    assert(v[k] == v[v.len() - 1]);
                }
            }
        } else {
            assert(v.contains(c) == u.contains(c)) by {
                if v.contains(c) {
                    let k = choose|k: int| 0 <= k < v.len() && v[k] == c;
                    assert(u[k] == c);
                }
                if u.contains(c) {
                    let k = choose|k: int| 0 <= k < u.len() && u[k] == c;
                    assert(v[k] == c);
                }
            }
        }
    }
}

} // verus!
