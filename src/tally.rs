//! Counting the mines of a set `m` among listed cells: the lemmas that tie the
//! agent's counts to a mine layout that agrees with the evidence.

use vstd::prelude::*;
use vstd::set_lib::{lemma_len_subset, lemma_set_disjoint_lens};
use crate::cells::{
    Cell, is_neighbor_slot, neighbors_where, not_in, other_than, window_cell, window_col,
    window_row,
};

verus! {

broadcast use vstd::set::group_set_axioms, vstd::seq_lib::seq_to_set_is_finite;

/// The predicate "in `m`".
pub open spec fn in_set(m: Set<Cell>) -> spec_fn(Cell) -> bool {
    |c: Cell| m.contains(c)
}

/// The predicate "satisfies both `p` and `q`".
pub open spec fn both(p: spec_fn(Cell) -> bool, q: spec_fn(Cell) -> bool) -> spec_fn(Cell) -> bool {
    |c: Cell| p(c) && q(c)
}

/// How many of the cells of `v` are in `m`.
pub open spec fn mines_in(v: Seq<Cell>, m: Set<Cell>) -> nat {
    v.filter(in_set(m)).len()
}

/// Filtering keeps a list free of repeats.
pub proof fn lemma_filter_no_dups(v: Seq<Cell>, p: spec_fn(Cell) -> bool)
    requires
        v.no_duplicates(),
    ensures
        v.filter(p).no_duplicates(),
    decreases v.len(),
{
    broadcast use Seq::lemma_filter_push;

    if v.len() > 0 {
        let u = v.drop_last();
        let x = v.last();
        assert(v =~= u.push(x));
        assert(u.no_duplicates());
        lemma_filter_no_dups(u, p);
        if p(x) {
            assert(!u.filter(p).contains(x)) by {
                if u.filter(p).contains(x) {
                    u.lemma_filter_contains_rev(p, x);
                    let k = choose|k: int| 0 <= k < u.len() && u[k] == x;
                    assert(v[k] == v[v.len() - 1]);
                }
            }
        }
    }
}

/// A cell is in a filtered list exactly when it is in the list and passes.
pub proof fn lemma_filter_contains_iff(v: Seq<Cell>, p: spec_fn(Cell) -> bool, c: Cell)
    ensures
        v.filter(p).contains(c) <==> v.contains(c) && p(c),
{
    broadcast use vstd::seq_lib::group_filter_ensures;

    if v.filter(p).contains(c) {
        v.lemma_filter_contains_rev(p, c);
        let k = choose|k: int| 0 <= k < v.filter(p).len() && v.filter(p)[k] == c;
    }
    if v.contains(c) && p(c) {
        let k = choose|k: int| 0 <= k < v.len() && v[k] == c;
    }
}

/// For a list without repeats, the count is the size of the intersection.
pub proof fn lemma_mines_in_set(v: Seq<Cell>, m: Set<Cell>)
    requires
        v.no_duplicates(),
    ensures
        mines_in(v, m) == v.to_set().intersect(m).len(),
{
    let f = v.filter(in_set(m));
    lemma_filter_no_dups(v, in_set(m));
    f.unique_seq_to_set();
    assert(f.to_set() =~= v.to_set().intersect(m)) by {
        assert forall|c: Cell| f.to_set().contains(c) <==> v.to_set().intersect(m).contains(c) by {
            lemma_filter_contains_iff(v, in_set(m), c);
        }
    }
}

/// Taking a cell out of a list lowers its count by one exactly when the cell
/// was there and is in `m`.
pub proof fn lemma_mines_in_without(v: Seq<Cell>, c: Cell, m: Set<Cell>)
    requires
        v.no_duplicates(),
    ensures
        mines_in(v.filter(other_than(c)), m) + (if v.contains(c) && m.contains(c) { 1int } else { 0 })
            == mines_in(v, m),
{
    let w = v.filter(other_than(c));
    lemma_filter_no_dups(v, other_than(c));
    lemma_mines_in_set(v, m);
    lemma_mines_in_set(w, m);
    assert(w.to_set().intersect(m) =~= v.to_set().intersect(m).remove(c)) by {
        assert forall|d: Cell| w.to_set().intersect(m).contains(d) <==> v.to_set().intersect(m).remove(c).contains(d) by {
            lemma_filter_contains_iff(v, other_than(c), d);
        }
    }
}

/// A list with no cell of `m` counted has none.
pub proof fn lemma_mines_in_zero(v: Seq<Cell>, m: Set<Cell>, c: Cell)
    requires
        mines_in(v, m) == 0,
        v.contains(c),
    ensures
        !m.contains(c),
{
    broadcast use vstd::seq_lib::group_filter_ensures;

    if m.contains(c) {
        let k = choose|k: int| 0 <= k < v.len() && v[k] == c;
        assert(in_set(m)(v[k]));
        assert(v.filter(in_set(m)).contains(v[k]));
    }
}

/// A list without repeats whose every cell is counted lies within `m`.
pub proof fn lemma_mines_in_full(v: Seq<Cell>, m: Set<Cell>, c: Cell)
    requires
        v.no_duplicates(),
        mines_in(v, m) == v.len(),
        v.contains(c),
    ensures
        m.contains(c),
{
    lemma_mines_in_set(v, m);
    v.unique_seq_to_set();
    let s = v.to_set();
    if !m.contains(c) {
        assert(s.intersect(m).subset_of(s.remove(c)));
        lemma_len_subset(s.intersect(m), s.remove(c));
    }
}

/// The count of a list is at most its length.
pub proof fn lemma_mines_in_le(v: Seq<Cell>, m: Set<Cell>)
    ensures
        mines_in(v, m) <= v.len(),
{
    broadcast use vstd::seq_lib::group_filter_ensures;

}

/// When the cells of `b` lie among those of `a`, the count of `a` splits into
/// that of `b` and that of the rest of `a`.
pub proof fn lemma_mines_in_rest(a: Seq<Cell>, b: Seq<Cell>, m: Set<Cell>)
    requires
        a.no_duplicates(),
        b.no_duplicates(),
        forall|c: Cell| #[trigger] b.contains(c) ==> a.contains(c),
    ensures
        mines_in(a.filter(not_in(b)), m) + mines_in(b, m) == mines_in(a, m),
{
    let r = a.filter(not_in(b));
    lemma_filter_no_dups(a, not_in(b));
    lemma_mines_in_set(a, m);
    lemma_mines_in_set(b, m);
    lemma_mines_in_set(r, m);
    let x = r.to_set().intersect(m);
    let y = b.to_set().intersect(m);
    assert(x.disjoint(y)) by {
        assert forall|c: Cell| x.contains(c) implies !y.contains(c) by {
            lemma_filter_contains_iff(a, not_in(b), c);
        }
    }
    assert(x + y =~= a.to_set().intersect(m)) by {
        assert forall|c: Cell| (x + y).contains(c) <==> a.to_set().intersect(m).contains(c) by {
            lemma_filter_contains_iff(a, not_in(b), c);
        }
    }
    lemma_set_disjoint_lens(x, y);
}

/// The neighbours that pass `p` split into those that pass `q` and those that
/// pass `r`, when away from the centre `p` is `q` or `r` and never both.
pub proof fn lemma_neighbors_split(
    c: Cell,
    height: int,
    width: int,
    p: spec_fn(Cell) -> bool,
    q: spec_fn(Cell) -> bool,
    r: spec_fn(Cell) -> bool,
    n: int,
)
    requires
        height <= usize::MAX,
        width <= usize::MAX,
        forall|d: Cell| d != c ==> (#[trigger] p(d) <==> q(d) || r(d)) && !(q(d) && r(d)),
    ensures
        neighbors_where(c, height, width, p, n).len() == neighbors_where(c, height, width, q, n).len()
            + neighbors_where(c, height, width, r, n).len(),
    decreases n,
{
    if n > 0 {
        lemma_neighbors_split(c, height, width, p, q, r, n - 1);
        if is_neighbor_slot(c, n - 1, height, width) {
            let d = window_cell(c, n - 1);
            assert(d != c) by {
                if d == c {
                    assert(window_row(c, n - 1) == c.0);
                    assert(window_col(c, n - 1) == c.1);
                }
            }
            assert(p(d) <==> q(d) || r(d));
        }
    }
}

/// The neighbours that pass `p` and are in `m` are those that pass `p`,
/// filtered by `m`.
pub proof fn lemma_neighbors_in(
    c: Cell,
    height: int,
    width: int,
    p: spec_fn(Cell) -> bool,
    m: Set<Cell>,
    n: int,
)
    ensures
        neighbors_where(c, height, width, both(p, in_set(m)), n) == neighbors_where(
            c,
            height,
            width,
            p,
            n,
        ).filter(in_set(m)),
    decreases n,
{
    broadcast use Seq::lemma_filter_push;

    if n > 0 {
        lemma_neighbors_in(c, height, width, p, m, n - 1);
    } else {
        assert(Seq::<Cell>::empty().filter(in_set(m)) =~= Seq::<Cell>::empty()) by {
            broadcast use vstd::seq_lib::group_filter_ensures;

        }
    }
}

} // verus!
