//! A sentence of the agent's knowledge: a set of cells and the exact number of
//! mines among them.

use vstd::prelude::*;
use crate::cells::{Cell, cells_minus, cells_without, contains_cell, copy_cells, not_in, other_than};

verus! {

/// Exactly `count` of the cells in `cells` are mines. The cells are kept
/// without repeats; their order carries no meaning.
#[derive(Debug, Clone)]
pub struct Sentence {
    cells: Vec<Cell>,
    count: usize,
}

/// Whether every cell of `a` is in `b`.
pub open spec fn all_in(a: Seq<Cell>, b: Seq<Cell>) -> bool {
    forall|c: Cell| #[trigger] a.contains(c) ==> b.contains(c)
}

impl Sentence {
    /// The cells of the sentence.
    pub closed spec fn cells_view(&self) -> Seq<Cell> {
        self.cells@
    }

    /// The number of mines among the cells.
    pub closed spec fn count_view(&self) -> nat {
        self.count as nat
    }

    /// The cells are listed without repeats.
    pub open spec fn wf(&self) -> bool {
        self.cells_view().no_duplicates()
    }

    /// Two sentences state the same fact: the same set of cells, the same count.
    pub open spec fn same_as(&self, o: &Sentence) -> bool {
        self.cells_view().to_set() == o.cells_view().to_set() && self.count_view()
            == o.count_view()
    }

    /// The sentence "exactly `count` of `cells` are mines".
    pub fn new(cells: Vec<Cell>, count: usize) -> (r: Sentence)
        requires
            cells@.no_duplicates(),
        ensures
            r.wf(),
            r.cells_view() == cells@,
            r.count_view() == count,
    {
        Sentence { cells, count }
    }

    /// The cells of the sentence.
    pub fn cells(&self) -> (r: &Vec<Cell>)
        ensures
            r@ == self.cells_view(),
    {
        &self.cells
    }

    /// The number of mines among the cells.
    pub fn count(&self) -> (r: usize)
        ensures
            r == self.count_view(),
    {
        self.count
    }

    /// All cells when every one of them must be a mine (the count equals the
    /// number of cells), and none otherwise.
    pub fn known_mines(&self) -> (r: Vec<Cell>)
        ensures
            r@ == if self.count_view() == self.cells_view().len() {
                self.cells_view()
            } else {
                Seq::empty()
            },
    {
        if self.count == self.cells.len() {
            copy_cells(&self.cells)
        } else {
            Vec::new()
        }
    }

    /// All cells when none of them can be a mine (the count is zero), and none
    /// otherwise.
    pub fn known_safes(&self) -> (r: Vec<Cell>)
        ensures
            r@ == if self.count_view() == 0 {
                self.cells_view()
            } else {
                Seq::empty()
            },
    {
        if self.count == 0 {
            copy_cells(&self.cells)
        } else {
            Vec::new()
        }
    }

    /// Takes in the fact that `cell` is a mine: if it is among the cells, it
    /// leaves them and the count drops by one.
    pub fn mark_mine(&mut self, cell: Cell)
        requires
            old(self).wf(),
            old(self).cells_view().contains(cell) ==> old(self).count_view() > 0,
        ensures
            final(self).wf(),
            final(self).cells_view() == old(self).cells_view().filter(other_than(cell)),
            final(self).count_view() == if old(self).cells_view().contains(cell) {
                old(self).count_view() - 1
            } else {
                old(self).count_view() as int
            },
    {
        if contains_cell(&self.cells, cell) {
            self.cells = cells_without(&self.cells, cell);
            self.count = self.count - 1;
        } else {
            proof {
                lemma_filter_absent(self.cells@, cell);
            }
        }
    }

    /// Takes in the fact that `cell` is safe: if it is among the cells, it
    /// leaves them; the count stays.
    pub fn mark_safe(&mut self, cell: Cell)
        requires
            old(self).wf(),
        ensures
            final(self).wf(),
            final(self).cells_view() == old(self).cells_view().filter(other_than(cell)),
            final(self).count_view() == old(self).count_view(),
    {
        if contains_cell(&self.cells, cell) {
            self.cells = cells_without(&self.cells, cell);
        } else {
            proof {
                lemma_filter_absent(self.cells@, cell);
            }
        }
    }

    /// Whether every cell of this sentence is a cell of `other`.
    pub fn is_subset_of(&self, other: &Sentence) -> (r: bool)
        ensures
            r == all_in(self.cells_view(), other.cells_view()),
    {
        let mut i: usize = 0;
        while i < self.cells.len()
            invariant
                i <= self.cells@.len(),
                forall|k: int| 0 <= k < i ==> other.cells@.contains(#[trigger] self.cells@[k]),
            decreases self.cells@.len() - i,
        {
            if !contains_cell(&other.cells, self.cells[i]) {
                assert(self.cells@.contains(self.cells@[i as int]));
                return false;
            }
            i = i + 1;
        }
        true
    }

    /// The sentence over the cells of this one that are not in `sub`, with
    /// `sub`'s count taken off: when `sub`'s cells are among this one's, exactly
    /// that many of the remaining cells are mines.
    pub fn difference(&self, sub: &Sentence) -> (r: Sentence)
        requires
            self.wf(),
            sub.count_view() <= self.count_view(),
        ensures
            r.wf(),
            r.cells_view() == self.cells_view().filter(not_in(sub.cells_view())),
            r.count_view() == self.count_view() - sub.count_view(),
    {
        Sentence { cells: cells_minus(&self.cells, &sub.cells), count: self.count - sub.count }
    }
}

/// Filtering out a cell that is not there changes nothing.
proof fn lemma_filter_absent(v: Seq<Cell>, c: Cell)
    requires
        !v.contains(c),
    ensures
        v.filter(other_than(c)) == v,
    decreases v.len(),
{
    broadcast use Seq::lemma_filter_push;

    if v.len() > 0 {
        let u = v.drop_last();
        assert(v =~= u.push(v.last()));
        assert(!u.contains(c)) by {
            if u.contains(c) {
                let k = choose|k: int| 0 <= k < u.len() && u[k] == c;
                assert(v[k] == c);
            }
        }
        lemma_filter_absent(u, c);
        assert(v[v.len() - 1] != c);
    }
}

impl PartialEq for Sentence {
    fn eq(&self, o: &Sentence) -> (r: bool) {
        let r = self.count == o.count && self.is_subset_of(o) && o.is_subset_of(self);
        proof {
            if self.count == o.count && all_in(self.cells@, o.cells@) && all_in(o.cells@, self.cells@) {
                assert(self.cells@.to_set() =~= o.cells@.to_set());
            }
            if self.cells@.to_set() == o.cells@.to_set() {
                assert forall|c: Cell| #[trigger] self.cells@.contains(c) implies o.cells@.contains(c) by {
                    assert(self.cells@.to_set().contains(c));
                }
                assert forall|c: Cell| #[trigger] o.cells@.contains(c) implies self.cells@.contains(c) by {
                    assert(o.cells@.to_set().contains(c));
                }
            }
        }
        r
    }
}

impl vstd::std_specs::cmp::PartialEqSpecImpl for Sentence {
    open spec fn obeys_eq_spec() -> bool {
        true
    }

    open spec fn eq_spec(&self, o: &Sentence) -> bool {
        self.same_as(o)
    }
}

} // verus!
