//! The deduction agent: what it knows of the board, the marks that keep that
//! knowledge consistent, the inference fixpoint and the choice of moves.

use vstd::prelude::*;
use crate::bound::{
    all_keys, cells_of, key, keys, lemma_cells_of, lemma_keys_bounded, max_count,
};
use crate::cells::{
    Cell, contains_cell, in_bounds, insert_cell, is_neighbor_slot,
    lemma_neighbors_where, lemma_neighbors_where_ext, neighbors_where, not_in, other_than,
    window_cell,
};
use crate::knowledge::{
    all_live, all_quiet, derived_key, distinct_keys, has_same, in_full, in_some, in_zero,
    is_quiet, lemma_narrower_chain, lemma_push_contains, listed_in, marks_agree, narrower,
    pairs_settled, rest_of, undetermined, unknown_cells,
};
use crate::random::choose_cell;
use crate::sentence::{Sentence, all_in};
use crate::tally::{
    both, in_set, lemma_mines_in_full, lemma_mines_in_le, lemma_mines_in_rest, lemma_mines_in_set,
    lemma_mines_in_without, lemma_mines_in_zero, lemma_neighbors_in, lemma_neighbors_split,
    mines_in,
};
use vstd::set_lib::lemma_len_subset;

verus! {

broadcast use vstd::set::group_set_axioms, vstd::seq_lib::seq_to_set_is_finite;

/// The agent's knowledge of one game.
pub struct MinesweeperAI {
    height: usize,
    width: usize,
    moves_made: Vec<Cell>,
    known_mines: Vec<Cell>,
    known_safes: Vec<Cell>,
    knowledge: Vec<Sentence>,
}

/// Why a piece of evidence cannot be taken in: it contradicts what is known.
#[derive(Debug, Clone, Copy, PartialEq, Eq, Structural)]
pub enum Contradiction {
    /// The revealed cell is already known to be a mine.
    RevealedMine,
    /// The count is below the number of known mines around the cell.
    CountTooLow,
    /// The count exceeds what the undetermined cells around the cell can hold.
    CountTooHigh,
    /// The knowledge entails of some cell both that it is a mine and that it
    /// is not, or that a set of cells holds fewer than no mines.
    Conflict,
}

impl MinesweeperAI {
    /// Rows of the board.
    pub closed spec fn height_view(&self) -> nat {
        self.height as nat
    }

    /// Columns of the board.
    pub closed spec fn width_view(&self) -> nat {
        self.width as nat
    }

    /// Cells revealed so far.
    pub closed spec fn moves_view(&self) -> Seq<Cell> {
        self.moves_made@
    }

    /// Cells proven to be mines.
    pub closed spec fn mines_view(&self) -> Seq<Cell> {
        self.known_mines@
    }

    /// Cells proven safe.
    pub closed spec fn safes_view(&self) -> Seq<Cell> {
        self.known_safes@
    }

    /// The live sentences.
    pub closed spec fn knowledge_view(&self) -> Seq<Sentence> {
        self.knowledge@
    }

    /// The knowledge is consistent: no cell is both a known mine and known
    /// safe, the cell lists hold no repeats, and no sentence speaks of a cell
    /// whose status is already known.
    pub open spec fn wf(&self) -> bool {
        &&& self.moves_view().no_duplicates()
        &&& self.mines_view().no_duplicates()
        &&& self.safes_view().no_duplicates()
        &&& forall|c: Cell| #[trigger]
            self.safes_view().contains(c) ==> !self.mines_view().contains(c)
        &&& forall|i: int|
            0 <= i < self.knowledge_view().len() ==> (#[trigger] self.knowledge_view()[i]).wf()
        &&& forall|i: int, c: Cell|
            0 <= i < self.knowledge_view().len() && #[trigger] self.knowledge_view()[i].cells_view().contains(c)
                ==> !self.safes_view().contains(c) && !self.mines_view().contains(c)
    }

    /// An agent for a board of `height` rows and `width` columns that knows
    /// nothing yet.
    pub fn new(height: usize, width: usize) -> (r: MinesweeperAI)
        ensures
            r.wf(),
            r.height_view() == height,
            r.width_view() == width,
            r.moves_view().len() == 0,
            r.mines_view().len() == 0,
            r.safes_view().len() == 0,
            r.knowledge_view().len() == 0,
    {
        MinesweeperAI {
            height,
            width,
            moves_made: Vec::new(),
            known_mines: Vec::new(),
            known_safes: Vec::new(),
            knowledge: Vec::new(),
        }
    }

    /// Rows of the board.
    pub fn height(&self) -> (r: usize)
        ensures
            r == self.height_view(),
    {
        self.height
    }

    /// Columns of the board.
    pub fn width(&self) -> (r: usize)
        ensures
            r == self.width_view(),
    {
        self.width
    }

    /// Cells revealed so far.
    pub fn moves_made(&self) -> (r: &Vec<Cell>)
        ensures
            r@ == self.moves_view(),
    {
        &self.moves_made
    }

    /// Cells proven to be mines.
    pub fn known_mines(&self) -> (r: &Vec<Cell>)
        ensures
            r@ == self.mines_view(),
    {
        &self.known_mines
    }

    /// Cells proven safe.
    pub fn known_safes(&self) -> (r: &Vec<Cell>)
        ensures
            r@ == self.safes_view(),
    {
        &self.known_safes
    }

    /// The live sentences.
    pub fn knowledge(&self) -> (r: &Vec<Sentence>)
        ensures
            r@ == self.knowledge_view(),
    {
        &self.knowledge
    }


    /// The knowledge is true of a board whose mines are the cells of `m`:
    /// known mines are in `m`, known safe and revealed cells are not, and
    /// every sentence counts its cells in `m` exactly.
    pub open spec fn consistent_with(&self, m: Set<Cell>) -> bool {
        &&& forall|c: Cell| #[trigger] self.mines_view().contains(c) ==> m.contains(c)
        &&& forall|c: Cell| #[trigger] self.safes_view().contains(c) ==> !m.contains(c)
        &&& forall|c: Cell| #[trigger] self.moves_view().contains(c) ==> !m.contains(c)
        &&& forall|i: int|
            0 <= i < self.knowledge_view().len() ==> mines_in(
                (#[trigger] self.knowledge_view()[i]).cells_view(),
                m,
            ) == self.knowledge_view()[i].count_view()
    }

    /// Every mark of `o` is still a mark here: known mines stay known mines
    /// and known safe cells stay known safe.
    pub open spec fn keeps_marks_of(&self, o: &MinesweeperAI) -> bool {
        &&& forall|c: Cell| #[trigger] o.mines_view().contains(c) ==> self.mines_view().contains(c)
        &&& forall|c: Cell| #[trigger] o.safes_view().contains(c) ==> self.safes_view().contains(c)
    }

    /// Nothing more follows from the knowledge by the agent's rules (see
    /// `all_quiet` and `pairs_settled`), and no two sentences state the same.
    pub open spec fn settled(&self) -> bool {
        &&& all_quiet(self.knowledge_view())
        &&& pairs_settled(self.knowledge_view())
        &&& distinct_keys(self.knowledge_view())
    }

    /// Drops the sentences that have no cells left, and every sentence that
    /// states what an earlier one states.
    fn prune(&mut self) -> (r: Result<(), Contradiction>)
        requires
            old(self).wf(),
        ensures
            r is Err ==> r == Err::<(), Contradiction>(Contradiction::Conflict),
            forall|m: Set<Cell>| #[trigger] old(self).consistent_with(m) ==> r is Ok,
            r is Ok ==> forall|m: Set<Cell>| #[trigger] final(self).consistent_with(m) ==> old(self).consistent_with(m),
            all_live(old(self).knowledge@) ==> r is Ok,
            final(self).wf(),
            forall|i: int|
                0 <= i < final(self).knowledge@.len() ==> (#[trigger] final(self).knowledge@[i]).cells_view().len() > 0
                    && old(self).knowledge@.contains(final(self).knowledge@[i]),
            distinct_keys(final(self).knowledge@),
            all_live(old(self).knowledge@) && distinct_keys(old(self).knowledge@) ==> final(self).knowledge@
                == old(self).knowledge@,
            forall|m: Set<Cell>| #[trigger] old(self).consistent_with(m) ==> final(self).consistent_with(m),
            final(self).known_mines@ == old(self).known_mines@,
            final(self).known_safes@ == old(self).known_safes@,
            final(self).moves_made@ == old(self).moves_made@,
            final(self).height == old(self).height,
            final(self).width == old(self).width,
    {
        let mut rest: Vec<Sentence> = Vec::new();
        std::mem::swap(&mut rest, &mut self.knowledge);
        let ghost orig = rest@;
        let ghost n = orig.len();
        assert(orig.subrange(0, n as int) =~= orig);
        while rest.len() > 0
            invariant
                orig == old(self).knowledge@,
                old(self).wf(),
                n == orig.len(),
                rest@.len() <= n,
                rest@ == orig.subrange(n - rest@.len(), n as int),
                forall|i: int|
                    0 <= i < self.knowledge@.len() ==> (#[trigger] self.knowledge@[i]).cells_view().len() > 0
                        && orig.contains(self.knowledge@[i]),
                distinct_keys(self.knowledge@),
                all_live(orig) && distinct_keys(orig) ==> self.knowledge@ == orig.subrange(0, n - rest@.len()),
                forall|j: int| 0 <= j < n - rest@.len() ==> {
                    &&& (#[trigger] orig[j]).cells_view().len() == 0 ==> orig[j].count_view() == 0
                    &&& orig[j].cells_view().len() > 0 ==> exists|i: int|
                        0 <= i < self.knowledge@.len() && #[trigger] key(self.knowledge@[i]) == key(orig[j])
                },
                self.known_mines@ == old(self).known_mines@,
                self.known_safes@ == old(self).known_safes@,
                self.moves_made@ == old(self).moves_made@,
                self.height == old(self).height,
                self.width == old(self).width,
            decreases rest@.len(),
        {
            let ghost done = n - rest@.len();
            let ghost kept = self.knowledge@;
            let s = rest.remove(0);
            assert(s == orig[done]);
            assert(rest@ =~= orig.subrange(n - rest@.len(), n as int));
            if s.cells().len() == 0 && s.count() > 0 {
                proof {
                    assert forall|m: Set<Cell>| #[trigger] old(self).consistent_with(m) implies false by {
                        assert(mines_in(old(self).knowledge_view()[done].cells_view(), m) == s.count_view());
                        lemma_mines_in_le(s.cells_view(), m);
                    }
                    let f = self.knowledge@;
                    assert forall|i: int| 0 <= i < f.len() implies (#[trigger] f[i]).wf() by {
                        let j = choose|j: int| 0 <= j < orig.len() && orig[j] == f[i];
                        assert(old(self).knowledge_view()[j].wf());
                    }
                    assert forall|i: int, c: Cell|
                        0 <= i < f.len() && #[trigger] f[i].cells_view().contains(c)
                        implies !self.known_safes@.contains(c) && !self.known_mines@.contains(c) by {
                        let j = choose|j: int| 0 <= j < orig.len() && orig[j] == f[i];
                        assert(old(self).knowledge_view()[j].cells_view().contains(c));
                    }
                }
                return Err(Contradiction::Conflict);
            }
            let ghost kept_before = self.knowledge@;
            if s.cells().len() > 0 && !has_same(&self.knowledge, &s) {
                self.knowledge.push(s);
                proof {
                    assert forall|i: int, j: int| 0 <= i < j < self.knowledge@.len() implies #[trigger] key(self.knowledge@[i])
                        != #[trigger] key(self.knowledge@[j]) by {
                        if j < kept.len() {
                            assert(self.knowledge@[i] == kept[i] && self.knowledge@[j] == kept[j]);
                        } else {
                            assert(self.knowledge@[i] == kept[i]);
                        }
                    }
                    assert forall|i: int| 0 <= i < self.knowledge@.len() implies (#[trigger] self.knowledge@[i]).cells_view().len() > 0
                        && orig.contains(self.knowledge@[i]) by {
                        if i < kept.len() {
                            assert(self.knowledge@[i] == kept[i]);
                        }
                    }
                }
            }
            proof {
                assert forall|j: int| 0 <= j < done + 1 implies {
                    &&& (#[trigger] orig[j]).cells_view().len() == 0 ==> orig[j].count_view() == 0
                    &&& orig[j].cells_view().len() > 0 ==> exists|i: int|
                        0 <= i < self.knowledge@.len() && #[trigger] key(self.knowledge@[i]) == key(orig[j])
                } by {
                    if orig[j].cells_view().len() > 0 {
                        if j < done {
                            let i = choose|i: int| 0 <= i < kept_before.len() && #[trigger] key(kept_before[i]) == key(orig[j]);
                            assert(self.knowledge@[i] == kept_before[i]);
                        } else if self.knowledge@.len() > kept_before.len() {
                            assert(self.knowledge@[kept_before.len() as int] == s);
                        }
                    }
                }
                if all_live(orig) && distinct_keys(orig) {
                    assert(orig[done].cells_view().len() > 0);
                    assert forall|i: int| 0 <= i < kept.len() implies #[trigger] key(kept[i]) != key(s) by {
                        assert(kept[i] == orig[i]);
                    }
                    assert(self.knowledge@ =~= orig.subrange(0, done + 1));
                }
            }
        }
        proof {
            let f = self.knowledge@;
            assert forall|i: int| 0 <= i < f.len() implies (#[trigger] f[i]).wf() by {
                let j = choose|j: int| 0 <= j < orig.len() && orig[j] == f[i];
                assert(old(self).knowledge_view()[j].wf());
            }
            assert forall|i: int, c: Cell|
                0 <= i < f.len() && #[trigger] f[i].cells_view().contains(c)
                implies !self.known_safes@.contains(c) && !self.known_mines@.contains(c) by {
                let j = choose|j: int| 0 <= j < orig.len() && orig[j] == f[i];
                assert(old(self).knowledge_view()[j].cells_view().contains(c));
            }
            assert forall|m: Set<Cell>| #[trigger] old(self).consistent_with(m) implies self.consistent_with(m) by {
                assert forall|i: int| 0 <= i < self.knowledge_view().len() implies mines_in(
                    (#[trigger] self.knowledge_view()[i]).cells_view(), m) == self.knowledge_view()[i].count_view() by {
                    let j = choose|j: int| 0 <= j < orig.len() && orig[j] == f[i];
                    assert(old(self).knowledge_view()[j] == f[i]);
                }
            }
            assert forall|m: Set<Cell>| #[trigger] self.consistent_with(m) implies old(self).consistent_with(m) by {
                assert forall|j: int| 0 <= j < old(self).knowledge_view().len() implies mines_in(
                    (#[trigger] old(self).knowledge_view()[j]).cells_view(), m) == old(self).knowledge_view()[j].count_view() by {
                    let t = orig[j];
                    assert(old(self).knowledge_view()[j] == t);
                    assert(t.wf());
                    assert(rest@.len() == 0);
                    if t.cells_view().len() == 0 {
                        assert(t.count_view() == 0);
                        lemma_mines_in_le(t.cells_view(), m);
                    } else {
                        assert(exists|i: int| 0 <= i < f.len() && #[trigger] key(f[i]) == key(t));
                        let i = choose|i: int| 0 <= i < f.len() && #[trigger] key(f[i]) == key(t);
                        assert(self.knowledge_view()[i] == f[i]);
                        assert(f[i].wf());
                        lemma_mines_in_set(f[i].cells_view(), m);
                        lemma_mines_in_set(t.cells_view(), m);
                        assert(f[i].cells_view().to_set() == t.cells_view().to_set());
                        assert(mines_in(f[i].cells_view(), m) == f[i].count_view());
                    }
                }
                assert(old(self).mines_view() == self.mines_view());
                assert(old(self).safes_view() == self.safes_view());
                assert(old(self).moves_view() == self.moves_view());
            }
        }
        Ok(())
    }

    /// Applies the subset rule to every pair of sentences, and returns the
    /// derived sentences that are new, without repeats; `Conflict` when a
    /// sentence's cells lie among another's with a larger count.
    fn derive(&self) -> (r: Result<Vec<Sentence>, Contradiction>)
        requires
            self.wf(),
            forall|i: int| 0 <= i < self.knowledge@.len() ==> (#[trigger] self.knowledge@[i]).cells_view().len() > 0,
        ensures
            r matches Ok(v) ==> {
                &&& forall|q: int| 0 <= q < v@.len() ==> {
                    &&& (#[trigger] v@[q]).wf()
                    &&& v@[q].cells_view().len() > 0
                    &&& exists|i: int| 0 <= i < self.knowledge@.len() && narrower(v@[q], #[trigger] self.knowledge@[i])
                }
                &&& forall|q: int, m: int| 0 <= q < v@.len() && 0 <= m < self.knowledge@.len() ==> #[trigger] key(v@[q]) != #[trigger] key(self.knowledge@[m])
                &&& v@.len() == 0 ==> pairs_settled(self.knowledge@)
                &&& distinct_keys(v@)
            },
            pairs_settled(self.knowledge@) ==> (r matches Ok(v) && v@.len() == 0),
            r is Err ==> r == Err::<Vec<Sentence>, Contradiction>(Contradiction::Conflict),
            forall|m: Set<Cell>| #[trigger] self.consistent_with(m) ==> (r matches Ok(v) && forall|q: int|
                0 <= q < v@.len() ==> mines_in((#[trigger] v@[q]).cells_view(), m) == v@[q].count_view()),
    {
        let ghost k = self.knowledge@;
        let n = self.knowledge.len();
        let mut new: Vec<Sentence> = Vec::new();
        let mut i: usize = 0;
        while i < n
            invariant
                k == self.knowledge@,
                n == k.len(),
                i <= n,
                self.wf(),
                forall|a: int| 0 <= a < n ==> (#[trigger] k[a]).cells_view().len() > 0,
                forall|q: int| 0 <= q < new@.len() ==> {
                    &&& (#[trigger] new@[q]).wf()
                    &&& new@[q].cells_view().len() > 0
                    &&& exists|a: int| 0 <= a < n && narrower(new@[q], #[trigger] k[a])
                },
                forall|q: int, m: int| 0 <= q < new@.len() && 0 <= m < n ==> #[trigger] key(new@[q]) != #[trigger] key(k[m]),
                pairs_settled(k) ==> new@.len() == 0,
                distinct_keys(new@),
                forall|m: Set<Cell>| #[trigger] self.consistent_with(m) ==> forall|q: int|
                    0 <= q < new@.len() ==> mines_in((#[trigger] new@[q]).cells_view(), m) == new@[q].count_view(),
                forall|a: int, b: int|
                    0 <= a < i && 0 <= b < n && #[trigger] all_in(k[b].cells_view(), k[a].cells_view()) ==> {
                        &&& k[b].count_view() <= k[a].count_view()
                        &&& rest_of(k[a], k[b]).len() > 0 ==> (exists|m: int|
                            0 <= m < n && #[trigger] key(k[m]) == derived_key(k[a], k[b]))
                            || (exists|q: int| 0 <= q < new@.len() && #[trigger] key(new@[q]) == derived_key(k[a], k[b]))
                    },
            decreases n - i,
        {
            let mut j: usize = 0;
            while j < n
                invariant
                    k == self.knowledge@,
                    n == k.len(),
                    i < n,
                    j <= n,
                    self.wf(),
                    forall|a: int| 0 <= a < n ==> (#[trigger] k[a]).cells_view().len() > 0,
                    forall|q: int| 0 <= q < new@.len() ==> {
                        &&& (#[trigger] new@[q]).wf()
                        &&& new@[q].cells_view().len() > 0
                        &&& exists|a: int| 0 <= a < n && narrower(new@[q], #[trigger] k[a])
                    },
                    forall|q: int, m: int| 0 <= q < new@.len() && 0 <= m < n ==> #[trigger] key(new@[q]) != #[trigger] key(k[m]),
                    pairs_settled(k) ==> new@.len() == 0,
                    distinct_keys(new@),
                    forall|m: Set<Cell>| #[trigger] self.consistent_with(m) ==> forall|q: int|
                        0 <= q < new@.len() ==> mines_in((#[trigger] new@[q]).cells_view(), m) == new@[q].count_view(),
                    forall|a: int, b: int|
                        0 <= a < n && 0 <= b < n && (a < i || (a == i && b < j)) && #[trigger] all_in(k[b].cells_view(), k[a].cells_view()) ==> {
                            &&& k[b].count_view() <= k[a].count_view()
                            &&& rest_of(k[a], k[b]).len() > 0 ==> (exists|m: int|
                                0 <= m < n && #[trigger] key(k[m]) == derived_key(k[a], k[b]))
                                || (exists|q: int| 0 <= q < new@.len() && #[trigger] key(new@[q]) == derived_key(k[a], k[b]))
                        },
                decreases n - j,
            {
                if self.knowledge[j].is_subset_of(&self.knowledge[i]) {
                    proof {
                        assert(self.knowledge_view()[i as int].wf());
                        assert(self.knowledge_view()[j as int].wf());
                        assert forall|m: Set<Cell>| #[trigger] self.consistent_with(m) implies k[j as int].count_view() <= k[i as int].count_view()
                            && mines_in(rest_of(k[i as int], k[j as int]), m) == k[i as int].count_view() - k[j as int].count_view() by {
                            assert(mines_in(self.knowledge_view()[i as int].cells_view(), m) == k[i as int].count_view());
                            assert(mines_in(self.knowledge_view()[j as int].cells_view(), m) == k[j as int].count_view());
                            lemma_mines_in_rest(k[i as int].cells_view(), k[j as int].cells_view(), m);
                        }
                    }
                    if self.knowledge[j].count() > self.knowledge[i].count() {
                        return Err(Contradiction::Conflict);
                    }
                    assert(self.knowledge_view()[i as int].wf());
                    let d = self.knowledge[i].difference(&self.knowledge[j]);
                    assert(key(d) == derived_key(k[i as int], k[j as int]));
                    if d.cells().len() > 0 {
                        let known = has_same(&self.knowledge, &d);
                        let again = has_same(&new, &d);
                        if !known && !again {
                            let ghost new0 = new@;
                            proof {
                                assert forall|c: Cell| #[trigger] d.cells_view().contains(c) implies k[i as int].cells_view().contains(c) by {
                                    k[i as int].cells_view().lemma_filter_contains_rev(not_in(k[j as int].cells_view()), c);
                                }
                                assert(narrower(d, k[i as int]));
                            }
                            new.push(d);
                            proof {
                                assert(new@[new0.len() as int] == d);
                                assert forall|q: int| 0 <= q < new@.len() implies {
                                    &&& (#[trigger] new@[q]).wf()
                                    &&& new@[q].cells_view().len() > 0
                                    &&& exists|a: int| 0 <= a < n && narrower(new@[q], #[trigger] k[a])
                                } by {
                                    if q < new0.len() {
                                        assert(new@[q] == new0[q]);
                                    } else {
                                        assert(narrower(new@[q], k[i as int]));
                                    }
                                }
                                assert forall|q1: int, q2: int| 0 <= q1 < q2 < new@.len() implies #[trigger] key(new@[q1]) != #[trigger] key(new@[q2]) by {
                                    assert(new@[q1] == new0[q1]);
                                    if q2 < new0.len() {
                                        assert(new@[q2] == new0[q2]);
                                    }
                                }
                                assert forall|q: int, m: int| 0 <= q < new@.len() && 0 <= m < n implies #[trigger] key(new@[q]) != #[trigger] key(k[m]) by {
                                    if q < new0.len() {
                                        assert(new@[q] == new0[q]);
                                    }
                                }
                                assert forall|m: Set<Cell>| #[trigger] self.consistent_with(m) implies forall|q: int|
                                    0 <= q < new@.len() ==> mines_in((#[trigger] new@[q]).cells_view(), m) == new@[q].count_view() by {
                                    assert forall|q: int| 0 <= q < new@.len() implies mines_in((#[trigger] new@[q]).cells_view(), m) == new@[q].count_view() by {
                                        if q < new0.len() {
                                            assert(new@[q] == new0[q]);
                                        }
                                    }
                                }
                                assert forall|a: int, b: int|
                                    0 <= a < n && 0 <= b < n && (a < i || (a == i && b < j + 1)) && #[trigger] all_in(k[b].cells_view(), k[a].cells_view()) implies {
                                        &&& k[b].count_view() <= k[a].count_view()
                                        &&& rest_of(k[a], k[b]).len() > 0 ==> (exists|m: int|
                                            0 <= m < n && #[trigger] key(k[m]) == derived_key(k[a], k[b]))
                                            || (exists|q: int| 0 <= q < new@.len() && #[trigger] key(new@[q]) == derived_key(k[a], k[b]))
                                    } by {
                                    if a == i && b == j {
                                        assert(key(new@[new0.len() as int]) == derived_key(k[a], k[b]));
                                    } else if rest_of(k[a], k[b]).len() > 0 {
                                        if !(exists|m: int| 0 <= m < n && #[trigger] key(k[m]) == derived_key(k[a], k[b])) {
                                            let q = choose|q: int| 0 <= q < new0.len() && #[trigger] key(new0[q]) == derived_key(k[a], k[b]);
                                            assert(new@[q] == new0[q]);
                                        }
                                    }
                                }
                                if pairs_settled(k) {
                                    assert(all_in(k[j as int].cells_view(), k[i as int].cells_view()));
                                    let m = choose|m: int| 0 <= m < n && #[trigger] key(k[m]) == derived_key(k[i as int], k[j as int]);
                                    assert(false);
                                }
                            }
                        }
                    }
                }
                j = j + 1;
            }
            i = i + 1;
        }
        Ok(new)
    }


    /// Collects, over all sentences, the cells that a sentence shows to be
    /// safe (first) and to be mines (second).
    fn stage(&self) -> (r: (Vec<Cell>, Vec<Cell>))
        ensures
            forall|c: Cell| #[trigger] r.0@.contains(c) ==> in_some(self.knowledge@, c),
            forall|c: Cell| #[trigger] r.1@.contains(c) ==> in_some(self.knowledge@, c),
            forall|c: Cell| #[trigger] r.0@.contains(c) ==> in_zero(self.knowledge@, c),
            forall|c: Cell| #[trigger] r.1@.contains(c) ==> in_full(self.knowledge@, c),
            (r.0@.len() == 0 && r.1@.len() == 0) <==> forall|i: int|
                0 <= i < self.knowledge@.len() ==> is_quiet(#[trigger] self.knowledge@[i]),
    {
        let ghost k = self.knowledge@;
        let mut safes: Vec<Cell> = Vec::new();
        let mut mines: Vec<Cell> = Vec::new();
        let mut i: usize = 0;
        while i < self.knowledge.len()
            invariant
                k == self.knowledge@,
                i <= k.len(),
                forall|c: Cell| #[trigger] safes@.contains(c) ==> in_some(k, c),
                forall|c: Cell| #[trigger] mines@.contains(c) ==> in_some(k, c),
                forall|c: Cell| #[trigger] safes@.contains(c) ==> in_zero(k, c),
                forall|c: Cell| #[trigger] mines@.contains(c) ==> in_full(k, c),
                (safes@.len() == 0 && mines@.len() == 0) <==> forall|a: int|
                    0 <= a < i ==> is_quiet(#[trigger] k[a]),
            decreases k.len() - i,
        {
            let mut ks = self.knowledge[i].known_safes();
            let mut km = self.knowledge[i].known_mines();
            let ghost (s0, m0, ks0, km0) = (safes@, mines@, ks@, km@);
            safes.append(&mut ks);
            mines.append(&mut km);
            proof {
                assert forall|c: Cell| #[trigger] safes@.contains(c) implies in_some(k, c) && in_zero(k, c) by {
                    let t = choose|t: int| 0 <= t < safes@.len() && safes@[t] == c;
                    if t < s0.len() {
                        assert(s0[t] == c);
                        assert(s0.contains(c));
                    } else {
                        assert(ks0[t - s0.len()] == c);
                        assert(k[i as int].cells_view().contains(c));
                    }
                }
                assert forall|c: Cell| #[trigger] mines@.contains(c) implies in_some(k, c) && in_full(k, c) by {
                    let t = choose|t: int| 0 <= t < mines@.len() && mines@[t] == c;
                    if t < m0.len() {
                        assert(m0[t] == c);
                        assert(m0.contains(c));
                    } else {
                        assert(km0[t - m0.len()] == c);
                        assert(k[i as int].cells_view().contains(c));
                    }
                }
                if safes@.len() == 0 && mines@.len() == 0 {
                    assert forall|a: int| 0 <= a < i + 1 implies is_quiet(#[trigger] k[a]) by {
                        if a == i {
                        }
                    }
                }
                if !(safes@.len() == 0 && mines@.len() == 0) {
                    if s0.len() == 0 && m0.len() == 0 {
                        assert(!is_quiet(k[i as int]));
                    } else {
                        let a = choose|a: int| 0 <= a < i && !is_quiet(#[trigger] k[a]);
                    }
                }
            }
            i = i + 1;
        }
        (safes, mines)
    }

    /// Marks every cell of `safes` safe and every cell of `mines` a mine;
    /// `Conflict` when a cell would be both, or a mine would enter a sentence
    /// that allows none.
    fn apply_marks(&mut self, safes: &Vec<Cell>, mines: &Vec<Cell>) -> (r: Result<(), Contradiction>)
        requires
            old(self).wf(),
        ensures
            final(self).wf(),
            final(self).keeps_marks_of(old(self)),
            final(self).moves_made@ == old(self).moves_made@,
            final(self).height == old(self).height,
            final(self).width == old(self).width,
            final(self).knowledge@.len() == old(self).knowledge@.len(),
            forall|i: int|
                0 <= i < final(self).knowledge@.len() ==> narrower(
                    #[trigger] final(self).knowledge@[i],
                    old(self).knowledge@[i],
                ),
            r is Ok ==> forall|c: Cell| #[trigger] safes@.contains(c) ==> final(self).known_safes@.contains(c),
            r is Ok ==> forall|c: Cell| #[trigger] mines@.contains(c) ==> final(self).known_mines@.contains(c),
            r is Err ==> r == Err::<(), Contradiction>(Contradiction::Conflict),
            forall|m: Set<Cell>|
                #[trigger] old(self).consistent_with(m) && marks_agree(safes@, mines@, m) ==> r is Ok
                    && final(self).consistent_with(m),
            r is Ok ==> forall|m: Set<Cell>| #[trigger] final(self).consistent_with(m) ==> old(self).consistent_with(m),
    {
        let mut t: usize = 0;
        while t < safes.len()
            invariant
                self.wf(),
                self.keeps_marks_of(old(self)),
                self.moves_made@ == old(self).moves_made@,
                self.height == old(self).height,
                self.width == old(self).width,
                self.knowledge@.len() == old(self).knowledge@.len(),
                forall|i: int|
                    0 <= i < self.knowledge@.len() ==> narrower(
                        #[trigger] self.knowledge@[i],
                        old(self).knowledge@[i],
                    ),
                t <= safes@.len(),
                forall|a: int| 0 <= a < t ==> self.known_safes@.contains(#[trigger] safes@[a]),
                forall|m: Set<Cell>|
                    #[trigger] old(self).consistent_with(m) && marks_agree(safes@, mines@, m) ==> self.consistent_with(m),
                forall|m: Set<Cell>| #[trigger] self.consistent_with(m) ==> old(self).consistent_with(m),
            decreases safes@.len() - t,
        {
            let c = safes[t];
            if contains_cell(&self.known_mines, c) {
                proof {
                    assert forall|m: Set<Cell>| #[trigger] old(self).consistent_with(m) && marks_agree(safes@, mines@, m) implies false by {
                        assert(self.consistent_with(m));
                        assert(self.mines_view().contains(c));
                        assert(safes@.contains(safes@[t as int]));
                    }
                }
                return Err(Contradiction::Conflict);
            }
            let ghost mid = *self;
            self.mark_safe(c);
            proof {
                assert forall|m: Set<Cell>| #[trigger] self.consistent_with(m) implies old(self).consistent_with(m) by {
                    assert(mid.consistent_with(m));
                }
                assert forall|m: Set<Cell>| #[trigger] old(self).consistent_with(m) && marks_agree(safes@, mines@, m) implies self.consistent_with(m) by {
                    assert(mid.consistent_with(m));
                    assert(safes@.contains(safes@[t as int]));
                }
                lemma_narrower_chain(self.knowledge@, mid.knowledge@, old(self).knowledge@);
                assert(self.known_safes@.contains(c)) by {
                    if !mid.known_safes@.contains(c) {
                        assert(self.known_safes@[mid.known_safes@.len() as int] == c);
                    }
                }
                assert forall|a: int| 0 <= a < t + 1 implies self.known_safes@.contains(#[trigger] safes@[a]) by {
                    if a < t {
                        assert(mid.safes_view().contains(safes@[a]));
                    }
                }
            }
            t = t + 1;
        }
        let mut t: usize = 0;
        while t < mines.len()
            invariant
                self.wf(),
                self.keeps_marks_of(old(self)),
                self.moves_made@ == old(self).moves_made@,
                self.height == old(self).height,
                self.width == old(self).width,
                self.knowledge@.len() == old(self).knowledge@.len(),
                forall|i: int|
                    0 <= i < self.knowledge@.len() ==> narrower(
                        #[trigger] self.knowledge@[i],
                        old(self).knowledge@[i],
                    ),
                forall|c: Cell| #[trigger] safes@.contains(c) ==> self.known_safes@.contains(c),
                t <= mines@.len(),
                forall|a: int| 0 <= a < t ==> self.known_mines@.contains(#[trigger] mines@[a]),
                forall|m: Set<Cell>|
                    #[trigger] old(self).consistent_with(m) && marks_agree(safes@, mines@, m) ==> self.consistent_with(m),
                forall|m: Set<Cell>| #[trigger] self.consistent_with(m) ==> old(self).consistent_with(m),
            decreases mines@.len() - t,
        {
            let c = mines[t];
            if contains_cell(&self.known_safes, c) || self.blocks_mine(c) {
                proof {
                    assert forall|m: Set<Cell>| #[trigger] old(self).consistent_with(m) && marks_agree(safes@, mines@, m) implies false by {
                        assert(self.consistent_with(m));
                        assert(mines@.contains(mines@[t as int]));
                        assert(m.contains(c));
                        if !self.safes_view().contains(c) {
                            let i = choose|i: int|
                                0 <= i < self.knowledge@.len() && (#[trigger] self.knowledge@[i]).cells_view().contains(c)
                                    && self.knowledge@[i].count_view() == 0;
                            assert(mines_in(self.knowledge_view()[i].cells_view(), m) == 0);
                            lemma_mines_in_zero(self.knowledge@[i].cells_view(), m, c);
                        }
                    }
                }
                return Err(Contradiction::Conflict);
            }
            let ghost mid = *self;
            proof {
                assert forall|i: int|
                    0 <= i < mid.knowledge_view().len() && (#[trigger] mid.knowledge_view()[i]).cells_view().contains(c)
                    implies mid.knowledge_view()[i].count_view() > 0 by {
                    assert(mid.knowledge@[i].cells_view().contains(c));
                }
            }
            self.mark_mine(c);
            proof {
                assert forall|m: Set<Cell>| #[trigger] self.consistent_with(m) implies old(self).consistent_with(m) by {
                    assert(mid.consistent_with(m));
                }
                assert forall|m: Set<Cell>| #[trigger] old(self).consistent_with(m) && marks_agree(safes@, mines@, m) implies self.consistent_with(m) by {
                    assert(mid.consistent_with(m));
                    assert(mines@.contains(mines@[t as int]));
                }
                lemma_narrower_chain(self.knowledge@, mid.knowledge@, old(self).knowledge@);
                assert(self.known_mines@.contains(c)) by {
                    if !mid.known_mines@.contains(c) {
                        assert(self.known_mines@[mid.known_mines@.len() as int] == c);
                    }
                }
                assert forall|a: int| 0 <= a < t + 1 implies self.known_mines@.contains(#[trigger] mines@[a]) by {
                    if a < t {
                        assert(mid.mines_view().contains(mines@[a]));
                    }
                }
                assert forall|c2: Cell| #[trigger] safes@.contains(c2) implies self.known_safes@.contains(c2) by {
                    assert(mid.safes_view().contains(c2));
                }
            }
            t = t + 1;
        }
        proof {
            assert forall|c: Cell| #[trigger] mines@.contains(c) implies self.known_mines@.contains(c) by {
                let a = choose|a: int| 0 <= a < mines@.len() && mines@[a] == c;
            }
        }
        Ok(())
    }


    /// Runs the inference to a fixpoint: repeatedly marks the cells that a
    /// sentence gives away, drops emptied and repeated sentences and adds what
    /// the subset rule derives, until a pass changes nothing. On success
    /// nothing more follows (`settled`) and the knowledge is true of exactly
    /// the same mine layouts as before; it fails (`Conflict`) only when no
    /// layout fits the knowledge. On an already settled agent it changes
    /// nothing, so a second run right after a successful one changes nothing.
    pub fn infer(&mut self) -> (r: Result<(), Contradiction>)
        requires
            old(self).wf(),
        ensures
            final(self).wf(),
            final(self).keeps_marks_of(old(self)),
            final(self).moves_view() == old(self).moves_view(),
            final(self).height_view() == old(self).height_view(),
            final(self).width_view() == old(self).width_view(),
            r is Ok ==> final(self).settled(),
            r is Err ==> r == Err::<(), Contradiction>(Contradiction::Conflict),
            forall|m: Set<Cell>| #[trigger] old(self).consistent_with(m) ==> r is Ok && final(self).consistent_with(m),
            r is Ok ==> forall|m: Set<Cell>| #[trigger] final(self).consistent_with(m) ==> old(self).consistent_with(m),
            old(self).settled() ==> {
                &&& r is Ok
                &&& final(self).knowledge_view() == old(self).knowledge_view()
                &&& final(self).safes_view() == old(self).safes_view()
                &&& final(self).mines_view() == old(self).mines_view()
            },
    {
        match self.prune() {
            Err(e) => {
                proof {
                    if old(self).settled() {
                        assert forall|i: int| 0 <= i < old(self).knowledge@.len() implies (#[trigger] old(self).knowledge@[i]).cells_view().len() > 0 by {
                            assert(old(self).knowledge_view()[i] == old(self).knowledge@[i]);
                        }
                    }
                }
                return Err(e);
            },
            Ok(()) => {},
        }
        proof {
            if old(self).settled() {
                assert forall|i: int| 0 <= i < old(self).knowledge@.len() implies (#[trigger] old(self).knowledge@[i]).cells_view().len() > 0 by {
                    assert(old(self).knowledge_view()[i] == old(self).knowledge@[i]);
                }
            }
            lemma_cells_of(self.knowledge@);
        }
        let ghost univ = cells_of(self.knowledge@);
        let ghost maxc = max_count(self.knowledge@);
        loop
            invariant
                self.wf(),
                self.keeps_marks_of(old(self)),
                self.moves_made@ == old(self).moves_made@,
                self.height == old(self).height,
                self.width == old(self).width,
                univ.finite(),
                forall|i: int, c: Cell|
                    0 <= i < self.knowledge@.len() && #[trigger] self.knowledge@[i].cells_view().contains(c)
                        ==> univ.contains(c),
                forall|i: int|
                    0 <= i < self.knowledge@.len() ==> (#[trigger] self.knowledge@[i]).cells_view().len() > 0
                        && self.knowledge@[i].count_view() <= maxc,
                forall|m: Set<Cell>| #[trigger] old(self).consistent_with(m) ==> self.consistent_with(m),
                distinct_keys(self.knowledge@),
                forall|m: Set<Cell>| #[trigger] self.consistent_with(m) ==> old(self).consistent_with(m),
                old(self).settled() ==> {
                    &&& self.knowledge@ == old(self).knowledge@
                    &&& self.known_safes@ == old(self).known_safes@
                    &&& self.known_mines@ == old(self).known_mines@
                },
            ensures
                self.wf(),
                self.keeps_marks_of(old(self)),
                self.moves_made@ == old(self).moves_made@,
                self.height == old(self).height,
                self.width == old(self).width,
                self.settled(),
                forall|m: Set<Cell>| #[trigger] old(self).consistent_with(m) ==> self.consistent_with(m),
                forall|m: Set<Cell>| #[trigger] self.consistent_with(m) ==> old(self).consistent_with(m),
                old(self).settled() ==> {
                    &&& self.knowledge@ == old(self).knowledge@
                    &&& self.known_safes@ == old(self).known_safes@
                    &&& self.known_mines@ == old(self).known_mines@
                },
            decreases
                unknown_cells(univ, self.known_safes@, self.known_mines@).len(),
                all_keys(univ, maxc).len() - keys(self.knowledge@).len(),
        {
            let ghost k0 = self.knowledge@;
            let ghost s0 = self.known_safes@;
            let ghost m0 = self.known_mines@;
            let ghost before = *self;
            proof {
                lemma_keys_bounded(k0, univ, maxc);
            }
            let (safes, mines) = self.stage();
            let staged = safes.len() > 0 || mines.len() > 0;
            proof {
                if old(self).settled() {
                    assert forall|i: int| 0 <= i < k0.len() implies is_quiet(#[trigger] k0[i]) by {
                        assert(old(self).knowledge_view()[i] == k0[i]);
                    }
                    assert(!staged);
                }
            }
            proof {
                assert forall|m: Set<Cell>| #[trigger] old(self).consistent_with(m) implies marks_agree(safes@, mines@, m) by {
                    assert(before.consistent_with(m));
                    assert forall|c: Cell| #[trigger] safes@.contains(c) implies !m.contains(c) by {
                        let i = choose|i: int| 0 <= i < k0.len() && #[trigger] k0[i].cells_view().contains(c) && k0[i].count_view() == 0;
                        assert(mines_in(before.knowledge_view()[i].cells_view(), m) == 0);
                        lemma_mines_in_zero(k0[i].cells_view(), m, c);
                    }
                    assert forall|c: Cell| #[trigger] mines@.contains(c) implies m.contains(c) by {
                        let i = choose|i: int| 0 <= i < k0.len() && #[trigger] k0[i].cells_view().contains(c) && k0[i].count_view() == k0[i].cells_view().len();
                        assert(mines_in(before.knowledge_view()[i].cells_view(), m) == k0[i].count_view());
                        assert(before.knowledge_view()[i].wf());
                        lemma_mines_in_full(k0[i].cells_view(), m, c);
                    }
                }
            }
            let ghost x: Cell = if safes@.len() > 0 {
                safes@[0]
            } else if mines@.len() > 0 {
                mines@[0]
            } else {
                (0, 0)
            };
            if staged {
                proof {
                    if safes@.len() > 0 {
                        assert(safes@.contains(x));
                    } else {
                        assert(mines@.contains(x));
                    }
                    let i = choose|i: int| 0 <= i < k0.len() && #[trigger] k0[i].cells_view().contains(x);
                    assert(before.knowledge_view()[i].cells_view().contains(x));
                }
                match self.apply_marks(&safes, &mines) {
                    Err(e) => {
                        proof {
                            assert forall|m: Set<Cell>| #[trigger] old(self).consistent_with(m) implies false by {
                                assert(before.consistent_with(m));
                                assert(marks_agree(safes@, mines@, m));
                            }
                        }
                        return Err(e);
                    },
                    Ok(()) => {},
                }
                proof {
                    if safes@.len() > 0 {
                        assert(safes@.contains(x));
                    } else {
                        assert(mines@.contains(x));
                    }
                    assert forall|i: int, c: Cell|
                        0 <= i < self.knowledge@.len() && #[trigger] self.knowledge@[i].cells_view().contains(c)
                        implies univ.contains(c) by {
                        assert(narrower(self.knowledge@[i], k0[i]));
                        assert(k0[i].cells_view().contains(c));
                    }
                    assert forall|i: int| 0 <= i < self.knowledge@.len() implies (#[trigger] self.knowledge@[i]).count_view() <= maxc by {
                        assert(narrower(self.knowledge@[i], k0[i]));
                    }
                }
                let ghost marked = *self;
                match self.prune() {
                    Err(e) => {
                        proof {
                            assert forall|m: Set<Cell>| #[trigger] old(self).consistent_with(m) implies false by {
                                assert(marked.consistent_with(m));
                            }
                        }
                        return Err(e);
                    },
                    Ok(()) => {},
                }
                proof {
                    assert forall|m: Set<Cell>| #[trigger] self.consistent_with(m) implies old(self).consistent_with(m) by {
                        assert(marked.consistent_with(m));
                        assert(before.consistent_with(m));
                    }
                    let f = self.knowledge@;
                    assert forall|i: int| 0 <= i < f.len() implies (#[trigger] f[i]).cells_view().len() > 0
                        && f[i].count_view() <= maxc && (forall|c: Cell| #[trigger] f[i].cells_view().contains(c) ==> univ.contains(c)) by {
                        let j = choose|j: int| 0 <= j < marked.knowledge@.len() && marked.knowledge@[j] == f[i];
                        assert forall|c: Cell| #[trigger] f[i].cells_view().contains(c) implies univ.contains(c) by {
                            assert(marked.knowledge@[j].cells_view().contains(c));
                        }
                    }
                }
            }
            let ghost k1 = self.knowledge@;
            let ghost at_derive = *self;
            let new = match self.derive() {
                Err(e) => {
                    proof {
                        assert forall|m: Set<Cell>| #[trigger] old(self).consistent_with(m) implies false by {
                            assert(at_derive.consistent_with(m));
                        }
                    }
                    return Err(e);
                },
                Ok(v) => v,
            };
            let added = new.len() > 0;
            if !staged && !added {
                proof {
                    assert forall|i: int| 0 <= i < k1.len() implies {
                        &&& (#[trigger] k1[i]).cells_view().len() > 0
                        &&& k1[i].count_view() != 0
                        &&& k1[i].count_view() != k1[i].cells_view().len()
                    } by {
                        assert(is_quiet(k1[i]));
                    }
                    assert(all_quiet(self.knowledge_view()));
                }
                break;
            }
            let mut new = new;
            let ghost n0 = new@;
            self.knowledge.append(&mut new);
            proof {
                let k2 = self.knowledge@;
                assert forall|q: int| 0 <= q < n0.len() implies k2[k1.len() + q] == n0[q] by {}
                assert forall|i: int| 0 <= i < k2.len() implies {
                    &&& (#[trigger] k2[i]).wf()
                    &&& k2[i].cells_view().len() > 0
                    &&& k2[i].count_view() <= maxc
                    &&& forall|c: Cell| #[trigger] k2[i].cells_view().contains(c) ==> univ.contains(c)
                        && !self.known_safes@.contains(c) && !self.known_mines@.contains(c)
                } by {
                    if i < k1.len() {
                        assert(k2[i] == k1[i]);
                        assert(at_derive.knowledge_view()[i] == k1[i]);
                        assert(at_derive.knowledge_view()[i].wf());
                        assert forall|c: Cell| #[trigger] k2[i].cells_view().contains(c) implies univ.contains(c)
                            && !self.known_safes@.contains(c) && !self.known_mines@.contains(c) by {
                            assert(k1[i].cells_view().contains(c));
                            assert(at_derive.knowledge_view()[i].cells_view().contains(c));
                        }
                    } else {
                        let q = i - k1.len();
                        assert(k2[i] == n0[q]);
                        let a = choose|a: int| 0 <= a < k1.len() && narrower(n0[q], #[trigger] k1[a]);
                        assert forall|c: Cell| #[trigger] k2[i].cells_view().contains(c) implies univ.contains(c)
                            && !self.known_safes@.contains(c) && !self.known_mines@.contains(c) by {
                            assert(k1[a].cells_view().contains(c));
                            assert(at_derive.knowledge_view()[a].cells_view().contains(c));
                        }
                    }
                }
                assert(self.wf());
                assert forall|i: int, j: int| 0 <= i < j < k2.len() implies #[trigger] key(k2[i]) != #[trigger] key(k2[j]) by {
                    if j < k1.len() {
                        assert(k2[i] == k1[i] && k2[j] == k1[j]);
                    } else if i < k1.len() {
                        assert(k2[i] == k1[i] && k2[j] == n0[j - k1.len()]);
                    } else {
                        assert(k2[i] == n0[i - k1.len()] && k2[j] == n0[j - k1.len()]);
                    }
                }
                assert forall|m: Set<Cell>| #[trigger] self.consistent_with(m) implies old(self).consistent_with(m) by {
                    assert forall|i: int| 0 <= i < at_derive.knowledge_view().len() implies mines_in(
                        (#[trigger] at_derive.knowledge_view()[i]).cells_view(), m) == at_derive.knowledge_view()[i].count_view() by {
                        assert(self.knowledge_view()[i] == k2[i]);
                        assert(k2[i] == k1[i]);
                    }
                    assert(at_derive.consistent_with(m));
                }
                assert forall|m: Set<Cell>| #[trigger] old(self).consistent_with(m) implies self.consistent_with(m) by {
                    assert(at_derive.consistent_with(m));
                    assert forall|i: int| 0 <= i < self.knowledge_view().len() implies mines_in(
                        (#[trigger] self.knowledge_view()[i]).cells_view(), m) == self.knowledge_view()[i].count_view() by {
                        if i < k1.len() {
                            assert(at_derive.knowledge_view()[i] == k2[i]);
                        } else {
                            assert(k2[i] == n0[i - k1.len()]);
                        }
                    }
                }
                // progress: a newly marked cell, or a new statement
                let u0 = unknown_cells(univ, s0, m0);
                let u1 = unknown_cells(univ, self.known_safes@, self.known_mines@);
                assert(u1.subset_of(u0));
                lemma_len_subset(u1, u0);
                if staged {
                    assert(u0.contains(x));
                    assert(!u1.contains(x));
                    assert(u1.subset_of(u0.remove(x)));
                    lemma_len_subset(u1, u0.remove(x));
                } else {
                    assert(self.known_safes@ == s0);
                    assert(self.known_mines@ == m0);
                    assert(k1 == k0);
                    lemma_keys_bounded(k2, univ, maxc);
                    assert(key(k2[k1.len() as int]) == key(n0[0]));
                    assert(!keys(k0).contains(key(n0[0])));
                    assert(keys(k0).insert(key(n0[0])).subset_of(keys(k2))) by {
                        assert forall|p: (Set<Cell>, nat)| #[trigger] keys(k0).contains(p) implies keys(k2).contains(p) by {
                            let i = choose|i: int| 0 <= i < k0.len() && #[trigger] key(k0[i]) == p;
                            assert(k2[i] == k0[i]);
                        }
                        assert(keys(k2).contains(key(k2[k1.len() as int])));
                    }
                    lemma_len_subset(keys(k0).insert(key(n0[0])), keys(k2));
                }
                if old(self).settled() {
                    assert(!staged);
                    assert(pairs_settled(k1));
                    assert(false);
                }
            }
        }
        Ok(())
    }


    /// The known mines among the neighbours of `cell`.
    pub open spec fn mines_around(&self, cell: Cell) -> Seq<Cell> {
        neighbors_where(
            cell,
            self.height_view() as int,
            self.width_view() as int,
            listed_in(self.mines_view()),
            9,
        )
    }

    /// The neighbours of `cell` that are neither revealed, nor known safe, nor
    /// known mines, in row-major order.
    pub open spec fn undetermined_around(&self, cell: Cell) -> Seq<Cell> {
        neighbors_where(
            cell,
            self.height_view() as int,
            self.width_view() as int,
            undetermined(self.moves_view(), self.safes_view(), self.mines_view()),
            9,
        )
    }

    /// The number of cells of `m` around `cell`: the clue a board whose
    /// mines are `m` shows for `cell`.
    pub open spec fn clue(&self, cell: Cell, m: Set<Cell>) -> nat {
        neighbors_where(cell, self.height_view() as int, self.width_view() as int, in_set(m), 9).len()
    }

    /// Takes in that `cell` was revealed safe with `count` mines around it:
    /// records the move, marks the cell safe, adds the sentence "exactly
    /// `count`, less the known mines around, of the undetermined neighbours
    /// are mines" (when any neighbour is undetermined), and runs the inference
    /// to its fixpoint.
    ///
    /// The evidence is refused when the cell is a known mine, when the count
    /// is below the known mines around it or above what its undetermined
    /// neighbours can hold, and (`Conflict`) when the inference meets a
    /// contradiction. Evidence that is true of a mine layout the knowledge is
    /// true of is always taken in. Once taken in, the knowledge is true of
    /// exactly the layouts that the old knowledge was true of and that give
    /// this clue with `cell` safe.
    pub fn add_knowledge(&mut self, cell: Cell, count: usize) -> (r: Result<(), Contradiction>)
        requires
            old(self).wf(),
            in_bounds(cell, old(self).height_view() as int, old(self).width_view() as int),
        ensures
            final(self).wf(),
            final(self).keeps_marks_of(old(self)),
            final(self).height_view() == old(self).height_view(),
            final(self).width_view() == old(self).width_view(),
            r == Err::<(), Contradiction>(Contradiction::RevealedMine) <==> old(self).mines_view().contains(cell),
            old(self).mines_view().contains(cell) ==> final(self).moves_view() == old(self).moves_view(),
            !old(self).mines_view().contains(cell) ==> {
                &&& final(self).moves_view() == if old(self).moves_view().contains(cell) {
                    old(self).moves_view()
                } else {
                    old(self).moves_view().push(cell)
                }
                &&& final(self).safes_view().contains(cell)
                &&& (r == Err::<(), Contradiction>(Contradiction::CountTooLow) <==> count
                    < old(self).mines_around(cell).len())
                &&& (r == Err::<(), Contradiction>(Contradiction::CountTooHigh) <==> count
                    >= old(self).mines_around(cell).len() && count - old(self).mines_around(cell).len()
                    > old(self).undetermined_around(cell).len())
            },
            r is Ok ==> final(self).settled(),
            forall|m: Set<Cell>|
                #[trigger] old(self).consistent_with(m) && !m.contains(cell) && count == old(self).clue(cell, m)
                    ==> r is Ok && final(self).consistent_with(m),
            r is Ok ==> forall|m: Set<Cell>|
                #[trigger] final(self).consistent_with(m) ==> old(self).consistent_with(m) && !m.contains(cell)
                    && count == old(self).clue(cell, m),
    {
        if contains_cell(&self.known_mines, cell) {
            return Err(Contradiction::RevealedMine);
        }
        insert_cell(&mut self.moves_made, cell);
        proof {
            assert forall|i: int| 0 <= i < self.knowledge_view().len() implies (#[trigger] self.knowledge_view()[i]).wf() by {
                assert(old(self).knowledge_view()[i].wf());
            }
            assert forall|i: int, c: Cell|
                0 <= i < self.knowledge_view().len() && #[trigger] self.knowledge_view()[i].cells_view().contains(c)
                implies !self.safes_view().contains(c) && !self.mines_view().contains(c) by {
                assert(old(self).knowledge_view()[i].cells_view().contains(c));
            }
            assert forall|c: Cell| #[trigger] self.safes_view().contains(c) implies !self.mines_view().contains(c) by {
                assert(old(self).safes_view().contains(c));
            }
        }
        let ghost moved = *self;
        proof {
            assert forall|m: Set<Cell>| #[trigger] old(self).consistent_with(m) && !m.contains(cell) implies moved.consistent_with(m) by {
                assert forall|c: Cell| #[trigger] moved.moves_view().contains(c) implies !m.contains(c) by {
                    if c != cell {
                        lemma_push_contains(old(self).moves_made@, cell, c);
                        assert(old(self).moves_view().contains(c));
                    }
                }
                assert forall|i: int| 0 <= i < moved.knowledge_view().len() implies mines_in(
                    (#[trigger] moved.knowledge_view()[i]).cells_view(), m) == moved.knowledge_view()[i].count_view() by {
                    assert(old(self).knowledge_view()[i] == moved.knowledge_view()[i]);
                }
            }
        }
        self.mark_safe(cell);
        let ghost marked = *self;
        let ghost h = self.height as int;
        let ghost w = self.width as int;
        let ghost undet = undetermined(self.moves_made@, self.known_safes@, self.known_mines@);
        let ghost minep = listed_in(self.known_mines@);
        proof {
            assert(self.known_safes@.contains(cell)) by {
                if !old(self).known_safes@.contains(cell) {
                    assert(self.known_safes@[old(self).known_safes@.len() as int] == cell);
                }
            }
            let old_undet = undetermined(old(self).moves_view(), old(self).safes_view(), old(self).mines_view());
            assert forall|d: Cell| d != cell implies #[trigger] undet(d) == old_undet(d) by {
                lemma_push_contains(old(self).moves_made@, cell, d);
                lemma_push_contains(old(self).known_safes@, cell, d);
            }
            lemma_neighbors_where_ext(cell, h, w, undet, old_undet, 9);
            lemma_neighbors_where(cell, h, w, undet, 9);
        }
        let mut set_cells: Vec<Cell> = Vec::new();
        let mut near: usize = 0;
        let mut a: usize = 0;
        while a < 3
            invariant
                a <= 3,
                self.wf(),
                h == self.height,
                w == self.width,
                in_bounds(cell, h, w),
                undet == undetermined(self.moves_made@, self.known_safes@, self.known_mines@),
                minep == listed_in(self.known_mines@),
                set_cells@ == neighbors_where(cell, h, w, undet, 3 * a),
                near == neighbors_where(cell, h, w, minep, 3 * a).len(),
                near <= 3 * a,
            decreases 3 - a,
        {
            let mut b: usize = 0;
            while b < 3
                invariant
                    a < 3,
                    b <= 3,
                    self.wf(),
                    h == self.height,
                    w == self.width,
                    in_bounds(cell, h, w),
                    undet == undetermined(self.moves_made@, self.known_safes@, self.known_mines@),
                    minep == listed_in(self.known_mines@),
                    set_cells@ == neighbors_where(cell, h, w, undet, 3 * a + b),
                    near == neighbors_where(cell, h, w, minep, 3 * a + b).len(),
                    near <= 3 * a + b,
                decreases 3 - b,
            {
                let ghost k = 3 * a + b;
                if !(a == 1 && b == 1) && !(a == 0 && cell.0 == 0) && !(b == 0 && cell.1 == 0) {
                    let i: usize = if a == 0 { cell.0 - 1 } else { cell.0 + (a - 1) };
                    let j: usize = if b == 0 { cell.1 - 1 } else { cell.1 + (b - 1) };
                    if i < self.height && j < self.width {
                        assert(is_neighbor_slot(cell, k, h, w));
                        assert(window_cell(cell, k) == (i, j));
                        if !contains_cell(&self.moves_made, (i, j)) && !contains_cell(&self.known_safes, (i, j))
                            && !contains_cell(&self.known_mines, (i, j)) {
                            set_cells.push((i, j));
                        }
                        if contains_cell(&self.known_mines, (i, j)) {
                            near = near + 1;
                        }
                    } else {
                        assert(!is_neighbor_slot(cell, k, h, w));
                    }
                } else {
                    assert(!is_neighbor_slot(cell, k, h, w));
                }
                b = b + 1;
            }
            a = a + 1;
        }
        // what a consistent layout says of the count
        let ghost fits = |m: Set<Cell>|
            old(self).consistent_with(m) && !m.contains(cell) && count == neighbors_where(
                cell,
                h,
                w,
                in_set(m),
                9,
            ).len();
        proof {
            assert forall|m: Set<Cell>| #[trigger] self.consistent_with(m) implies neighbors_where(cell, h, w, in_set(m), 9).len()
                == near + mines_in(set_cells@, m) by {
                let q = both(undet, in_set(m));
                assert forall|d: Cell| d != cell implies (#[trigger] in_set(m)(d) <==> minep(d) || q(d)) && !(minep(d) && q(d)) by {
                    if m.contains(d) {
                        assert(!self.moves_view().contains(d));
                        assert(!self.safes_view().contains(d));
                    }
                    if minep(d) {
                        assert(self.mines_view().contains(d));
                    }
                }
                lemma_neighbors_split(cell, h, w, in_set(m), minep, q, 9);
                lemma_neighbors_in(cell, h, w, undet, m, 9);
            }
            assert forall|m: Set<Cell>| #[trigger] fits(m) implies self.consistent_with(m) && count
                == near + mines_in(set_cells@, m) by {
                assert(moved.consistent_with(m));
            }
        }
        if count < near {
            proof {
                assert forall|m: Set<Cell>| #[trigger] old(self).consistent_with(m) && !m.contains(cell) && count == neighbors_where(
                    cell,
                    old(self).height_view() as int,
                    old(self).width_view() as int,
                    in_set(m),
                    9,
                ).len() implies false by {
                    assert(fits(m));
                }
            }
            return Err(Contradiction::CountTooLow);
        }
        let adjusted = count - near;
        proof {
            lemma_mines_in_le(set_cells@, Set::empty());
            assert forall|m: Set<Cell>| #[trigger] fits(m) implies adjusted == mines_in(set_cells@, m) && adjusted <= set_cells@.len() by {
                lemma_mines_in_le(set_cells@, m);
            }
        }
        if adjusted > set_cells.len() {
            proof {
                assert forall|m: Set<Cell>| #[trigger] old(self).consistent_with(m) && !m.contains(cell) && count == neighbors_where(
                    cell,
                    old(self).height_view() as int,
                    old(self).width_view() as int,
                    in_set(m),
                    9,
                ).len() implies false by {
                    assert(fits(m));
                }
            }
            return Err(Contradiction::CountTooHigh);
        }
        let ghost cells_seq = set_cells@;
        if set_cells.len() > 0 {
            let ghost before = *self;
            proof {
                lemma_neighbors_where(cell, h, w, undet, 9);
            }
            self.knowledge.push(Sentence::new(set_cells, adjusted));
            proof {
                let k = self.knowledge@;
                assert forall|i: int| 0 <= i < k.len() implies (#[trigger] k[i]).wf() by {
                    if i < k.len() - 1 {
                        assert(before.knowledge_view()[i] == k[i]);
                    }
                }
                assert forall|i: int, c: Cell| 0 <= i < k.len() && #[trigger] k[i].cells_view().contains(c)
                    implies !self.known_safes@.contains(c) && !self.known_mines@.contains(c) by {
                    if i < k.len() - 1 {
                        assert(before.knowledge_view()[i] == k[i]);
                        assert(before.knowledge_view()[i].cells_view().contains(c));
                    } else {
                        assert(undet(c));
                    }
                }
            }
        }
        proof {
            assert forall|m: Set<Cell>| #[trigger] fits(m) implies self.consistent_with(m) by {
                if cells_seq.len() > 0 {
                    let k = self.knowledge@;
                    assert forall|i: int| 0 <= i < self.knowledge_view().len() implies mines_in(
                        (#[trigger] self.knowledge_view()[i]).cells_view(), m) == self.knowledge_view()[i].count_view() by {
                        if i < k.len() - 1 {
                            assert(marked.knowledge_view()[i] == k[i]);
                        }
                    }
                }
            }
        }
        let ghost pre = *self;
        assert(pre.known_mines@ == marked.known_mines@ && pre.known_safes@ == marked.known_safes@);
        let r = self.infer();
        proof {
            assert forall|m: Set<Cell>| #[trigger] old(self).consistent_with(m) && !m.contains(cell) && count == neighbors_where(
                cell,
                old(self).height_view() as int,
                old(self).width_view() as int,
                in_set(m),
                9,
            ).len() implies r is Ok && self.consistent_with(m) by {
                assert(fits(m));
                assert(pre.consistent_with(m));
            }
            if r is Ok {
                assert forall|m: Set<Cell>| #[trigger] self.consistent_with(m) implies old(self).consistent_with(m)
                    && !m.contains(cell) && count == neighbors_where(cell, h, w, in_set(m), 9).len() by {
                    assert(pre.consistent_with(m));
                    assert forall|i: int| 0 <= i < marked.knowledge_view().len() implies mines_in(
                        (#[trigger] marked.knowledge_view()[i]).cells_view(), m) == marked.knowledge_view()[i].count_view() by {
                        assert(pre.knowledge_view()[i] == marked.knowledge_view()[i]);
                    }
                    assert(marked.consistent_with(m));
                    assert(moved.consistent_with(m));
                    lemma_mines_in_le(cells_seq, m);
                    if cells_seq.len() > 0 {
                        let last = pre.knowledge_view().len() - 1;
                        assert(mines_in(pre.knowledge_view()[last].cells_view(), m) == pre.knowledge_view()[last].count_view());
                    }
                    assert forall|c: Cell| #[trigger] old(self).moves_view().contains(c) implies !m.contains(c) by {
                        if c != cell {
                            lemma_push_contains(old(self).moves_made@, cell, c);
                        }
                        assert(moved.moves_view().contains(c)) by {
                            if !old(self).moves_made@.contains(cell) {
                                lemma_push_contains(old(self).moves_made@, cell, c);
                            }
                        }
                    }
                    assert forall|i: int| 0 <= i < old(self).knowledge_view().len() implies mines_in(
                        (#[trigger] old(self).knowledge_view()[i]).cells_view(), m) == old(self).knowledge_view()[i].count_view() by {
                        assert(moved.knowledge_view()[i] == old(self).knowledge_view()[i]);
                    }
                }
            }
            assert forall|c: Cell| #[trigger] old(self).mines_view().contains(c) implies self.mines_view().contains(c) by {
                assert(marked.mines_view().contains(c));
                assert(pre.mines_view().contains(c));
            }
            assert forall|c: Cell| #[trigger] old(self).safes_view().contains(c) implies self.safes_view().contains(c) by {
                assert(marked.safes_view().contains(c));
                assert(pre.safes_view().contains(c));
            }
            assert(marked.safes_view().contains(cell));
            assert(pre.safes_view().contains(cell));
        }
        r
    }

    /// Whether some sentence holding `c` says that none of its cells is a mine.
    fn blocks_mine(&self, c: Cell) -> (r: bool)
        ensures
            r == exists|i: int|
                0 <= i < self.knowledge@.len() && (#[trigger] self.knowledge@[i]).cells_view().contains(c)
                    && self.knowledge@[i].count_view() == 0,
    {
        let mut i: usize = 0;
        while i < self.knowledge.len()
            invariant
                i <= self.knowledge@.len(),
                forall|k: int|
                    0 <= k < i ==> !((#[trigger] self.knowledge@[k]).cells_view().contains(c)
                        && self.knowledge@[k].count_view() == 0),
            decreases self.knowledge@.len() - i,
        {
            if self.knowledge[i].count() == 0 && contains_cell(self.knowledge[i].cells(), c) {
                return true;
            }
            i = i + 1;
        }
        false
    }

    /// Records that `cell` is a mine, and takes it out of every sentence,
    /// whose count drops by one where it was present.
    pub fn mark_mine(&mut self, cell: Cell)
        requires
            old(self).wf(),
            !old(self).safes_view().contains(cell),
            forall|i: int|
                0 <= i < old(self).knowledge_view().len()
                    && (#[trigger] old(self).knowledge_view()[i]).cells_view().contains(cell)
                    ==> old(self).knowledge_view()[i].count_view() > 0,
        ensures
            final(self).wf(),
            final(self).mines_view() == if old(self).mines_view().contains(cell) {
                old(self).mines_view()
            } else {
                old(self).mines_view().push(cell)
            },
            final(self).safes_view() == old(self).safes_view(),
            final(self).moves_view() == old(self).moves_view(),
            final(self).height_view() == old(self).height_view(),
            final(self).width_view() == old(self).width_view(),
            final(self).knowledge_view().len() == old(self).knowledge_view().len(),
            forall|i: int|
                0 <= i < final(self).knowledge_view().len() ==> {
                    let s = #[trigger] final(self).knowledge_view()[i];
                    let t = old(self).knowledge_view()[i];
                    &&& s.cells_view() == t.cells_view().filter(other_than(cell))
                    &&& s.count_view() == if t.cells_view().contains(cell) {
                        t.count_view() - 1
                    } else {
                        t.count_view() as int
                    }
                },
            forall|i: int|
                0 <= i < final(self).knowledge_view().len() ==> narrower(
                    #[trigger] final(self).knowledge_view()[i],
                    old(self).knowledge_view()[i],
                ),
            final(self).keeps_marks_of(old(self)),
            forall|m: Set<Cell>|
                #[trigger] old(self).consistent_with(m) && m.contains(cell) ==> final(self).consistent_with(m),
            forall|m: Set<Cell>|
                #[trigger] final(self).consistent_with(m) ==> old(self).consistent_with(m) && m.contains(cell),
    {
        insert_cell(&mut self.known_mines, cell);
        assert(self.known_mines@.contains(cell)) by {
            if !old(self).known_mines@.contains(cell) {
                assert(self.known_mines@[old(self).known_mines@.len() as int] == cell);
            }
        }
        let n = self.knowledge.len();
        let mut i: usize = 0;
        while i < n
            invariant
                n == self.knowledge@.len(),
                n == old(self).knowledge@.len(),
                i <= n,
                self.known_mines@.contains(cell),
                self.known_mines@.no_duplicates(),
                self.known_mines@ == if old(self).known_mines@.contains(cell) {
                    old(self).known_mines@
                } else {
                    old(self).known_mines@.push(cell)
                },
                self.known_safes@ == old(self).known_safes@,
                self.moves_made@ == old(self).moves_made@,
                self.height == old(self).height,
                self.width == old(self).width,
                old(self).wf(),
                !old(self).known_safes@.contains(cell),
                forall|k: int|
                    0 <= k < n && (#[trigger] old(self).knowledge_view()[k]).cells_view().contains(cell)
                        ==> old(self).knowledge_view()[k].count_view() > 0,
                forall|k: int| i <= k < n ==> #[trigger] self.knowledge@[k] == old(self).knowledge@[k],
                forall|k: int|
                    0 <= k < i ==> {
                        let s = #[trigger] self.knowledge@[k];
                        let t = old(self).knowledge@[k];
                        &&& s.wf()
                        &&& s.cells_view() == t.cells_view().filter(other_than(cell))
                        &&& s.count_view() == if t.cells_view().contains(cell) {
                            t.count_view() - 1
                        } else {
                            t.count_view() as int
                        }
                    },
            decreases n - i,
        {
            assert(old(self).knowledge_view()[i as int].wf());
            self.knowledge[i].mark_mine(cell);
            i = i + 1;
        }
        proof {
            assert forall|c: Cell| #[trigger] self.known_safes@.contains(c) implies !self.known_mines@.contains(c) by {
                if c != cell {
                    if self.known_mines@.contains(c) {
                        let k = choose|k: int| 0 <= k < self.known_mines@.len() && self.known_mines@[k] == c;
                        if !old(self).known_mines@.contains(cell) && k == old(self).known_mines@.len() {
                        } else {
                            assert(old(self).known_mines@[k] == c);
                            assert(old(self).mines_view().contains(c));
                        }
                    }
                }
            }
            assert forall|k: int, c: Cell|
                0 <= k < self.knowledge@.len() && #[trigger] self.knowledge@[k].cells_view().contains(c)
                implies !self.known_safes@.contains(c) && !self.known_mines@.contains(c) by {
                let t = old(self).knowledge_view()[k];
                lemma_filter_other_than(t.cells_view(), cell, c);
                assert(t.cells_view().contains(c));
                if self.known_mines@.contains(c) && c != cell {
                    let j = choose|j: int| 0 <= j < self.known_mines@.len() && self.known_mines@[j] == c;
                    if !old(self).known_mines@.contains(cell) && j == old(self).known_mines@.len() {
                    } else {
                        assert(old(self).known_mines@[j] == c);
                    }
                }
            }
            assert forall|i: int| 0 <= i < self.knowledge@.len() implies narrower(
                #[trigger] self.knowledge_view()[i],
                old(self).knowledge_view()[i],
            ) by {
                let t = old(self).knowledge_view()[i];
                assert forall|c: Cell| #[trigger] self.knowledge_view()[i].cells_view().contains(c) implies t.cells_view().contains(c) by {
                    lemma_filter_other_than(t.cells_view(), cell, c);
                }
            }
            assert forall|c: Cell| #[trigger] old(self).safes_view().contains(c) implies self.safes_view().contains(c) by {
                if old(self).known_safes@.contains(c) {
                    let j = choose|j: int| 0 <= j < old(self).known_safes@.len() && old(self).known_safes@[j] == c;
                    assert(self.known_safes@[j] == c);
                }
            }
            assert forall|c: Cell| #[trigger] old(self).mines_view().contains(c) implies self.mines_view().contains(c) by {
                if old(self).known_mines@.contains(c) {
                    let j = choose|j: int| 0 <= j < old(self).known_mines@.len() && old(self).known_mines@[j] == c;
                    assert(self.known_mines@[j] == c);
                }
            }
            assert forall|m: Set<Cell>| #[trigger] self.consistent_with(m) implies old(self).consistent_with(m) && m.contains(cell) by {
                assert(self.mines_view().contains(cell));
                assert forall|c: Cell| #[trigger] old(self).mines_view().contains(c) implies m.contains(c) by {
                    assert(self.mines_view().contains(c));
                }
                assert forall|c: Cell| #[trigger] old(self).safes_view().contains(c) implies !m.contains(c) by {
                    assert(self.safes_view().contains(c));
                }
                assert forall|c: Cell| #[trigger] old(self).moves_view().contains(c) implies !m.contains(c) by {
                    assert(self.moves_view().contains(c));
                }
                assert forall|i: int| 0 <= i < old(self).knowledge_view().len() implies mines_in(
                    (#[trigger] old(self).knowledge_view()[i]).cells_view(), m) == old(self).knowledge_view()[i].count_view() by {
                    let t = old(self).knowledge_view()[i];
                    assert(t.wf());
                    assert(mines_in(self.knowledge_view()[i].cells_view(), m) == self.knowledge_view()[i].count_view());
                    lemma_mines_in_without(t.cells_view(), cell, m);
                }
            }
            assert forall|m: Set<Cell>| #[trigger] old(self).consistent_with(m) && m.contains(cell) implies self.consistent_with(m) by {
                assert forall|c: Cell| #[trigger] self.mines_view().contains(c) implies m.contains(c) by {
                    if c != cell {
                        let j = choose|j: int| 0 <= j < self.known_mines@.len() && self.known_mines@[j] == c;
                        if j < old(self).known_mines@.len() {
                            assert(old(self).known_mines@[j] == c);
                            assert(old(self).mines_view().contains(c));
                        }
                    }
                }
                assert forall|i: int| 0 <= i < self.knowledge_view().len() implies mines_in(
                    (#[trigger] self.knowledge_view()[i]).cells_view(), m) == self.knowledge_view()[i].count_view() by {
                    let t = old(self).knowledge_view()[i];
                    assert(t.wf());
                    lemma_mines_in_without(t.cells_view(), cell, m);
                }
            }
        }
    }

    /// Records that `cell` is safe, and takes it out of every sentence; the
    /// counts stay.
    pub fn mark_safe(&mut self, cell: Cell)
        requires
            old(self).wf(),
            !old(self).mines_view().contains(cell),
        ensures
            final(self).wf(),
            final(self).safes_view() == if old(self).safes_view().contains(cell) {
                old(self).safes_view()
            } else {
                old(self).safes_view().push(cell)
            },
            final(self).mines_view() == old(self).mines_view(),
            final(self).moves_view() == old(self).moves_view(),
            final(self).height_view() == old(self).height_view(),
            final(self).width_view() == old(self).width_view(),
            final(self).knowledge_view().len() == old(self).knowledge_view().len(),
            forall|i: int|
                0 <= i < final(self).knowledge_view().len() ==> {
                    let s = #[trigger] final(self).knowledge_view()[i];
                    let t = old(self).knowledge_view()[i];
                    &&& s.cells_view() == t.cells_view().filter(other_than(cell))
                    &&& s.count_view() == t.count_view()
                },
            forall|i: int|
                0 <= i < final(self).knowledge_view().len() ==> narrower(
                    #[trigger] final(self).knowledge_view()[i],
                    old(self).knowledge_view()[i],
                ),
            final(self).keeps_marks_of(old(self)),
            forall|m: Set<Cell>|
                #[trigger] old(self).consistent_with(m) && !m.contains(cell) ==> final(self).consistent_with(m),
            forall|m: Set<Cell>|
                #[trigger] final(self).consistent_with(m) ==> old(self).consistent_with(m) && !m.contains(cell),
    {
        insert_cell(&mut self.known_safes, cell);
        assert(self.known_safes@.contains(cell)) by {
            if !old(self).known_safes@.contains(cell) {
                assert(self.known_safes@[old(self).known_safes@.len() as int] == cell);
            }
        }
        let n = self.knowledge.len();
        let mut i: usize = 0;
        while i < n
            invariant
                n == self.knowledge@.len(),
                n == old(self).knowledge@.len(),
                i <= n,
                self.known_safes@.contains(cell),
                self.known_safes@.no_duplicates(),
                self.known_safes@ == if old(self).known_safes@.contains(cell) {
                    old(self).known_safes@
                } else {
                    old(self).known_safes@.push(cell)
                },
                self.known_mines@ == old(self).known_mines@,
                self.moves_made@ == old(self).moves_made@,
                self.height == old(self).height,
                self.width == old(self).width,
                old(self).wf(),
                forall|k: int| i <= k < n ==> #[trigger] self.knowledge@[k] == old(self).knowledge@[k],
                forall|k: int|
                    0 <= k < i ==> {
                        let s = #[trigger] self.knowledge@[k];
                        let t = old(self).knowledge@[k];
                        &&& s.wf()
                        &&& s.cells_view() == t.cells_view().filter(other_than(cell))
                        &&& s.count_view() == t.count_view()
                    },
            decreases n - i,
        {
            assert(old(self).knowledge_view()[i as int].wf());
            self.knowledge[i].mark_safe(cell);
            i = i + 1;
        }
        proof {
            assert forall|c: Cell| #[trigger] self.known_safes@.contains(c) implies !self.known_mines@.contains(c) by {
                if c != cell {
                    let k = choose|k: int| 0 <= k < self.known_safes@.len() && self.known_safes@[k] == c;
                    if !old(self).known_safes@.contains(cell) && k == old(self).known_safes@.len() {
                    } else {
                        assert(old(self).known_safes@[k] == c);
                        assert(old(self).safes_view().contains(c));
                    }
                }
            }
            assert forall|k: int, c: Cell|
                0 <= k < self.knowledge@.len() && #[trigger] self.knowledge@[k].cells_view().contains(c)
                implies !self.known_safes@.contains(c) && !self.known_mines@.contains(c) by {
                let t = old(self).knowledge_view()[k];
                lemma_filter_other_than(t.cells_view(), cell, c);
                assert(t.cells_view().contains(c));
                if self.known_safes@.contains(c) && c != cell {
                    let j = choose|j: int| 0 <= j < self.known_safes@.len() && self.known_safes@[j] == c;
                    if !old(self).known_safes@.contains(cell) && j == old(self).known_safes@.len() {
                    } else {
                        assert(old(self).known_safes@[j] == c);
                    }
                }
            }
            assert forall|i: int| 0 <= i < self.knowledge@.len() implies narrower(
                #[trigger] self.knowledge_view()[i],
                old(self).knowledge_view()[i],
            ) by {
                let t = old(self).knowledge_view()[i];
                assert forall|c: Cell| #[trigger] self.knowledge_view()[i].cells_view().contains(c) implies t.cells_view().contains(c) by {
                    lemma_filter_other_than(t.cells_view(), cell, c);
                }
            }
            assert forall|c: Cell| #[trigger] old(self).safes_view().contains(c) implies self.safes_view().contains(c) by {
                if old(self).known_safes@.contains(c) {
                    let j = choose|j: int| 0 <= j < old(self).known_safes@.len() && old(self).known_safes@[j] == c;
                    assert(self.known_safes@[j] == c);
                }
            }
            assert forall|c: Cell| #[trigger] old(self).mines_view().contains(c) implies self.mines_view().contains(c) by {
                if old(self).known_mines@.contains(c) {
                    let j = choose|j: int| 0 <= j < old(self).known_mines@.len() && old(self).known_mines@[j] == c;
                    assert(self.known_mines@[j] == c);
                }
            }
            assert forall|m: Set<Cell>| #[trigger] self.consistent_with(m) implies old(self).consistent_with(m) && !m.contains(cell) by {
                assert(self.safes_view().contains(cell));
                assert forall|c: Cell| #[trigger] old(self).mines_view().contains(c) implies m.contains(c) by {
                    assert(self.mines_view().contains(c));
                }
                assert forall|c: Cell| #[trigger] old(self).safes_view().contains(c) implies !m.contains(c) by {
                    assert(self.safes_view().contains(c));
                }
                assert forall|c: Cell| #[trigger] old(self).moves_view().contains(c) implies !m.contains(c) by {
                    assert(self.moves_view().contains(c));
                }
                assert forall|i: int| 0 <= i < old(self).knowledge_view().len() implies mines_in(
                    (#[trigger] old(self).knowledge_view()[i]).cells_view(), m) == old(self).knowledge_view()[i].count_view() by {
                    let t = old(self).knowledge_view()[i];
                    assert(t.wf());
                    assert(mines_in(self.knowledge_view()[i].cells_view(), m) == self.knowledge_view()[i].count_view());
                    lemma_mines_in_without(t.cells_view(), cell, m);
                }
            }
            assert forall|m: Set<Cell>| #[trigger] old(self).consistent_with(m) && !m.contains(cell) implies self.consistent_with(m) by {
                assert forall|c: Cell| #[trigger] self.safes_view().contains(c) implies !m.contains(c) by {
                    if c != cell {
                        let j = choose|j: int| 0 <= j < self.known_safes@.len() && self.known_safes@[j] == c;
                        if j < old(self).known_safes@.len() {
                            assert(old(self).known_safes@[j] == c);
                            assert(old(self).safes_view().contains(c));
                        }
                    }
                }
                assert forall|i: int| 0 <= i < self.knowledge_view().len() implies mines_in(
                    (#[trigger] self.knowledge_view()[i]).cells_view(), m) == self.knowledge_view()[i].count_view() by {
                    let t = old(self).knowledge_view()[i];
                    assert(t.wf());
                    lemma_mines_in_without(t.cells_view(), cell, m);
                }
            }
        }
    }

    /// Whether `c` is on the board, known safe and not yet revealed.
    pub open spec fn is_safe_move(&self, c: Cell) -> bool {
        &&& in_bounds(c, self.height_view() as int, self.width_view() as int)
        &&& self.safes_view().contains(c)
        &&& !self.moves_view().contains(c)
    }

    /// Whether `c` is on the board, not yet revealed and not known to be a mine.
    pub open spec fn is_open_move(&self, c: Cell) -> bool {
        &&& in_bounds(c, self.height_view() as int, self.width_view() as int)
        &&& !self.moves_view().contains(c)
        &&& !self.mines_view().contains(c)
    }

    /// The first cell in row-major order that is known safe and not yet
    /// revealed, if there is one.
    pub fn make_safe_move(&self) -> (r: Option<Cell>)
        ensures
            r is None ==> forall|c: Cell| !#[trigger] self.is_safe_move(c),
            r matches Some(c) ==> self.is_safe_move(c) && forall|d: Cell|
                before(d, c) ==> !#[trigger] self.is_safe_move(d),
    {
        let mut i: usize = 0;
        while i < self.height
            invariant
                i <= self.height,
                forall|d: Cell| d.0 < i ==> !#[trigger] self.is_safe_move(d),
            decreases self.height - i,
        {
            let mut j: usize = 0;
            while j < self.width
                invariant
                    i < self.height,
                    j <= self.width,
                    forall|d: Cell| d.0 < i ==> !#[trigger] self.is_safe_move(d),
                    forall|d: Cell| d.0 == i && d.1 < j ==> !#[trigger] self.is_safe_move(d),
                decreases self.width - j,
            {
                if !contains_cell(&self.moves_made, (i, j)) && contains_cell(&self.known_safes, (i, j)) {
                    return Some((i, j));
                }
                j = j + 1;
            }
            i = i + 1;
        }
        None
    }

    /// The cells that are on the board, not yet revealed and not known to be
    /// mines, in row-major order.
    pub fn open_moves(&self) -> (r: Vec<Cell>)
        ensures
            r@.no_duplicates(),
            forall|c: Cell| #[trigger] r@.contains(c) <==> self.is_open_move(c),
    {
        let mut r: Vec<Cell> = Vec::new();
        let mut i: usize = 0;
        while i < self.height
            invariant
                i <= self.height,
                r@.no_duplicates(),
                forall|k: int| 0 <= k < r@.len() ==> (#[trigger] r@[k]).0 < i,
                forall|d: Cell| d.0 < i ==> (#[trigger] r@.contains(d) <==> self.is_open_move(d)),
                forall|d: Cell| d.0 >= i ==> !#[trigger] r@.contains(d),
            decreases self.height - i,
        {
            let mut j: usize = 0;
            while j < self.width
                invariant
                    i < self.height,
                    j <= self.width,
                    r@.no_duplicates(),
                    forall|k: int| 0 <= k < r@.len() ==> (#[trigger] r@[k]).0 < i || (r@[k].0 == i && r@[k].1 < j),
                    forall|d: Cell| d.0 < i ==> (#[trigger] r@.contains(d) <==> self.is_open_move(d)),
                    forall|d: Cell| d.0 == i && d.1 < j ==> (#[trigger] r@.contains(d) <==> self.is_open_move(d)),
                    forall|d: Cell| (d.0 > i || (d.0 == i && d.1 >= j)) ==> !#[trigger] r@.contains(d),
                decreases self.width - j,
            {
                if !contains_cell(&self.moves_made, (i, j)) && !contains_cell(&self.known_mines, (i, j)) {
                    let ghost r0 = r@;
                    r.push((i, j));
                    proof {
                        assert forall|d: Cell| #[trigger] r@.contains(d) <==> (r0.contains(d) || d == (i, j)) by {
                            if r@.contains(d) {
                                let k = choose|k: int| 0 <= k < r@.len() && r@[k] == d;
                                if k < r0.len() {
                                    assert(r0[k] == d);
                                }
                            }
                            if r0.contains(d) {
                                let k = choose|k: int| 0 <= k < r0.len() && r0[k] == d;
                                assert(r@[k] == d);
                            }
                            if d == (i, j) {
                                assert(r@[r0.len() as int] == d);
                            }
                        }
                        assert(!r0.contains((i, j)));
                    }
                }
                j = j + 1;
            }
            i = i + 1;
        }
        r
    }

    /// A cell drawn at random among the open moves (see `open_moves`), or
    /// `None` when there is none.
    pub fn make_random_move(&self) -> (r: Option<Cell>)
        ensures
            r is None <==> forall|c: Cell| !#[trigger] self.is_open_move(c),
            r matches Some(c) ==> self.is_open_move(c),
    {
        let moves = self.open_moves();
        let r = choose_cell(&moves);
        proof {
            if r is None {
                assert forall|c: Cell| !#[trigger] self.is_open_move(c) by {
                    if self.is_open_move(c) {
                        assert(moves@.contains(c));
                    }
                }
            } else {
                assert(moves@.contains(moves@[0]));
            }
        }
        r
    }
}

/// Soundness: in every state that the agent's operations produce (they all
/// keep `wf`), no cell is both a known mine and known safe.
pub proof fn lemma_marks_disjoint(ai: &MinesweeperAI, c: Cell)
    requires
        ai.wf(),
    ensures
        !(ai.safes_view().contains(c) && ai.mines_view().contains(c)),
{
}

/// An agent whose knowledge is true of the mine layout `m` never counts a
/// mine among its safe cells, nor a safe cell among its mines.
pub proof fn lemma_consistent_marks(ai: &MinesweeperAI, m: Set<Cell>, c: Cell)
    requires
        ai.consistent_with(m),
    ensures
        ai.safes_view().contains(c) ==> !m.contains(c),
        ai.mines_view().contains(c) ==> m.contains(c),
{
}

/// Whether `a` comes before `b` in row-major order.
pub open spec fn before(a: Cell, b: Cell) -> bool {
    a.0 < b.0 || (a.0 == b.0 && a.1 < b.1)
}

/// A cell survives filtering out `c` exactly when it was there and is not `c`.
pub proof fn lemma_filter_other_than(v: Seq<Cell>, c: Cell, d: Cell)
    ensures
        v.filter(other_than(c)).contains(d) <==> v.contains(d) && d != c,
{
    broadcast use Seq::lemma_filter_contains_rev;
    broadcast use vstd::seq_lib::group_filter_ensures;

    let f = v.filter(other_than(c));
    if f.contains(d) {
        let k = choose|k: int| 0 <= k < f.len() && f[k] == d;
        assert(other_than(c)(f[k]));
    }
    if v.contains(d) && d != c {
        assert(other_than(c)(d));
    }
}

} // verus!
