//! Facts about lists of sentences that the agent's contracts and proofs
//! speak of: what the inference rules leave settled, and the pieces of the
//! fixpoint's bound.

use vstd::prelude::*;
use crate::bound::key;
use crate::cells::{Cell, not_in};
use crate::sentence::{Sentence, all_in};

verus! {

/// Every sentence is non-empty, and neither says that all its cells are
/// mines nor that none is.
pub open spec fn all_quiet(k: Seq<Sentence>) -> bool {
    forall|i: int|
        0 <= i < k.len() ==> {
            &&& (#[trigger] k[i]).cells_view().len() > 0
            &&& k[i].count_view() != 0
            &&& k[i].count_view() != k[i].cells_view().len()
        }
}

/// What the subset rule derives from `a` and `b`: the rest of `a`'s cells,
/// with the difference of the counts.
pub open spec fn derived_key(a: Sentence, b: Sentence) -> (Set<Cell>, nat) {
    (rest_of(a, b).to_set(), (a.count_view() - b.count_view()) as nat)
}

/// For every pair `(a, b)` of sentences with `b`'s cells among `a`'s, `b`'s
/// count is at most `a`'s; and where cells of `a` are left over, what the
/// subset rule derives is already stated by some sentence.
pub open spec fn pairs_settled(k: Seq<Sentence>) -> bool {
    forall|i: int, j: int|
        0 <= i < k.len() && 0 <= j < k.len() && #[trigger] all_in(k[j].cells_view(), k[i].cells_view())
            ==> {
            &&& k[j].count_view() <= k[i].count_view()
            &&& rest_of(k[i], k[j]).len() > 0 ==> exists|m: int|
                0 <= m < k.len() && #[trigger] key(k[m]) == derived_key(k[i], k[j])
        }
}

/// Whether `c` is a cell of some sentence of `k` that allows no mine.
pub open spec fn in_zero(k: Seq<Sentence>, c: Cell) -> bool {
    exists|i: int| 0 <= i < k.len() && #[trigger] k[i].cells_view().contains(c) && k[i].count_view() == 0
}

/// Whether `c` is a cell of some sentence of `k` whose cells are all mines.
pub open spec fn in_full(k: Seq<Sentence>, c: Cell) -> bool {
    exists|i: int|
        0 <= i < k.len() && #[trigger] k[i].cells_view().contains(c) && k[i].count_view()
            == k[i].cells_view().len()
}

/// `m` agrees with the cells staged as safe and as mines.
pub open spec fn marks_agree(safes: Seq<Cell>, mines: Seq<Cell>, m: Set<Cell>) -> bool {
    &&& forall|c: Cell| #[trigger] safes.contains(c) ==> !m.contains(c)
    &&& forall|c: Cell| #[trigger] mines.contains(c) ==> m.contains(c)
}

/// Whether `c` is a cell of some sentence of `k`.
pub open spec fn in_some(k: Seq<Sentence>, c: Cell) -> bool {
    exists|i: int| 0 <= i < k.len() && #[trigger] k[i].cells_view().contains(c)
}

/// The sentence gives no cell away: it is empty, or neither all-mines nor
/// all-safe.
pub open spec fn is_quiet(s: Sentence) -> bool {
    s.cells_view().len() == 0 || (s.count_view() != 0 && s.count_view() != s.cells_view().len())
}

/// The predicate "listed in `v`".
pub open spec fn listed_in(v: Seq<Cell>) -> spec_fn(Cell) -> bool {
    |d: Cell| v.contains(d)
}

/// The predicate "in none of `moves`, `safes` and `mines`".
pub open spec fn undetermined(moves: Seq<Cell>, safes: Seq<Cell>, mines: Seq<Cell>) -> spec_fn(Cell) -> bool {
    |d: Cell| !moves.contains(d) && !safes.contains(d) && !mines.contains(d)
}

/// Adding `c` to a list changes membership only for `c`.
pub proof fn lemma_push_contains(v: Seq<Cell>, c: Cell, d: Cell)
    requires
        d != c,
    ensures
        v.push(c).contains(d) == v.contains(d),
{
    if v.push(c).contains(d) {
        let k = choose|k: int| 0 <= k < v.push(c).len() && v.push(c)[k] == d;
        assert(v[k] == d);
    }
    if v.contains(d) {
        let k = choose|k: int| 0 <= k < v.len() && v[k] == d;
        assert(v.push(c)[k] == d);
    }
}

/// The cells of `u` that are in neither `s` nor `m`.
pub open spec fn unknown_cells(u: Set<Cell>, s: Seq<Cell>, m: Seq<Cell>) -> Set<Cell> {
    u.filter(|c: Cell| !s.contains(c) && !m.contains(c))
}

/// Narrowing sentence by sentence composes.
pub proof fn lemma_narrower_chain(a: Seq<Sentence>, b: Seq<Sentence>, c: Seq<Sentence>)
    requires
        a.len() == b.len(),
        b.len() == c.len(),
        forall|i: int| 0 <= i < a.len() ==> narrower(#[trigger] a[i], b[i]),
        forall|i: int| 0 <= i < b.len() ==> narrower(#[trigger] b[i], c[i]),
    ensures
        forall|i: int| 0 <= i < a.len() ==> narrower(#[trigger] a[i], c[i]),
{
    assert forall|i: int| 0 <= i < a.len() implies narrower(#[trigger] a[i], c[i]) by {
        assert(narrower(a[i], b[i]));
        assert(narrower(b[i], c[i]));
        assert forall|x: Cell| #[trigger] a[i].cells_view().contains(x) implies c[i].cells_view().contains(x) by {
            assert(b[i].cells_view().contains(x));
        }
    }
}

/// `d` speaks of cells of `a` only, with no larger count.
pub open spec fn narrower(d: Sentence, a: Sentence) -> bool {
    all_in(d.cells_view(), a.cells_view()) && d.count_view() <= a.count_view()
}

/// The cells of `a` that are not cells of `b`.
pub open spec fn rest_of(a: Sentence, b: Sentence) -> Seq<Cell> {
    a.cells_view().filter(not_in(b.cells_view()))
}

/// Every sentence of `k` has cells left.
pub open spec fn all_live(k: Seq<Sentence>) -> bool {
    forall|i: int| 0 <= i < k.len() ==> (#[trigger] k[i]).cells_view().len() > 0
}

/// No two sentences of `k` state the same thing.
pub open spec fn distinct_keys(k: Seq<Sentence>) -> bool {
    forall|i: int, j: int| 0 <= i < j < k.len() ==> #[trigger] key(k[i]) != #[trigger] key(k[j])
}

/// Whether some sentence of `list` states what `s` states.
pub(crate) fn has_same(list: &Vec<Sentence>, s: &Sentence) -> (r: bool)
    ensures
        r == exists|i: int| 0 <= i < list@.len() && #[trigger] key(list@[i]) == key(*s),
{
    let mut i: usize = 0;
    while i < list.len()
        invariant
            i <= list@.len(),
            forall|k: int| 0 <= k < i ==> #[trigger] key(list@[k]) != key(*s),
        decreases list@.len() - i,
    {
        if list[i].eq(s) {
            assert(list@[i as int].same_as(s));
            assert(key(list@[i as int]) == key(*s));
            return true;
        }
        i = i + 1;
    }
    false
}

} // verus!
