//! Counting arguments that bound the inference fixpoint: over a finite set of
//! cells and a bounded count, there are finitely many distinct sentences.

use vstd::prelude::*;
use vstd::set_lib::lemma_len_subset;
use crate::cells::Cell;
use crate::sentence::Sentence;

verus! {

broadcast use vstd::set::group_set_axioms, vstd::seq_lib::seq_to_set_is_finite;

/// What a sentence states, as a set of cells and a count.
pub open spec fn key(s: Sentence) -> (Set<Cell>, nat) {
    (s.cells_view().to_set(), s.count_view())
}

/// What the sentences of `k` state.
pub open spec fn keys(k: Seq<Sentence>) -> Set<(Set<Cell>, nat)> {
    Set::new(|p: (Set<Cell>, nat)| exists|i: int| 0 <= i < k.len() && #[trigger] key(k[i]) == p)
}

/// Every subset of `u`.
pub open spec fn subsets(u: Set<Cell>) -> Set<Set<Cell>> {
    Set::new(|s: Set<Cell>| s.subset_of(u))
}

/// Every statement over cells of `u` with a count of at most `n`.
pub open spec fn all_keys(u: Set<Cell>, n: nat) -> Set<(Set<Cell>, nat)> {
    Set::new(|p: (Set<Cell>, nat)| p.0.subset_of(u) && p.1 <= n)
}

/// The cells that the sentences of `k` speak of.
pub open spec fn cells_of(k: Seq<Sentence>) -> Set<Cell>
    decreases k.len(),
{
    if k.len() == 0 {
        Set::empty()
    } else {
        cells_of(k.drop_last()) + k.last().cells_view().to_set()
    }
}

/// The largest count among the sentences of `k`.
pub open spec fn max_count(k: Seq<Sentence>) -> nat
    decreases k.len(),
{
    if k.len() == 0 {
        0
    } else {
        let m = max_count(k.drop_last());
        if k.last().count_view() > m {
            k.last().count_view()
        } else {
            m
        }
    }
}

/// `cells_of` is finite and covers every sentence; `max_count` bounds every
/// count.
pub proof fn lemma_cells_of(k: Seq<Sentence>)
    ensures
        cells_of(k).finite(),
        forall|i: int, c: Cell|
            0 <= i < k.len() && #[trigger] k[i].cells_view().contains(c) ==> cells_of(k).contains(c),
        forall|i: int| 0 <= i < k.len() ==> #[trigger] k[i].count_view() <= max_count(k),
    decreases k.len(),
{
    if k.len() > 0 {
        let u = k.drop_last();
        lemma_cells_of(u);
        assert forall|i: int, c: Cell|
            0 <= i < k.len() && #[trigger] k[i].cells_view().contains(c) implies cells_of(k).contains(c) by {
            if i < k.len() - 1 {
                assert(u[i] == k[i]);
            } else {
                assert(k.last().cells_view().to_set().contains(c));
            }
        }
        assert forall|i: int| 0 <= i < k.len() implies #[trigger] k[i].count_view() <= max_count(k) by {
            if i < k.len() - 1 {
                assert(u[i] == k[i]);
            }
        }
    }
}

/// The subsets of a finite set are finitely many.
pub proof fn lemma_subsets_finite(u: Set<Cell>)
    requires
        u.finite(),
    ensures
        subsets(u).finite(),
    decreases u.len(),
{
    if u.len() == 0 {
        assert(u =~= Set::empty());
        assert(subsets(u) =~= set![Set::<Cell>::empty()]) by {
            assert forall|s: Set<Cell>| #[trigger] subsets(u).contains(s) implies s == Set::<Cell>::empty() by {
                assert(s =~= Set::<Cell>::empty());
            }
        }
    } else {
        let x = u.choose();
        let v = u.remove(x);
        lemma_subsets_finite(v);
        let a = subsets(v);
        let f = |s: Set<Cell>| s.insert(x);
        a.lemma_map_finite(f);
        assert(subsets(u) =~= a + a.map(f)) by {
            assert forall|s: Set<Cell>| #[trigger] subsets(u).contains(s) implies (a + a.map(f)).contains(s) by {
                if s.contains(x) {
                    let t = s.remove(x);
                    assert(a.contains(t));
                    assert(f(t) =~= s);
                } else {
                    assert(a.contains(s));
                }
            }
            assert forall|s: Set<Cell>| #[trigger] (a + a.map(f)).contains(s) implies subsets(u).contains(s) by {
                if a.map(f).contains(s) {
                    let t = choose|t: Set<Cell>| a.contains(t) && f(t) == s;
                    assert(s.subset_of(u));
                }
            }
        }
    }
}

/// The statements over a finite set of cells with a bounded count are finitely
/// many.
pub proof fn lemma_all_keys_finite(u: Set<Cell>, n: nat)
    requires
        u.finite(),
    ensures
        all_keys(u, n).finite(),
    decreases n,
{
    lemma_subsets_finite(u);
    let g = |s: Set<Cell>| (s, n);
    subsets(u).lemma_map_finite(g);
    if n == 0 {
        assert(all_keys(u, 0) =~= subsets(u).map(g)) by {
            assert forall|p: (Set<Cell>, nat)| #[trigger] all_keys(u, 0).contains(p) implies subsets(u).map(g).contains(p) by {
                assert(subsets(u).contains(p.0));
                assert(g(p.0) == p);
            }
        }
    } else {
        lemma_all_keys_finite(u, (n - 1) as nat);
        assert(all_keys(u, n) =~= all_keys(u, (n - 1) as nat) + subsets(u).map(g)) by {
            assert forall|p: (Set<Cell>, nat)| #[trigger] all_keys(u, n).contains(p) implies
                (all_keys(u, (n - 1) as nat) + subsets(u).map(g)).contains(p) by {
                if p.1 == n {
                    assert(subsets(u).contains(p.0));
                    assert(g(p.0) == p);
                }
            }
        }
    }
}

/// When the sentences of `k` speak only of cells of `u` with counts at most
/// `n`, what they state is a part of `all_keys(u, n)`, and no larger.
pub proof fn lemma_keys_bounded(k: Seq<Sentence>, u: Set<Cell>, n: nat)
    requires
        u.finite(),
        forall|i: int, c: Cell|
            0 <= i < k.len() && #[trigger] k[i].cells_view().contains(c) ==> u.contains(c),
        forall|i: int| 0 <= i < k.len() ==> #[trigger] k[i].count_view() <= n,
    ensures
        keys(k).subset_of(all_keys(u, n)),
        keys(k).finite(),
        keys(k).len() <= all_keys(u, n).len(),
{
    lemma_all_keys_finite(u, n);
    assert forall|p: (Set<Cell>, nat)| #[trigger] keys(k).contains(p) implies all_keys(u, n).contains(p) by {
        let i = choose|i: int| 0 <= i < k.len() && #[trigger] key(k[i]) == p;
        assert forall|c: Cell| p.0.contains(c) implies u.contains(c) by {
            assert(k[i].cells_view().contains(c));
        }
    }
    lemma_len_subset(keys(k), all_keys(u, n));
}

} // verus!
