//! A set of relative paths kept in path order (the files marked for copying).
use vstd::prelude::*;

use crate::scanner::clone_path;
use crate::text::{
    compare_paths, lemma_path_lt_irreflexive, lemma_path_lt_total, lemma_path_lt_transitive,
    path_lt, path_view, Order,
};

verus! {

/// The paths strictly increase.
pub open spec fn strictly_sorted(s: Seq<Seq<Seq<char>>>) -> bool {
    forall|i: int, j: int| 0 <= i < j < s.len() ==> path_lt(#[trigger] s[i], #[trigger] s[j])
}

/// Relative paths, each at most once, listed in path order.
pub struct PathSet {
    items: Vec<Vec<String>>,
}

impl View for PathSet {
    type V = Seq<Seq<Seq<char>>>;

    /// The paths in increasing order.
    closed spec fn view(&self) -> Seq<Seq<Seq<char>>> {
        self.items@.map_values(|p: Vec<String>| path_view(p@))
    }
}

pub proof fn lemma_sorted_distinct(s: Seq<Seq<Seq<char>>>, i: int, j: int)
    requires
        strictly_sorted(s),
        0 <= i < s.len(),
        0 <= j < s.len(),
        i != j,
    ensures
        s[i] != s[j],
{
    if i < j {
        assert(path_lt(s[i], s[j]));
    } else {
        assert(path_lt(s[j], s[i]));
    }
    lemma_path_lt_irreflexive(s[i]);
}

impl PathSet {
    /// The paths are in strictly increasing order.
    pub open spec fn wf(&self) -> bool {
        strictly_sorted(self@)
    }

    pub fn new() -> (r: Self)
        ensures
            r.wf(),
            r@ == Seq::<Seq<Seq<char>>>::empty(),
    {
        let r = PathSet { items: Vec::new() };
        assert(r@ =~= Seq::<Seq<Seq<char>>>::empty());
        r
    }

    pub fn len(&self) -> (n: usize)
        ensures
            n == self@.len(),
    {
        self.items.len()
    }

    pub fn is_empty(&self) -> (b: bool)
        ensures
            b == (self@.len() == 0),
    {
        self.items.len() == 0
    }

    /// The `i`-th path in order.
    pub fn get(&self, i: usize) -> (p: &Vec<String>)
        requires
            i < self@.len(),
        ensures
            path_view(p@) == self@[i as int],
    {
        &self.items[i]
    }

    /// Where `p` is or would be: the first index whose path does not sort
    /// before `p`, found by binary search.
    fn position(&self, p: &Vec<String>) -> (pos: usize)
        requires
            self.wf(),
        ensures
            pos <= self@.len(),
            forall|k: int| 0 <= k < pos ==> path_lt(#[trigger] self@[k], path_view(p@)),
            forall|k: int| pos <= k < self@.len() ==> !path_lt(#[trigger] self@[k], path_view(p@)),
    {
        let ghost s = self@;
        let ghost q = path_view(p@);
        let mut lo: usize = 0;
        let mut hi: usize = self.items.len();
        while lo < hi
            invariant
                lo <= hi <= s.len(),
                s == self@,
                q == path_view(p@),
                strictly_sorted(s),
                forall|k: int| 0 <= k < lo ==> path_lt(#[trigger] s[k], q),
                forall|k: int| hi <= k < s.len() ==> !path_lt(#[trigger] s[k], q),
            decreases hi - lo,
        {
            let mid = lo + (hi - lo) / 2;
            assert(s[mid as int] == path_view(self.items@[mid as int]@));
            if compare_paths(&self.items[mid], p) == Order::Less {
                assert forall|k: int| 0 <= k < mid + 1 implies path_lt(#[trigger] s[k], q) by {
                    if k < mid {
                        lemma_path_lt_transitive(s[k], s[mid as int], q);
                    }
                }
                lo = mid + 1;
            } else {
                assert forall|k: int| mid <= k < s.len() implies !path_lt(#[trigger] s[k], q) by {
                    if k > mid && path_lt(s[k], q) {
                        lemma_path_lt_transitive(s[mid as int], s[k], q);
                    }
                }
                hi = mid;
            }
        }
        lo
    }

    /// Whether `p` is in the set.
    pub fn contains(&self, p: &Vec<String>) -> (b: bool)
        requires
            self.wf(),
        ensures
            b == self@.contains(path_view(p@)),
    {
        let pos = self.position(p);
        let ghost q = path_view(p@);
        if pos < self.items.len() && compare_paths(&self.items[pos], p) == Order::Equal {
            assert(self@[pos as int] == path_view(self.items@[pos as int]@));
            true
        } else {
            proof {
                if self@.contains(q) {
                    let k = choose|k: int| 0 <= k < self@.len() && self@[k] == q;
                    lemma_path_lt_irreflexive(q);
                    if k >= pos {
                        if k > pos {
                            assert(path_lt(self@[pos as int], self@[k]));
                            lemma_path_lt_total(self@[pos as int], q);
                        }
                        assert(self@[pos as int] == path_view(self.items@[pos as int]@));
                    }
                }
            }
            false
        }
    }

    /// Adds `p`; true when it was not there before.
    pub fn insert(&mut self, p: Vec<String>) -> (added: bool)
        requires
            old(self).wf(),
        ensures
            final(self).wf(),
            added == !old(self)@.contains(path_view(p@)),
            final(self)@.to_set() == old(self)@.to_set().insert(path_view(p@)),
    {
        let ghost q = path_view(p@);
        let ghost s = self@;
        let pos = self.position(&p);
        if pos < self.items.len() && compare_paths(&self.items[pos], &p) == Order::Equal {
            assert(self@[pos as int] == path_view(self.items@[pos as int]@));
            assert(s.to_set().insert(q) =~= s.to_set());
            return false;
        }
        proof {
            if pos < s.len() {
                assert(s[pos as int] == path_view(self.items@[pos as int]@));
                lemma_path_lt_total(s[pos as int], q);
            }
        }
        assert(!s.contains(q)) by {
            if s.contains(q) {
                let k = choose|k: int| 0 <= k < s.len() && s[k] == q;
                lemma_path_lt_irreflexive(q);
                if k > pos {
                    assert(path_lt(s[pos as int], s[k]));
                }
            }
        }
        self.items.insert(pos, p);
        assert(self@ =~= s.insert(pos as int, q));
        assert forall|i: int, j: int| 0 <= i < j < self@.len() implies path_lt(#[trigger] self@[i], #[trigger] self@[j]) by {
            if j < pos {
            } else if j == pos {
            } else if i < pos {
                assert(path_lt(s[i], s[j - 1]));
            } else if i == pos {
                if pos < j - 1 {
                    lemma_path_lt_transitive(q, s[pos as int], s[j - 1]);
                }
            } else {
            }
        }
        assert(self@.to_set() =~= s.to_set().insert(q)) by {
            assert forall|x| self@.to_set().contains(x) <==> s.to_set().insert(q).contains(x) by {
                if self@.contains(x) {
                    let k = choose|k: int| 0 <= k < self@.len() && self@[k] == x;
                    if k < pos {
                        assert(s[k] == x);
                    } else if k > pos {
                        assert(s[k - 1] == x);
                    }
                }
                if s.contains(x) {
                    let k = choose|k: int| 0 <= k < s.len() && s[k] == x;
                    if k < pos {
                        assert(self@[k] == x);
                    } else {
                        assert(self@[k + 1] == x);
                    }
                }
                if x == q {
                    assert(self@[pos as int] == q);
                }
            }
        }
        true
    }

    /// Removes `p`; true when it was there.
    pub fn remove(&mut self, p: &Vec<String>) -> (removed: bool)
        requires
            old(self).wf(),
        ensures
            final(self).wf(),
            removed == old(self)@.contains(path_view(p@)),
            final(self)@.to_set() == old(self)@.to_set().remove(path_view(p@)),
    {
        let ghost q = path_view(p@);
        let ghost s = self@;
        let found = self.contains(p);
        if !found {
            assert(s.to_set().remove(q) =~= s.to_set());
            return false;
        }
        let pos = self.position(p);
        proof {
            let k = choose|k: int| 0 <= k < s.len() && s[k] == q;
            lemma_path_lt_irreflexive(q);
            if k > pos {
                assert(!path_lt(s[pos as int], q));
                assert(path_lt(s[pos as int], s[k]));
            }
            assert(k == pos);
        }
        self.items.remove(pos);
        assert(self@ =~= s.remove(pos as int));
        assert forall|i: int, j: int| 0 <= i < j < self@.len() implies path_lt(#[trigger] self@[i], #[trigger] self@[j]) by {
            if i < pos && j >= pos {
                assert(path_lt(s[i], s[j + 1]));
            } else if i >= pos {
                assert(path_lt(s[i + 1], s[j + 1]));
            }
        }
        assert(self@.to_set() =~= s.to_set().remove(q)) by {
            assert forall|x| self@.to_set().contains(x) <==> s.to_set().remove(q).contains(x) by {
                if self@.contains(x) {
                    let k = choose|k: int| 0 <= k < self@.len() && self@[k] == x;
                    if k < pos {
                        assert(s[k] == x);
                        lemma_sorted_distinct(s, k, pos as int);
                    } else {
                        assert(s[k + 1] == x);
                        lemma_sorted_distinct(s, k + 1, pos as int);
                    }
                }
                if s.contains(x) && x != q {
                    let k = choose|k: int| 0 <= k < s.len() && s[k] == x;
                    if k < pos {
                        assert(self@[k] == x);
                    } else {
                        assert(k != pos);
                        assert(self@[k - 1] == x);
                    }
                }
            }
        }
        true
    }

    /// Empties the set.
    pub fn clear(&mut self)
        ensures
            final(self).wf(),
            final(self)@ == Seq::<Seq<Seq<char>>>::empty(),
    {
        self.items.clear();
        assert(self@ =~= Seq::<Seq<Seq<char>>>::empty());
    }
}

}
