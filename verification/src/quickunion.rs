//! Quick-union: a forest of parent links. Two elements are connected exactly
//! when their trees have the same root, so a union is one write at a root and
//! a query climbs from both elements.

use std::collections::HashSet;
use vstd::prelude::*;
use crate::forest::{
    climb, is_forest, is_root, lemma_all_roots, lemma_climb_split, lemma_link_roots,
    lemma_root_is_unique, lemma_root_of_parent, reaches_root, root_of, roots,
};
use crate::partition::{
    class_count, law_singletons_count, law_union_count, lemma_count_of_table, merged, same_class,
    singletons,
};

verus! {

/// A partition of `0..n` held as a forest of parent links.
pub struct QuickUnion {
    id: Vec<usize>,
}

impl View for QuickUnion {
    type V = Seq<int>;

    /// The root of every element's tree, in order.
    open spec fn view(&self) -> Seq<int> {
        roots(self.links())
    }
}

impl QuickUnion {
    /// The parent of every element, in order; a root is its own parent.
    pub closed spec fn links(&self) -> Seq<int> {
        Seq::new(self.id@.len(), |k: int| self.id@[k] as int)
    }

    /// The links form a forest.
    pub open spec fn well_formed(&self) -> bool {
        is_forest(self.links())
    }

    /// A structure of `n` elements, each the root of a tree of its own.
    pub fn new(n: usize) -> (r: QuickUnion)
        ensures
            r.well_formed(),
            r.links() == singletons(n as nat),
            r@ == singletons(n as nat),
            class_count(r@) == n,
    {
        let mut ids: Vec<usize> = Vec::with_capacity(n);
        let mut i: usize = 0;
        while i < n
            invariant
                i <= n,
                ids@.len() == i,
                forall|k: int| 0 <= k < i ==> ids@[k] == k,
            decreases n - i,
        {
            ids.push(i);
            i += 1;
        }
        let r = QuickUnion { id: ids };
        proof {
            assert(r.links() =~= singletons(n as nat));
            lemma_all_roots(r.links());
            law_singletons_count(n as nat);
        }
        r
    }

    /// The root of the tree that holds `i`, found by climbing the links.
    pub fn root(&self, i: usize) -> (r: usize)
        requires
            self.well_formed(),
            i < self@.len(),
        ensures
            r == self@[i as int],
            r < self@.len(),
            is_root(self.links(), r as int),
    {
        proof {
            assert(reaches_root(self.links(), i as int));
        }
        let ghost height: nat = choose|s: nat|
            is_root(self.links(), #[trigger] climb(self.links(), i as int, s));
        let ghost mut steps: nat = 0;
        let mut res: usize = i;
        while self.id[res] != res
            invariant
                self.well_formed(),
                res < self.id@.len(),
                steps <= height,
                res == climb(self.links(), i as int, steps),
                is_root(self.links(), climb(self.links(), i as int, height)),
            decreases height - steps,
        {
            proof {
                lemma_climb_split(self.links(), i as int, steps, 1);
                assert(climb(self.links(), res as int, 1) == climb(
                    self.links(),
                    self.links()[res as int],
                    0,
                ));
                assert(0 <= self.links()[res as int] < self.id@.len());
                steps = steps + 1;
            }
            res = self.id[res];
        }
        proof {
            lemma_root_is_unique(self.links(), i as int, steps);
        }
        res
    }

    /// Whether `i` and `j` are in the same tree.
    pub fn connected(&self, i: usize, j: usize) -> (r: bool)
        requires
            self.well_formed(),
            i < self@.len(),
            j < self@.len(),
        ensures
            r == same_class(self@, i as int, j as int),
            i == j ==> r,
    {
        self.root(i) == self.root(j)
    }

    /// Hangs the root of `i` under the root of `j`, whether or not the two are
    /// one root already: every element of `i`'s tree gets the root of `j`.
    /// Nothing changes when the two are connected already, and otherwise there
    /// is one class fewer.
    pub fn union(&mut self, i: usize, j: usize)
        requires
            old(self).well_formed(),
            i < old(self)@.len(),
            j < old(self)@.len(),
        ensures
            final(self).well_formed(),
            final(self).links() == old(self).links().update(
                old(self)@[i as int],
                old(self)@[j as int],
            ),
            final(self)@ == merged(old(self)@, i as int, j as int),
            same_class(old(self)@, i as int, j as int) ==> final(self).links() == old(
                self,
            ).links(),
            class_count(final(self)@) + (if same_class(old(self)@, i as int, j as int) {
                0nat
            } else {
                1nat
            }) == class_count(old(self)@),
    {
        let root1: usize = self.root(i);
        let root2: usize = self.root(j);

        self.id[root1] = root2;
        proof {
            let before = old(self).links();
            assert(self.links() =~= before.update(root1 as int, root2 as int));
            if root1 == root2 {
                assert(before.update(root1 as int, root2 as int) =~= before);
            }
            lemma_link_roots(before, i as int, j as int);
            law_union_count(old(self)@, i as int, j as int);
        }
    }

    /// The number of trees, counted as the number of different roots that the
    /// elements have.
    pub fn count_components(&self) -> (c: usize)
        requires
            self.well_formed(),
        ensures
            c == class_count(self@),
    {
        broadcast use vstd::std_specs::hash::group_hash_axioms;

        let ghost found: Seq<usize> = Seq::new(
            self.id@.len(),
            |k: int| root_of(self.links(), k) as usize,
        );
        proof {
            assert forall|m: int| 0 <= m < found.len() implies #[trigger] found[m] == root_of(
                self.links(),
                m,
            ) by {
                lemma_root_of_parent(self.links(), m);
            }
        }
        let mut set: HashSet<usize> = HashSet::new();
        let n: usize = self.id.len();
        let mut k: usize = 0;
        while k < n
            invariant
                self.well_formed(),
                k <= n,
                n == self.id@.len(),
                found.len() == n,
                forall|m: int| 0 <= m < n ==> #[trigger] found[m] == root_of(self.links(), m),
                set@ == found.take(k as int).to_set(),
            decreases n - k,
        {
            proof {
                lemma_root_of_parent(self.links(), k as int);
                assert(0 <= self.links()[k as int] < n);
            }
            let r: usize = self.root(self.id[k]);
            set.insert(r);
            proof {
                let seen = found.take(k as int);
                assert(found.take(k + 1) =~= seen.push(found[k as int]));
                seen.lemma_push_to_set_commute(found[k as int]);
            }
            k += 1;
        }
        proof {
            assert(found.take(n as int) =~= found);
            lemma_count_of_table(found, self@);
        }
        set.len()
    }
}

} // verus!
