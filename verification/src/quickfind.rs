//! Quick-find: one tag per element. Two elements are connected exactly when
//! their tags are equal, so a query costs one comparison and a union relabels
//! the table in one pass.

use std::collections::HashSet;
use vstd::prelude::*;
use crate::partition::{
    class_count, law_singletons_count, law_union_count, lemma_count_of_table, merged, same_class,
    singletons,
};

verus! {

/// A partition of `0..n` held as a table of tags.
pub struct QuickFind {
    id: Vec<usize>,
}

impl View for QuickFind {
    type V = Seq<int>;

    /// The tag of every element, in order.
    closed spec fn view(&self) -> Seq<int> {
        Seq::new(self.id@.len(), |k: int| self.id@[k] as int)
    }
}

impl QuickFind {
    /// Every tag is the index of an element.
    pub open spec fn well_formed(&self) -> bool {
        forall|k: int| 0 <= k < self@.len() ==> 0 <= #[trigger] self@[k] < self@.len()
    }

    /// A structure of `n` elements, each in a class of its own and tagged with
    /// its own index.
    pub fn new(n: usize) -> (r: QuickFind)
        ensures
            r.well_formed(),
            r@ == singletons(n as nat),
            class_count(r@) == n,
    {
        let mut ids: Vec<usize> = Vec::with_capacity(n);
        let mut i: usize = 0;
        while i < n
            invariant
                i <= n,
                ids@.len() == i,
                forall|k: int| 0 <= k < i ==> ids@[k] == k,
            decreases n - i,
        {
            ids.push(i);
            i += 1;
        }
        let r = QuickFind { id: ids };
        proof {
            assert(r@ =~= singletons(n as nat));
            law_singletons_count(n as nat);
        }
        r
    }

    /// Whether `i` and `j` are in the same class.
    pub fn connected(&self, i: usize, j: usize) -> (r: bool)
        requires
            self.well_formed(),
            i < self@.len(),
            j < self@.len(),
        ensures
            r == same_class(self@, i as int, j as int),
            i == j ==> r,
    {
        self.id[i] == self.id[j]
    }

    /// Merges the class of `i` into the class of `j`: every element tagged like
    /// `i` takes the tag of `j`. Nothing changes when the two are connected
    /// already, and otherwise there is one class fewer.
    pub fn union(&mut self, i: usize, j: usize)
        requires
            old(self).well_formed(),
            i < old(self)@.len(),
            j < old(self)@.len(),
        ensures
            final(self).well_formed(),
            final(self)@ == merged(old(self)@, i as int, j as int),
            same_class(old(self)@, i as int, j as int) ==> final(self)@ == old(self)@,
            class_count(final(self)@) + (if same_class(old(self)@, i as int, j as int) {
                0nat
            } else {
                1nat
            }) == class_count(old(self)@),
    {
        if !self.connected(i, j) {
            let id1: usize = self.id[i];
            let id2: usize = self.id[j];
            let n: usize = self.id.len();
            let mut k: usize = 0;
            while k < n
                invariant
                    k <= n,
                    n == self.id@.len(),
                    n == old(self).id@.len(),
                    id1 == old(self).id@[i as int],
                    id2 == old(self).id@[j as int],
                    forall|m: int|
                        0 <= m < k ==> #[trigger] self.id@[m] == if old(self).id@[m] == id1 {
                            id2
                        } else {
                            old(self).id@[m]
                        },
                    forall|m: int| k <= m < n ==> #[trigger] self.id@[m] == old(self).id@[m],
                decreases n - k,
            {
                if self.id[k] == id1 {
                    self.id[k] = id2;
                }
                k += 1;
            }
        }
        proof {
            assert(self@ =~= merged(old(self)@, i as int, j as int));
            law_union_count(old(self)@, i as int, j as int);
        }
    }

    /// The number of classes, counted as the number of different tags in the
    /// table.
    pub fn count_components(&self) -> (c: usize)
        requires
            self.well_formed(),
        ensures
            c == class_count(self@),
    {
        broadcast use vstd::std_specs::hash::group_hash_axioms;

        let mut set: HashSet<usize> = HashSet::new();
        let n: usize = self.id.len();
        let mut k: usize = 0;
        while k < n
            invariant
                k <= n,
                n == self.id@.len(),
                set@ == self.id@.take(k as int).to_set(),
            decreases n - k,
        {
            set.insert(self.id[k]);
            proof {
                let seen = self.id@.take(k as int);
                assert(self.id@.take(k + 1) =~= seen.push(self.id@[k as int]));
                seen.lemma_push_to_set_commute(self.id@[k as int]);
            }
            k += 1;
        }
        proof {
            assert(self.id@.take(n as int) =~= self.id@);
            lemma_count_of_table(self.id@, self@);
        }
        set.len()
    }
}

} // verus!
