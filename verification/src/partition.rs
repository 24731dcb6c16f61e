//! The model shared by both structures: a partition of `0..n` written as a
//! sequence of labels, where two elements belong together exactly when they
//! carry the same label.

use vstd::prelude::*;

verus! {

/// Whether elements `i` and `j` lie in the same class.
pub open spec fn same_class(labels: Seq<int>, i: int, j: int) -> bool {
    labels[i] == labels[j]
}

/// The number of classes: how many different labels occur.
pub open spec fn class_count(labels: Seq<int>) -> nat {
    labels.to_set().len()
}

/// The partition of `0..n` in which every element is alone.
pub open spec fn singletons(n: nat) -> Seq<int> {
    Seq::new(n, |k: int| k)
}

/// The partition after the class of `i` has been poured into the class of `j`:
/// every element that carried `i`'s label now carries `j`'s.
pub open spec fn merged(labels: Seq<int>, i: int, j: int) -> Seq<int> {
    Seq::new(
        labels.len(),
        |k: int|
            if labels[k] == labels[i] {
                labels[j]
            } else {
                labels[k]
            },
    )
}

/// Whether two labellings of the same elements describe the same classes.
pub open spec fn same_classes(a: Seq<int>, b: Seq<int>) -> bool {
    &&& a.len() == b.len()
    &&& forall|i: int, j: int|
        0 <= i < a.len() && 0 <= j < a.len() ==> #[trigger] same_class(a, i, j) == same_class(
            b,
            i,
            j,
        )
}

/// Whether every pair in `ops` names two elements of `0..n`.
pub open spec fn valid_pairs(n: nat, ops: Seq<(int, int)>) -> bool {
    forall|k: int|
        0 <= k < ops.len() ==> 0 <= (#[trigger] ops[k]).0 < n && 0 <= ops[k].1 < n
}

/// The partition reached from `labels` by merging the pairs of `ops` in order.
pub open spec fn after_unions(labels: Seq<int>, ops: Seq<(int, int)>) -> Seq<int>
    decreases ops.len(),
{
    if ops.len() == 0 {
        labels
    } else {
        merged(after_unions(labels, ops.drop_last()), ops.last().0, ops.last().1)
    }
}

/// Every element is in a class with itself, in any partition: in a fresh one
/// and after any number of unions alike.
pub proof fn law_reflexive(labels: Seq<int>, i: int)
    requires
        0 <= i < labels.len(),
    ensures
        same_class(labels, i, i),
{
}

/// Being in the same class does not depend on the order of the two elements.
pub proof fn law_symmetric(labels: Seq<int>, i: int, j: int)
    requires
        0 <= i < labels.len(),
        0 <= j < labels.len(),
    ensures
        same_class(labels, i, j) == same_class(labels, j, i),
{
}

/// If `i` is with `j` and `j` is with `k`, then `i` is with `k`.
pub proof fn law_transitive(labels: Seq<int>, i: int, j: int, k: int)
    requires
        0 <= i < labels.len(),
        0 <= j < labels.len(),
        0 <= k < labels.len(),
        same_class(labels, i, j),
        same_class(labels, j, k),
    ensures
        same_class(labels, i, k),
{
}

/// A partition into singletons of `n` elements has `n` classes.
pub proof fn law_singletons_count(n: nat)
    ensures
        class_count(singletons(n)) == n,
{
    let s = singletons(n);
    assert(s.no_duplicates());
    s.unique_seq_to_set();
}

/// After a union, two elements are together exactly when they were together
/// before or when one was with `i` and the other with `j`.
pub proof fn law_union_joins(labels: Seq<int>, i: int, j: int, a: int, b: int)
    requires
        0 <= i < labels.len(),
        0 <= j < labels.len(),
        0 <= a < labels.len(),
        0 <= b < labels.len(),
    ensures
        same_class(merged(labels, i, j), a, b) <==> {
            ||| same_class(labels, a, b)
            ||| (same_class(labels, a, i) && same_class(labels, b, j))
            ||| (same_class(labels, a, j) && same_class(labels, b, i))
        },
{
}

/// A union never adds a class, and it removes one exactly when the two
/// elements were in different classes.
pub proof fn law_union_count(labels: Seq<int>, i: int, j: int)
    requires
        0 <= i < labels.len(),
        0 <= j < labels.len(),
    ensures
        class_count(merged(labels, i, j)) <= class_count(labels),
        class_count(merged(labels, i, j)) < class_count(labels) <==> !same_class(labels, i, j),
        class_count(merged(labels, i, j)) + (if same_class(labels, i, j) {
            0nat
        } else {
            1nat
        }) == class_count(labels),
{
    let after = merged(labels, i, j);
    labels.lemma_cardinality_of_set();
    if same_class(labels, i, j) {
        assert(after =~= labels);
    } else {
        let before_set = labels.to_set();
        assert(before_set.contains(labels[i]));
        assert forall|t: int| after.to_set().contains(t) <==> before_set.remove(
            labels[i],
        ).contains(t) by {
            if after.to_set().contains(t) {
                let k = choose|k: int| 0 <= k < after.len() && after[k] == t;
                assert(before_set.contains(labels[j]));
                assert(before_set.contains(labels[k]));
            }
            if before_set.remove(labels[i]).contains(t) {
                let k = choose|k: int| 0 <= k < labels.len() && labels[k] == t;
                assert(after[k] == t);
            }
        }
        assert(after.to_set() =~= before_set.remove(labels[i]));
    }
}

/// A second union of the same pair changes nothing.
pub proof fn law_union_idempotent(labels: Seq<int>, i: int, j: int)
    requires
        0 <= i < labels.len(),
        0 <= j < labels.len(),
    ensures
        merged(merged(labels, i, j), i, j) == merged(labels, i, j),
{
    assert(merged(merged(labels, i, j), i, j) =~= merged(labels, i, j));
}

/// Two labellings that describe the same classes still do so after the same
/// union is applied to both, whatever labels each of them uses.
pub proof fn law_union_keeps_agreement(a: Seq<int>, b: Seq<int>, i: int, j: int)
    requires
        same_classes(a, b),
        0 <= i < a.len(),
        0 <= j < a.len(),
    ensures
        same_classes(merged(a, i, j), merged(b, i, j)),
{
    let a2 = merged(a, i, j);
    let b2 = merged(b, i, j);
    assert forall|x: int, y: int| 0 <= x < a2.len() && 0 <= y < a2.len() implies #[trigger] same_class(
        a2,
        x,
        y,
    ) == same_class(b2, x, y) by {
        assert(same_class(a, x, i) == same_class(b, x, i));
        assert(same_class(a, y, i) == same_class(b, y, i));
        assert(same_class(a, x, j) == same_class(b, x, j));
        assert(same_class(a, y, j) == same_class(b, y, j));
        assert(same_class(a, x, y) == same_class(b, x, y));
    }
}

/// The same unions, applied in the same order to two labellings that describe
/// the same classes, leave them in agreement after every prefix of the unions.
/// Both structures of this library start from `singletons(n)` and perform
/// `merged` on each union, so they answer every query alike at every step.
pub proof fn law_same_unions_agree(a: Seq<int>, b: Seq<int>, ops: Seq<(int, int)>, done: int)
    requires
        same_classes(a, b),
        valid_pairs(a.len(), ops),
        0 <= done <= ops.len(),
    ensures
        same_classes(after_unions(a, ops.take(done)), after_unions(b, ops.take(done))),
    decreases done,
{
    let prefix = ops.take(done);
    if done > 0 {
        law_same_unions_agree(a, b, ops, done - 1);
        assert(prefix.drop_last() =~= ops.take(done - 1));
        assert(prefix.last() == ops[done - 1]);
        lemma_after_unions_len(a, ops.take(done - 1));
        law_union_keeps_agreement(
            after_unions(a, ops.take(done - 1)),
            after_unions(b, ops.take(done - 1)),
            ops[done - 1].0,
            ops[done - 1].1,
        );
    }
}

/// Unions never change how many elements there are.
pub proof fn lemma_after_unions_len(labels: Seq<int>, ops: Seq<(int, int)>)
    ensures
        after_unions(labels, ops).len() == labels.len(),
    decreases ops.len(),
{
    if ops.len() > 0 {
        lemma_after_unions_len(labels, ops.drop_last());
    }
}

/// Counting the different machine integers in a table gives the number of
/// classes of the labelling that the table stands for.
pub proof fn lemma_count_of_table(table: Seq<usize>, labels: Seq<int>)
    requires
        labels.len() == table.len(),
        forall|k: int| 0 <= k < table.len() ==> labels[k] == #[trigger] table[k],
    ensures
        class_count(labels) == table.to_set().len(),
{
    let widen = |t: usize| t as int;
    assert(labels =~= table.map_values(widen));
    table.lemma_to_set_map_commutes(widen);
    table.lemma_cardinality_of_set();
    assert(vstd::relations::injective_on(widen, table.to_set()));
    vstd::set_lib::lemma_map_size(table.to_set(), labels.to_set(), widen);
}

} // verus!
