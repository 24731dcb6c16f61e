//! Forests written as parent links: `links[i]` is the parent of `i`, and a
//! root is its own parent. Following the links from any element of a forest
//! ends at a root, which stands for the element's tree.

use vstd::prelude::*;
use crate::partition::merged;

verus! {

/// Whether every link points at an element.
pub open spec fn links_in_range(links: Seq<int>) -> bool {
    forall|k: int| 0 <= k < links.len() ==> 0 <= #[trigger] links[k] < links.len()
}

/// Whether `r` is an element that is its own parent.
pub open spec fn is_root(links: Seq<int>, r: int) -> bool {
    0 <= r < links.len() && links[r] == r
}

/// The element reached from `i` by following `steps` links.
pub open spec fn climb(links: Seq<int>, i: int, steps: nat) -> int
    decreases steps,
{
    if steps == 0 {
        i
    } else {
        climb(links, links[i], (steps - 1) as nat)
    }
}

/// Whether following links from `i` arrives at a root.
pub open spec fn reaches_root(links: Seq<int>, i: int) -> bool {
    exists|steps: nat| is_root(links, #[trigger] climb(links, i, steps))
}

/// Whether the links form a forest: they stay among the elements and admit no
/// cycle but the self-loop of a root.
pub open spec fn is_forest(links: Seq<int>) -> bool {
    &&& links_in_range(links)
    &&& forall|i: int| 0 <= i < links.len() ==> #[trigger] reaches_root(links, i)
}

/// The root at which following links from `i` arrives.
pub open spec fn root_of(links: Seq<int>, i: int) -> int {
    climb(links, i, choose|steps: nat| is_root(links, #[trigger] climb(links, i, steps)))
}

/// The partition that a forest stands for: every element labelled by its root.
pub open spec fn roots(links: Seq<int>) -> Seq<int> {
    Seq::new(links.len(), |i: int| root_of(links, i))
}

/// Following links from a root stays at the root.
pub proof fn lemma_climb_at_root(links: Seq<int>, r: int, steps: nat)
    requires
        is_root(links, r),
    ensures
        climb(links, r, steps) == r,
    decreases steps,
{
    if steps > 0 {
        lemma_climb_at_root(links, r, (steps - 1) as nat);
    }
}

/// Following `a + b` links is following `a` links and then `b` more.
pub proof fn lemma_climb_split(links: Seq<int>, i: int, a: nat, b: nat)
    ensures
        climb(links, i, a + b) == climb(links, climb(links, i, a), b),
    decreases a,
{
    if a > 0 {
        lemma_climb_split(links, links[i], (a - 1) as nat, b);
    }
}

/// Whatever root is met on the way up from `i` is the root of `i`.
pub proof fn lemma_root_is_unique(links: Seq<int>, i: int, steps: nat)
    requires
        is_root(links, climb(links, i, steps)),
    ensures
        root_of(links, i) == climb(links, i, steps),
        is_root(links, root_of(links, i)),
{
    let chosen = choose|s: nat| is_root(links, #[trigger] climb(links, i, s));
    if chosen <= steps {
        let rest = (steps - chosen) as nat;
        lemma_climb_split(links, i, chosen, rest);
        lemma_climb_at_root(links, climb(links, i, chosen), rest);
    } else {
        let rest = (chosen - steps) as nat;
        lemma_climb_split(links, i, steps, rest);
        lemma_climb_at_root(links, climb(links, i, steps), rest);
    }
}

/// In a forest the root of an element is a root, and an element has the root
/// that its parent has.
pub proof fn lemma_root_of_parent(links: Seq<int>, i: int)
    requires
        is_forest(links),
        0 <= i < links.len(),
    ensures
        is_root(links, root_of(links, i)),
        root_of(links, links[i]) == root_of(links, i),
        is_root(links, i) ==> root_of(links, i) == i,
{
    assert(reaches_root(links, i));
    let steps = choose|s: nat| is_root(links, #[trigger] climb(links, i, s));
    lemma_root_is_unique(links, i, steps);
    if is_root(links, i) {
        assert(climb(links, i, 0) == i);
        lemma_root_is_unique(links, i, 0);
    } else {
        assert(steps > 0);
        lemma_root_is_unique(links, links[i], (steps - 1) as nat);
    }
}

/// With no links but self-loops, every element is its own root.
pub proof fn lemma_all_roots(links: Seq<int>)
    requires
        forall|k: int| 0 <= k < links.len() ==> #[trigger] links[k] == k,
    ensures
        is_forest(links),
        roots(links) == links,
{
    assert forall|i: int| 0 <= i < links.len() implies #[trigger] reaches_root(links, i) by {
        assert(climb(links, i, 0) == i);
    }
    assert forall|i: int| 0 <= i < links.len() implies #[trigger] root_of(links, i) == i by {
        assert(climb(links, i, 0) == i);
        lemma_root_is_unique(links, i, 0);
    }
    assert(roots(links) =~= links);
}

/// Hanging root `from` under root `onto` moves an element to `onto` if its
/// root was `from` and leaves its root alone otherwise.
proof fn lemma_link_moves_root(links: Seq<int>, from: int, onto: int, i: int, steps: nat)
    requires
        links_in_range(links),
        is_root(links, from),
        is_root(links, onto),
        0 <= i < links.len(),
        is_root(links, climb(links, i, steps)),
    ensures
        reaches_root(links.update(from, onto), i),
        root_of(links.update(from, onto), i) == if climb(links, i, steps) == from {
            onto
        } else {
            climb(links, i, steps)
        },
    decreases steps,
{
    let linked = links.update(from, onto);
    if is_root(links, i) {
        lemma_climb_at_root(links, i, steps);
        if i == from {
            assert(climb(linked, onto, 0) == onto);
            assert(climb(linked, i, 1) == climb(linked, onto, 0));
            lemma_root_is_unique(linked, i, 1);
        } else {
            assert(climb(linked, i, 0) == i);
            lemma_root_is_unique(linked, i, 0);
        }
    } else {
        let rest = (steps - 1) as nat;
        lemma_link_moves_root(links, from, onto, links[i], rest);
        let up = choose|s: nat| is_root(linked, #[trigger] climb(linked, links[i], s));
        lemma_root_is_unique(linked, links[i], up);
        assert(climb(linked, i, up + 1) == climb(linked, links[i], up));
        lemma_root_is_unique(linked, i, up + 1);
    }
}

/// Hanging one root of a forest under another gives a forest again, and its
/// partition is the old one with the two trees merged.
pub proof fn lemma_link_roots(links: Seq<int>, i: int, j: int)
    requires
        is_forest(links),
        0 <= i < links.len(),
        0 <= j < links.len(),
    ensures
        is_forest(links.update(root_of(links, i), root_of(links, j))),
        roots(links.update(root_of(links, i), root_of(links, j))) == merged(roots(links), i, j),
{
    let from = root_of(links, i);
    let onto = root_of(links, j);
    let linked = links.update(from, onto);
    lemma_root_of_parent(links, i);
    lemma_root_of_parent(links, j);
    assert forall|x: int| 0 <= x < links.len() implies #[trigger] reaches_root(linked, x) by {
        assert(reaches_root(links, x));
        let steps = choose|s: nat| is_root(links, #[trigger] climb(links, x, s));
        lemma_link_moves_root(links, from, onto, x, steps);
    }
    assert forall|x: int| 0 <= x < links.len() implies #[trigger] root_of(linked, x) == merged(
        roots(links),
        i,
        j,
    )[x] by {
        assert(reaches_root(links, x));
        let steps = choose|s: nat| is_root(links, #[trigger] climb(links, x, s));
        lemma_root_is_unique(links, x, steps);
        lemma_link_moves_root(links, from, onto, x, steps);
    }
    assert(roots(linked) =~= merged(roots(links), i, j));
}

} // verus!
