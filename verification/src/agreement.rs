//! The two structures side by side: fed the same unions, they answer alike.

use vstd::prelude::*;
use crate::partition::{after_unions, same_classes, singletons, valid_pairs};
use crate::quickfind::QuickFind;
use crate::quickunion::QuickUnion;

verus! {

/// A quick-find and a quick-union structure of `n` elements each, both taken
/// through the first `done` unions of `ops`, connect exactly the same pairs.
/// The two premises on the views are what `new` and `union` of either
/// structure establish step by step.
pub proof fn law_structures_agree(
    qf: QuickFind,
    qu: QuickUnion,
    n: nat,
    ops: Seq<(int, int)>,
    done: int,
)
    requires
        valid_pairs(n, ops),
        0 <= done <= ops.len(),
        qf@ == after_unions(singletons(n), ops.take(done)),
        qu@ == after_unions(singletons(n), ops.take(done)),
    ensures
        same_classes(qf@, qu@),
{
}

} // verus!
