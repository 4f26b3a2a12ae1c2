//! The solver's global guarantees, stated and proved over the collapse
//! relation that `step` establishes: monotonic resolution, single collapse,
//! domain non-growth, and neighbor-only propagation.

use vstd::prelude::*;
use crate::category::{Category, all_categories};
use crate::grid::{Grid, direction_between, lemma_count_flip};
use crate::solver::{collapse_rel, filter_allowed, lemma_filter_allowed_props, propagated_domain};

verus! {

/// Monotonic resolution: a cell that is resolved before a collapse step is
/// untouched by it — same category, same flag, same coordinates — so no
/// later step ever changes a resolved cell.
pub proof fn lemma_monotonic_resolution(pre: Grid, post: Grid, i: int, c: Category, j: int)
    requires
        collapse_rel(pre, post, i, c),
        !pre.cells@[i].resolved,
        0 <= j < pre.cells@.len(),
        pre.cells@[j].resolved,
    ensures
        post.cells@[j] == pre.cells@[j],
{
    assert(j != i);
}

/// Single collapse: a step flips exactly one cell, the selected one, from
/// unresolved to resolved; every other cell keeps its flag, and the
/// resolved count rises by exactly one.
pub proof fn lemma_single_collapse(pre: Grid, post: Grid, i: int, c: Category)
    requires
        collapse_rel(pre, post, i, c),
        !pre.cells@[i].resolved,
    ensures
        post.cells@[i].resolved,
        forall|j: int|
            0 <= j < pre.cells@.len() && j != i ==> (#[trigger] post.cells@[j]).resolved
                == pre.cells@[j].resolved,
        post.count_resolved() == pre.count_resolved() + 1,
{
    assert forall|j: int| 0 <= j < pre.cells@.len() && j != i implies (#[trigger] post.cells@[j]).resolved
        == pre.cells@[j].resolved by {
        assert(pre.cells@[j] == pre.cells@[j]);
    }
    lemma_count_flip(pre.cells@, post.cells@, i, pre.cells@.len() as int);
}

/// Domain non-growth except under the reset rule: after a step, an
/// unresolved cell's domain is no larger than before — it is a subsequence
/// of the old domain — unless the empty-domain reset fired, in which case it
/// is the full category set.
pub proof fn lemma_domain_non_growth(pre: Grid, post: Grid, i: int, c: Category, j: int)
    requires
        collapse_rel(pre, post, i, c),
        0 <= j < pre.cells@.len(),
        j != i,
        !pre.cells@[j].resolved,
    ensures
        post.cells@[j].domain@.len() <= pre.cells@[j].domain@.len() || post.cells@[j].domain@
            == all_categories(),
{
    lemma_filter_allowed_props(pre.cells@[j].domain@, c);
}

/// The reset rule itself never hides a still-satisfiable narrowing: the
/// propagated domain is the filtered subsequence exactly when that
/// subsequence is non-empty.
pub proof fn lemma_propagated_domain_cases(dom: Seq<Category>, c: Category)
    ensures
        filter_allowed(dom, c).len() > 0 ==> propagated_domain(dom, c) == filter_allowed(dom, c),
        filter_allowed(dom, c).len() == 0 ==> propagated_domain(dom, c) == all_categories(),
        filter_allowed(dom, c).len() <= dom.len(),
{
    lemma_filter_allowed_props(dom, c);
}

/// Neighbor-only propagation: a step never mutates any cell that is neither
/// the collapsed cell nor one of its axis-aligned neighbors.
pub proof fn lemma_neighbor_only(pre: Grid, post: Grid, i: int, c: Category, j: int)
    requires
        collapse_rel(pre, post, i, c),
        0 <= j < pre.cells@.len(),
        j != i,
        direction_between(
            pre.cells@[i].x as int,
            pre.cells@[i].y as int,
            pre.cells@[j].x as int,
            pre.cells@[j].y as int,
        ) is None,
    ensures
        post.cells@[j] == pre.cells@[j],
{
}

} // verus!
