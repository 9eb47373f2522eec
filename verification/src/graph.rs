//! The hierarchy materializer: rebuild the explicit parent→child edge set
//! from the flat interval records, resolving every record's parent against
//! the same full snapshot. The edge list is what an export sink consumes.

use vstd::prelude::*;

use crate::category::{encloses, views, CatView, NestedCategory};
use crate::query::{find_parent_from_categories, is_container, is_parent_idx};

verus! {

/// The edge joins some record `ci` to its parent `pj` — the unique
/// innermost container — by their identifiers.
pub open spec fn edge_is_sound(s: Seq<CatView>, edge: (i32, i32)) -> bool {
    exists|ci: int, pj: int|
        0 <= ci < s.len() && #[trigger] is_parent_idx(s, pj, ci) && edge.0 == s[pj].id && edge.1
            == s[ci].id
}

/// Some record has the interval of `s[ci]` strictly inside its own.
pub open spec fn has_container(s: Seq<CatView>, ci: int) -> bool {
    exists|j: int| #[trigger] is_container(s, j, ci)
}

/// Some edge has `id` as its child end.
pub open spec fn child_listed(edges: Seq<(i32, i32)>, id: int) -> bool {
    exists|e: int| 0 <= e < edges.len() && (#[trigger] edges[e]).1 == id
}

/// Every edge joins a record to its parent.
pub open spec fn graph_edges_sound(s: Seq<CatView>, edges: Seq<(i32, i32)>) -> bool {
    forall|e: int| 0 <= e < edges.len() ==> edge_is_sound(s, #[trigger] edges[e])
}

/// Every record among the first `k` that has a container appears as a
/// child in the edge list.
pub open spec fn graph_complete_upto(s: Seq<CatView>, edges: Seq<(i32, i32)>, k: int) -> bool {
    forall|ci: int|
        #![trigger s[ci]]
        0 <= ci < k && has_container(s, ci) ==> child_listed(edges, s[ci].id)
}

/// Edges come in strictly ascending child identifier order.
pub open spec fn graph_sorted(edges: Seq<(i32, i32)>) -> bool {
    forall|e1: int, e2: int|
        0 <= e1 < e2 < edges.len() ==> (#[trigger] edges[e1]).1 < (#[trigger] edges[e2]).1
}

/// The materializer's contract: every edge joins a record to its parent,
/// every record that has a container appears as a child, and edges come in
/// ascending child identifier order.
pub open spec fn graph_ok(s: Seq<CatView>, edges: Seq<(i32, i32)>) -> bool {
    &&& graph_edges_sound(s, edges)
    &&& graph_complete_upto(s, edges, s.len() as int)
    &&& graph_sorted(edges)
}

/// A container of maximal `lft` — what parent resolution returns — is a
/// parent in the sense of `is_parent_idx`.
proof fn lemma_is_parent_from_max(s: Seq<CatView>, ci: int, p: CatView)
    requires
        0 <= ci < s.len(),
        exists|w: int|
            0 <= w < s.len() && #[trigger] s[w] == p && encloses(p, s[ci]) && (forall|j: int|
                0 <= j < s.len() && encloses(#[trigger] s[j], s[ci]) ==> (s[j].lft < p.lft || (s[
                    j
                ].lft == p.lft && j <= w))),
    ensures
        exists|w: int| #[trigger] is_parent_idx(s, w, ci) && s[w] == p,
{
    let w = choose|w: int|
        0 <= w < s.len() && #[trigger] s[w] == p && encloses(p, s[ci]) && (forall|j: int|
            0 <= j < s.len() && encloses(#[trigger] s[j], s[ci]) ==> (s[j].lft < p.lft || (s[
                j
            ].lft == p.lft && j <= w)));
    assert forall|j: int| #[trigger] is_container(s, j, ci) implies s[j].lft <= s[w].lft by {
        assert(encloses(s[j], s[ci]));
    }
    assert(is_parent_idx(s, w, ci) && s[w] == p);
}

/// Appending the edge for record `i` (whose parent is `w`) keeps the edge
/// list correct for the first `i + 1` records.
proof fn lemma_graph_step(s: Seq<CatView>, eb: Seq<(i32, i32)>, nb: Seq<(i32, i32)>, i: int, w: int)
    requires
        0 <= i < s.len(),
        forall|j: int| 0 <= j < s.len() ==> (#[trigger] s[j]).id == j + 1,
        is_parent_idx(s, w, i),
        nb.len() == eb.len() + 1,
        forall|e: int| 0 <= e < eb.len() ==> #[trigger] nb[e] == eb[e],
        nb[nb.len() - 1].0 == s[w].id,
        nb[nb.len() - 1].1 == s[i].id,
        graph_edges_sound(s, eb),
        graph_complete_upto(s, eb, i),
        forall|e: int| 0 <= e < eb.len() ==> 1 <= (#[trigger] eb[e]).1 <= i,
        graph_sorted(eb),
    ensures
        graph_edges_sound(s, nb),
        graph_complete_upto(s, nb, i + 1),
        forall|e: int| 0 <= e < nb.len() ==> 1 <= (#[trigger] nb[e]).1 <= i + 1,
        graph_sorted(nb),
{
    assert forall|e: int| 0 <= e < nb.len() implies edge_is_sound(s, #[trigger] nb[e]) by {
        if e < nb.len() - 1 {
            assert(nb[e] == eb[e]);
            assert(edge_is_sound(s, eb[e]));
        } else {
            assert(0 <= i < s.len() && is_parent_idx(s, w, i) && nb[e].0 == s[w].id && nb[e].1
                == s[i].id);
            assert(edge_is_sound(s, nb[e]));
        }
    }
    assert forall|ci: int|
        #![trigger s[ci]]
        0 <= ci < i + 1 && has_container(s, ci) implies child_listed(nb, s[ci].id) by {
        if ci < i {
            assert(child_listed(eb, s[ci].id));
            let e = choose|e: int| 0 <= e < eb.len() && (#[trigger] eb[e]).1 == s[ci].id;
            assert(nb[e] == eb[e]);
            assert(0 <= e < nb.len() && nb[e].1 == s[ci].id);
            assert(child_listed(nb, s[ci].id));
        } else {
            assert(nb[nb.len() - 1].1 == s[ci].id);
            assert(child_listed(nb, s[ci].id));
        }
    }
    assert forall|e: int| 0 <= e < nb.len() implies 1 <= (#[trigger] nb[e]).1 <= i + 1 by {
        if e < nb.len() - 1 {
            assert(nb[e] == eb[e]);
        }
    }
    assert forall|e1: int, e2: int|
        0 <= e1 < e2 < nb.len() implies (#[trigger] nb[e1]).1 < (#[trigger] nb[e2]).1 by {
        if e2 < nb.len() - 1 {
            assert(nb[e1] == eb[e1] && nb[e2] == eb[e2]);
        } else {
            assert(nb[e1] == eb[e1]);
            assert(1 <= eb[e1].1 <= i);
        }
    }
}

/// A record with no container adds no edge: the edge list stays correct
/// for the first `i + 1` records.
proof fn lemma_graph_skip(s: Seq<CatView>, eb: Seq<(i32, i32)>, i: int)
    requires
        0 <= i < s.len(),
        forall|j: int| 0 <= j < s.len() ==> !encloses(#[trigger] s[j], s[i]),
        graph_complete_upto(s, eb, i),
    ensures
        graph_complete_upto(s, eb, i + 1),
{
    assert forall|ci: int|
        #![trigger s[ci]]
        0 <= ci < i + 1 && has_container(s, ci) implies child_listed(eb, s[ci].id) by {
        if ci == i {
            let j = choose|j: int| #[trigger] is_container(s, j, ci);
            assert(!encloses(s[j], s[i]));
            assert(false);
        } else {
            assert(child_listed(eb, s[ci].id));
        }
    }
}

/// One directed edge per non-root record, from its parent's identifier to
/// its own, in ascending child identifier order (store order, since the
/// store assigns identifiers `1, 2, ...`): exactly the edges of the
/// category tree.
pub fn build_graph(categories: &Vec<NestedCategory>) -> (edges: Vec<(i32, i32)>)
    requires
        forall|i: int|
            0 <= i < views(categories@).len() ==> (#[trigger] views(categories@)[i]).id == i + 1,
    ensures
        graph_ok(views(categories@), edges@),
{
    let ghost s = views(categories@);
    let n = categories.len();
    let mut edges: Vec<(i32, i32)> = Vec::new();
    let mut i: usize = 0;
    while i < n
        invariant
            n == categories@.len(),
            s == views(categories@),
            forall|j: int| 0 <= j < s.len() ==> (#[trigger] s[j]).id == j + 1,
            0 <= i <= n,
            graph_edges_sound(s, edges@),
            graph_complete_upto(s, edges@, i as int),
            forall|e: int| 0 <= e < edges@.len() ==> 1 <= (#[trigger] edges@[e]).1 <= i,
            graph_sorted(edges@),
        decreases n - i,
    {
        match find_parent_from_categories(categories, &categories[i]) {
            Some(p) => {
                let ghost eb = edges@;
                edges.push((p.id, categories[i].id));
                proof {
                    assert(s[i as int] == categories@[i as int]@);
                    lemma_is_parent_from_max(s, i as int, p@);
                    let w = choose|w: int| #[trigger] is_parent_idx(s, w, i as int) && s[w] == p@;
                    assert(edges@[edges@.len() - 1].0 == s[w].id && edges@[edges@.len() - 1].1
                        == s[i as int].id);
                    lemma_graph_step(s, eb, edges@, i as int, w);
                }
            },
            None => {
                proof {
                    assert(s[i as int] == categories@[i as int]@);
                    lemma_graph_skip(s, edges@, i as int);
                }
            },
        }
        i += 1;
    }
    edges
}

} // verus!
