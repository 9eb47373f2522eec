//! The structural laws of the nested set encoding, proved once and for all:
//! every write preserves the global nesting invariant and the width law,
//! bootstrap is idempotent, every non-root record has exactly one parent,
//! and ancestor and descendant sets are dual.

use vstd::prelude::*;
use vstd::set_lib::{lemma_int_range, lemma_len_subset, set_int_range};

use crate::category::{
    anc_set, counts_ok, desc_set, encloses, first_named, has_named, lemma_first_named_in_range,
    lemma_first_named_is, nested_wf, sep, CatView,
};
use crate::query::{is_container, is_parent_idx};
use crate::store::{root_view, shift_cat, spec_add, spec_bootstrap};

verus! {

/// The descendant index set of any record is finite and no larger than the
/// whole store.
pub proof fn lemma_desc_set_finite(s: Seq<CatView>, i: int)
    ensures
        desc_set(s, i).finite(),
        desc_set(s, i).len() <= s.len(),
{
    lemma_int_range(0, s.len() as int);
    assert(desc_set(s, i).subset_of(set_int_range(0, s.len() as int)));
    lemma_len_subset(desc_set(s, i), set_int_range(0, s.len() as int));
}

/// Invariant preservation, the inductive step: inserting a child under any
/// existing record of a well-formed snapshot yields a well-formed snapshot —
/// all intervals stay pairwise disjoint or strictly nested, all endpoints
/// stay distinct and within `[1, 2 * n]`, and the root still spans
/// everything.
pub proof fn lemma_add_preserves_wf(s: Seq<CatView>, pi: int, new_id: int, new_name: Seq<char>)
    requires
        nested_wf(s),
        0 <= pi < s.len(),
    ensures
        nested_wf(spec_add(s, pi, new_id, new_name)),
{
    let n = s.len() as int;
    let p = s[pi].rgt;
    let s2 = spec_add(s, pi, new_id, new_name);
    assert(s2.len() == n + 1);
    assert(forall|i: int| 0 <= i < n ==> #[trigger] s2[i] == shift_cat(s[i], p));
    assert(s2[n] == CatView { id: new_id, lft: p, rgt: p + 1, name: new_name });
    assert(2 <= p <= 2 * n);
    // No `lft` ever equals `p`, and only the parent's `rgt` does.
    assert forall|i: int| 0 <= i < n implies s[i].lft != p by {
        assert(s[i].lft != s[pi].rgt);
    }
    assert forall|i: int| 0 <= i < n && i != pi implies s[i].rgt != p by {
        assert(s[i].rgt != s[pi].rgt);
    }
    // Bounds.
    assert forall|i: int|
        0 <= i < s2.len() implies 1 <= (#[trigger] s2[i]).lft && s2[i].lft < s2[i].rgt
        && s2[i].rgt <= 2 * s2.len() by {
        if i < n {
            assert(1 <= s[i].lft && s[i].lft < s[i].rgt && s[i].rgt <= 2 * n);
        }
    }
    // Distinct `lft`s and distinct `rgt`s.
    assert forall|i: int, j: int|
        0 <= i < s2.len() && 0 <= j < s2.len() && i != j implies (#[trigger] s2[i]).lft != (
    #[trigger] s2[j]).lft && s2[i].rgt != s2[j].rgt by {
        if i < n && j < n {
            assert(s[i].lft != s[j].lft && s[i].rgt != s[j].rgt);
        } else if i < n && j == n {
            assert(s[i].lft != p);
            if i != pi {
                assert(s[i].rgt != p);
            }
        } else if i == n && j < n {
            assert(s[j].lft != p);
            if j != pi {
                assert(s[j].rgt != p);
            }
        }
    }
    // No `lft` equals any `rgt`.
    assert forall|i: int, j: int|
        0 <= i < s2.len() && 0 <= j < s2.len() implies (#[trigger] s2[i]).lft != (
    #[trigger] s2[j]).rgt by {
        if i < n && j < n {
            assert(s[i].lft != s[j].rgt);
            assert(s[i].lft != p);
            if j != pi {
                assert(s[j].rgt != p);
            }
        } else if i < n && j == n {
            assert(s[i].lft != p);
        } else if i == n && j < n {
            if j != pi {
                assert(s[j].rgt != p);
            }
            assert(s[j].lft != s[j].rgt);
        }
    }
    // Pairwise separation.
    assert forall|i: int, j: int|
        0 <= i < s2.len() && 0 <= j < s2.len() && i != j implies sep(
        #[trigger] s2[i],
        #[trigger] s2[j],
    ) by {
        if i < n && j < n {
            assert(sep(s[i], s[j]));
            assert(s[i].lft != p && s[j].lft != p);
        } else if i < n && j == n {
            assert(s[i].lft != p);
            if s[i].rgt < p {
                assert(s2[i].rgt <= s2[j].lft);
            } else if s[i].lft < p {
                assert(encloses(s2[i], s2[j]));
            } else {
                assert(s2[j].rgt <= s2[i].lft);
            }
        } else if i == n && j < n {
            assert(s[j].lft != p);
            if s[j].rgt < p {
                assert(s2[j].rgt <= s2[i].lft);
            } else if s[j].lft < p {
                assert(encloses(s2[j], s2[i]));
            } else {
                assert(s2[i].rgt <= s2[j].lft);
            }
        }
    }
    // The root still spans everything.
    let r = choose|r: int| 0 <= r < s.len() && (#[trigger] s[r]).lft == 1 && s[r].rgt == 2
        * s.len();
    assert(s2[r].lft == 1 && s2[r].rgt == 2 * s2.len());
}

/// The width law, the inductive step: when every record's width is
/// `1 + 2 * (number of strict descendants)`, the same holds after an
/// insertion — the new leaf has width 1, and exactly the new record's
/// ancestors gain one descendant and two units of width.
pub proof fn lemma_add_preserves_counts(s: Seq<CatView>, pi: int, new_id: int, new_name: Seq<char>)
    requires
        nested_wf(s),
        counts_ok(s),
        0 <= pi < s.len(),
    ensures
        counts_ok(spec_add(s, pi, new_id, new_name)),
{
    let n = s.len() as int;
    let p = s[pi].rgt;
    let s2 = spec_add(s, pi, new_id, new_name);
    assert(s2.len() == n + 1);
    assert(forall|i: int| 0 <= i < n ==> #[trigger] s2[i] == shift_cat(s[i], p));
    assert(s2[n] == CatView { id: new_id, lft: p, rgt: p + 1, name: new_name });
    assert(2 <= p <= 2 * n);
    assert forall|i: int| 0 <= i < n implies s[i].lft != p by {
        assert(s[i].lft != s[pi].rgt);
    }
    assert forall|i: int|
        0 <= i < s2.len() implies (#[trigger] s2[i]).rgt - s2[i].lft == 1 + 2 * desc_set(
        s2,
        i,
    ).len() by {
        if i == n {
            assert forall|j: int| !(#[trigger] desc_set(s2, n).contains(j)) by {
                if 0 <= j < n {
                    assert(s[j].lft < s[j].rgt);
                }
            }
            assert(desc_set(s2, n) =~= Set::<int>::empty());
        } else {
            assert(1 <= s[i].lft && s[i].lft < s[i].rgt && s[i].rgt <= 2 * n);
            assert forall|j: int|
                0 <= j < n implies (encloses(s2[i], s2[j]) <==> encloses(
                #[trigger] s[i],
                #[trigger] s[j],
            )) by {
                assert(s[i].lft != p && s[j].lft != p);
            }
            if s[i].lft < p && s[i].rgt >= p {
                assert(encloses(s2[i], s2[n]));
                assert(desc_set(s2, i) =~= desc_set(s, i).insert(n));
                lemma_desc_set_finite(s, i);
                assert(!desc_set(s, i).contains(n));
                vstd::set::axiom_set_insert_len(desc_set(s, i), n);
            } else {
                assert(!encloses(s2[i], s2[n]));
                assert(desc_set(s2, i) =~= desc_set(s, i));
            }
        }
    }
}

/// A snapshot holding exactly one bootstrapped root `[1, 2]` is well formed
/// and satisfies the width law: the base case of invariant preservation.
pub proof fn lemma_root_wf(id: int, name: Seq<char>)
    ensures
        nested_wf(seq![root_view(id, name)]),
        counts_ok(seq![root_view(id, name)]),
{
    let s = seq![root_view(id, name)];
    assert(s.len() == 1 && s[0] == root_view(id, name));
    assert forall|j: int| !(#[trigger] desc_set(s, 0).contains(j)) by {}
    assert(desc_set(s, 0) =~= Set::<int>::empty());
    assert(s[0].lft == 1 && s[0].rgt == 2 * s.len());
}

/// Bootstrap changes nothing once a record of the bootstrap name exists.
pub proof fn lemma_bootstrap_stable(s: Seq<CatView>, name: Seq<char>, id: int)
    requires
        has_named(s, name),
    ensures
        spec_bootstrap(s, name, id) == s,
{
}

/// Idempotent bootstrap: bootstrapping a fresh store and then bootstrapping
/// again produces exactly one root record, whose identifier is the one the
/// first call assigned.
pub proof fn lemma_bootstrap_idempotent(name: Seq<char>, id1: int, id2: int)
    ensures
        ({
            let s1 = spec_bootstrap(Seq::empty(), name, id1);
            let s2 = spec_bootstrap(s1, name, id2);
            &&& s1 == seq![root_view(id1, name)]
            &&& s2 == s1
            &&& s1.len() == 1
            &&& s1[0].id == id1
        }),
{
    let s1 = spec_bootstrap(Seq::empty(), name, id1);
    assert(!has_named(Seq::<CatView>::empty(), name));
    assert(s1 =~= seq![root_view(id1, name)]);
    assert(s1[0].name == name);
    lemma_first_named_is(s1, name, 0);
    assert(has_named(s1, name));
}

/// Among the first `k` records, if some container of `ci` exists, one of
/// maximal `lft` exists.
#[verifier::rlimit(50)]
proof fn lemma_max_container_upto(s: Seq<CatView>, ci: int, k: int)
    requires
        0 <= ci < s.len(),
        1 <= k <= s.len(),
        exists|j: int| 0 <= j < k && #[trigger] is_container(s, j, ci),
    ensures
        exists|pj: int|
            0 <= pj < k && #[trigger] is_container(s, pj, ci) && (forall|j: int|
                0 <= j < k && #[trigger] is_container(s, j, ci) ==> s[j].lft <= s[pj].lft),
    decreases k,
{
    if is_container(s, k - 1, ci) {
        if exists|j: int| 0 <= j < k - 1 && #[trigger] is_container(s, j, ci) {
            lemma_max_container_upto(s, ci, k - 1);
            let pj = choose|pj: int|
                0 <= pj < k - 1 && #[trigger] is_container(s, pj, ci) && (forall|j: int|
                    0 <= j < k - 1 && #[trigger] is_container(s, j, ci) ==> s[j].lft <= s[
                        pj
                    ].lft);
            if s[pj].lft <= s[k - 1].lft {
                assert(0 <= k - 1 < k && is_container(s, k - 1, ci) && (forall|j: int|
                    0 <= j < k && #[trigger] is_container(s, j, ci) ==> s[j].lft <= s[
                        k - 1
                    ].lft));
            } else {
                assert(0 <= pj < k && is_container(s, pj, ci) && (forall|j: int|
                    0 <= j < k && #[trigger] is_container(s, j, ci) ==> s[j].lft <= s[pj].lft));
            }
        } else {
            assert(0 <= k - 1 < k && is_container(s, k - 1, ci) && (forall|j: int|
                0 <= j < k && #[trigger] is_container(s, j, ci) ==> s[j].lft <= s[k - 1].lft));
        }
    } else {
        let w = choose|j: int| 0 <= j < k && #[trigger] is_container(s, j, ci);
        assert(0 <= w < k - 1 && is_container(s, w, ci));
        lemma_max_container_upto(s, ci, k - 1);
        let pj = choose|pj: int|
            0 <= pj < k - 1 && #[trigger] is_container(s, pj, ci) && (forall|j: int|
                0 <= j < k - 1 && #[trigger] is_container(s, j, ci) ==> s[j].lft <= s[pj].lft);
        assert(0 <= pj < k && is_container(s, pj, ci) && (forall|j: int|
            0 <= j < k && #[trigger] is_container(s, j, ci) ==> s[j].lft <= s[pj].lft));
    }
}

/// Parent uniqueness: under the nesting invariant, every non-root record
/// has exactly one parent — a container of maximal `lft` exists, is unique,
/// and is strictly contained in every other container, so it is the
/// innermost containing interval.
#[verifier::rlimit(50)]
pub proof fn lemma_parent_unique(s: Seq<CatView>, ci: int)
    requires
        nested_wf(s),
        0 <= ci < s.len(),
        s[ci].lft != 1,
    ensures
        exists|pj: int| #[trigger] is_parent_idx(s, pj, ci),
        forall|a: int, b: int|
            #[trigger] is_parent_idx(s, a, ci) && #[trigger] is_parent_idx(s, b, ci) ==> a == b,
        forall|pj: int, j: int|
            #[trigger] is_parent_idx(s, pj, ci) && #[trigger] is_container(s, j, ci) && j != pj
                ==> encloses(s[j], s[pj]),
{
    let n = s.len() as int;
    let r = choose|r: int| 0 <= r < s.len() && (#[trigger] s[r]).lft == 1 && s[r].rgt == 2
        * s.len();
    assert(s[ci].lft != s[r].lft);
    assert(s[ci].rgt != s[r].rgt);
    assert(1 <= s[ci].lft && s[ci].lft < s[ci].rgt && s[ci].rgt <= 2 * n);
    assert(is_container(s, r, ci));
    lemma_max_container_upto(s, ci, n);
    let pj = choose|pj: int|
        0 <= pj < n && #[trigger] is_container(s, pj, ci) && (forall|j: int|
            0 <= j < n && #[trigger] is_container(s, j, ci) ==> s[j].lft <= s[pj].lft);
    assert(is_parent_idx(s, pj, ci));
    assert forall|a: int, b: int|
        #[trigger] is_parent_idx(s, a, ci) && #[trigger] is_parent_idx(s, b, ci) implies a
        == b by {
        assert(s[a].lft <= s[b].lft && s[b].lft <= s[a].lft);
        if a != b {
            assert(s[a].lft != s[b].lft);
        }
    }
    assert forall|pj2: int, j: int|
        #[trigger] is_parent_idx(s, pj2, ci) && #[trigger] is_container(s, j, ci) && j
        != pj2 implies encloses(s[j], s[pj2]) by {
        assert(sep(s[j], s[pj2]));
        assert(s[j].lft <= s[pj2].lft);
        assert(s[j].lft != s[pj2].lft);
    }
}

/// The root record is contained in no interval at all: `findParent` owes it
/// no result.
pub proof fn lemma_root_has_no_parent(s: Seq<CatView>, ci: int)
    requires
        nested_wf(s),
        0 <= ci < s.len(),
        s[ci].lft == 1,
    ensures
        forall|j: int| 0 <= j < s.len() ==> !encloses(#[trigger] s[j], s[ci]),
{
    assert forall|j: int| 0 <= j < s.len() implies !encloses(#[trigger] s[j], s[ci]) by {
        assert(1 <= s[j].lft);
    }
}

/// Ancestor/descendant duality: a record lies in the descendant set of
/// exactly its ancestors, a non-root record's ancestor set holds the root,
/// and no record is both an ancestor and a descendant of the same record.
pub proof fn lemma_ancestor_descendant_duality(s: Seq<CatView>, ci: int)
    requires
        nested_wf(s),
        0 <= ci < s.len(),
        s[ci].lft != 1,
    ensures
        forall|j: int|
            0 <= j < s.len() ==> (#[trigger] anc_set(s, ci).contains(j) <==> desc_set(
                s,
                j,
            ).contains(ci)),
        anc_set(s, ci).disjoint(desc_set(s, ci)),
        exists|r: int| #[trigger] anc_set(s, ci).contains(r) && s[r].lft == 1,
{
    let n = s.len() as int;
    assert forall|j: int|
        0 <= j < s.len() implies (#[trigger] anc_set(s, ci).contains(j) <==> desc_set(
        s,
        j,
    ).contains(ci)) by {}
    assert forall|j: int|
        !(#[trigger] anc_set(s, ci).contains(j) && desc_set(s, ci).contains(j)) by {}
    let r = choose|r: int| 0 <= r < s.len() && (#[trigger] s[r]).lft == 1 && s[r].rgt == 2
        * s.len();
    assert(s[ci].lft != s[r].lft);
    assert(s[ci].rgt != s[r].rgt);
    assert(1 <= s[ci].lft && s[ci].lft < s[ci].rgt && s[ci].rgt <= 2 * n);
    assert(anc_set(s, ci).contains(r) && s[r].lft == 1);
}

/// The width law read off one record: its interval is ordered and its
/// width is the odd positive integer `1 + 2 * (number of strict
/// descendants)`.
pub proof fn lemma_interval_width(s: Seq<CatView>, i: int)
    requires
        nested_wf(s),
        counts_ok(s),
        0 <= i < s.len(),
    ensures
        s[i].lft < s[i].rgt,
        s[i].rgt - s[i].lft == 1 + 2 * desc_set(s, i).len(),
        (s[i].rgt - s[i].lft) % 2 == 1,
{
    lemma_desc_set_finite(s, i);
}

/// A run of child insertions, each parent name resolving in the state it
/// meets: the state after all of them, or none as soon as a parent name
/// fails to resolve.
pub open spec fn apply_adds(s: Seq<CatView>, ops: Seq<(Seq<char>, Seq<char>)>) -> Option<
    Seq<CatView>,
>
    decreases ops.len(),
{
    if ops.len() == 0 {
        Some(s)
    } else {
        match apply_adds(s, ops.drop_last()) {
            None => None,
            Some(t) => {
                let op = ops.last();
                if has_named(t, op.0) {
                    Some(spec_add(t, first_named(t, op.0), t.len() as int + 1, op.1))
                } else {
                    None
                }
            },
        }
    }
}

/// Invariant preservation over any run: every state reached from a
/// well-formed snapshot — a bootstrapped root in particular — by
/// successful insertions is well formed and obeys the width law.
pub proof fn lemma_adds_preserve_wf(s: Seq<CatView>, ops: Seq<(Seq<char>, Seq<char>)>)
    requires
        nested_wf(s),
        counts_ok(s),
        apply_adds(s, ops) is Some,
    ensures
        nested_wf(apply_adds(s, ops).unwrap()),
        counts_ok(apply_adds(s, ops).unwrap()),
    decreases ops.len(),
{
    if ops.len() > 0 {
        lemma_adds_preserve_wf(s, ops.drop_last());
        let t = apply_adds(s, ops.drop_last()).unwrap();
        let op = ops.last();
        lemma_first_named_in_range(t, op.0);
        lemma_add_preserves_wf(t, first_named(t, op.0), t.len() as int + 1, op.1);
        lemma_add_preserves_counts(t, first_named(t, op.0), t.len() as int + 1, op.1);
    }
}

} // verus!
