//! The query engine: name resolution and parent/ancestor/descendant
//! retrieval from a flat snapshot of interval records.

use vstd::prelude::*;
use vstd::string::StrSliceExecFns;

use crate::category::{
    encloses, first_named, has_named, lemma_first_named_is, lemma_first_named_none, nested_wf,
    views, CategoryError, CatView, NestedCategory,
};
use crate::store::MAX_CATEGORIES;

verus! {

/// The relation a retrieval collects: with `descendants` set, records
/// strictly inside `c`; otherwise records strictly containing `c`.
pub open spec fn related(c: CatView, x: CatView, descendants: bool) -> bool {
    if descendants {
        encloses(c, x)
    } else {
        encloses(x, c)
    }
}

/// The retrieval contract shared by ancestor and descendant queries: `v`
/// holds exactly the records related to the record the name resolved to
/// (the first so named, at index `first_named`), in strictly ascending
/// `lft` order — which pins `v` completely when all `lft`s are distinct.
pub open spec fn retrieval_ok(
    s: Seq<CatView>,
    name: Seq<char>,
    descendants: bool,
    v: Seq<NestedCategory>,
) -> bool {
    let c = s[first_named(s, name)];
    &&& forall|a: int, b: int|
        0 <= a < b < v.len() ==> (#[trigger] v[a])@.lft < (#[trigger] v[b])@.lft
    &&& forall|a: int|
        0 <= a < v.len() ==> exists|i: int|
            0 <= i < s.len() && (#[trigger] v[a])@ == s[i] && related(c, s[i], descendants)
    &&& forall|i: int|
        0 <= i < s.len() && related(c, #[trigger] s[i], descendants) ==> exists|a: int|
            0 <= a < v.len() && (#[trigger] v[a])@ == s[i]
}

/// Record `j` is a container of record `ci`: a strict ancestor by interval
/// containment.
pub open spec fn is_container(s: Seq<CatView>, j: int, ci: int) -> bool {
    0 <= j < s.len() && j != ci && encloses(s[j], s[ci])
}

/// Record `pj` is the parent of record `ci`: a container whose `lft` is
/// maximal among all containers — the innermost containing interval.
pub open spec fn is_parent_idx(s: Seq<CatView>, pj: int, ci: int) -> bool {
    is_container(s, pj, ci) && (forall|j: int|
        #[trigger] is_container(s, j, ci) ==> s[j].lft <= s[pj].lft)
}

/// Character-wise string comparison, so that equality of names is equality
/// of their character sequences.
pub(crate) fn str_eq(a: &str, b: &str) -> (r: bool)
    ensures
        r == (a@ == b@),
{
    let la = a.unicode_len();
    let lb = b.unicode_len();
    if la != lb {
        return false;
    }
    let mut i: usize = 0;
    while i < la
        invariant
            la == a@.len(),
            la == b@.len(),
            0 <= i <= la,
            forall|j: int| 0 <= j < i ==> a@[j] == b@[j],
        decreases la - i,
    {
        if a.get_char(i) != b.get_char(i) {
            return false;
        }
        i += 1;
    }
    proof {
        assert(a@ =~= b@);
    }
    true
}

/// The index of the first record named `name` in store order, if any.
pub fn find_first_named(categories: &Vec<NestedCategory>, name: &str) -> (r: Option<usize>)
    ensures
        match r {
            None => !has_named(views(categories@), name@),
            Some(i) => i < categories@.len() && first_named(views(categories@), name@) == i,
        },
{
    let ghost s = views(categories@);
    let n = categories.len();
    let mut i: usize = 0;
    while i < n
        invariant
            n == categories@.len(),
            s == views(categories@),
            0 <= i <= n,
            forall|j: int| 0 <= j < i ==> (#[trigger] s[j]).name != name@,
        decreases n - i,
    {
        if str_eq(categories[i].name.as_str(), name) {
            proof {
                lemma_first_named_is(s, name@, i as int);
            }
            return Some(i);
        }
        i += 1;
    }
    proof {
        lemma_first_named_none(s, name@);
    }
    None
}

/// Among all records whose interval strictly contains `child`'s, the one
/// with the greatest `lft` — the innermost, i.e. nearest, ancestor — or
/// none when no interval contains `child`'s. Ties on `lft` (impossible
/// under the nesting invariant) resolve to the last record in store order.
pub fn find_parent_from_categories(
    categories: &Vec<NestedCategory>,
    child: &NestedCategory,
) -> (r: Option<NestedCategory>)
    ensures
        ({
            let s = views(categories@);
            match r {
                None => forall|j: int| 0 <= j < s.len() ==> !encloses(#[trigger] s[j], child@),
                Some(p) => exists|i: int|
                    0 <= i < s.len() && #[trigger] s[i] == p@ && encloses(p@, child@) && (forall|
                        j: int,
                    |
                        0 <= j < s.len() && encloses(#[trigger] s[j], child@) ==> (s[j].lft
                            < p@.lft || (s[j].lft == p@.lft && j <= i))),
            }
        }),
{
    let ghost s = views(categories@);
    let n = categories.len();
    let mut best: Option<usize> = None;
    let mut i: usize = 0;
    while i < n
        invariant
            n == categories@.len(),
            s == views(categories@),
            0 <= i <= n,
            match best {
                None => forall|j: int| 0 <= j < i ==> !encloses(#[trigger] s[j], child@),
                Some(b) => b < i && encloses(s[b as int], child@) && (forall|j: int|
                    0 <= j < i && encloses(#[trigger] s[j], child@) ==> (s[j].lft < s[
                        b as int
                    ].lft || (s[j].lft == s[b as int].lft && j <= b))),
            },
        decreases n - i,
    {
        let c = &categories[i];
        if c.lft < child.lft && c.rgt > child.rgt {
            best = match best {
                None => Some(i),
                Some(b) => if categories[b].lft <= c.lft {
                    Some(i)
                } else {
                    Some(b)
                },
            };
        }
        i += 1;
    }
    match best {
        None => None,
        Some(b) => Some(categories[b].clone()),
    }
}

/// The record holding `lft` value `t`, if any.
fn find_by_lft(categories: &Vec<NestedCategory>, t: i32) -> (r: Option<usize>)
    ensures
        ({
            let s = views(categories@);
            match r {
                None => forall|i: int| 0 <= i < s.len() ==> (#[trigger] s[i]).lft != t,
                Some(f) => f < s.len() && s[f as int].lft == t,
            }
        }),
{
    let ghost s = views(categories@);
    let n = categories.len();
    let mut j: usize = 0;
    while j < n
        invariant
            n == categories@.len(),
            s == views(categories@),
            0 <= j <= n,
            forall|i: int| 0 <= i < j ==> (#[trigger] s[i]).lft != t,
        decreases n - j,
    {
        if categories[j].lft == t {
            return Some(j);
        }
        j += 1;
    }
    None
}

/// Resolve the first record named `node_name`, then collect every record
/// related to it, in ascending `lft` order. Under the nesting invariant all
/// `lft` values are distinct and lie in `[1, 2 * n]`, so scanning the
/// possible `lft` values in order yields each related record exactly once.
#[verifier::rlimit(100)]
fn related_sorted_by_lft(
    categories: &Vec<NestedCategory>,
    node_name: &str,
    descendants: bool,
) -> (r: Result<Vec<NestedCategory>, CategoryError>)
    requires
        nested_wf(views(categories@)),
        categories@.len() <= MAX_CATEGORIES,
    ensures
        ({
            let s = views(categories@);
            match r {
                Err(e) => e == CategoryError::NotFound && !has_named(s, node_name@),
                Ok(v) => has_named(s, node_name@) && retrieval_ok(
                    s,
                    node_name@,
                    descendants,
                    v@,
                ),
            }
        }),
{
    let node_idx = match find_first_named(categories, node_name) {
        None => {
            return Err(CategoryError::NotFound);
        },
        Some(ci) => ci,
    };
    let ghost s = views(categories@);
    proof {
        assert(first_named(s, node_name@) == node_idx as int);
    }
    let ghost c = s[node_idx as int];
    let c_lft = categories[node_idx].lft;
    let c_rgt = categories[node_idx].rgt;
    let n = categories.len();
    let two_n: i32 = 2 * (n as i32);
    let mut out: Vec<NestedCategory> = Vec::new();
    let ghost mut idxs: Seq<int> = Seq::empty();
    let mut t: i32 = 1;
    while t <= two_n
        invariant
            n == categories@.len(),
            s == views(categories@),
            nested_wf(s),
            n <= MAX_CATEGORIES,
            node_idx < n,
            c == s[node_idx as int],
            c_lft == c.lft,
            c_rgt == c.rgt,
            two_n == 2 * n,
            1 <= t <= two_n + 1,
            idxs.len() == out@.len(),
            forall|a: int| #![trigger idxs[a]]
                0 <= a < idxs.len() ==> 0 <= idxs[a] < s.len() && out@[a]@ == s[idxs[a]]
                    && related(c, s[idxs[a]], descendants) && s[idxs[a]].lft < t,
            forall|a: int, b: int|
                0 <= a < b < out@.len() ==> (#[trigger] out@[a])@.lft < (#[trigger] out@[b])@.lft,
            forall|i: int|
                0 <= i < s.len() && related(c, #[trigger] s[i], descendants) && s[i].lft < t
                    ==> exists|a: int| #![trigger idxs[a]] 0 <= a < idxs.len() && idxs[a] == i,
        decreases two_n + 1 - t,
    {
        match find_by_lft(categories, t) {
            Some(f) => {
                let cat = &categories[f];
                let is_rel = if descendants {
                    c_lft < cat.lft && cat.rgt < c_rgt
                } else {
                    cat.lft < c_lft && c_rgt < cat.rgt
                };
                proof {
                    assert(is_rel == related(c, s[f as int], descendants));
                }
                if is_rel {
                    let ghost out_before = out@;
                    let ghost idxs_before = idxs;
                    out.push(cat.clone());
                    proof {
                        idxs = idxs.push(f as int);
                        assert(out@[out@.len() - 1]@ == s[f as int]);
                        assert forall|a: int| #![trigger idxs[a]]
                            0 <= a < idxs.len() implies 0 <= idxs[a] < s.len() && out@[a]@ == s[
                            idxs[a]
                        ] && related(c, s[idxs[a]], descendants) && s[idxs[a]].lft < t + 1 by {
                            if a < idxs.len() - 1 {
                                assert(out@[a] == out_before[a]);
                                assert(idxs[a] == idxs_before[a]);
                            } else {
                                assert(idxs[a] == f as int);
                            }
                        }
                        assert forall|a: int, b: int|
                            0 <= a < b < out@.len() implies (#[trigger] out@[a])@.lft < (
                        #[trigger] out@[b])@.lft by {
                            if b < out@.len() - 1 {
                                assert(out@[a] == out_before[a] && out@[b] == out_before[b]);
                            } else {
                                if a < out@.len() - 1 {
                                    assert(out@[a] == out_before[a]);
                                    assert(out_before[a]@ == s[idxs_before[a]] && s[
                                        idxs_before[a]
                                    ].lft < t);
                                }
                            }
                        }
                        assert forall|i: int|
                            0 <= i < s.len() && related(c, #[trigger] s[i], descendants) && s[
                            i
                        ].lft < t + 1 implies exists|a: int| #![trigger idxs[a]]
                            0 <= a < idxs.len() && idxs[a] == i by {
                            if s[i].lft == t {
                                assert(s[i].lft == s[f as int].lft);
                                assert(i == f);
                                assert(idxs[idxs.len() - 1] == i);
                            } else {
                                let a = choose|a: int| #![trigger idxs_before[a]]
                                    0 <= a < idxs_before.len() && idxs_before[a] == i;
                                assert(idxs[a] == i);
                            }
                        }
                    }
                } else {
                    proof {
                        assert forall|i: int|
                            0 <= i < s.len() && related(c, #[trigger] s[i], descendants) && s[
                            i
                        ].lft < t + 1 implies exists|a: int| #![trigger idxs[a]]
                            0 <= a < idxs.len() && idxs[a] == i by {
                            if s[i].lft == t {
                                assert(s[i].lft == s[f as int].lft);
                                assert(i == f);
                            }
                        }
                    }
                }
            },
            None => {
                proof {
                    assert forall|i: int|
                        0 <= i < s.len() && related(c, #[trigger] s[i], descendants) && s[i].lft < t
                            + 1 implies exists|a: int| #![trigger idxs[a]]
                        0 <= a < idxs.len() && idxs[a] == i by {
                        assert(s[i].lft != t);
                    }
                }
            },
        }
        t += 1;
    }
    proof {
        assert(c == s[first_named(s, node_name@)]);
        assert(retrieval_ok(s, node_name@, descendants, out@)) by {
            assert forall|a: int|
                0 <= a < out@.len() implies exists|i: int|
                0 <= i < s.len() && (#[trigger] out@[a])@ == s[i] && related(
                    c,
                    s[i],
                    descendants,
                ) by {
                assert(0 <= idxs[a] < s.len() && out@[a]@ == s[idxs[a]] && related(
                    c,
                    s[idxs[a]],
                    descendants,
                ));
            }
            assert forall|i: int|
                0 <= i < s.len() && related(c, #[trigger] s[i], descendants) implies exists|a: int|
                0 <= a < out@.len() && (#[trigger] out@[a])@ == s[i] by {
                assert(1 <= s[i].lft && s[i].lft < s[i].rgt && s[i].rgt <= 2 * s.len());
                let a = choose|a: int| #![trigger idxs[a]] 0 <= a < idxs.len() && idxs[a] == i;
                assert(out@[a]@ == s[i]);
            }
        }
    }
    Ok(out)
}

/// Resolve the first record named `node_name`, then return every record
/// whose interval strictly contains it — `related(c, x, false)` — ordered
/// by ascending `lft` (root-first). Fails with `NotFound` when no record
/// matches the name.
pub fn find_ancestors(categories: &Vec<NestedCategory>, node_name: &str) -> (r: Result<
    Vec<NestedCategory>,
    CategoryError,
>)
    requires
        nested_wf(views(categories@)),
        categories@.len() <= MAX_CATEGORIES,
    ensures
        ({
            let s = views(categories@);
            match r {
                Err(e) => e == CategoryError::NotFound && !has_named(s, node_name@),
                Ok(v) => has_named(s, node_name@) && retrieval_ok(
                    s,
                    node_name@,
                    false,
                    v@,
                ),
            }
        }),
{
    related_sorted_by_lft(categories, node_name, false)
}

/// Resolve the first record named `node_name`, then return every record
/// whose interval is strictly contained in it — `related(c, x, true)` —
/// ordered by ascending `lft` (pre-order / document order). Fails with
/// `NotFound` when no record matches the name.
pub fn find_descendants(categories: &Vec<NestedCategory>, node_name: &str) -> (r: Result<
    Vec<NestedCategory>,
    CategoryError,
>)
    requires
        nested_wf(views(categories@)),
        categories@.len() <= MAX_CATEGORIES,
    ensures
        ({
            let s = views(categories@);
            match r {
                Err(e) => e == CategoryError::NotFound && !has_named(s, node_name@),
                Ok(v) => has_named(s, node_name@) && retrieval_ok(
                    s,
                    node_name@,
                    true,
                    v@,
                ),
            }
        }),
{
    related_sorted_by_lft(categories, node_name, true)
}

} // verus!
