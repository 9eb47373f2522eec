//! The interval model: category records and the global nesting invariant.
//!
//! A category tree is stored flat, as one interval `[lft, rgt]` per record
//! (the nested set encoding): a node's interval strictly contains the
//! interval of every descendant and is disjoint from every other interval.

use vstd::prelude::*;

verus! {

/// A category record. `id` is assigned by the store on creation and never
/// reused; `lft` and `rgt` encode the record's place in the tree.
#[derive(Debug)]
pub struct NestedCategory {
    pub id: i32,
    pub lft: i32,
    pub rgt: i32,
    pub name: String,
}

/// The mathematical model of a record: the same fields over unbounded
/// integers and a character sequence.
pub struct CatView {
    pub id: int,
    pub lft: int,
    pub rgt: int,
    pub name: Seq<char>,
}

impl View for NestedCategory {
    type V = CatView;

    open spec fn view(&self) -> CatView {
        CatView {
            id: self.id as int,
            lft: self.lft as int,
            rgt: self.rgt as int,
            name: self.name@,
        }
    }
}

impl Clone for NestedCategory {
    fn clone(&self) -> (r: Self)
        ensures
            r@ == self@,
    {
        NestedCategory {
            id: self.id,
            lft: self.lft,
            rgt: self.rgt,
            name: self.name.clone(),
        }
    }
}

/// The errors of the query and mutation engines: a name lookup that matched
/// no record.
#[derive(Debug, Clone, Copy, PartialEq, Eq, Structural)]
pub enum CategoryError {
    NotFound,
}

/// The models of a sequence of records.
pub open spec fn views(s: Seq<NestedCategory>) -> Seq<CatView> {
    s.map_values(|c: NestedCategory| c@)
}

/// Interval `a` strictly contains interval `b`.
pub open spec fn encloses(a: CatView, b: CatView) -> bool {
    a.lft < b.lft && b.rgt < a.rgt
}

/// Two intervals are disjoint or one strictly contains the other: no
/// partial overlap.
pub open spec fn sep(a: CatView, b: CatView) -> bool {
    ||| a.rgt <= b.lft
    ||| b.rgt <= a.lft
    ||| encloses(a, b)
    ||| encloses(b, a)
}

/// The global nesting invariant over a snapshot of all records:
/// every interval is ordered and lies within `[1, 2 * n]`, all endpoints
/// are pairwise distinct, any two intervals are disjoint or strictly
/// nested, and a root interval spans all of `[1, 2 * n]`.
pub open spec fn nested_wf(s: Seq<CatView>) -> bool {
    &&& forall|i: int|
        0 <= i < s.len() ==> 1 <= (#[trigger] s[i]).lft && s[i].lft < s[i].rgt && s[i].rgt <= 2
            * s.len()
    &&& forall|i: int, j: int|
        0 <= i < s.len() && 0 <= j < s.len() && i != j ==> (#[trigger] s[i]).lft != (
        #[trigger] s[j]).lft && s[i].rgt != s[j].rgt
    &&& forall|i: int, j: int|
        0 <= i < s.len() && 0 <= j < s.len() ==> (#[trigger] s[i]).lft != (#[trigger] s[j]).rgt
    &&& forall|i: int, j: int|
        0 <= i < s.len() && 0 <= j < s.len() && i != j ==> sep(#[trigger] s[i], #[trigger] s[j])
    &&& s.len() > 0 ==> exists|r: int|
        0 <= r < s.len() && (#[trigger] s[r]).lft == 1 && s[r].rgt == 2 * s.len()
}

/// The indices of the strict descendants of record `i`: every record whose
/// interval lies strictly inside `s[i]`'s.
pub open spec fn desc_set(s: Seq<CatView>, i: int) -> Set<int> {
    Set::new(|j: int| 0 <= j < s.len() && j != i && encloses(s[i], s[j]))
}

/// The indices of the strict ancestors of record `i`: every record whose
/// interval strictly contains `s[i]`'s.
pub open spec fn anc_set(s: Seq<CatView>, i: int) -> Set<int> {
    Set::new(|j: int| 0 <= j < s.len() && j != i && encloses(s[j], s[i]))
}

/// Every record's width `rgt - lft` is exactly `1 + 2 * (number of strict
/// descendants)`, hence an odd positive integer.
pub open spec fn counts_ok(s: Seq<CatView>) -> bool {
    forall|i: int|
        0 <= i < s.len() ==> (#[trigger] s[i]).rgt - s[i].lft == 1 + 2 * desc_set(s, i).len()
}

/// The first index at or after `k` whose record is named `name`, or `-1`.
/// Name lookups resolve to the first match in store order.
pub open spec fn first_named_from(s: Seq<CatView>, name: Seq<char>, k: int) -> int
    decreases s.len() - k,
{
    if k < 0 || k >= s.len() {
        -1
    } else if s[k].name == name {
        k
    } else {
        first_named_from(s, name, k + 1)
    }
}

/// The first index whose record is named `name`, or `-1`.
pub open spec fn first_named(s: Seq<CatView>, name: Seq<char>) -> int {
    first_named_from(s, name, 0)
}

/// Some record is named `name`.
pub open spec fn has_named(s: Seq<CatView>, name: Seq<char>) -> bool {
    first_named(s, name) >= 0
}

/// The characterisation of `first_named`: knowing a match at `i` and no
/// match before it pins the lookup.
pub proof fn lemma_first_named_is(s: Seq<CatView>, name: Seq<char>, i: int)
    requires
        0 <= i < s.len(),
        s[i].name == name,
        forall|j: int| 0 <= j < i ==> (#[trigger] s[j]).name != name,
    ensures
        first_named(s, name) == i,
{
    lemma_first_named_from_is(s, name, i, 0);
}

proof fn lemma_first_named_from_is(s: Seq<CatView>, name: Seq<char>, i: int, k: int)
    requires
        0 <= k <= i < s.len(),
        s[i].name == name,
        forall|j: int| k <= j < i ==> (#[trigger] s[j]).name != name,
    ensures
        first_named_from(s, name, k) == i,
    decreases i - k,
{
    if k < i {
        lemma_first_named_from_is(s, name, i, k + 1);
    }
}

/// When no record is named `name`, the lookup reports so.
pub proof fn lemma_first_named_none(s: Seq<CatView>, name: Seq<char>)
    requires
        forall|j: int| 0 <= j < s.len() ==> (#[trigger] s[j]).name != name,
    ensures
        first_named(s, name) == -1,
{
    lemma_first_named_from_none(s, name, 0);
}

proof fn lemma_first_named_from_none(s: Seq<CatView>, name: Seq<char>, k: int)
    requires
        0 <= k <= s.len(),
        forall|j: int| k <= j < s.len() ==> (#[trigger] s[j]).name != name,
    ensures
        first_named_from(s, name, k) == -1,
    decreases s.len() - k,
{
    if k < s.len() {
        lemma_first_named_from_none(s, name, k + 1);
    }
}

/// A successful lookup lands in range, on a record of that name.
pub proof fn lemma_first_named_in_range(s: Seq<CatView>, name: Seq<char>)
    requires
        has_named(s, name),
    ensures
        0 <= first_named(s, name) < s.len(),
        s[first_named(s, name)].name == name,
{
    lemma_first_named_from_range(s, name, 0);
}

proof fn lemma_first_named_from_range(s: Seq<CatView>, name: Seq<char>, k: int)
    requires
        0 <= k <= s.len(),
    ensures
        ({
            let r = first_named_from(s, name, k);
            r == -1 || (k <= r < s.len() && s[r].name == name)
        }),
    decreases s.len() - k,
{
    if k < s.len() && s[k].name != name {
        lemma_first_named_from_range(s, name, k + 1);
    }
}

} // verus!
