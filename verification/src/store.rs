//! The mutation engine: an explicitly passed store of category records,
//! with root bootstrap and insertion-with-shift. Each write is all-or-nothing:
//! either the whole new snapshot is installed or the store is untouched.

use vstd::prelude::*;

use crate::category::{
    first_named, has_named, nested_wf, views, CategoryError, CatView, NestedCategory,
};
use crate::query::find_first_named;

verus! {

/// Upper bound on how many records a store holds, so that every shifted
/// interval endpoint (at most `2 * n + 2`) still fits in an `i32`.
pub const MAX_CATEGORIES: usize = 0x3FFF_FFFE;

/// The effect of opening a 2-wide gap at boundary `p` on one record:
/// every `rgt >= p` moves by `+2`, every `lft > p` moves by `+2`.
pub open spec fn shift_cat(c: CatView, p: int) -> CatView {
    CatView {
        id: c.id,
        lft: if c.lft > p {
            c.lft + 2
        } else {
            c.lft
        },
        rgt: if c.rgt >= p {
            c.rgt + 2
        } else {
            c.rgt
        },
        name: c.name,
    }
}

/// The snapshot after inserting a child under the record at index `pi`:
/// with `p` the parent's old `rgt`, every record is shifted at boundary
/// `p` and the new record `[p, p + 1]` is appended.
pub open spec fn spec_add(s: Seq<CatView>, pi: int, new_id: int, new_name: Seq<char>) -> Seq<
    CatView,
> {
    let p = s[pi].rgt;
    s.map_values(|c: CatView| shift_cat(c, p)).push(
        CatView { id: new_id, lft: p, rgt: p + 1, name: new_name },
    )
}

/// A freshly bootstrapped root record, with interval `[1, 2]`.
pub open spec fn root_view(id: int, name: Seq<char>) -> CatView {
    CatView { id: id, lft: 1, rgt: 2, name: name }
}

/// The snapshot after a root bootstrap: unchanged when a record named
/// `name` already exists, else with a root record `[1, 2]` appended.
pub open spec fn spec_bootstrap(s: Seq<CatView>, name: Seq<char>, new_id: int) -> Seq<CatView> {
    if has_named(s, name) {
        s
    } else {
        s.push(root_view(new_id, name))
    }
}

/// The category store: the full flat relation of records, held as an
/// explicit snapshot. Identifiers are assigned on creation as `1, 2, ...`
/// in insertion order and never reused.
pub struct CategoryStore {
    pub cats: Vec<NestedCategory>,
}

impl View for CategoryStore {
    type V = Seq<CatView>;

    open spec fn view(&self) -> Seq<CatView> {
        views(self.cats@)
    }
}

impl CategoryStore {
    /// The store's own well-formedness: its size stays within the machine
    /// bound and record `i` carries identifier `i + 1`.
    pub open spec fn inv(&self) -> bool {
        &&& self.cats@.len() <= MAX_CATEGORIES
        &&& forall|i: int| 0 <= i < self@.len() ==> (#[trigger] self@[i]).id == i + 1
    }

    /// An empty store.
    pub fn new() -> (r: CategoryStore)
        ensures
            r.inv(),
            r@ == Seq::<CatView>::empty(),
    {
        let r = CategoryStore { cats: Vec::new() };
        proof {
            assert(r@ =~= Seq::<CatView>::empty());
        }
        r
    }

    /// Unconditionally insert a root record named `name` with interval
    /// `[1, 2]`, and return it.
    pub fn create_root_category(&mut self, name: &str) -> (r: Result<
        NestedCategory,
        CategoryError,
    >)
        requires
            old(self).inv(),
            old(self).cats@.len() < MAX_CATEGORIES,
        ensures
            final(self).inv(),
            final(self)@ == old(self)@.push(root_view(old(self)@.len() as int + 1, name@)),
            match r {
                Ok(c) => c@ == root_view(old(self)@.len() as int + 1, name@),
                Err(_) => false,
            },
    {
        let id: i32 = (self.cats.len() + 1) as i32;
        let c = NestedCategory { id: id, lft: 1, rgt: 2, name: name.to_owned() };
        let result = c.clone();
        self.cats.push(c);
        proof {
            assert(self@ =~= old(self)@.push(root_view(old(self)@.len() as int + 1, name@)));
        }
        Ok(result)
    }

    /// Idempotent root bootstrap: when a record named `name` exists, return
    /// the first such record and leave the store unchanged; otherwise insert
    /// the root record `[1, 2]`.
    pub fn create_root_category_if_not_exists(&mut self, name: &str) -> (r: Result<
        NestedCategory,
        CategoryError,
    >)
        requires
            old(self).inv(),
            old(self).cats@.len() < MAX_CATEGORIES,
        ensures
            final(self).inv(),
            final(self)@ == spec_bootstrap(old(self)@, name@, old(self)@.len() as int + 1),
            match r {
                Ok(c) => if has_named(old(self)@, name@) {
                    c@ == old(self)@[first_named(old(self)@, name@)]
                } else {
                    c@ == root_view(old(self)@.len() as int + 1, name@)
                },
                Err(_) => false,
            },
    {
        match find_first_named(&self.cats, name) {
            Some(i) => {
                let c = self.cats[i].clone();
                Ok(c)
            },
            None => self.create_root_category(name),
        }
    }

    /// Insert a new category named `new` as a child of the first record
    /// named `parent`: with `p` the parent's pre-transaction `rgt`, shift
    /// every `rgt >= p` and every `lft > p` by `+2` and append the record
    /// `[p, p + 1]`. When no record is named `parent`, fail with `NotFound`
    /// and leave the store untouched.
    pub fn add_category(&mut self, parent: &str, new: &str) -> (r: Result<
        NestedCategory,
        CategoryError,
    >)
        requires
            old(self).inv(),
            nested_wf(old(self)@),
            old(self).cats@.len() < MAX_CATEGORIES,
        ensures
            final(self).inv(),
            match r {
                Err(e) => {
                    &&& e == CategoryError::NotFound
                    &&& !has_named(old(self)@, parent@)
                    &&& final(self)@ == old(self)@
                },
                Ok(c) => {
                    &&& has_named(old(self)@, parent@)
                    &&& final(self)@ == spec_add(
                        old(self)@,
                        first_named(old(self)@, parent@),
                        old(self)@.len() as int + 1,
                        new@,
                    )
                    &&& c@ == final(self)@[final(self)@.len() - 1]
                    &&& nested_wf(final(self)@)
                },
            },
    {
        let ghost s = views(self.cats@);
        let k = match find_first_named(&self.cats, parent) {
            None => {
                return Err(CategoryError::NotFound);
            },
            Some(k) => k,
        };
        let p = self.cats[k].rgt;
        let n = self.cats.len();
        let mut out: Vec<NestedCategory> = Vec::new();
        let mut i: usize = 0;
        while i < n
            invariant
                n == self.cats@.len(),
                s == views(self.cats@),
                nested_wf(s),
                n < MAX_CATEGORIES,
                k < n,
                p == s[k as int].rgt,
                0 <= i <= n,
                out@.len() == i,
                forall|j: int| 0 <= j < i ==> (#[trigger] out@[j])@ == shift_cat(s[j], p as int),
            decreases n - i,
        {
            let c = &self.cats[i];
            proof {
                assert(c@ == s[i as int]);
                assert(1 <= s[i as int].lft && s[i as int].lft < s[i as int].rgt && s[
                    i as int
                ].rgt <= 2 * s.len());
            }
            let new_lft = if c.lft > p {
                c.lft + 2
            } else {
                c.lft
            };
            let new_rgt = if c.rgt >= p {
                c.rgt + 2
            } else {
                c.rgt
            };
            out.push(NestedCategory { id: c.id, lft: new_lft, rgt: new_rgt, name: c.name.clone() });
            i += 1;
        }
        let id: i32 = (n + 1) as i32;
        out.push(NestedCategory { id: id, lft: p, rgt: p + 1, name: new.to_owned() });
        self.cats = out;
        let c = self.cats[n].clone();
        proof {
            assert(self@ =~= spec_add(s, k as int, s.len() as int + 1, new@));
            crate::laws::lemma_add_preserves_wf(s, k as int, s.len() as int + 1, new@);
        }
        Ok(c)
    }
}

} // verus!
