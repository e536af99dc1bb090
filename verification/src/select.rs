//! The selection state manager: per-variable selection flags sized to
//! the registry, a prior-selection snapshot for edge-triggered change
//! detection, and the comma-separated, case-insensitive name filter.

use vstd::prelude::*;
use crate::schema::Schema;
use crate::table::ls_at;
use crate::text::chars_of;
use crate::text::has_sub;
use crate::text::find_sub;
use crate::text::lower_of;
use crate::text::lower_str;
use crate::text::split_on;
use crate::text::split_str;
use crate::text::trim_str;
use crate::text::trimmed_of;

verus! {

// ===== the filter predicate =====

/// Whether a name passes the filter: the filter splits on commas, each
/// term is trimmed and lowercased, and the lowercased name must contain
/// some term; the empty filter passes everything.
pub open spec fn spec_filter_matches(name: Seq<char>, filter: Seq<char>) -> bool {
    filter.len() == 0 || (exists|i: int|
        0 <= i < split_on(filter, ',').len() && has_sub(
            lower_of(name),
            lower_of(#[trigger] trimmed_of(ls_at(split_on(filter, ','), i))),
        ))
}

/// Evaluates the filter on one name.
pub fn filter_matches(name: &str, filter: &str) -> (r: bool)
    ensures
        r == spec_filter_matches(name@, filter@),
{
    if filter.is_empty() {
        return true;
    }
    let lname = lower_str(name);
    let lname_chars = chars_of(lname.as_str());
    let terms = split_str(filter, ',');
    let ghost termsv = split_on(filter@, ',');
    let n: usize = terms.len();
    let mut i: usize = 0;
    while i < n
        invariant
            i <= n,
            n == terms@.len(),
            termsv == split_on(filter@, ','),
            crate::text::views_of(terms@) == termsv,
            filter@.len() > 0,
            lname_chars@ == lower_of(name@),
            forall|j: int|
                0 <= j < i ==> !has_sub(
                    lower_of(name@),
                    lower_of(#[trigger] trimmed_of(ls_at(termsv, j))),
                ),
        decreases n - i,
    {
        proof {
            assert(terms@[i as int]@ == ls_at(termsv, i as int));
        }
        let t = trim_str(terms[i].as_str());
        let lt = lower_str(t.as_str());
        let ltc = chars_of(lt.as_str());
        if find_sub(&lname_chars, &ltc) {
            proof {
                assert(has_sub(lower_of(name@), lower_of(trimmed_of(ls_at(termsv, i as int)))));
            }
            return true;
        }
        i = i + 1;
    }
    false
}

// ===== selection vectors =====

/// The flags after selecting every filter-visible variable.
pub open spec fn sel_all_filtered(v: Seq<bool>, vis: Seq<bool>) -> Seq<bool> {
    Seq::new(
        v.len(),
        |i: int|
            if i < vis.len() && vis[i] {
                true
            } else {
                v[i]
            },
    )
}

/// The flags after unselecting every filter-visible variable.
pub open spec fn unsel_filtered(v: Seq<bool>, vis: Seq<bool>) -> Seq<bool> {
    Seq::new(
        v.len(),
        |i: int|
            if i < vis.len() && vis[i] {
                false
            } else {
                v[i]
            },
    )
}

/// The all-false flags of the same size.
pub open spec fn unsel_all(v: Seq<bool>) -> Seq<bool> {
    Seq::new(v.len(), |i: int| false)
}

/// Selection flags and the last-compared snapshot, both sized to the
/// current registry.
#[derive(Debug, Clone, PartialEq)]
pub struct SelectionState {
    pub selected: Vec<bool>,
    pub prior: Vec<bool>,
}

fn bools_of(n: usize, b: bool) -> (r: Vec<bool>)
    ensures
        r@ == Seq::new(n as nat, |i: int| b),
{
    let mut r: Vec<bool> = Vec::new();
    let mut i: usize = 0;
    while i < n
        invariant
            i <= n,
            r@ == Seq::new(i as nat, |t: int| b),
        decreases n - i,
    {
        r.push(b);
        i = i + 1;
        proof {
            assert(r@ =~= Seq::new(i as nat, |t: int| b));
        }
    }
    r
}

fn copy_bools(v: &Vec<bool>) -> (r: Vec<bool>)
    ensures
        r@ == v@,
{
    let n: usize = v.len();
    let mut r: Vec<bool> = Vec::new();
    let mut i: usize = 0;
    while i < n
        invariant
            i <= n,
            n == v@.len(),
            r@ == v@.subrange(0, i as int),
        decreases n - i,
    {
        r.push(v[i]);
        i = i + 1;
        proof {
            assert(r@ =~= v@.subrange(0, i as int));
        }
    }
    proof {
        assert(v@.subrange(0, n as int) =~= v@);
    }
    r
}

impl SelectionState {
    pub open spec fn wf(self) -> bool {
        self.selected@.len() == self.prior@.len()
    }

    /// A fresh, fully unselected state for a registry of `n` variables.
    pub fn new_all_false(n: usize) -> (r: SelectionState)
        ensures
            r.wf(),
            r.selected@.len() == n,
            forall|i: int| 0 <= i < n ==> !r.selected@[i],
            forall|i: int| 0 <= i < n ==> !r.prior@[i],
    {
        SelectionState { selected: bools_of(n, false), prior: bools_of(n, false) }
    }

    /// Sets one flag; an out-of-range (stale) index changes nothing.
    pub fn set(&mut self, i: usize, v: bool)
        ensures
            final(self).prior == old(self).prior,
            i < old(self).selected@.len() ==> final(self).selected@ == old(
                self,
            ).selected@.update(i as int, v),
            i >= old(self).selected@.len() ==> final(self).selected == old(self).selected,
    {
        if i < self.selected.len() {
            self.selected.set(i, v);
        }
    }

    /// Reads one flag; a stale index reads as unselected.
    pub fn get(&self, i: usize) -> (r: bool)
        ensures
            r == if i < self.selected@.len() {
                self.selected@[i as int]
            } else {
                false
            },
    {
        if i < self.selected.len() {
            self.selected[i]
        } else {
            false
        }
    }

    /// Selects every variable the mask marks visible; hidden variables
    /// keep their flags.
    pub fn select_all_filtered(&mut self, visible: &Vec<bool>)
        ensures
            final(self).prior == old(self).prior,
            final(self).selected@ == sel_all_filtered(old(self).selected@, visible@),
    {
        let n: usize = self.selected.len();
        let mut i: usize = 0;
        while i < n
            invariant
                i <= n,
                n == self.selected@.len(),
                self.prior == old(self).prior,
                self.selected@.len() == old(self).selected@.len(),
                forall|t: int|
                    i <= t < n ==> self.selected@[t] == old(self).selected@[t],
                forall|t: int|
                    0 <= t < i ==> self.selected@[t] == sel_all_filtered(
                        old(self).selected@,
                        visible@,
                    )[t],
            decreases n - i,
        {
            if i < visible.len() && visible[i] {
                self.selected.set(i, true);
            }
            i = i + 1;
        }
        proof {
            assert(self.selected@ =~= sel_all_filtered(old(self).selected@, visible@));
        }
    }

    /// Unselects every variable the mask marks visible; hidden variables
    /// keep their flags.
    pub fn unselect_all_filtered(&mut self, visible: &Vec<bool>)
        ensures
            final(self).prior == old(self).prior,
            final(self).selected@ == unsel_filtered(old(self).selected@, visible@),
    {
        let n: usize = self.selected.len();
        let mut i: usize = 0;
        while i < n
            invariant
                i <= n,
                n == self.selected@.len(),
                self.prior == old(self).prior,
                self.selected@.len() == old(self).selected@.len(),
                forall|t: int|
                    i <= t < n ==> self.selected@[t] == old(self).selected@[t],
                forall|t: int|
                    0 <= t < i ==> self.selected@[t] == unsel_filtered(
                        old(self).selected@,
                        visible@,
                    )[t],
            decreases n - i,
        {
            if i < visible.len() && visible[i] {
                self.selected.set(i, false);
            }
            i = i + 1;
        }
        proof {
            assert(self.selected@ =~= unsel_filtered(old(self).selected@, visible@));
        }
    }

    /// Clears every flag, filter-visible or not.
    pub fn unselect_all(&mut self)
        ensures
            final(self).prior == old(self).prior,
            final(self).selected@ == unsel_all(old(self).selected@),
    {
        let n: usize = self.selected.len();
        let fresh = bools_of(n, false);
        self.selected = fresh;
        proof {
            assert(self.selected@ =~= unsel_all(old(self).selected@));
        }
    }

    /// Edge-triggered change detection: reports whether the live flags
    /// differ from the snapshot, and re-arms the snapshot either way.
    pub fn take_change(&mut self) -> (r: bool)
        ensures
            r == (old(self).selected@ != old(self).prior@),
            final(self).selected == old(self).selected,
            final(self).prior@ == old(self).selected@,
            final(self).wf(),
    {
        let ns: usize = self.selected.len();
        let np: usize = self.prior.len();
        let mut same: bool = ns == np;
        if same {
            let mut i: usize = 0;
            while i < ns
                invariant
                    i <= ns,
                    ns == self.selected@.len(),
                    ns == self.prior@.len(),
                    same == (forall|t: int| 0 <= t < i ==> self.selected@[t] == self.prior@[t]),
                decreases ns - i,
            {
                if self.selected[i] != self.prior[i] {
                    same = false;
                    i = ns;
                } else {
                    i = i + 1;
                }
            }
            proof {
                if same {
                    assert(self.selected@ =~= self.prior@);
                }
            }
        } else {
            proof {
                assert(self.selected@.len() != self.prior@.len());
            }
        }
        if !same {
            let snap = copy_bools(&self.selected);
            self.prior = snap;
        }
        !same
    }
}

// ===== selection laws =====

/// Selecting all filtered variables and then unselecting all restores
/// the zero vector, whatever the mask and the starting flags were.
pub proof fn lemma_select_all_then_unselect_all(v: Seq<bool>, vis: Seq<bool>)
    ensures
        unsel_all(sel_all_filtered(v, vis)) =~= unsel_all(v),
        forall|i: int| 0 <= i < v.len() ==> !unsel_all(sel_all_filtered(v, vis))[i],
{
}

/// Selecting all filtered variables and then unselecting all filtered
/// ones, with the mask unchanged in between, restores the flags exactly,
/// provided no filter-visible variable was selected beforehand.
pub proof fn lemma_select_all_then_unselect_filtered(v: Seq<bool>, vis: Seq<bool>)
    requires
        forall|i: int| 0 <= i < v.len() && i < vis.len() && vis[i] ==> !v[i],
    ensures
        unsel_filtered(sel_all_filtered(v, vis), vis) =~= v,
{
}

// ===== the visibility mask =====

/// The mask of filter-visible variables, by registry index.
pub open spec fn spec_visible(schema: Schema, filter: Seq<char>) -> Seq<bool> {
    Seq::new(
        schema.bases().len(),
        |i: int| spec_filter_matches(ls_at(schema.bases(), i), filter),
    )
}

/// Which variables the filter currently shows, by registry index.
pub fn visible_mask(schema: &Schema, filter: &str) -> (r: Vec<bool>)
    ensures
        r@ == spec_visible(*schema, filter@),
        r@.len() == schema.bases().len(),
        forall|i: int|
            0 <= i < r@.len() ==> r@[i] == spec_filter_matches(
                ls_at(schema.bases(), i),
                filter@,
            ),
{
    let n: usize = schema.variables.len();
    let mut r: Vec<bool> = Vec::new();
    let mut i: usize = 0;
    while i < n
        invariant
            i <= n,
            n == schema.variables@.len(),
            r@.len() == i,
            forall|t: int|
                0 <= t < i ==> r@[t] == spec_filter_matches(ls_at(schema.bases(), t), filter@),
        decreases n - i,
    {
        proof {
            assert(ls_at(schema.bases(), i as int) == schema.variables@[i as int].base@);
        }
        let m = filter_matches(schema.variables[i].base.as_str(), filter);
        r.push(m);
        i = i + 1;
    }
    proof {
        assert(r@ =~= spec_visible(*schema, filter@));
    }
    r
}

} // verus!
