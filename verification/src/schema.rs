//! The column classifier: from the first record's field names it derives
//! the `Error:`-prefixed columns, the `Value:`-prefixed columns, and the
//! variable registry — the lexicographically sorted, deduplicated trimmed
//! base names of both families, each variable carrying its resolved
//! column names so later lookups need no rescanning.

use vstd::prelude::*;
use crate::records::Record;
use crate::table::ls_at;
use crate::text::base_after;
use crate::text::has_prefix;
use crate::text::lemma_lex_total;
use crate::text::lemma_lex_trans;
use crate::text::lex_lt;
use crate::text::starts_with_str;
use crate::text::str_eq;
use crate::text::str_lt;
use crate::text::strip_and_trim;
use crate::text::views_of;

verus! {

pub open spec fn error_prefix() -> Seq<char> {
    "Error:"@
}

pub open spec fn value_prefix() -> Seq<char> {
    "Value:"@
}

/// One logical quantity: a base name and the column of each family that
/// trims to it, when that family has one.
#[derive(Debug, Clone, PartialEq)]
pub struct Variable {
    pub base: String,
    pub error_column: Option<String>,
    pub value_column: Option<String>,
}

/// The classification of one load's columns.
#[derive(Debug, Clone, PartialEq)]
pub struct Schema {
    pub error_columns: Vec<String>,
    pub value_columns: Vec<String>,
    pub variables: Vec<Variable>,
}

/// The names of a record's fields, in file order.
pub open spec fn keys_of(fs: Seq<(Seq<char>, crate::scalar::Scalar)>) -> Seq<Seq<char>> {
    fs.map_values(|p: (Seq<char>, crate::scalar::Scalar)| p.0)
}

/// The keys among the first `k` that carry prefix `p`, in order.
pub open spec fn with_prefix_upto(keys: Seq<Seq<char>>, p: Seq<char>, k: int) -> Seq<Seq<char>>
    decreases k,
{
    if k <= 0 {
        Seq::empty()
    } else {
        let pre = with_prefix_upto(keys, p, k - 1);
        if has_prefix(keys[k - 1], p) {
            pre + seq![keys[k - 1]]
        } else {
            pre
        }
    }
}

/// First column whose trimmed suffix after a prefix of length `plen`
/// equals `b`.
pub open spec fn resolve(cols: Seq<Seq<char>>, plen: int, b: Seq<char>) -> Option<Seq<char>>
    decreases cols.len(),
{
    if cols.len() == 0 {
        None
    } else if base_after(cols[0], plen) == b {
        Some(cols[0])
    } else {
        resolve(cols.drop_first(), plen, b)
    }
}

pub proof fn lemma_resolve_at(cols: Seq<Seq<char>>, plen: int, b: Seq<char>, k: int)
    requires
        0 <= k <= cols.len(),
        forall|j: int| 0 <= j < k ==> base_after(ls_at(cols, j), plen) != b,
        k < cols.len() ==> base_after(cols[k], plen) == b,
    ensures
        resolve(cols, plen, b) == if k < cols.len() {
            Some(cols[k])
        } else {
            None::<Seq<char>>
        },
    decreases cols.len(),
{
    if cols.len() == 0 {
    } else if base_after(cols[0], plen) == b {
        assert(ls_at(cols, 0) == cols[0]);
        assert(k == 0);
    } else {
        assert(k >= 1) by {
            if k == 0 {
                assert(base_after(cols[0], plen) == b);
            }
        }
        assert forall|j: int| 0 <= j < k - 1 implies base_after(ls_at(cols.drop_first(), j), plen)
            != b by {
            assert(cols.drop_first()[j] == cols[j + 1]);
            assert(ls_at(cols, j + 1) == cols[j + 1]);
        }
        assert(k - 1 < cols.drop_first().len() ==> base_after(cols.drop_first()[k - 1], plen)
            == b);
        lemma_resolve_at(cols.drop_first(), plen, b, k - 1);
    }
}

pub proof fn lemma_resolve_exists(cols: Seq<Seq<char>>, plen: int, b: Seq<char>)
    ensures
        (resolve(cols, plen, b) is Some) <==> exists|i: int|
            0 <= i < cols.len() && #[trigger] base_after(ls_at(cols, i), plen) == b,
    decreases cols.len(),
{
    if cols.len() == 0 {
    } else if base_after(cols[0], plen) == b {
        assert(base_after(ls_at(cols, 0), plen) == b);
    } else {
        lemma_resolve_exists(cols.drop_first(), plen, b);
        if resolve(cols, plen, b) is Some {
            let i = choose|i: int|
                0 <= i < cols.drop_first().len() && #[trigger] base_after(
                    ls_at(cols.drop_first(), i),
                    plen,
                ) == b;
            assert(ls_at(cols.drop_first(), i) == ls_at(cols, i + 1));
            assert(base_after(ls_at(cols, i + 1), plen) == b);
        } else {
            if exists|i: int|
                0 <= i < cols.len() && #[trigger] base_after(ls_at(cols, i), plen) == b {
                let i = choose|i: int|
                    0 <= i < cols.len() && #[trigger] base_after(ls_at(cols, i), plen) == b;
                assert(i != 0) by {
                    assert(ls_at(cols, 0) == cols[0]);
                }
                assert(ls_at(cols.drop_first(), i - 1) == ls_at(cols, i));
                assert(base_after(ls_at(cols.drop_first(), i - 1), plen) == b);
            }
        }
    }
}

/// Strictly ascending base names: sorted with no duplicates.
pub open spec fn sorted_bases(bs: Seq<Seq<char>>) -> bool {
    forall|i: int, j: int| 0 <= i < j < bs.len() ==> lex_lt(ls_at(bs, i), ls_at(bs, j))
}

pub open spec fn col_view(o: Option<String>) -> Option<Seq<char>> {
    match o {
        Some(s) => Some(s@),
        None => None,
    }
}

impl Schema {
    pub open spec fn error_views(self) -> Seq<Seq<char>> {
        views_of(self.error_columns@)
    }

    pub open spec fn value_views(self) -> Seq<Seq<char>> {
        views_of(self.value_columns@)
    }

    /// The registry: the variables' base names in order.
    pub open spec fn bases(self) -> Seq<Seq<char>> {
        self.variables@.map_values(|v: Variable| v.base@)
    }

    /// The registry invariant: strictly sorted bases; each variable's
    /// columns are the first of each family that trims to its base; a
    /// base is registered exactly when some column trims to it.
    pub open spec fn wf(self) -> bool {
        let plen = error_prefix().len() as int;
        &&& sorted_bases(self.bases())
        &&& forall|i: int|
            0 <= i < self.variables@.len() ==> col_view(
                (#[trigger] self.variables@[i]).error_column,
            ) == resolve(self.error_views(), plen, self.variables@[i].base@)
        &&& forall|i: int|
            0 <= i < self.variables@.len() ==> col_view(
                (#[trigger] self.variables@[i]).value_column,
            ) == resolve(self.value_views(), plen, self.variables@[i].base@)
        &&& forall|b: Seq<char>|
            #[trigger] self.bases().contains(b) <==> (resolve(self.error_views(), plen, b) is Some
                || resolve(self.value_views(), plen, b) is Some)
    }

    /// Index of a variable by base name; `None` when unregistered.
    pub fn find_variable(&self, name: &str) -> (r: Option<usize>)
        ensures
            match r {
                Some(i) => i < self.variables@.len() && self.bases()[i as int] == name@,
                None => !self.bases().contains(name@),
            },
    {
        let n: usize = self.variables.len();
        let mut i: usize = 0;
        while i < n
            invariant
                i <= n,
                n == self.variables@.len(),
                forall|j: int| 0 <= j < i ==> ls_at(self.bases(), j) != name@,
            decreases n - i,
        {
            if str_eq(self.variables[i].base.as_str(), name) {
                proof {
                    assert(self.bases()[i as int] == name@);
                }
                return Some(i);
            }
            proof {
                assert(ls_at(self.bases(), i as int) == self.variables@[i as int].base@);
            }
            i = i + 1;
        }
        proof {
            if self.bases().contains(name@) {
                let t = choose|t: int| 0 <= t < self.bases().len() && self.bases()[t] == name@;
                assert(ls_at(self.bases(), t) == name@);
            }
        }
        None
    }

    /// Whether the variable has an error-family column.
    pub fn has_error_column(&self, var_name: &str) -> (r: bool)
        requires
            self.wf(),
        ensures
            r == (resolve(self.error_views(), error_prefix().len() as int, var_name@) is Some),
    {
        match self.find_variable(var_name) {
            Some(i) => self.variables[i].error_column.is_some(),
            None => {
                proof {
                    assert(!self.bases().contains(var_name@));
                }
                false
            },
        }
    }

    /// Whether the variable has a value-family column.
    pub fn has_value_column(&self, var_name: &str) -> (r: bool)
        requires
            self.wf(),
        ensures
            r == (resolve(self.value_views(), error_prefix().len() as int, var_name@) is Some),
    {
        match self.find_variable(var_name) {
            Some(i) => self.variables[i].value_column.is_some(),
            None => false,
        }
    }

    /// The error-family column of the variable, if any.
    pub fn get_error_column_name(&self, var_name: &str) -> (r: Option<String>)
        requires
            self.wf(),
        ensures
            col_view(r) == resolve(self.error_views(), error_prefix().len() as int, var_name@),
    {
        match self.find_variable(var_name) {
            Some(i) => match &self.variables[i].error_column {
                Some(c) => Some(c.clone()),
                None => None,
            },
            None => None,
        }
    }

    /// The value-family column of the variable, if any.
    pub fn get_value_column_name(&self, var_name: &str) -> (r: Option<String>)
        requires
            self.wf(),
        ensures
            col_view(r) == resolve(self.value_views(), error_prefix().len() as int, var_name@),
    {
        match self.find_variable(var_name) {
            Some(i) => match &self.variables[i].value_column {
                Some(c) => Some(c.clone()),
                None => None,
            },
            None => None,
        }
    }
}

// ===== building the registry =====

/// Inserts a base name into a sorted registry, keeping it sorted and
/// duplicate-free; what it holds afterwards is what it held plus `b`.
fn insert_base(bases: &mut Vec<String>, b: String)
    requires
        sorted_bases(views_of(old(bases)@)),
    ensures
        sorted_bases(views_of(final(bases)@)),
        forall|x: Seq<char>|
            #[trigger] views_of(final(bases)@).contains(x) <==> (views_of(
                old(bases)@,
            ).contains(x) || x == b@),
{
    let ghost bv0 = views_of(bases@);
    let n: usize = bases.len();
    let mut i: usize = 0;
    while i < n && str_lt(bases[i].as_str(), b.as_str())
        invariant
            i <= n,
            n == bases@.len(),
            bases@ == old(bases)@,
            forall|j: int| 0 <= j < i ==> lex_lt(ls_at(views_of(bases@), j), b@),
        decreases n - i,
    {
        proof {
            assert(ls_at(views_of(bases@), i as int) == bases@[i as int]@);
        }
        i = i + 1;
    }
    if i < n && str_eq(bases[i].as_str(), b.as_str()) {
        proof {
            assert(ls_at(bv0, i as int) == b@);
            assert forall|x: Seq<char>| #[trigger]
                views_of(bases@).contains(x) <==> (views_of(old(bases)@).contains(x) || x
                    == b@) by {
                if x == b@ {
                    assert(bv0[i as int] == b@);
                    assert(bv0.contains(x));
                }
            }
        }
        return ;
    }
    proof {
        if i < n {
            lemma_lex_total(b@, ls_at(bv0, i as int));
            assert(ls_at(bv0, i as int) == bases@[i as int]@);
            assert(lex_lt(b@, ls_at(bv0, i as int)));
        }
    }
    let ghost bvold = views_of(bases@);
    bases.insert(i, b);
    proof {
        let bv = views_of(bases@);
        assert(bv.len() == bvold.len() + 1);
        assert forall|t: int| 0 <= t < bv.len() implies bv[t] == (if t < i {
            bvold[t]
        } else if t == i {
            b@
        } else {
            bvold[t - 1]
        }) by {
            assert(bases@[t] == old(bases)@.insert(i as int, b)[t]);
        }
        assert forall|p: int, q: int| 0 <= p < q < bv.len() implies lex_lt(
            ls_at(bv, p),
            ls_at(bv, q),
        ) by {
            if q < i {
                assert(lex_lt(ls_at(bvold, p), ls_at(bvold, q)));
            } else if q == i {
                assert(lex_lt(ls_at(bvold, p), b@));
            } else if p < i {
                assert(lex_lt(ls_at(bvold, p), ls_at(bvold, q - 1)));
            } else if p == i {
                if q - 1 == i {
                    assert(lex_lt(b@, ls_at(bvold, i as int)));
                } else {
                    assert(lex_lt(b@, ls_at(bvold, i as int)));
                    assert(lex_lt(ls_at(bvold, i as int), ls_at(bvold, q - 1)));
                    lemma_lex_trans(b@, ls_at(bvold, i as int), ls_at(bvold, q - 1));
                }
            } else {
                assert(lex_lt(ls_at(bvold, p - 1), ls_at(bvold, q - 1)));
            }
        }
        assert forall|x: Seq<char>| #[trigger]
            bv.contains(x) <==> (bvold.contains(x) || x == b@) by {
            if bv.contains(x) {
                let t = choose|t: int| 0 <= t < bv.len() && bv[t] == x;
                if t < i {
                    assert(bvold[t] == x);
                    assert(bvold.contains(x));
                } else if t > i {
                    assert(bvold[t - 1] == x);
                    assert(bvold.contains(x));
                }
            }
            if bvold.contains(x) {
                let t = choose|t: int| 0 <= t < bvold.len() && bvold[t] == x;
                if t < i {
                    assert(bv[t] == x);
                } else {
                    assert(bv[t + 1] == x);
                }
                assert(bv.contains(x));
            }
            if x == b@ {
                assert(bv[i as int] == x);
                assert(bv.contains(x));
            }
        }
    }
}

/// Collects the sorted, deduplicated trimmed bases of both families.
fn collect_bases(error_columns: &Vec<String>, value_columns: &Vec<String>, plen: usize) -> (r: Vec<
    String,
>)
    requires
        forall|i: int|
            0 <= i < error_columns@.len() ==> plen <= ls_at(views_of(error_columns@), i).len(),
        forall|i: int|
            0 <= i < value_columns@.len() ==> plen <= ls_at(views_of(value_columns@), i).len(),
    ensures
        sorted_bases(views_of(r@)),
        forall|x: Seq<char>|
            #[trigger] views_of(r@).contains(x) <==> ((exists|i: int|
                0 <= i < error_columns@.len() && #[trigger] base_after(
                    ls_at(views_of(error_columns@), i),
                    plen as int,
                ) == x) || (exists|i: int|
                0 <= i < value_columns@.len() && #[trigger] base_after(
                    ls_at(views_of(value_columns@), i),
                    plen as int,
                ) == x)),
{
    let ghost ev = views_of(error_columns@);
    let ghost vv = views_of(value_columns@);
    let mut bases: Vec<String> = Vec::new();
    let en: usize = error_columns.len();
    let mut i: usize = 0;
    while i < en
        invariant
            i <= en,
            en == error_columns@.len(),
            ev == views_of(error_columns@),
            forall|t: int| 0 <= t < en ==> plen <= ls_at(ev, t).len(),
            sorted_bases(views_of(bases@)),
            forall|x: Seq<char>|
                #[trigger] views_of(bases@).contains(x) <==> exists|t: int|
                    0 <= t < i && #[trigger] base_after(ls_at(ev, t), plen as int) == x,
        decreases en - i,
    {
        proof {
            assert(error_columns@[i as int]@ == ls_at(ev, i as int));
        }
        let bs = strip_and_trim(error_columns[i].as_str(), plen);
        proof {
            assert(bs@ == base_after(ls_at(ev, i as int), plen as int));
        }
        insert_base(&mut bases, bs);
        i = i + 1;
        proof {
            assert forall|x: Seq<char>| #[trigger]
                views_of(bases@).contains(x) <==> exists|t: int|
                    0 <= t < i && #[trigger] base_after(ls_at(ev, t), plen as int) == x by {
                if views_of(bases@).contains(x) {
                    if x == base_after(ls_at(ev, i - 1), plen as int) {
                        assert(0 <= i - 1 < i && base_after(ls_at(ev, i - 1), plen as int) == x);
                    } else {
                        let t = choose|t: int|
                            0 <= t < i - 1 && #[trigger] base_after(ls_at(ev, t), plen as int)
                                == x;
                        assert(0 <= t < i && base_after(ls_at(ev, t), plen as int) == x);
                    }
                }
                if exists|t: int|
                    0 <= t < i && #[trigger] base_after(ls_at(ev, t), plen as int) == x {
                    let t = choose|t: int|
                        0 <= t < i && #[trigger] base_after(ls_at(ev, t), plen as int) == x;
                    if t < i - 1 {
                        assert(exists|u: int|
                            0 <= u < i - 1 && #[trigger] base_after(ls_at(ev, u), plen as int)
                                == x);
                    }
                }
            }
        }
    }
    let vn: usize = value_columns.len();
    let mut j: usize = 0;
    while j < vn
        invariant
            j <= vn,
            vn == value_columns@.len(),
            en == error_columns@.len(),
            ev == views_of(error_columns@),
            vv == views_of(value_columns@),
            forall|t: int| 0 <= t < vn ==> plen <= ls_at(vv, t).len(),
            sorted_bases(views_of(bases@)),
            forall|x: Seq<char>|
                #[trigger] views_of(bases@).contains(x) <==> ((exists|t: int|
                    0 <= t < en && #[trigger] base_after(ls_at(ev, t), plen as int) == x) || (
                exists|t: int|
                    0 <= t < j && #[trigger] base_after(ls_at(vv, t), plen as int) == x)),
        decreases vn - j,
    {
        proof {
            assert(value_columns@[j as int]@ == ls_at(vv, j as int));
        }
        let bs = strip_and_trim(value_columns[j].as_str(), plen);
        proof {
            assert(bs@ == base_after(ls_at(vv, j as int), plen as int));
        }
        insert_base(&mut bases, bs);
        j = j + 1;
        proof {
            assert forall|x: Seq<char>| #[trigger]
                views_of(bases@).contains(x) <==> ((exists|t: int|
                    0 <= t < en && #[trigger] base_after(ls_at(ev, t), plen as int) == x) || (
                exists|t: int|
                    0 <= t < j && #[trigger] base_after(ls_at(vv, t), plen as int) == x)) by {
                if views_of(bases@).contains(x) {
                    if x == base_after(ls_at(vv, j - 1), plen as int) {
                        assert(0 <= j - 1 < j && base_after(ls_at(vv, j - 1), plen as int) == x);
                    }
                }
                if exists|t: int|
                    0 <= t < j && #[trigger] base_after(ls_at(vv, t), plen as int) == x {
                    let t = choose|t: int|
                        0 <= t < j && #[trigger] base_after(ls_at(vv, t), plen as int) == x;
                    if t < j - 1 {
                        assert(exists|u: int|
                            0 <= u < j - 1 && #[trigger] base_after(ls_at(vv, u), plen as int)
                                == x);
                    }
                }
            }
        }
    }
    bases
}

/// Picks the columns of one family with the given prefix, in file order.
fn columns_with_prefix(keys: &Vec<String>, p: &str) -> (r: Vec<String>)
    ensures
        views_of(r@) == with_prefix_upto(views_of(keys@), p@, keys@.len() as int),
        forall|i: int| 0 <= i < r@.len() ==> has_prefix(ls_at(views_of(r@), i), p@),
{
    let ghost kv = views_of(keys@);
    let n: usize = keys.len();
    let mut r: Vec<String> = Vec::new();
    let mut i: usize = 0;
    while i < n
        invariant
            i <= n,
            n == keys@.len(),
            kv == views_of(keys@),
            views_of(r@) == with_prefix_upto(kv, p@, i as int),
            forall|t: int| 0 <= t < r@.len() ==> has_prefix(ls_at(views_of(r@), t), p@),
        decreases n - i,
    {
        proof {
            assert(keys@[i as int]@ == kv[i as int]);
        }
        if starts_with_str(keys[i].as_str(), p) {
            let ghost r0 = r@;
            r.push(keys[i].clone());
            proof {
                assert(views_of(r@) =~= views_of(r0) + seq![kv[i as int]]);
                assert forall|t: int| 0 <= t < r@.len() implies has_prefix(
                    ls_at(views_of(r@), t),
                    p@,
                ) by {
                    if t < r0.len() {
                        assert(ls_at(views_of(r@), t) == ls_at(views_of(r0), t));
                    }
                }
            }
        }
        i = i + 1;
    }
    r
}

fn record_keys(rec: &Record) -> (r: Vec<String>)
    ensures
        views_of(r@) == keys_of(rec.fields_view()),
{
    let n: usize = rec.fields.len();
    let mut r: Vec<String> = Vec::new();
    let mut i: usize = 0;
    while i < n
        invariant
            i <= n,
            n == rec.fields@.len(),
            r@.len() == i,
            forall|j: int| 0 <= j < i ==> views_of(r@)[j] == keys_of(rec.fields_view())[j],
        decreases n - i,
    {
        r.push(rec.fields[i].name.clone());
        i = i + 1;
    }
    proof {
        assert(views_of(r@) =~= keys_of(rec.fields_view()));
    }
    r
}

fn resolve_col(cols: &Vec<String>, plen: usize, base: &str) -> (r: Option<String>)
    requires
        forall|i: int| 0 <= i < cols@.len() ==> plen <= ls_at(views_of(cols@), i).len(),
    ensures
        col_view(r) == resolve(views_of(cols@), plen as int, base@),
{
    let ghost cv = views_of(cols@);
    let n: usize = cols.len();
    let mut i: usize = 0;
    while i < n
        invariant
            i <= n,
            n == cols@.len(),
            cv == views_of(cols@),
            forall|t: int| 0 <= t < n ==> plen <= ls_at(cv, t).len(),
            forall|j: int| 0 <= j < i ==> base_after(ls_at(cv, j), plen as int) != base@,
        decreases n - i,
    {
        proof {
            assert(cols@[i as int]@ == ls_at(cv, i as int));
        }
        let st = strip_and_trim(cols[i].as_str(), plen);
        proof {
            assert(st@ == base_after(ls_at(cv, i as int), plen as int));
        }
        if str_eq(st.as_str(), base) {
            proof {
                lemma_resolve_at(cv, plen as int, base@, i as int);
            }
            return Some(cols[i].clone());
        }
        i = i + 1;
    }
    proof {
        lemma_resolve_at(cv, plen as int, base@, n as int);
    }
    None
}

/// Classifies the first record's field names into the two column
/// families and the variable registry.
pub fn classify(first: &Record) -> (s: Schema)
    ensures
        s.error_views() == with_prefix_upto(
            keys_of(first.fields_view()),
            error_prefix(),
            keys_of(first.fields_view()).len() as int,
        ),
        s.value_views() == with_prefix_upto(
            keys_of(first.fields_view()),
            value_prefix(),
            keys_of(first.fields_view()).len() as int,
        ),
        s.wf(),
{
    let keys = record_keys(first);
    let error_columns = columns_with_prefix(&keys, "Error:");
    let value_columns = columns_with_prefix(&keys, "Value:");
    let eprefix = "Error:";
    let plen: usize = eprefix.unicode_len();
    proof {
        assert(plen == error_prefix().len());
        assert forall|i: int| 0 <= i < error_columns@.len() implies plen <= ls_at(
            views_of(error_columns@),
            i,
        ).len() by {
            assert(has_prefix(ls_at(views_of(error_columns@), i), error_prefix()));
        }
        assert forall|i: int| 0 <= i < value_columns@.len() implies plen <= ls_at(
            views_of(value_columns@),
            i,
        ).len() by {
            assert(has_prefix(ls_at(views_of(value_columns@), i), value_prefix()));
            reveal_strlit("Error:");
            reveal_strlit("Value:");
        }
    }
    let bases = collect_bases(&error_columns, &value_columns, plen);
    let ghost ev = views_of(error_columns@);
    let ghost vv = views_of(value_columns@);
    let ghost bv = views_of(bases@);
    let nb: usize = bases.len();
    let mut variables: Vec<Variable> = Vec::new();
    let mut i: usize = 0;
    while i < nb
        invariant
            i <= nb,
            nb == bases@.len(),
            bv == views_of(bases@),
            ev == views_of(error_columns@),
            vv == views_of(value_columns@),
            forall|t: int| 0 <= t < ev.len() ==> plen <= ls_at(ev, t).len(),
            forall|t: int| 0 <= t < vv.len() ==> plen <= ls_at(vv, t).len(),
            variables@.len() == i,
            forall|t: int| 0 <= t < i ==> (#[trigger] variables@[t]).base@ == bv[t],
            forall|t: int|
                0 <= t < i ==> col_view((#[trigger] variables@[t]).error_column) == resolve(
                    ev,
                    plen as int,
                    bv[t],
                ),
            forall|t: int|
                0 <= t < i ==> col_view((#[trigger] variables@[t]).value_column) == resolve(
                    vv,
                    plen as int,
                    bv[t],
                ),
        decreases nb - i,
    {
        let ec = resolve_col(&error_columns, plen, bases[i].as_str());
        let vc = resolve_col(&value_columns, plen, bases[i].as_str());
        variables.push(Variable { base: bases[i].clone(), error_column: ec, value_column: vc });
        i = i + 1;
    }
    let s = Schema { error_columns, value_columns, variables };
    proof {
        assert(s.bases() =~= bv);
        assert forall|b: Seq<char>| #[trigger]
            s.bases().contains(b) <==> (resolve(s.error_views(), plen as int, b) is Some
                || resolve(s.value_views(), plen as int, b) is Some) by {
            lemma_resolve_exists(ev, plen as int, b);
            lemma_resolve_exists(vv, plen as int, b);
        }
        assert(sorted_bases(s.bases()));
        assert(s.wf());
    }
    s
}


// ===== registry laws =====

/// A strictly sorted registry holds no duplicate base name.
pub proof fn lemma_registry_unique(bs: Seq<Seq<char>>)
    requires
        sorted_bases(bs),
    ensures
        forall|i: int, j: int| 0 <= i < j < bs.len() ==> ls_at(bs, i) != ls_at(bs, j),
{
    assert forall|i: int, j: int| 0 <= i < j < bs.len() implies ls_at(bs, i) != ls_at(bs, j) by {
        if ls_at(bs, i) == ls_at(bs, j) {
            crate::text::lemma_lex_irrefl(ls_at(bs, i));
        }
    }
}

/// Two strictly sorted registries with the same members are equal.
pub proof fn lemma_sorted_same_members(a: Seq<Seq<char>>, b: Seq<Seq<char>>)
    requires
        sorted_bases(a),
        sorted_bases(b),
        forall|x: Seq<char>| #[trigger] a.contains(x) <==> b.contains(x),
    ensures
        a == b,
    decreases a.len(),
{
    if a.len() == 0 {
        if b.len() > 0 {
            assert(b[0] == b[0]);
            assert(b.contains(b[0]));
            assert(a.contains(b[0]));
        }
        assert(a =~= b);
    } else {
        assert(a.contains(a[0])) by {
            assert(a[0] == a[0]);
        }
        assert(b.contains(b[0])) by {
            assert(b[0] == b[0]);
        }
        assert(b.contains(a[0]));
        assert(a.contains(b[0]));
        let i = choose|i: int| 0 <= i < a.len() && a[i] == b[0];
        let j = choose|j: int| 0 <= j < b.len() && b[j] == a[0];
        if a[0] != b[0] {
            assert(i != 0 && j != 0);
            assert(lex_lt(ls_at(a, 0), ls_at(a, i)));
            assert(lex_lt(ls_at(b, 0), ls_at(b, j)));
            assert(ls_at(a, 0) == a[0] && ls_at(a, i) == b[0]);
            assert(ls_at(b, 0) == b[0] && ls_at(b, j) == a[0]);
            lemma_lex_trans(a[0], b[0], a[0]);
            crate::text::lemma_lex_irrefl(a[0]);
            assert(false);
        }
        let at = a.drop_first();
        let bt = b.drop_first();
        assert(sorted_bases(at)) by {
            assert forall|p: int, q: int| 0 <= p < q < at.len() implies lex_lt(
                ls_at(at, p),
                ls_at(at, q),
            ) by {
                assert(ls_at(at, p) == ls_at(a, p + 1));
                assert(ls_at(at, q) == ls_at(a, q + 1));
            }
        }
        assert(sorted_bases(bt)) by {
            assert forall|p: int, q: int| 0 <= p < q < bt.len() implies lex_lt(
                ls_at(bt, p),
                ls_at(bt, q),
            ) by {
                assert(ls_at(bt, p) == ls_at(b, p + 1));
                assert(ls_at(bt, q) == ls_at(b, q + 1));
            }
        }
        assert forall|x: Seq<char>| #[trigger] at.contains(x) <==> bt.contains(x) by {
            if at.contains(x) {
                let t = choose|t: int| 0 <= t < at.len() && at[t] == x;
                assert(a[t + 1] == x);
                assert(a.contains(x));
                assert(b.contains(x));
                let u = choose|u: int| 0 <= u < b.len() && b[u] == x;
                assert(u != 0) by {
                    if u == 0 {
                        // x == b[0] == a[0], yet a is strictly sorted
                        assert(lex_lt(ls_at(a, 0), ls_at(a, t + 1)));
                        assert(ls_at(a, 0) == a[0] && ls_at(a, t + 1) == x);
                        crate::text::lemma_lex_irrefl(a[0]);
                    }
                }
                assert(bt[u - 1] == x);
                assert(bt.contains(x));
            }
            if bt.contains(x) {
                let t = choose|t: int| 0 <= t < bt.len() && bt[t] == x;
                assert(b[t + 1] == x);
                assert(b.contains(x));
                assert(a.contains(x));
                let u = choose|u: int| 0 <= u < a.len() && a[u] == x;
                assert(u != 0) by {
                    if u == 0 {
                        assert(lex_lt(ls_at(b, 0), ls_at(b, t + 1)));
                        assert(ls_at(b, 0) == b[0] && ls_at(b, t + 1) == x);
                        crate::text::lemma_lex_irrefl(b[0]);
                    }
                }
                assert(at[u - 1] == x);
                assert(at.contains(x));
            }
        }
        lemma_sorted_same_members(at, bt);
        assert forall|t: int| 0 <= t < a.len() implies a[t] == b[t] by {
            if t > 0 {
                assert(at[t - 1] == a[t]);
                assert(bt[t - 1] == b[t]);
            }
        }
        assert(a.len() == b.len());
        assert(a =~= b);
    }
}

/// Classification is a function of the column families alone: two
/// well-formed schemas over equal families have equal registries and
/// equal per-variable column resolutions.
pub proof fn lemma_schema_deterministic(a: Schema, b: Schema)
    requires
        a.wf(),
        b.wf(),
        a.error_views() == b.error_views(),
        a.value_views() == b.value_views(),
    ensures
        a.bases() == b.bases(),
        a.variables@.len() == b.variables@.len(),
        forall|i: int|
            0 <= i < a.variables@.len() ==> (#[trigger] a.variables@[i]).base@
                == b.variables@[i].base@ && col_view(a.variables@[i].error_column) == col_view(
                b.variables@[i].error_column,
            ) && col_view(a.variables@[i].value_column) == col_view(b.variables@[i].value_column),
{
    let plen = error_prefix().len() as int;
    assert forall|x: Seq<char>| #[trigger] a.bases().contains(x) <==> b.bases().contains(x) by {
        assert(a.bases().contains(x) <==> (resolve(a.error_views(), plen, x) is Some || resolve(
            a.value_views(),
            plen,
            x,
        ) is Some));
        assert(b.bases().contains(x) <==> (resolve(b.error_views(), plen, x) is Some || resolve(
            b.value_views(),
            plen,
            x,
        ) is Some));
    }
    lemma_sorted_same_members(a.bases(), b.bases());
    assert(a.bases().len() == b.bases().len());
    assert forall|i: int| 0 <= i < a.variables@.len() implies (#[trigger] a.variables@[i]).base@
        == b.variables@[i].base@ && col_view(a.variables@[i].error_column) == col_view(
        b.variables@[i].error_column,
    ) && col_view(a.variables@[i].value_column) == col_view(b.variables@[i].value_column) by {
        assert(a.bases()[i] == a.variables@[i].base@);
        assert(b.bases()[i] == b.variables@[i].base@);
    }
}

} // verus!
