//! The summary aggregator, recomputed wholesale per load: the ranking of
//! error columns by magnitude at the last record, the per-record total
//! error trend, and the percent change between the first and last totals.

use vstd::prelude::*;
use crate::records::Dataset;
use crate::records::field_of;
use crate::records::GRecord;
use crate::schema::Schema;
use crate::scalar::Scalar;

verus! {

/// One ranked error column: its name and the magnitude of its value at
/// the last record, in billionths.
#[derive(Debug, Clone, PartialEq)]
pub struct RankEntry {
    pub column: String,
    pub magnitude: u64,
}

/// One trend point: an iteration and the sum of the error magnitudes
/// present in its record, in billionths.
#[derive(Debug, Clone, Copy, PartialEq, Eq, Structural)]
pub struct TrendPoint {
    pub iteration: u64,
    pub total: u128,
}

/// The percent change of the total error from the first record to the
/// last, as the exact ratio `sign * delta * 100 / baseline`. A zero
/// baseline (or an empty trend) is surfaced as the explicit
/// `Undefined` placeholder, never as an arithmetic artifact.
#[derive(Debug, Clone, Copy, PartialEq, Eq, Structural)]
pub enum PercentChange {
    Undefined,
    Ratio { negative: bool, delta: u128, baseline: u128 },
}

// ===== the ranking =====

/// The (column, magnitude) pairs of the error columns present in the
/// last record, in column order, columns left of `j`.
pub open spec fn rank_entries(last: GRecord, cols: Seq<Seq<char>>, j: int) -> Seq<(Seq<char>, u64)>
    decreases j,
{
    if j <= 0 {
        Seq::empty()
    } else {
        let pre = rank_entries(last, cols, j - 1);
        match field_of(last.fields, cols[j - 1]) {
            Some(v) => pre + seq![(cols[j - 1], v.nanos)],
            None => pre,
        }
    }
}

/// Inserts behind every at-least-as-large magnitude: a stable
/// descending insertion.
pub open spec fn rank_insert(e: (Seq<char>, u64), s: Seq<(Seq<char>, u64)>) -> Seq<
    (Seq<char>, u64),
>
    decreases s.len(),
{
    if s.len() == 0 {
        seq![e]
    } else if s[0].1 >= e.1 {
        seq![s[0]] + rank_insert(e, s.drop_first())
    } else {
        seq![e] + s
    }
}

/// Stable descending sort by magnitude, ties kept in entry order.
pub open spec fn rank_sort(s: Seq<(Seq<char>, u64)>) -> Seq<(Seq<char>, u64)>
    decreases s.len(),
{
    if s.len() == 0 {
        Seq::empty()
    } else {
        rank_insert(s.last(), rank_sort(s.drop_last()))
    }
}

/// The final-error ranking of a load; empty for an empty dataset.
pub open spec fn spec_ranking(ds: Seq<GRecord>, cols: Seq<Seq<char>>) -> Seq<(Seq<char>, u64)> {
    if ds.len() == 0 {
        Seq::empty()
    } else {
        rank_sort(rank_entries(ds.last(), cols, cols.len() as int))
    }
}

pub open spec fn sorted_desc(s: Seq<(Seq<char>, u64)>) -> bool {
    forall|i: int, j: int| 0 <= i < j < s.len() ==> rk_at(s, i).1 >= rk_at(s, j).1
}

/// Indexing helper used as a quantifier trigger.
pub open spec fn rk_at(s: Seq<(Seq<char>, u64)>, i: int) -> (Seq<char>, u64) {
    s[i]
}

pub proof fn lemma_rank_insert_sorted(e: (Seq<char>, u64), s: Seq<(Seq<char>, u64)>)
    requires
        sorted_desc(s),
    ensures
        sorted_desc(rank_insert(e, s)),
        rank_insert(e, s).len() == s.len() + 1,
        forall|i: int|
            0 <= i < rank_insert(e, s).len() ==> ((#[trigger] rk_at(rank_insert(e, s), i)) == e
                || s.contains(rk_at(rank_insert(e, s), i))),
    decreases s.len(),
{
    let r = rank_insert(e, s);
    if s.len() == 0 {
        assert(rk_at(r, 0) == e);
    } else if s[0].1 >= e.1 {
        assert(sorted_desc(s.drop_first())) by {
            assert forall|i: int, j: int|
                0 <= i < j < s.drop_first().len() implies rk_at(s.drop_first(), i).1 >= rk_at(
                s.drop_first(),
                j,
            ).1 by {
                assert(rk_at(s.drop_first(), i) == rk_at(s, i + 1));
                assert(rk_at(s.drop_first(), j) == rk_at(s, j + 1));
            }
        }
        lemma_rank_insert_sorted(e, s.drop_first());
        let rr = rank_insert(e, s.drop_first());
        assert(r == seq![s[0]] + rr);
        assert forall|i: int| 0 <= i < r.len() implies ((#[trigger] rk_at(r, i)) == e
            || s.contains(rk_at(r, i))) by {
            if i == 0 {
                assert(rk_at(r, 0) == s[0]);
                assert(s[0] == s[0]);
                assert(s.contains(s[0]));
            } else {
                assert(rk_at(r, i) == rk_at(rr, i - 1));
                if rk_at(rr, i - 1) == e {
                } else {
                    assert(s.drop_first().contains(rk_at(rr, i - 1)));
                    let t = choose|t: int|
                        0 <= t < s.drop_first().len() && #[trigger] s.drop_first()[t] == rk_at(
                            rr,
                            i - 1,
                        );
                    assert(s[t + 1] == rk_at(rr, i - 1));
                    assert(s.contains(rk_at(r, i)));
                }
            }
        }
        assert forall|i: int, j: int| 0 <= i < j < r.len() implies rk_at(r, i).1 >= rk_at(
            r,
            j,
        ).1 by {
            if i == 0 {
                assert(rk_at(r, 0) == s[0]);
                assert(rk_at(r, j) == rk_at(rr, j - 1));
                let x = rk_at(rr, j - 1);
                if x == e {
                } else {
                    assert(s.drop_first().contains(x));
                    let t = choose|t: int|
                        0 <= t < s.drop_first().len() && #[trigger] s.drop_first()[t] == x;
                    assert(rk_at(s, t + 1) == x);
                    assert(rk_at(s, 0) == s[0]);
                    assert(rk_at(s, 0).1 >= rk_at(s, t + 1).1);
                }
            } else {
                assert(rk_at(r, i) == rk_at(rr, i - 1));
                assert(rk_at(r, j) == rk_at(rr, j - 1));
            }
        }
    } else {
        assert(r == seq![e] + s);
        assert forall|i: int| 0 <= i < r.len() implies ((#[trigger] rk_at(r, i)) == e
            || s.contains(rk_at(r, i))) by {
            if i > 0 {
                assert(rk_at(r, i) == s[i - 1]);
                assert(s.contains(s[i - 1]));
            }
        }
        assert forall|i: int, j: int| 0 <= i < j < r.len() implies rk_at(r, i).1 >= rk_at(
            r,
            j,
        ).1 by {
            if i == 0 {
                assert(rk_at(r, 0) == e);
                assert(rk_at(r, j) == rk_at(s, j - 1));
                if j - 1 > 0 {
                    assert(rk_at(s, 0).1 >= rk_at(s, j - 1).1);
                }
                assert(s[0].1 < e.1);
                assert(rk_at(s, 0) == s[0]);
            } else {
                assert(rk_at(r, i) == rk_at(s, i - 1));
                assert(rk_at(r, j) == rk_at(s, j - 1));
            }
        }
    }
}

pub proof fn lemma_rank_sort_sorted(s: Seq<(Seq<char>, u64)>)
    ensures
        sorted_desc(rank_sort(s)),
        rank_sort(s).len() == s.len(),
    decreases s.len(),
{
    if s.len() > 0 {
        lemma_rank_sort_sorted(s.drop_last());
        lemma_rank_insert_sorted(s.last(), rank_sort(s.drop_last()));
    }
}

/// The final-error ranking never increases in magnitude, and it has one
/// entry per error column present in the last record.
pub proof fn lemma_ranking_sorted(ds: Seq<GRecord>, cols: Seq<Seq<char>>)
    ensures
        sorted_desc(spec_ranking(ds, cols)),
{
    if ds.len() > 0 {
        lemma_rank_sort_sorted(rank_entries(ds.last(), cols, cols.len() as int));
    }
}

pub proof fn lemma_rank_insert_at(e: (Seq<char>, u64), s: Seq<(Seq<char>, u64)>, p: int)
    requires
        0 <= p <= s.len(),
        forall|j: int| 0 <= j < p ==> rk_at(s, j).1 >= e.1,
        p < s.len() ==> s[p].1 < e.1,
    ensures
        rank_insert(e, s) == s.take(p) + seq![e] + s.skip(p),
    decreases s.len(),
{
    if s.len() == 0 {
        assert(rank_insert(e, s) =~= s.take(0) + seq![e] + s.skip(0));
    } else if s[0].1 >= e.1 {
        assert(p >= 1) by {
            if p == 0 {
                assert(s[0].1 < e.1);
            }
        }
        assert forall|j: int| 0 <= j < p - 1 implies rk_at(s.drop_first(), j).1 >= e.1 by {
            assert(rk_at(s.drop_first(), j) == rk_at(s, j + 1));
        }
        assert(p - 1 < s.drop_first().len() ==> s.drop_first()[p - 1].1 < e.1);
        lemma_rank_insert_at(e, s.drop_first(), p - 1);
        assert(seq![s[0]] + (s.drop_first().take(p - 1) + seq![e] + s.drop_first().skip(p - 1))
            =~= s.take(p) + seq![e] + s.skip(p));
    } else {
        assert(rk_at(s, 0).1 >= e.1 || p == 0);
        assert(seq![e] + s =~= s.take(0) + seq![e] + s.skip(0));
    }
}

/// Computes the final-error ranking: the error columns present in the
/// last record, by descending magnitude, ties in column order.
pub fn final_error_ranking(ds: &Dataset, schema: &Schema) -> (r: Vec<RankEntry>)
    ensures
        r@.map_values(|e: RankEntry| (e.column@, e.magnitude)) == spec_ranking(
            ds.recs(),
            schema.error_views(),
        ),
{
    let n: usize = ds.records.len();
    if n == 0 {
        let r: Vec<RankEntry> = Vec::new();
        proof {
            assert(r@.map_values(|e: RankEntry| (e.column@, e.magnitude)) =~= spec_ranking(
                ds.recs(),
                schema.error_views(),
            ));
        }
        return r;
    }
    let last = &ds.records[n - 1];
    let ghost lastg = ds.recs().last();
    proof {
        assert(lastg == ds.records@[n - 1].as_g());
    }
    let ghost ev = schema.error_views();
    let ncols: usize = schema.error_columns.len();
    let mut entries: Vec<RankEntry> = Vec::new();
    let mut j: usize = 0;
    while j < ncols
        invariant
            j <= ncols,
            ncols == schema.error_columns@.len(),
            ev == schema.error_views(),
            lastg == ds.records@[n - 1].as_g(),
            1 <= n,
            n - 1 < ds.records@.len(),
            entries@.map_values(|e: RankEntry| (e.column@, e.magnitude)) == rank_entries(
                lastg,
                ev,
                j as int,
            ),
        decreases ncols - j,
    {
        proof {
            assert(schema.error_columns@[j as int]@ == ev[j as int]);
        }
        match ds.records[n - 1].field_value(schema.error_columns[j].as_str()) {
            Some(v) => {
                let ghost e0 = entries@;
                entries.push(RankEntry { column: schema.error_columns[j].clone(), magnitude: v.nanos });
                proof {
                    assert(entries@.map_values(|e: RankEntry| (e.column@, e.magnitude)) =~= e0
                        .map_values(|e: RankEntry| (e.column@, e.magnitude)) + seq![
                        (ev[j as int], v.nanos),
                    ]);
                }
            },
            None => {},
        }
        j = j + 1;
    }
    // Stable insertion by descending magnitude.
    let ghost entv = entries@.map_values(|e: RankEntry| (e.column@, e.magnitude));
    let ne: usize = entries.len();
    let mut out: Vec<RankEntry> = Vec::new();
    let mut k: usize = 0;
    while k < ne
        invariant
            k <= ne,
            ne == entries@.len(),
            entv == entries@.map_values(|e: RankEntry| (e.column@, e.magnitude)),
            out@.map_values(|e: RankEntry| (e.column@, e.magnitude)) == rank_sort(
                entv.take(k as int),
            ),
        decreases ne - k,
    {
        let e = RankEntry { column: entries[k].column.clone(), magnitude: entries[k].magnitude };
        proof {
            assert((e.column@, e.magnitude) == entv[k as int]);
        }
        let m: usize = out.len();
        let mut p: usize = 0;
        while p < m && out[p].magnitude >= e.magnitude
            invariant
                p <= m,
                m == out@.len(),
                k < ne,
                entv == entries@.map_values(|ee: RankEntry| (ee.column@, ee.magnitude)),
                (e.column@, e.magnitude) == entv[k as int],
                forall|t: int| 0 <= t < p ==> (#[trigger] out@[t]).magnitude >= e.magnitude,
            decreases m - p,
        {
            p = p + 1;
        }
        let ghost outv = out@.map_values(|ee: RankEntry| (ee.column@, ee.magnitude));
        let ghost out0 = out@;
        proof {
            assert forall|j: int| 0 <= j < p implies rk_at(outv, j).1 >= entv[k as int].1 by {
                assert(outv[j] == (out@[j].column@, out@[j].magnitude));
            }
            if p < m {
                assert(outv[p as int].1 == out@[p as int].magnitude);
            }
            lemma_rank_insert_at(entv[k as int], outv, p as int);
        }
        out.insert(p, e);
        proof {
            out0.insert_ensures(p as int, e);
            assert forall|t: int|
                0 <= t < out@.len() implies out@.map_values(
                |ee: RankEntry| (ee.column@, ee.magnitude),
            )[t] == (outv.take(p as int) + seq![entv[k as int]] + outv.skip(p as int))[t] by {
                if t < p {
                    assert(out@[t] == out0[t]);
                    assert(outv[t] == (out0[t].column@, out0[t].magnitude));
                } else if t == p {
                    assert(out@[t] == e);
                } else {
                    assert(out@[t] == out0[t - 1]);
                    assert(outv[t - 1] == (out0[t - 1].column@, out0[t - 1].magnitude));
                }
            }
            assert(out@.map_values(|ee: RankEntry| (ee.column@, ee.magnitude)) =~= outv.take(
                p as int,
            ) + seq![entv[k as int]] + outv.skip(p as int));
            assert(entv.take(k + 1).drop_last() =~= entv.take(k as int));
            assert(entv.take(k + 1).last() == entv[k as int]);
            assert(rank_sort(entv.take(k + 1)) == rank_insert(
                entv[k as int],
                rank_sort(entv.take(k as int)),
            ));
        }
        k = k + 1;
    }
    proof {
        assert(entv.take(ne as int) =~= entv);
    }
    out
}

// ===== the trend =====

/// The total error of one record: the sum of the magnitudes of the
/// error columns present in it, absent columns contributing zero,
/// columns left of `j`.
pub open spec fn record_total(
    fields: Seq<(Seq<char>, Scalar)>,
    cols: Seq<Seq<char>>,
    j: int,
) -> int
    decreases j,
{
    if j <= 0 {
        0
    } else {
        record_total(fields, cols, j - 1) + (match field_of(fields, cols[j - 1]) {
            Some(v) => v.nanos as int,
            None => 0,
        })
    }
}

pub proof fn lemma_record_total_bounds(
    fields: Seq<(Seq<char>, Scalar)>,
    cols: Seq<Seq<char>>,
    j: int,
)
    requires
        j >= 0,
    ensures
        0 <= record_total(fields, cols, j) <= j * (u64::MAX as int),
    decreases j,
{
    if j > 0 {
        lemma_record_total_bounds(fields, cols, j - 1);
    }
}

/// One trend point per record, in record order: its iteration paired
/// with its total error.
pub open spec fn spec_trend(ds: Seq<GRecord>, cols: Seq<Seq<char>>) -> Seq<(u64, int)> {
    Seq::new(
        ds.len(),
        |i: int| (ds[i].iteration, record_total(ds[i].fields, cols, cols.len() as int)),
    )
}

/// Computes the total-error trend: same length and iteration sequence
/// as the dataset.
pub fn total_error_trend(ds: &Dataset, schema: &Schema) -> (r: Vec<TrendPoint>)
    ensures
        r@.map_values(|p: TrendPoint| (p.iteration, p.total as int)) == spec_trend(
            ds.recs(),
            schema.error_views(),
        ),
        r@.len() == ds.recs().len(),
{
    let ghost ev = schema.error_views();
    let n: usize = ds.records.len();
    let ncols: usize = schema.error_columns.len();
    let mut r: Vec<TrendPoint> = Vec::new();
    let mut i: usize = 0;
    while i < n
        invariant
            i <= n,
            n == ds.records@.len(),
            ncols == schema.error_columns@.len(),
            ev == schema.error_views(),
            r@.len() == i,
            forall|t: int|
                0 <= t < i ==> r@.map_values(|p: TrendPoint| (p.iteration, p.total as int))[t]
                    == spec_trend(ds.recs(), ev)[t],
        decreases n - i,
    {
        let ghost g = ds.recs()[i as int];
        proof {
            assert(g == ds.records@[i as int].as_g());
        }
        let mut total: u128 = 0;
        let mut j: usize = 0;
        while j < ncols
            invariant
                j <= ncols,
                i < n,
                n == ds.records@.len(),
                ncols == schema.error_columns@.len(),
                ev == schema.error_views(),
                g == ds.records@[i as int].as_g(),
                total as int == record_total(g.fields, ev, j as int),
                total as int <= (j as int) * (u64::MAX as int),
            decreases ncols - j,
        {
            proof {
                assert(schema.error_columns@[j as int]@ == ev[j as int]);
            }
            match ds.records[i].field_value(schema.error_columns[j].as_str()) {
                Some(v) => {
                    total = total + v.nanos as u128;
                },
                None => {},
            }
            j = j + 1;
        }
        let pt = TrendPoint { iteration: ds.records[i].iteration, total };
        r.push(pt);
        i = i + 1;
        proof {
            assert(r@[i - 1] == pt);
            assert(spec_trend(ds.recs(), ev)[i - 1] == (g.iteration, record_total(
                g.fields,
                ev,
                ncols as int,
            )));
        }
    }
    proof {
        assert(r@.map_values(|p: TrendPoint| (p.iteration, p.total as int)) =~= spec_trend(
            ds.recs(),
            ev,
        ));
    }
    r
}

// ===== the percent change =====

/// The percent change of the total error between the first and the
/// last trend point, as an exact ratio; `Undefined` when the trend is
/// empty or its first total is zero.
pub open spec fn spec_percent(trend: Seq<(u64, int)>) -> PercentChange {
    if trend.len() == 0 {
        PercentChange::Undefined
    } else {
        let first = trend[0].1;
        let last = trend.last().1;
        if first == 0 {
            PercentChange::Undefined
        } else if last <= first {
            PercentChange::Ratio {
                negative: false,
                delta: (first - last) as u128,
                baseline: first as u128,
            }
        } else {
            PercentChange::Ratio {
                negative: true,
                delta: (last - first) as u128,
                baseline: first as u128,
            }
        }
    }
}

/// Summarizes a trend as its percent change.
pub fn percent_change(trend: &Vec<TrendPoint>) -> (r: PercentChange)
    ensures
        r == spec_percent(trend@.map_values(|p: TrendPoint| (p.iteration, p.total as int))),
{
    let ghost tv = trend@.map_values(|p: TrendPoint| (p.iteration, p.total as int));
    let n: usize = trend.len();
    if n == 0 {
        return PercentChange::Undefined;
    }
    let first: u128 = trend[0].total;
    let last: u128 = trend[n - 1].total;
    proof {
        assert(tv[0].1 == first as int);
        assert(tv.last().1 == last as int);
    }
    if first == 0 {
        PercentChange::Undefined
    } else if last <= first {
        PercentChange::Ratio { negative: false, delta: first - last, baseline: first }
    } else {
        PercentChange::Ratio { negative: true, delta: last - first, baseline: first }
    }
}


/// The trend has exactly one point per record, in record order, each
/// carrying its record's iteration.
pub proof fn lemma_trend_shape(ds: Seq<GRecord>, cols: Seq<Seq<char>>)
    ensures
        spec_trend(ds, cols).len() == ds.len(),
        forall|i: int| 0 <= i < ds.len() ==> (#[trigger] spec_trend(ds, cols)[i]).0 == ds[i].iteration,
{
}

} // verus!
