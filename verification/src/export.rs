//! The export adapter: the comma-separated text of the selected series,
//! and the chart model — named, colored point series with axis bounds —
//! that an external renderer draws. A selected variable without a column
//! of the requested kind is skipped, never an empty column.

use vstd::prelude::*;
use crate::num::dec_str;
use crate::num::render_u64;
use crate::records::Dataset;
use crate::records::field_of;
use crate::records::GRecord;
use crate::scalar::render_scalar;
use crate::scalar::scalar_str;
use crate::scalar::Scalar;
use crate::schema::col_view;
use crate::schema::Schema;
use crate::schema::Variable;

verus! {

/// Which column family an export draws from.
#[derive(Debug, Clone, Copy, PartialEq, Eq, Structural)]
pub enum ExportKind {
    Error,
    Value,
}

pub open spec fn kind_col_v(v: Variable, kind: ExportKind) -> Option<Seq<char>> {
    match kind {
        ExportKind::Error => col_view(v.error_column),
        ExportKind::Value => col_view(v.value_column),
    }
}

/// The column the export reads for variable `i`, if it has one.
pub open spec fn kind_col(schema: Schema, kind: ExportKind, i: int) -> Option<Seq<char>> {
    kind_col_v(schema.variables@[i], kind)
}

/// Whether variable `i` takes part: selected and owning a column of the
/// requested kind; a stale index never does.
pub open spec fn include_var(schema: Schema, sel: Seq<bool>, kind: ExportKind, i: int) -> bool {
    &&& 0 <= i < schema.variables@.len()
    &&& i < sel.len()
    &&& sel[i]
    &&& kind_col(schema, kind, i) is Some
}

pub open spec fn kind_suffix(kind: ExportKind) -> Seq<char> {
    match kind {
        ExportKind::Error => "_Error"@,
        ExportKind::Value => "_Value"@,
    }
}

// ===== the CSV text =====

/// The header cells after `Iteration`, variables left of `j`.
pub open spec fn header_tail(schema: Schema, sel: Seq<bool>, kind: ExportKind, j: int) -> Seq<char>
    decreases j,
{
    if j <= 0 {
        Seq::empty()
    } else {
        let pre = header_tail(schema, sel, kind, j - 1);
        if include_var(schema, sel, kind, j - 1) {
            pre + seq![','] + schema.variables@[j - 1].base@ + kind_suffix(kind)
        } else {
            pre
        }
    }
}

/// One record's cells after its iteration, variables left of `j`: the
/// rendered value, or nothing between the commas where the record lacks
/// the column.
pub open spec fn row_tail(
    rec: GRecord,
    schema: Schema,
    sel: Seq<bool>,
    kind: ExportKind,
    j: int,
) -> Seq<char>
    decreases j,
{
    if j <= 0 {
        Seq::empty()
    } else {
        let pre = row_tail(rec, schema, sel, kind, j - 1);
        if include_var(schema, sel, kind, j - 1) {
            pre + seq![','] + (match field_of(rec.fields, kind_col(schema, kind, j - 1).unwrap()) {
                Some(v) => scalar_str(v),
                None => Seq::empty(),
            })
        } else {
            pre
        }
    }
}

/// The rows of the export, records left of `k`, each ending in a
/// newline.
pub open spec fn csv_rows(
    ds: Seq<GRecord>,
    schema: Schema,
    sel: Seq<bool>,
    kind: ExportKind,
    k: int,
) -> Seq<char>
    decreases k,
{
    if k <= 0 {
        Seq::empty()
    } else {
        csv_rows(ds, schema, sel, kind, k - 1) + dec_str(ds[k - 1].iteration as nat) + row_tail(
            ds[k - 1],
            schema,
            sel,
            kind,
            schema.variables@.len() as int,
        ) + seq!['\n']
    }
}

/// The whole export text.
pub open spec fn spec_export_csv(
    ds: Seq<GRecord>,
    schema: Schema,
    sel: Seq<bool>,
    kind: ExportKind,
) -> Seq<char> {
    "Iteration"@ + header_tail(schema, sel, kind, schema.variables@.len() as int) + seq!['\n']
        + csv_rows(ds, schema, sel, kind, ds.len() as int)
}

fn kind_column_of<'a>(v: &'a Variable, kind: ExportKind) -> (r: Option<&'a String>)
    ensures
        match r {
            Some(c) => kind_col_v(*v, kind) == Some(c@),
            None => kind_col_v(*v, kind) is None,
        },
{
    match kind {
        ExportKind::Error => match &v.error_column {
            Some(c) => Some(c),
            None => None,
        },
        ExportKind::Value => match &v.value_column {
            Some(c) => Some(c),
            None => None,
        },
    }
}

fn kind_suffix_str(kind: ExportKind) -> (r: &'static str)
    ensures
        r@ == kind_suffix(kind),
{
    match kind {
        ExportKind::Error => "_Error",
        ExportKind::Value => "_Value",
    }
}

/// Renders the selected series of the requested kind as comma-separated
/// text: a header line, then one line per record in dataset order.
pub fn export_csv(ds: &Dataset, schema: &Schema, selected: &Vec<bool>, kind: ExportKind) -> (r:
    String)
    ensures
        r@ == spec_export_csv(ds.recs(), *schema, selected@, kind),
{
    let nv: usize = schema.variables.len();
    let mut out = String::new();
    out.append("Iteration");
    let mut j: usize = 0;
    while j < nv
        invariant
            j <= nv,
            nv == schema.variables@.len(),
            out@ == "Iteration"@ + header_tail(*schema, selected@, kind, j as int),
        decreases nv - j,
    {
        let included: bool = j < selected.len() && selected[j];
        if included {
            match kind_column_of(&schema.variables[j], kind) {
                Some(_) => {
                    out.append(",");
                    out.append(schema.variables[j].base.as_str());
                    out.append(kind_suffix_str(kind));
                    proof {
                        reveal_strlit(",");
                        assert((",")@ =~= seq![',']);
                        assert(include_var(*schema, selected@, kind, j as int));
                        assert(out@ =~= "Iteration"@ + header_tail(
                            *schema,
                            selected@,
                            kind,
                            j + 1,
                        ));
                    }
                },
                None => {
                    proof {
                        assert(!include_var(*schema, selected@, kind, j as int));
                    }
                },
            }
        } else {
            proof {
                assert(!include_var(*schema, selected@, kind, j as int));
            }
        }
        j = j + 1;
    }
    out.append("\n");
    proof {
        reveal_strlit("\n");
        assert(("\n")@ =~= seq!['\n']);
    }
    let n: usize = ds.records.len();
    let mut i: usize = 0;
    while i < n
        invariant
            i <= n,
            n == ds.records@.len(),
            nv == schema.variables@.len(),
            out@ == "Iteration"@ + header_tail(*schema, selected@, kind, nv as int) + seq!['\n']
                + csv_rows(ds.recs(), *schema, selected@, kind, i as int),
        decreases n - i,
    {
        let ghost g = ds.recs()[i as int];
        proof {
            assert(g == ds.records@[i as int].as_g());
        }
        let mut row = render_u64(ds.records[i].iteration);
        let mut j2: usize = 0;
        while j2 < nv
            invariant
                j2 <= nv,
                i < n,
                n == ds.records@.len(),
                nv == schema.variables@.len(),
                g == ds.records@[i as int].as_g(),
                row@ == dec_str(g.iteration as nat) + row_tail(
                    g,
                    *schema,
                    selected@,
                    kind,
                    j2 as int,
                ),
            decreases nv - j2,
        {
            let included: bool = j2 < selected.len() && selected[j2];
            if included {
                match kind_column_of(&schema.variables[j2], kind) {
                    Some(c) => {
                        row.append(",");
                        proof {
                            reveal_strlit(",");
                            assert((",")@ =~= seq![',']);
                            assert(include_var(*schema, selected@, kind, j2 as int));
                            assert(kind_col(*schema, kind, j2 as int) == Some(c@));
                        }
                        match ds.records[i].field_value(c.as_str()) {
                            Some(v) => {
                                let cell = render_scalar(&v);
                                row.append(cell.as_str());
                            },
                            None => {},
                        }
                        proof {
                            assert(row@ =~= dec_str(g.iteration as nat) + row_tail(
                                g,
                                *schema,
                                selected@,
                                kind,
                                j2 + 1,
                            ));
                        }
                    },
                    None => {
                        proof {
                            assert(!include_var(*schema, selected@, kind, j2 as int));
                        }
                    },
                }
            } else {
                proof {
                    assert(!include_var(*schema, selected@, kind, j2 as int));
                }
            }
            j2 = j2 + 1;
        }
        out.append(row.as_str());
        out.append("\n");
        i = i + 1;
        proof {
            reveal_strlit("\n");
            assert(("\n")@ =~= seq!['\n']);
            assert(csv_rows(ds.recs(), *schema, selected@, kind, i as int) == csv_rows(
                ds.recs(),
                *schema,
                selected@,
                kind,
                i - 1,
            ) + dec_str(g.iteration as nat) + row_tail(g, *schema, selected@, kind, nv as int)
                + seq!['\n']);
            assert(out@ =~= "Iteration"@ + header_tail(*schema, selected@, kind, nv as int)
                + seq!['\n'] + csv_rows(ds.recs(), *schema, selected@, kind, i as int));
        }
    }
    out
}

// ===== the chart model =====

/// Ghost image of one drawable series.
pub ghost struct GSeries {
    pub name: Seq<char>,
    pub color: (u8, u8, u8),
    pub points: Seq<(u64, Scalar)>,
}

/// One drawable series: a name, a palette color, and the (iteration,
/// value) points of the records that hold its column.
#[derive(Debug, PartialEq)]
pub struct Series {
    pub name: String,
    pub color: (u8, u8, u8),
    pub points: Vec<(u64, Scalar)>,
}

impl Series {
    pub open spec fn as_g(self) -> GSeries {
        GSeries { name: self.name@, color: self.color, points: self.points@ }
    }
}

/// The fixed ten-color palette, cycled in drawing order.
pub open spec fn palette(k: int) -> (u8, u8, u8) {
    if k == 0 {
        (255, 0, 0)
    } else if k == 1 {
        (0, 0, 255)
    } else if k == 2 {
        (0, 255, 0)
    } else if k == 3 {
        (255, 165, 0)
    } else if k == 4 {
        (128, 0, 128)
    } else if k == 5 {
        (165, 42, 42)
    } else if k == 6 {
        (255, 255, 0)
    } else if k == 7 {
        (255, 192, 203)
    } else if k == 8 {
        (96, 96, 96)
    } else {
        (143, 83, 0)
    }
}

pub fn palette_color(k: usize) -> (r: (u8, u8, u8))
    ensures
        r == palette((k % 10) as int),
{
    let m: usize = k % 10;
    if m == 0 {
        (255, 0, 0)
    } else if m == 1 {
        (0, 0, 255)
    } else if m == 2 {
        (0, 255, 0)
    } else if m == 3 {
        (255, 165, 0)
    } else if m == 4 {
        (128, 0, 128)
    } else if m == 5 {
        (165, 42, 42)
    } else if m == 6 {
        (255, 255, 0)
    } else if m == 7 {
        (255, 192, 203)
    } else if m == 8 {
        (96, 96, 96)
    } else {
        (143, 83, 0)
    }
}

/// The points of one column: every record that holds it, in order.
pub open spec fn series_points(ds: Seq<GRecord>, col: Seq<char>, k: int) -> Seq<(u64, Scalar)>
    decreases k,
{
    if k <= 0 {
        Seq::empty()
    } else {
        let pre = series_points(ds, col, k - 1);
        match field_of(ds[k - 1].fields, col) {
            Some(v) => pre + seq![(ds[k - 1].iteration, v)],
            None => pre,
        }
    }
}

/// The drawable series of the selection, in registry order, each taking
/// the next palette color.
pub open spec fn series_upto(
    ds: Seq<GRecord>,
    schema: Schema,
    sel: Seq<bool>,
    kind: ExportKind,
    j: int,
) -> Seq<GSeries>
    decreases j,
{
    if j <= 0 {
        Seq::empty()
    } else {
        let pre = series_upto(ds, schema, sel, kind, j - 1);
        if include_var(schema, sel, kind, j - 1) {
            pre + seq![
                GSeries {
                    name: schema.variables@[j - 1].base@,
                    color: palette(pre.len() as int % 10),
                    points: series_points(
                        ds,
                        kind_col(schema, kind, j - 1).unwrap(),
                        ds.len() as int,
                    ),
                },
            ]
        } else {
            pre
        }
    }
}

/// Builds the chart series of the requested kind for the selection.
pub fn chart_series(ds: &Dataset, schema: &Schema, selected: &Vec<bool>, kind: ExportKind) -> (r:
    Vec<Series>)
    ensures
        r@.map_values(|s: Series| s.as_g()) == series_upto(
            ds.recs(),
            *schema,
            selected@,
            kind,
            schema.variables@.len() as int,
        ),
{
    let nv: usize = schema.variables.len();
    let n: usize = ds.records.len();
    let mut r: Vec<Series> = Vec::new();
    let mut j: usize = 0;
    while j < nv
        invariant
            j <= nv,
            nv == schema.variables@.len(),
            n == ds.records@.len(),
            r@.map_values(|s: Series| s.as_g()) == series_upto(
                ds.recs(),
                *schema,
                selected@,
                kind,
                j as int,
            ),
        decreases nv - j,
    {
        let included: bool = j < selected.len() && selected[j];
        if included {
            match kind_column_of(&schema.variables[j], kind) {
                Some(c) => {
                    proof {
                        assert(include_var(*schema, selected@, kind, j as int));
                        assert(kind_col(*schema, kind, j as int) == Some(c@));
                    }
                    let mut points: Vec<(u64, Scalar)> = Vec::new();
                    let mut i: usize = 0;
                    while i < n
                        invariant
                            i <= n,
                            n == ds.records@.len(),
                            points@ == series_points(ds.recs(), c@, i as int),
                        decreases n - i,
                    {
                        let ghost g = ds.recs()[i as int];
                        proof {
                            assert(g == ds.records@[i as int].as_g());
                        }
                        match ds.records[i].field_value(c.as_str()) {
                            Some(v) => {
                                points.push((ds.records[i].iteration, v));
                                proof {
                                    assert(points@ =~= series_points(ds.recs(), c@, i as int)
                                        + seq![(g.iteration, v)]);
                                }
                            },
                            None => {},
                        }
                        i = i + 1;
                    }
                    let color = palette_color(r.len());
                    let ghost r0 = r@;
                    let s = Series { name: schema.variables[j].base.clone(), color, points };
                    r.push(s);
                    proof {
                        assert(r0.map_values(|s: Series| s.as_g()).len() == r0.len());
                        assert(r@.map_values(|s: Series| s.as_g()) =~= r0.map_values(
                            |s: Series| s.as_g(),
                        ) + seq![
                            GSeries {
                                name: schema.variables@[j as int].base@,
                                color: palette(r0.len() as int % 10),
                                points: series_points(ds.recs(), c@, n as int),
                            },
                        ]);
                    }
                },
                None => {
                    proof {
                        assert(!include_var(*schema, selected@, kind, j as int));
                    }
                },
            }
        } else {
            proof {
                assert(!include_var(*schema, selected@, kind, j as int));
            }
        }
        j = j + 1;
    }
    r
}

// ===== axis bounds =====

/// Fallback chart bounds: the x axis spans the record count, the y axis
/// spans the plotted values with a tenth of their range added on each
/// side (in billionths, rounded toward zero).
#[derive(Debug, Clone, Copy, PartialEq, Eq, Structural)]
pub struct ChartBounds {
    pub x_min: u64,
    pub x_max: u64,
    pub y_min_nanos: i128,
    pub y_max_nanos: i128,
}

/// Folds the extremes of one point list onto an accumulator.
pub open spec fn pt_fold(ps: Seq<(u64, Scalar)>, acc: Option<(int, int)>, j: int) -> Option<
    (int, int),
>
    decreases j,
{
    if j <= 0 {
        acc
    } else {
        let a = pt_fold(ps, acc, j - 1);
        let v = ps[j - 1].1.as_int();
        match a {
            None => Some((v, v)),
            Some((lo, hi)) => Some(
                (
                    if v < lo {
                        v
                    } else {
                        lo
                    },
                    if v > hi {
                        v
                    } else {
                        hi
                    },
                ),
            ),
        }
    }
}

/// The extremes over all series, series left of `k`.
pub open spec fn ser_fold(ss: Seq<GSeries>, acc: Option<(int, int)>, k: int) -> Option<(int, int)>
    decreases k,
{
    if k <= 0 {
        acc
    } else {
        pt_fold(ss[k - 1].points, ser_fold(ss, acc, k - 1), ss[k - 1].points.len() as int)
    }
}

pub proof fn lemma_pt_fold_bounds(ps: Seq<(u64, Scalar)>, acc: Option<(int, int)>, j: int)
    requires
        match acc {
            Some((lo, hi)) => -(u64::MAX as int) <= lo <= hi <= u64::MAX as int,
            None => true,
        },
    ensures
        match pt_fold(ps, acc, j) {
            Some((lo, hi)) => -(u64::MAX as int) <= lo <= hi <= u64::MAX as int,
            None => acc is None,
        },
    decreases j,
{
    if j > 0 {
        lemma_pt_fold_bounds(ps, acc, j - 1);
    }
}

pub proof fn lemma_ser_fold_bounds(ss: Seq<GSeries>, acc: Option<(int, int)>, k: int)
    requires
        match acc {
            Some((lo, hi)) => -(u64::MAX as int) <= lo <= hi <= u64::MAX as int,
            None => true,
        },
    ensures
        match ser_fold(ss, acc, k) {
            Some((lo, hi)) => -(u64::MAX as int) <= lo <= hi <= u64::MAX as int,
            None => acc is None,
        },
    decreases k,
{
    if k > 0 {
        lemma_ser_fold_bounds(ss, acc, k - 1);
        lemma_pt_fold_bounds(
            ss[k - 1].points,
            ser_fold(ss, acc, k - 1),
            ss[k - 1].points.len() as int,
        );
    }
}

/// The fallback bounds of a series list, when any point exists.
pub open spec fn spec_chart_bounds(ss: Seq<GSeries>, nrecs: int) -> Option<ChartBounds> {
    match ser_fold(ss, None, ss.len() as int) {
        None => None,
        Some((lo, hi)) => Some(
            ChartBounds {
                x_min: 0,
                x_max: nrecs as u64,
                y_min_nanos: (lo - (hi - lo) / 10) as i128,
                y_max_nanos: (hi + (hi - lo) / 10) as i128,
            },
        ),
    }
}

/// Computes the fallback bounds from the drawable series; `None` when
/// nothing is plotted.
pub fn chart_bounds(series: &Vec<Series>, nrecs: usize) -> (r: Option<ChartBounds>)
    requires
        nrecs <= u64::MAX,
    ensures
        r == spec_chart_bounds(series@.map_values(|s: Series| s.as_g()), nrecs as int),
{
    let ghost ssv = series@.map_values(|s: Series| s.as_g());
    let ns: usize = series.len();
    let mut acc: Option<(i128, i128)> = None;
    let ghost gacc: Option<(int, int)> = None;
    let mut k: usize = 0;
    while k < ns
        invariant
            k <= ns,
            ns == series@.len(),
            ssv == series@.map_values(|s: Series| s.as_g()),
            ser_fold(ssv, None, k as int) == match acc {
                Some((lo, hi)) => Some((lo as int, hi as int)),
                None => None::<(int, int)>,
            },
            match acc {
                Some((lo, hi)) => -(u64::MAX as int) <= lo <= hi <= u64::MAX as int,
                None => true,
            },
        decreases ns - k,
    {
        let ps = &series[k].points;
        let np: usize = ps.len();
        proof {
            assert(ssv[k as int].points == ps@);
        }
        let mut j: usize = 0;
        while j < np
            invariant
                j <= np,
                k < ns,
                ns == series@.len(),
                np == ps@.len(),
                ps@ == ssv[k as int].points,
                ssv == series@.map_values(|s: Series| s.as_g()),
                pt_fold(ssv[k as int].points, ser_fold(ssv, None, k as int), j as int) == match acc {
                    Some((lo, hi)) => Some((lo as int, hi as int)),
                    None => None::<(int, int)>,
                },
                match acc {
                    Some((lo, hi)) => -(u64::MAX as int) <= lo <= hi <= u64::MAX as int,
                    None => true,
                },
            decreases np - j,
        {
            let v = ps[j].1;
            let vi: i128 = if v.negative {
                -(v.nanos as i128)
            } else {
                v.nanos as i128
            };
            proof {
                assert(vi as int == ps@[j as int].1.as_int());
            }
            acc = match acc {
                None => Some((vi, vi)),
                Some((lo, hi)) => Some(
                    (
                        if vi < lo {
                            vi
                        } else {
                            lo
                        },
                        if vi > hi {
                            vi
                        } else {
                            hi
                        },
                    ),
                ),
            };
            j = j + 1;
        }
        k = k + 1;
    }
    proof {
        lemma_ser_fold_bounds(ssv, None, ns as int);
    }
    match acc {
        None => None,
        Some((lo, hi)) => {
            let range: i128 = hi - lo;
            let margin: i128 = range / 10;
            Some(
                ChartBounds {
                    x_min: 0,
                    x_max: nrecs as u64,
                    y_min_nanos: lo - margin,
                    y_max_nanos: hi + margin,
                },
            )
        },
    }
}

// ===== theme colors =====

/// The chart colors of one scheme: background, text, grid.
#[derive(Debug, Clone, Copy, PartialEq, Eq)]
pub struct ThemeColors {
    pub background: (u8, u8, u8),
    pub text: (u8, u8, u8),
    pub grid: (u8, u8, u8),
}

/// The colors the export draws with under a dark or light scheme.
pub fn theme_colors(dark: bool) -> (r: ThemeColors)
    ensures
        dark ==> r == (ThemeColors {
            background: (32u8, 32u8, 32u8),
            text: (255u8, 255u8, 255u8),
            grid: (64u8, 64u8, 64u8),
        }),
        !dark ==> r == (ThemeColors {
            background: (255u8, 255u8, 255u8),
            text: (0u8, 0u8, 0u8),
            grid: (128u8, 128u8, 128u8),
        }),
{
    if dark {
        ThemeColors { background: (32, 32, 32), text: (255, 255, 255), grid: (64, 64, 64) }
    } else {
        ThemeColors { background: (255, 255, 255), text: (0, 0, 0), grid: (128, 128, 128) }
    }
}

} // verus!
