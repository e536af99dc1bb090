//! The record parser: a comma-separated table with a header line that
//! names an `Iteration` column. Every other header names a field; a
//! non-empty cell must be a decimal value, an empty cell means the record
//! lacks that field. Blank lines are skipped. The first malformed row
//! fails the whole load with its 1-based line number; a table without
//! data rows is a distinct no-data failure.

use vstd::prelude::*;
use crate::num::parse_u64;
use crate::num::uint_of;
use crate::records::Dataset;
use crate::records::GRecord;
use crate::records::Record;
use crate::records::RecordField;
use crate::scalar::lemma_spec_scalar_valid;
use crate::scalar::parse_scalar;
use crate::scalar::spec_scalar;
use crate::scalar::Scalar;
use crate::text::split_on;
use crate::text::split_str;
use crate::text::str_eq;
use crate::text::views_of;

verus! {

/// Why a load failed: a malformed line, or no data rows at all.
#[derive(Debug, Clone, Copy, PartialEq, Eq, Structural)]
pub enum LoadError {
    Parse { line: usize },
    Empty,
}

/// Ghost outcome of reading a table.
pub ghost enum GLoad {
    Recs(Seq<GRecord>),
    Bad(int),
    NoData,
}

// ===== lines =====

pub open spec fn strip_cr(l: Seq<char>) -> Seq<char> {
    if l.len() > 0 && l.last() == '\r' {
        l.drop_last()
    } else {
        l
    }
}

/// The input as lines: split on newlines, a trailing carriage return
/// removed from each line.
pub open spec fn raw_lines(s: Seq<char>) -> Seq<Seq<char>> {
    split_on(s, '\n').map_values(|l: Seq<char>| strip_cr(l))
}

/// Index of the header: the first non-blank line.
pub open spec fn hdr_idx(ls: Seq<Seq<char>>) -> int
    decreases ls.len(),
{
    if ls.len() == 0 {
        0
    } else if ls[0].len() > 0 {
        0
    } else {
        1 + hdr_idx(ls.drop_first())
    }
}

pub proof fn lemma_hdr_idx_is(ls: Seq<Seq<char>>, k: int)
    requires
        0 <= k <= ls.len(),
        forall|j: int| 0 <= j < k ==> (#[trigger] ls[j]).len() == 0,
        k < ls.len() ==> ls[k].len() > 0,
    ensures
        hdr_idx(ls) == k,
    decreases ls.len(),
{
    if ls.len() == 0 {
    } else if ls[0].len() > 0 {
        assert(k == 0);
    } else {
        assert(k >= 1) by {
            if k == 0 {
                assert(ls[0].len() > 0);
            }
        }
        assert forall|j: int| 0 <= j < k - 1 implies (#[trigger] ls.drop_first()[j]).len() == 0 by {
            assert(ls.drop_first()[j] == ls[j + 1]);
        }
        assert(k - 1 < ls.drop_first().len() ==> ls.drop_first()[k - 1].len() > 0);
        lemma_hdr_idx_is(ls.drop_first(), k - 1);
    }
}

// ===== the header =====

/// The one required column name.
pub open spec fn iteration_key() -> Seq<char> {
    "Iteration"@
}

/// Index of the first `Iteration` column; the length when there is none.
pub open spec fn iter_idx(cols: Seq<Seq<char>>) -> int
    decreases cols.len(),
{
    if cols.len() == 0 {
        0
    } else if cols[0] == iteration_key() {
        0
    } else {
        1 + iter_idx(cols.drop_first())
    }
}

pub proof fn lemma_iter_idx_is(cols: Seq<Seq<char>>, k: int)
    requires
        0 <= k <= cols.len(),
        forall|j: int| 0 <= j < k ==> ls_at(cols, j) != iteration_key(),
        k < cols.len() ==> cols[k] == iteration_key(),
    ensures
        iter_idx(cols) == k,
    decreases cols.len(),
{
    if cols.len() == 0 {
    } else if cols[0] == iteration_key() {
        assert(ls_at(cols, 0) == cols[0]);
        assert(k == 0);
    } else {
        assert(k >= 1) by {
            if k == 0 {
                assert(cols[0] == iteration_key());
            }
        }
        assert forall|j: int| 0 <= j < k - 1 implies ls_at(cols.drop_first(), j)
            != iteration_key() by {
            assert(cols.drop_first()[j] == cols[j + 1]);
            assert(ls_at(cols, j + 1) == cols[j + 1]);
        }
        assert(k - 1 < cols.drop_first().len() ==> cols.drop_first()[k - 1] == iteration_key());
        lemma_iter_idx_is(cols.drop_first(), k - 1);
    }
}

/// Indexing helper used as a quantifier trigger.
pub open spec fn ls_at(ls: Seq<Seq<char>>, i: int) -> Seq<char> {
    ls[i]
}

/// Column names are pairwise distinct.
pub open spec fn cols_distinct(cols: Seq<Seq<char>>) -> bool {
    forall|i: int, j: int| 0 <= i < j < cols.len() ==> ls_at(cols, i) != ls_at(cols, j)
}

/// A usable header: distinct names, one of them `Iteration`.
pub open spec fn header_ok(cols: Seq<Seq<char>>) -> bool {
    cols_distinct(cols) && iter_idx(cols) < cols.len()
}

// ===== rows =====

/// A data row is well formed when it has as many cells as the header,
/// its iteration cell is a non-negative integer, and every other
/// non-empty cell is a decimal value.
pub open spec fn row_ok(line: Seq<char>, cols: Seq<Seq<char>>, it: int) -> bool {
    let cells = split_on(line, ',');
    cells.len() == cols.len() && uint_of(cells[it]) is Some && (forall|j: int|
        0 <= j < cells.len() && j != it ==> (ls_at(cells, j).len() == 0 || spec_scalar(
            ls_at(cells, j),
        ) is Some))
}

pub open spec fn bad_row(line: Seq<char>, cols: Seq<Seq<char>>, it: int) -> bool {
    line.len() > 0 && !row_ok(line, cols, it)
}

/// Offset of the first malformed data row; the length when none is.
pub open spec fn bad_idx(ls: Seq<Seq<char>>, cols: Seq<Seq<char>>, it: int) -> int
    decreases ls.len(),
{
    if ls.len() == 0 {
        0
    } else if bad_row(ls[0], cols, it) {
        0
    } else {
        1 + bad_idx(ls.drop_first(), cols, it)
    }
}

pub proof fn lemma_bad_idx_is(ls: Seq<Seq<char>>, cols: Seq<Seq<char>>, it: int, k: int)
    requires
        0 <= k <= ls.len(),
        forall|j: int| 0 <= j < k ==> !bad_row(ls_at(ls, j), cols, it),
        k < ls.len() ==> bad_row(ls[k], cols, it),
    ensures
        bad_idx(ls, cols, it) == k,
    decreases ls.len(),
{
    if ls.len() == 0 {
    } else if bad_row(ls[0], cols, it) {
        assert(ls_at(ls, 0) == ls[0]);
        assert(k == 0);
    } else {
        assert(k >= 1) by {
            if k == 0 {
                assert(bad_row(ls[0], cols, it));
            }
        }
        assert forall|j: int| 0 <= j < k - 1 implies !bad_row(
            ls_at(ls.drop_first(), j),
            cols,
            it,
        ) by {
            assert(ls.drop_first()[j] == ls[j + 1]);
            assert(ls_at(ls, j + 1) == ls[j + 1]);
        }
        assert(k - 1 < ls.drop_first().len() ==> bad_row(ls.drop_first()[k - 1], cols, it));
        lemma_bad_idx_is(ls.drop_first(), cols, it, k - 1);
    }
}

/// The named values of one row, cells left of `j`, in column order:
/// the iteration cell and empty cells contribute nothing.
pub open spec fn rec_fields(cells: Seq<Seq<char>>, cols: Seq<Seq<char>>, it: int, j: int) -> Seq<
    (Seq<char>, Scalar),
>
    decreases j,
{
    if j <= 0 {
        Seq::empty()
    } else {
        let pre = rec_fields(cells, cols, it, j - 1);
        if j - 1 != it && cells[j - 1].len() > 0 {
            match spec_scalar(cells[j - 1]) {
                Some(v) => pre + seq![(cols[j - 1], v)],
                None => pre,
            }
        } else {
            pre
        }
    }
}

/// The record denoted by one well-formed row.
pub open spec fn rec_of(line: Seq<char>, cols: Seq<Seq<char>>, it: int) -> GRecord {
    let cells = split_on(line, ',');
    GRecord {
        iteration: match uint_of(cells[it]) {
            Some(v) => v,
            None => 0,
        },
        fields: rec_fields(cells, cols, it, cols.len() as int),
    }
}

/// The records of the first `k` data lines, blank lines skipped.
pub open spec fn recs_upto(ls: Seq<Seq<char>>, cols: Seq<Seq<char>>, it: int, k: int) -> Seq<
    GRecord,
>
    decreases k,
{
    if k <= 0 {
        Seq::empty()
    } else {
        let pre = recs_upto(ls, cols, it, k - 1);
        if ls[k - 1].len() == 0 {
            pre
        } else {
            pre + seq![rec_of(ls[k - 1], cols, it)]
        }
    }
}

/// What loading a text yields: its records, the line number of the first
/// malformed line, or the no-data condition.
pub open spec fn spec_load(s: Seq<char>) -> GLoad {
    let ls = raw_lines(s);
    let h = hdr_idx(ls);
    if h == ls.len() {
        GLoad::NoData
    } else {
        let cols = split_on(ls[h], ',');
        if !header_ok(cols) {
            GLoad::Bad(h + 1)
        } else {
            let it = iter_idx(cols);
            let rows = ls.skip(h + 1);
            let b = bad_idx(rows, cols, it);
            if b < rows.len() {
                GLoad::Bad(h + 2 + b)
            } else {
                let recs = recs_upto(rows, cols, it, rows.len() as int);
                if recs.len() == 0 {
                    GLoad::NoData
                } else {
                    GLoad::Recs(recs)
                }
            }
        }
    }
}

// ===== well-formedness of parsed rows =====

pub proof fn lemma_rec_fields_wf(cells: Seq<Seq<char>>, cols: Seq<Seq<char>>, it: int, j: int)
    requires
        cols_distinct(cols),
        cells.len() == cols.len(),
        0 <= j <= cols.len(),
    ensures
        forall|a: int, b: int|
            0 <= a < b < rec_fields(cells, cols, it, j).len() ==> rec_fields(cells, cols, it, j)[a].0
                != rec_fields(cells, cols, it, j)[b].0,
        forall|a: int|
            0 <= a < rec_fields(cells, cols, it, j).len() ==> cols.take(j).contains(
                #[trigger] rec_fields(cells, cols, it, j)[a].0,
            ),
        forall|a: int|
            0 <= a < rec_fields(cells, cols, it, j).len() ==> (#[trigger] rec_fields(
                cells,
                cols,
                it,
                j,
            )[a].1).valid(),
    decreases j,
{
    if j <= 0 {
    } else {
        lemma_rec_fields_wf(cells, cols, it, j - 1);
        let pre = rec_fields(cells, cols, it, j - 1);
        let fs = rec_fields(cells, cols, it, j);
        assert forall|a: int| 0 <= a < pre.len() implies cols.take(j).contains(
            #[trigger] pre[a].0,
        ) by {
            assert(cols.take(j - 1).contains(pre[a].0));
            let t = choose|t: int| 0 <= t < j - 1 && (#[trigger] cols.take(j - 1)[t]) == pre[a].0;
            assert(cols.take(j)[t] == pre[a].0);
        }
        if j - 1 != it && cells[j - 1].len() > 0 && spec_scalar(cells[j - 1]) is Some {
            lemma_spec_scalar_valid(cells[j - 1]);
            assert(fs =~= pre + seq![(cols[j - 1], spec_scalar(cells[j - 1]).unwrap())]);
            assert forall|a: int| 0 <= a < pre.len() implies pre[a].0 != cols[j - 1] by {
                assert(cols.take(j - 1).contains(pre[a].0));
                let t = choose|t: int| 0 <= t < j - 1 && (#[trigger] cols.take(j - 1)[t]) == pre[a].0;
                assert(ls_at(cols, t) == pre[a].0);
                assert(ls_at(cols, j - 1) == cols[j - 1]);
            }
            assert(cols.take(j)[j - 1] == cols[j - 1]);
        } else {
            assert(fs == pre);
        }
    }
}

// ===== parsing =====

fn strip_cr_str(l: &str) -> (r: String)
    ensures
        r@ == strip_cr(l@),
{
    let n: usize = l.unicode_len();
    if n > 0 && l.get_char(n - 1) == '\r' {
        let r = l.substring_char(0, n - 1).to_owned();
        proof {
            assert(r@ =~= l@.drop_last());
        }
        r
    } else {
        l.to_owned()
    }
}

/// Splits the input into lines, trailing carriage returns removed.
fn split_lines(s: &str) -> (r: Vec<String>)
    ensures
        views_of(r@) == raw_lines(s@),
{
    let raw = split_str(s, '\n');
    let nlines: usize = raw.len();
    proof {
        assert(raw_lines(s@).len() == nlines);
    }
    let mut lines: Vec<String> = Vec::new();
    let mut i: usize = 0;
    while i < nlines
        invariant
            i <= nlines,
            nlines == raw@.len(),
            views_of(raw@) == split_on(s@, '\n'),
            lines@.len() == i,
            forall|j: int| 0 <= j < i ==> views_of(lines@)[j] == raw_lines(s@)[j],
        decreases nlines - i,
    {
        let l = strip_cr_str(raw[i].as_str());
        proof {
            assert(raw@[i as int]@ == views_of(raw@)[i as int]);
            assert(raw_lines(s@)[i as int] == strip_cr(views_of(raw@)[i as int]));
        }
        lines.push(l);
        i = i + 1;
    }
    proof {
        assert(views_of(lines@) =~= raw_lines(s@));
    }
    lines
}

/// Checks that no column name repeats.
fn distinct_check(cols: &Vec<String>) -> (r: bool)
    ensures
        r == cols_distinct(views_of(cols@)),
{
    let ghost colsv = views_of(cols@);
    let ncols: usize = cols.len();
    let mut a: usize = 0;
    while a < ncols
        invariant
            a <= ncols,
            ncols == cols@.len(),
            colsv == views_of(cols@),
            forall|x: int, y: int| 0 <= x < a && x < y < ncols ==> ls_at(colsv, x) != ls_at(colsv, y),
        decreases ncols - a,
    {
        let mut b: usize = a + 1;
        while b <= ncols - 1
            invariant
                a < ncols,
                a + 1 <= b,
                b <= ncols,
                ncols == cols@.len(),
                colsv == views_of(cols@),
                forall|y: int| a < y < b ==> ls_at(colsv, a as int) != ls_at(colsv, y),
            decreases ncols - b,
        {
            if str_eq(cols[a].as_str(), cols[b].as_str()) {
                proof {
                    assert(ls_at(colsv, a as int) == ls_at(colsv, b as int));
                }
                return false;
            }
            b = b + 1;
        }
        a = a + 1;
    }
    true
}

/// Finds the first `Iteration` column; the length when there is none.
fn find_iteration(cols: &Vec<String>) -> (r: usize)
    ensures
        r == iter_idx(views_of(cols@)),
        r <= cols@.len(),
{
    let ghost colsv = views_of(cols@);
    let ncols: usize = cols.len();
    let mut it: usize = 0;
    while it < ncols
        invariant
            it <= ncols,
            ncols == cols@.len(),
            colsv == views_of(cols@),
            forall|j: int| 0 <= j < it ==> ls_at(colsv, j) != iteration_key(),
        decreases ncols - it,
    {
        if str_eq(cols[it].as_str(), "Iteration") {
            proof {
                lemma_iter_idx_is(colsv, it as int);
            }
            return it;
        }
        proof {
            assert(ls_at(colsv, it as int) == cols@[it as int]@);
        }
        it = it + 1;
    }
    proof {
        lemma_iter_idx_is(colsv, ncols as int);
    }
    ncols
}

/// Parses one non-blank data row against the header.
fn parse_row(line: &str, cols: &Vec<String>, it: usize) -> (r: Option<Record>)
    requires
        it < cols@.len(),
        cols_distinct(views_of(cols@)),
    ensures
        match r {
            Some(rec) => row_ok(line@, views_of(cols@), it as int) && rec.wf() && rec.as_g()
                == rec_of(line@, views_of(cols@), it as int),
            None => !row_ok(line@, views_of(cols@), it as int),
        },
{
    let ghost colsv = views_of(cols@);
    let ghost cellsv = split_on(line@, ',');
    let ncols: usize = cols.len();
    let cells = split_str(line, ',');
    proof {
        assert(views_of(cells@) == cellsv);
    }
    if cells.len() != ncols {
        return None;
    }
    proof {
        assert(cells@[it as int]@ == ls_at(cellsv, it as int));
    }
    let iteration: u64 = match parse_u64(cells[it].as_str()) {
        Some(x) => x,
        None => {
            proof {
                assert(uint_of(cellsv[it as int]) is None);
            }
            return None;
        },
    };
    let mut fields: Vec<RecordField> = Vec::new();
    let mut j: usize = 0;
    while j < ncols
        invariant
            j <= ncols,
            it < ncols,
            ncols == cols@.len(),
            ncols == cells@.len(),
            colsv == views_of(cols@),
            cellsv == views_of(cells@),
            cellsv == split_on(line@, ','),
            uint_of(cellsv[it as int]) is Some,
            fields@.map_values(|f: RecordField| (f.name@, f.value)) == rec_fields(
                cellsv,
                colsv,
                it as int,
                j as int,
            ),
            forall|t: int|
                0 <= t < j && t != it ==> (ls_at(cellsv, t).len() == 0 || spec_scalar(
                    ls_at(cellsv, t),
                ) is Some),
        decreases ncols - j,
    {
        proof {
            assert(cells@[j as int]@ == ls_at(cellsv, j as int));
            assert(cols@[j as int]@ == colsv[j as int]);
        }
        if j != it && !cells[j].as_str().is_empty() {
            match parse_scalar(cells[j].as_str()) {
                Some(v) => {
                    let ghost f0 = fields@;
                    fields.push(RecordField { name: cols[j].clone(), value: v });
                    proof {
                        assert(fields@.map_values(|f: RecordField| (f.name@, f.value)) =~= f0
                            .map_values(|f: RecordField| (f.name@, f.value)) + seq![
                            (colsv[j as int], v),
                        ]);
                        assert(rec_fields(cellsv, colsv, it as int, j + 1) == rec_fields(
                            cellsv,
                            colsv,
                            it as int,
                            j as int,
                        ) + seq![(colsv[j as int], v)]);
                    }
                },
                None => {
                    proof {
                        assert(ls_at(cellsv, j as int).len() > 0);
                        assert(!row_ok(line@, colsv, it as int));
                    }
                    return None;
                },
            }
        } else {
            proof {
                assert(rec_fields(cellsv, colsv, it as int, j + 1) == rec_fields(
                    cellsv,
                    colsv,
                    it as int,
                    j as int,
                ));
            }
        }
        j = j + 1;
    }
    proof {
        assert(row_ok(line@, colsv, it as int));
    }
    let rec = Record { iteration, fields };
    proof {
        lemma_rec_fields_wf(cellsv, colsv, it as int, ncols as int);
        assert(rec.wf());
        assert(rec.as_g() == rec_of(line@, colsv, it as int));
    }
    Some(rec)
}

/// Parses the whole input into a dataset, or reports why it cannot.
#[verifier::rlimit(80)]
#[verifier::spinoff_prover]
pub fn parse_table(s: &str) -> (r: Result<Dataset, LoadError>)
    ensures
        match r {
            Ok(d) => spec_load(s@) == GLoad::Recs(d.recs()) && d.wf() && d.recs().len() > 0,
            Err(e) => match e {
                LoadError::Parse { line } => spec_load(s@) == GLoad::Bad(line as int),
                LoadError::Empty => spec_load(s@) == GLoad::NoData,
            },
        },
{
    let lines = split_lines(s);
    let ghost lsv = raw_lines(s@);
    let nlines: usize = lines.len();
    // The header is the first non-blank line.
    let mut h: usize = 0;
    while h < nlines && lines[h].as_str().is_empty()
        invariant
            h <= nlines,
            nlines == lines@.len(),
            views_of(lines@) == lsv,
            forall|j: int| 0 <= j < h ==> (#[trigger] lsv[j]).len() == 0,
        decreases nlines - h,
    {
        h = h + 1;
    }
    if h == nlines {
        proof {
            lemma_hdr_idx_is(lsv, nlines as int);
        }
        return Err(LoadError::Empty);
    }
    proof {
        assert(lines@[h as int]@ == lsv[h as int]);
        lemma_hdr_idx_is(lsv, h as int);
    }
    let cols = split_str(lines[h].as_str(), ',');
    let ghost colsv = split_on(lsv[h as int], ',');
    proof {
        assert(views_of(cols@) == colsv);
    }
    let ncols: usize = cols.len();
    if !distinct_check(&cols) {
        return Err(LoadError::Parse { line: h + 1 });
    }
    let it = find_iteration(&cols);
    if it == ncols {
        proof {
            assert(!header_ok(colsv));
        }
        return Err(LoadError::Parse { line: h + 1 });
    }
    proof {
        assert(header_ok(colsv));
    }
    // Data rows.
    let ghost rows = lsv.skip(h + 1);
    let mut recs: Vec<Record> = Vec::new();
    let mut li: usize = h + 1;
    while li < nlines
        invariant
            h + 1 <= li <= nlines,
            h < nlines,
            nlines == lines@.len(),
            lsv == raw_lines(s@),
            views_of(lines@) == lsv,
            rows == lsv.skip(h + 1),
            colsv == split_on(lsv[h as int], ','),
            views_of(cols@) == colsv,
            ncols == cols@.len(),
            it < ncols,
            header_ok(colsv),
            iter_idx(colsv) == it,
            hdr_idx(lsv) == h,
            forall|t: int| 0 <= t < li - h - 1 ==> !bad_row(ls_at(rows, t), colsv, it as int),
            recs@.map_values(|r: Record| r.as_g()) == recs_upto(rows, colsv, it as int, li - h - 1),
            forall|t: int| 0 <= t < recs@.len() ==> (#[trigger] recs@[t]).wf(),
        decreases nlines - li,
    {
        let ghost k = li - h - 1;
        proof {
            assert(ls_at(rows, k) == lsv[li as int]);
            assert(lines@[li as int]@ == lsv[li as int]);
        }
        if !lines[li].as_str().is_empty() {
            match parse_row(lines[li].as_str(), &cols, it) {
                Some(rec) => {
                    let ghost r0 = recs@;
                    let ghost g = rec.as_g();
                    recs.push(rec);
                    proof {
                        assert(!bad_row(ls_at(rows, k), colsv, it as int));
                        assert(recs@.map_values(|r: Record| r.as_g()) =~= r0.map_values(
                            |r: Record| r.as_g(),
                        ) + seq![g]);
                        assert(recs_upto(rows, colsv, it as int, k + 1) == recs_upto(
                            rows,
                            colsv,
                            it as int,
                            k,
                        ) + seq![rec_of(ls_at(rows, k), colsv, it as int)]);
                    }
                },
                None => {
                    proof {
                        assert(bad_row(ls_at(rows, k), colsv, it as int));
                        lemma_bad_idx_is(rows, colsv, it as int, k);
                        assert(spec_load(s@) == GLoad::Bad(h + 2 + k));
                    }
                    return Err(LoadError::Parse { line: li + 1 });
                },
            }
        } else {
            proof {
                assert(!bad_row(ls_at(rows, k), colsv, it as int));
                assert(recs_upto(rows, colsv, it as int, k + 1) == recs_upto(
                    rows,
                    colsv,
                    it as int,
                    k,
                ));
            }
        }
        li = li + 1;
    }
    proof {
        assert(rows.len() == nlines - h - 1);
        lemma_bad_idx_is(rows, colsv, it as int, rows.len() as int);
    }
    if recs.len() == 0 {
        return Err(LoadError::Empty);
    }
    let d = Dataset { records: recs };
    proof {
        assert(d.recs() == recs_upto(rows, colsv, it as int, rows.len() as int));
    }
    Ok(d)
}


// ===== parsing laws =====

/// The non-blank lines of a region, in order.
pub open spec fn data_lines(ls: Seq<Seq<char>>) -> Seq<Seq<char>>
    decreases ls.len(),
{
    if ls.len() == 0 {
        Seq::empty()
    } else if ls.last().len() > 0 {
        data_lines(ls.drop_last()).push(ls.last())
    } else {
        data_lines(ls.drop_last())
    }
}

pub proof fn lemma_recs_match(ls: Seq<Seq<char>>, cols: Seq<Seq<char>>, it: int, k: int)
    requires
        0 <= k <= ls.len(),
    ensures
        recs_upto(ls, cols, it, k).len() == data_lines(ls.take(k)).len(),
        forall|t: int|
            0 <= t < recs_upto(ls, cols, it, k).len() ==> recs_upto(ls, cols, it, k)[t] == rec_of(
                ls_at(data_lines(ls.take(k)), t),
                cols,
                it,
            ),
    decreases k,
{
    if k <= 0 {
        assert(ls.take(0) =~= Seq::<Seq<char>>::empty());
        assert(data_lines(ls.take(0)).len() == 0);
    } else {
        lemma_recs_match(ls, cols, it, k - 1);
        assert(ls.take(k).drop_last() =~= ls.take(k - 1));
        assert(ls.take(k).last() == ls[k - 1]);
        assert(data_lines(ls.take(k).drop_last()) == data_lines(ls.take(k - 1)));
        if ls[k - 1].len() == 0 {
            assert(data_lines(ls.take(k)) == data_lines(ls.take(k - 1)));
        } else {
            assert(data_lines(ls.take(k)) == data_lines(ls.take(k - 1)).push(ls[k - 1]));
            let pre = recs_upto(ls, cols, it, k - 1);
            let dl = data_lines(ls.take(k));
            assert forall|t: int| 0 <= t < recs_upto(ls, cols, it, k).len() implies recs_upto(
                ls,
                cols,
                it,
                k,
            )[t] == rec_of(ls_at(dl, t), cols, it) by {
                if t < pre.len() {
                    assert(recs_upto(ls, cols, it, k)[t] == pre[t]);
                    assert(ls_at(dl, t) == ls_at(data_lines(ls.take(k - 1)), t));
                } else {
                    assert(recs_upto(ls, cols, it, k)[t] == rec_of(ls[k - 1], cols, it));
                    assert(ls_at(dl, t) == ls[k - 1]);
                }
            }
        }
    }
}

/// What a successful load holds: exactly one record per non-blank data
/// row, in input order, each carrying its own row's cells — in
/// particular, its iteration is its row's `Iteration` cell.
pub proof fn lemma_records_match_rows(s: Seq<char>)
    ensures
        spec_load(s) matches GLoad::Recs(recs) ==> ({
            let ls = raw_lines(s);
            let h = hdr_idx(ls);
            let cols = split_on(ls[h], ',');
            let rows = data_lines(ls.skip(h + 1));
            &&& recs.len() == rows.len()
            &&& forall|k: int|
                0 <= k < recs.len() ==> recs[k] == rec_of(ls_at(rows, k), cols, iter_idx(cols))
        }),
{
    if spec_load(s) matches GLoad::Recs(recs) {
        let ls = raw_lines(s);
        let h = hdr_idx(ls);
        let cols = split_on(ls[h], ',');
        let region = ls.skip(h + 1);
        lemma_recs_match(region, cols, iter_idx(cols), region.len() as int);
        assert(region.take(region.len() as int) =~= region);
    }
}

} // verus!
