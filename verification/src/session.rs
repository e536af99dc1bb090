//! The session: one explicit context object owning the dataset, the
//! classification, the selection state, the filter text, the per-load
//! summaries, and the last status message. A successful load replaces
//! dataset, classification, selection and summaries together; a failed
//! load leaves the previous generation fully intact and only records a
//! human-readable message.

use vstd::prelude::*;
use crate::num::dec_str;
use crate::num::render_u64;
use crate::records::Dataset;
use crate::schema::classify;
use crate::schema::error_prefix;
use crate::schema::keys_of;
use crate::schema::value_prefix;
use crate::schema::with_prefix_upto;
use crate::schema::Schema;
use crate::select::sel_all_filtered;
use crate::select::spec_visible;
use crate::select::unsel_all;
use crate::select::unsel_filtered;
use crate::select::visible_mask;
use crate::select::SelectionState;
use crate::summary::final_error_ranking;
use crate::summary::percent_change;
use crate::summary::spec_percent;
use crate::summary::spec_ranking;
use crate::summary::spec_trend;
use crate::summary::total_error_trend;
use crate::summary::PercentChange;
use crate::summary::RankEntry;
use crate::summary::TrendPoint;
use crate::table::parse_table;
use crate::table::spec_load;
use crate::table::GLoad;
use crate::table::LoadError;

verus! {

/// The status text of a failed load.
pub open spec fn load_error_text(e: LoadError) -> Seq<char> {
    match e {
        LoadError::Parse { line } => "Failed to parse CSV record at line "@ + dec_str(line as nat),
        LoadError::Empty => "No records found in file"@,
    }
}

impl LoadError {
    /// The human-readable message of this failure.
    pub fn message(&self) -> (r: String)
        ensures
            r@ == load_error_text(*self),
    {
        match self {
            LoadError::Parse { line } => {
                let mut m = ("Failed to parse CSV record at line ").to_owned();
                let digits = render_u64(*line as u64);
                m.append(digits.as_str());
                proof {
                    assert((*line as u64) as nat == (*line) as nat);
                }
                m
            },
            LoadError::Empty => ("No records found in file").to_owned(),
        }
    }
}

/// One analysis session.
#[derive(Debug)]
pub struct Session {
    pub dataset: Dataset,
    pub schema: Schema,
    pub selection: SelectionState,
    pub filter_text: String,
    pub file_loaded: bool,
    pub status: Option<String>,
    pub ranking: Vec<RankEntry>,
    pub trend: Vec<TrendPoint>,
    pub percent: PercentChange,
}

/// Everything but the status message is untouched.
pub open spec fn core_unchanged(a: Session, b: Session) -> bool {
    &&& b.dataset == a.dataset
    &&& b.schema == a.schema
    &&& b.selection == a.selection
    &&& b.filter_text == a.filter_text
    &&& b.file_loaded == a.file_loaded
    &&& b.ranking == a.ranking
    &&& b.trend == a.trend
    &&& b.percent == a.percent
}

impl Session {
    /// The structures of one generation agree with each other.
    pub open spec fn wf(self) -> bool {
        &&& self.dataset.wf()
        &&& self.schema.wf()
        &&& self.selection.wf()
        &&& self.selection.selected@.len() == self.schema.variables@.len()
    }

    /// The stored summaries are those of the stored data.
    pub open spec fn derived_ok(self) -> bool {
        &&& self.ranking@.map_values(|e: RankEntry| (e.column@, e.magnitude)) == spec_ranking(
            self.dataset.recs(),
            self.schema.error_views(),
        )
        &&& self.trend@.map_values(|p: TrendPoint| (p.iteration, p.total as int)) == spec_trend(
            self.dataset.recs(),
            self.schema.error_views(),
        )
        &&& self.percent == spec_percent(
            self.trend@.map_values(|p: TrendPoint| (p.iteration, p.total as int)),
        )
    }

    /// The classification describes the loaded dataset's first record.
    pub open spec fn schema_matches(self) -> bool {
        self.file_loaded ==> {
            &&& self.dataset.recs().len() > 0
            &&& self.schema.error_views() == with_prefix_upto(
                keys_of(self.dataset.recs()[0].fields),
                error_prefix(),
                keys_of(self.dataset.recs()[0].fields).len() as int,
            )
            &&& self.schema.value_views() == with_prefix_upto(
                keys_of(self.dataset.recs()[0].fields),
                value_prefix(),
                keys_of(self.dataset.recs()[0].fields).len() as int,
            )
        }
    }

    /// A fresh session: nothing loaded, nothing selected, no filter.
    pub fn new() -> (s: Session)
        ensures
            s.wf(),
            s.derived_ok(),
            s.schema_matches(),
            !s.file_loaded,
            s.dataset.recs().len() == 0,
            s.schema.variables@.len() == 0,
            s.filter_text@.len() == 0,
            s.status is None,
    {
        let s = Session {
            dataset: Dataset { records: Vec::new() },
            schema: Schema {
                error_columns: Vec::new(),
                value_columns: Vec::new(),
                variables: Vec::new(),
            },
            selection: SelectionState { selected: Vec::new(), prior: Vec::new() },
            filter_text: String::new(),
            file_loaded: false,
            status: None,
            ranking: Vec::new(),
            trend: Vec::new(),
            percent: PercentChange::Undefined,
        };
        proof {
            assert(s.ranking@.map_values(|e: RankEntry| (e.column@, e.magnitude)) =~= spec_ranking(
                s.dataset.recs(),
                s.schema.error_views(),
            ));
            assert(s.trend@.map_values(|p: TrendPoint| (p.iteration, p.total as int)) =~= spec_trend(
                s.dataset.recs(),
                s.schema.error_views(),
            ));
        }
        s
    }

    /// Loads a table text. On success every derived structure — dataset,
    /// classification, registry, selection, summaries — is replaced
    /// wholesale and the selection starts all-false; on failure the
    /// previous generation stays fully intact and only the status
    /// message is set.
    pub fn load_text(&mut self, text: &str) -> (r: bool)
        requires
            old(self).wf(),
        ensures
            final(self).wf(),
            match spec_load(text@) {
                GLoad::Recs(recs) => {
                    &&& r
                    &&& final(self).dataset.recs() == recs
                    &&& final(self).schema_matches()
                    &&& final(self).file_loaded
                    &&& final(self).derived_ok()
                    &&& final(self).selection.selected@ == Seq::new(
                        final(self).schema.variables@.len(),
                        |i: int| false,
                    )
                    &&& final(self).selection.prior@ == final(self).selection.selected@
                    &&& final(self).filter_text == old(self).filter_text
                    &&& final(self).status is None
                },
                GLoad::Bad(line) => {
                    &&& !r
                    &&& core_unchanged(*old(self), *final(self))
                    &&& (final(self).status matches Some(m) && m@ == load_error_text(
                        LoadError::Parse { line: line as usize },
                    ))
                },
                GLoad::NoData => {
                    &&& !r
                    &&& core_unchanged(*old(self), *final(self))
                    &&& (final(self).status matches Some(m) && m@ == load_error_text(
                        LoadError::Empty,
                    ))
                },
            },
    {
        match parse_table(text) {
            Ok(ds) => {
                let schema = classify(&ds.records[0]);
                proof {
                    assert(ds.records@[0].as_g() == ds.recs()[0]);
                }
                let n: usize = schema.variables.len();
                let selection = SelectionState::new_all_false(n);
                let ranking = final_error_ranking(&ds, &schema);
                let trend = total_error_trend(&ds, &schema);
                let pct = percent_change(&trend);
                self.dataset = ds;
                self.schema = schema;
                self.selection = selection;
                self.ranking = ranking;
                self.trend = trend;
                self.percent = pct;
                self.file_loaded = true;
                self.status = None;
                proof {
                    assert(self.selection.selected@ =~= Seq::new(
                        self.schema.variables@.len(),
                        |i: int| false,
                    ));
                    assert(self.selection.prior@ =~= self.selection.selected@);
                }
                true
            },
            Err(e) => {
                self.status = Some(e.message());
                false
            },
        }
    }

    /// Records a failure that happened before the text reached the
    /// session, such as an unreadable file; the generation is untouched.
    pub fn note_failure(&mut self, msg: String)
        ensures
            core_unchanged(*old(self), *final(self)),
            final(self).status matches Some(m) && m@ == msg@,
    {
        self.status = Some(msg);
    }

    /// Replaces the filter text; nothing else moves.
    pub fn set_filter(&mut self, text: String)
        ensures
            final(self).filter_text@ == text@,
            final(self).dataset == old(self).dataset,
            final(self).schema == old(self).schema,
            final(self).selection == old(self).selection,
            final(self).file_loaded == old(self).file_loaded,
            final(self).status == old(self).status,
            final(self).ranking == old(self).ranking,
            final(self).trend == old(self).trend,
            final(self).percent == old(self).percent,
    {
        self.filter_text = text;
    }

    /// The mask of variables the current filter shows.
    pub fn visible(&self) -> (r: Vec<bool>)
        ensures
            r@ == spec_visible(self.schema, self.filter_text@),
    {
        visible_mask(&self.schema, self.filter_text.as_str())
    }

    /// Toggles or sets one variable's selection; stale indices are a
    /// no-op.
    pub fn set_selected(&mut self, i: usize, v: bool)
        ensures
            final(self).selection.prior == old(self).selection.prior,
            i < old(self).selection.selected@.len() ==> final(self).selection.selected@ == old(
                self,
            ).selection.selected@.update(i as int, v),
            i >= old(self).selection.selected@.len() ==> final(self).selection.selected == old(
                self,
            ).selection.selected,
            final(self).dataset == old(self).dataset,
            final(self).schema == old(self).schema,
            final(self).filter_text == old(self).filter_text,
    {
        self.selection.set(i, v);
    }

    /// Selects every variable the current filter shows; hidden ones keep
    /// their flags.
    pub fn select_all_filtered(&mut self)
        ensures
            final(self).selection.selected@ == sel_all_filtered(
                old(self).selection.selected@,
                spec_visible(old(self).schema, old(self).filter_text@),
            ),
            final(self).selection.prior == old(self).selection.prior,
            final(self).dataset == old(self).dataset,
            final(self).schema == old(self).schema,
            final(self).filter_text == old(self).filter_text,
    {
        let mask = visible_mask(&self.schema, self.filter_text.as_str());
        self.selection.select_all_filtered(&mask);
    }

    /// Unselects every variable the current filter shows; hidden ones
    /// keep their flags.
    pub fn unselect_all_filtered(&mut self)
        ensures
            final(self).selection.selected@ == unsel_filtered(
                old(self).selection.selected@,
                spec_visible(old(self).schema, old(self).filter_text@),
            ),
            final(self).selection.prior == old(self).selection.prior,
            final(self).dataset == old(self).dataset,
            final(self).schema == old(self).schema,
            final(self).filter_text == old(self).filter_text,
    {
        let mask = visible_mask(&self.schema, self.filter_text.as_str());
        self.selection.unselect_all_filtered(&mask);
    }

    /// Clears every selection flag, filter-visible or not.
    pub fn unselect_all(&mut self)
        ensures
            final(self).selection.selected@ == unsel_all(old(self).selection.selected@),
            final(self).selection.prior == old(self).selection.prior,
            final(self).dataset == old(self).dataset,
            final(self).schema == old(self).schema,
            final(self).filter_text == old(self).filter_text,
    {
        self.selection.unselect_all();
    }

    /// One-shot selection-changed signal: true exactly when the flags
    /// moved since the last call, re-arming the snapshot. This signal is
    /// the sole trigger for resetting a view's pan and zoom.
    pub fn selection_changed(&mut self) -> (r: bool)
        ensures
            r == (old(self).selection.selected@ != old(self).selection.prior@),
            final(self).selection.selected == old(self).selection.selected,
            final(self).selection.prior@ == old(self).selection.selected@,
            final(self).dataset == old(self).dataset,
            final(self).schema == old(self).schema,
            final(self).filter_text == old(self).filter_text,
    {
        self.selection.take_change()
    }
}

impl Default for Session {
    /// A fresh session, as `Session::new` makes it.
    fn default() -> (s: Session)
        ensures
            s.wf(),
            !s.file_loaded,
            s.dataset.recs().len() == 0,
            s.filter_text@.len() == 0,
            s.status is None,
    {
        Session::new()
    }
}


/// Loading the same text twice yields structurally equal datasets,
/// column families, registries and per-variable column resolutions.
pub proof fn lemma_load_deterministic(a: Session, b: Session, t: Seq<char>)
    requires
        a.wf(),
        b.wf(),
        a.file_loaded,
        b.file_loaded,
        a.schema_matches(),
        b.schema_matches(),
        spec_load(t) matches GLoad::Recs(recs) && a.dataset.recs() == recs && b.dataset.recs()
            == recs,
    ensures
        a.dataset.recs() == b.dataset.recs(),
        a.schema.error_views() == b.schema.error_views(),
        a.schema.value_views() == b.schema.value_views(),
        a.schema.bases() == b.schema.bases(),
        forall|i: int|
            0 <= i < a.schema.variables@.len() ==> (#[trigger] a.schema.variables@[i]).base@
                == b.schema.variables@[i].base@ && crate::schema::col_view(
                a.schema.variables@[i].error_column,
            ) == crate::schema::col_view(b.schema.variables@[i].error_column)
                && crate::schema::col_view(a.schema.variables@[i].value_column)
                == crate::schema::col_view(b.schema.variables@[i].value_column),
{
    crate::schema::lemma_schema_deterministic(a.schema, b.schema);
}

} // verus!
