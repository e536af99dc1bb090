//! Records and datasets: one record per optimization iteration, its
//! fields a sparse list of named values in file order.

use vstd::prelude::*;
use crate::scalar::Scalar;
use crate::text::str_eq;

verus! {

/// One named value of a record.
#[derive(Debug, Clone, PartialEq)]
pub struct RecordField {
    pub name: String,
    pub value: Scalar,
}

/// Ghost image of a record.
pub ghost struct GRecord {
    pub iteration: u64,
    pub fields: Seq<(Seq<char>, Scalar)>,
}

/// One iteration of the run: its index and the values present in its row.
#[derive(Debug, Clone, PartialEq)]
pub struct Record {
    pub iteration: u64,
    pub fields: Vec<RecordField>,
}

impl Record {
    pub open spec fn fields_view(self) -> Seq<(Seq<char>, Scalar)> {
        self.fields@.map_values(|f: RecordField| (f.name@, f.value))
    }

    pub open spec fn as_g(self) -> GRecord {
        GRecord { iteration: self.iteration, fields: self.fields_view() }
    }

    /// Field names are distinct and every value is canonical.
    pub open spec fn wf(self) -> bool {
        let fs = self.fields_view();
        (forall|i: int, j: int| 0 <= i < j < fs.len() ==> fs[i].0 != fs[j].0) && (forall|i: int|
            0 <= i < fs.len() ==> (#[trigger] fs[i].1).valid())
    }

    /// The value the record holds under `name`, if any.
    pub fn field_value(&self, name: &str) -> (r: Option<Scalar>)
        ensures
            r == field_of(self.fields_view(), name@),
    {
        let n: usize = self.fields.len();
        let mut i: usize = 0;
        while i < n
            invariant
                i <= n,
                n == self.fields@.len(),
                forall|j: int| 0 <= j < i ==> self.fields_view()[j].0 != name@,
            decreases n - i,
        {
            if str_eq(self.fields[i].name.as_str(), name) {
                proof {
                    assert(self.fields_view()[i as int].0 == name@);
                    lemma_field_of_at(self.fields_view(), name@, i as int);
                }
                return Some(self.fields[i].value);
            }
            proof {
                assert(self.fields_view()[i as int].0 == self.fields@[i as int].name@);
            }
            i = i + 1;
        }
        proof {
            lemma_field_of_at(self.fields_view(), name@, n as int);
        }
        None
    }
}

/// First-match lookup in a field list.
pub open spec fn field_of(fs: Seq<(Seq<char>, Scalar)>, name: Seq<char>) -> Option<Scalar>
    decreases fs.len(),
{
    if fs.len() == 0 {
        None
    } else if fs[0].0 == name {
        Some(fs[0].1)
    } else {
        field_of(fs.drop_first(), name)
    }
}

pub proof fn lemma_field_of_at(fs: Seq<(Seq<char>, Scalar)>, name: Seq<char>, k: int)
    requires
        0 <= k <= fs.len(),
        forall|j: int| 0 <= j < k ==> fs[j].0 != name,
        k < fs.len() ==> fs[k].0 == name,
    ensures
        field_of(fs, name) == if k < fs.len() {
            Some(fs[k].1)
        } else {
            None::<Scalar>
        },
    decreases fs.len(),
{
    if fs.len() == 0 {
    } else if fs[0].0 == name {
        assert(k == 0);
    } else {
        assert(k >= 1);
        assert forall|j: int| 0 <= j < k - 1 implies fs.drop_first()[j].0 != name by {
            assert(fs.drop_first()[j] == fs[j + 1]);
        }
        assert(k - 1 < fs.drop_first().len() ==> fs.drop_first()[k - 1].0 == name);
        lemma_field_of_at(fs.drop_first(), name, k - 1);
    }
}

/// One load of the file: the records in input order, replaced wholesale
/// by every successful reload.
#[derive(Debug, Clone, PartialEq)]
pub struct Dataset {
    pub records: Vec<Record>,
}

impl Dataset {
    pub open spec fn recs(self) -> Seq<GRecord> {
        self.records@.map_values(|r: Record| r.as_g())
    }

    pub open spec fn wf(self) -> bool {
        forall|i: int| 0 <= i < self.records@.len() ==> (#[trigger] self.records@[i]).wf()
    }

    pub fn len(&self) -> (r: usize)
        ensures
            r == self.recs().len(),
    {
        self.records.len()
    }
}

} // verus!
