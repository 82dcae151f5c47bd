//! A CSV file held in memory with its schema, the indexes built over it and
//! the results of validating it.

use crate::csv_reader::{
    columns_below, hash_masked, selection_mask, spec_row_hash, CsvReadError, CsvReadResult, OkRow,
};
use crate::csv_cell_validators::{rules_total, FloatVerdict};
use crate::csv_row_validators::{
    fks_checkable, possible_row_result, spec_validate_row, ColumnSelection, CsvValidator, ForeignKeyViolation,
    RowCellsValidationResult, RowHashMap, UniqueViolation,
};
use crate::csv_workspace::CsvMapping;
use crate::csv_schema::CsvSchema;
use std::collections::HashMap;
use vstd::prelude::*;

verus! {

broadcast use vstd::std_specs::hash::group_hash_axioms;

/// What can go wrong with a cached file.
#[derive(Debug)]
pub enum CsvCachingError {
    NoCsvLoaded,
    CsvEmpty,
    CsvSliceKeyError { columns: ColumnSelection, available_columns: Vec<ColumnSelection> },
    CsvRowKeyError { columns: ColumnSelection, hash: u64 },
    CsvRowIndexError { index: usize },
    CsvRowUniqueConstraintIndexError { index: usize },
    CsvReadError(CsvReadError),
}

impl From<CsvReadError> for CsvCachingError {
    fn from(e: CsvReadError) -> Self {
        CsvCachingError::CsvReadError(e)
    }
}

impl vstd::std_specs::convert::FromSpecImpl<CsvReadError> for CsvCachingError {
    open spec fn obeys_from_spec() -> bool {
        true
    }

    open spec fn from_spec(e: CsvReadError) -> Self {
        CsvCachingError::CsvReadError(e)
    }
}

/// A row whose selected cells hash like those of an earlier row.
#[derive(Debug)]
pub struct IndexingDuplicateInfo {
    pub new_element_idx: usize,
    pub existing_element_idx: usize,
}

impl View for IndexingDuplicateInfo {
    type V = (usize, usize);

    open spec fn view(&self) -> (usize, usize) {
        (self.new_element_idx, self.existing_element_idx)
    }
}

/// An index over the rows: a column selection and the map from hash to row.
pub type SliceView = (Seq<usize>, Map<u64, usize>);

/// The index of selection `columns`, if there is one.
pub open spec fn slice_of(slices: Seq<SliceView>, columns: Seq<usize>) -> Option<Map<u64, usize>> {
    if exists|i: int| 0 <= i < slices.len() && slices[i].0 == columns {
        Some(slices[choose|i: int| 0 <= i < slices.len() && slices[i].0 == columns].1)
    } else {
        None
    }
}

/// Replaces the index of selection `columns`, or adds it at the end.
pub open spec fn set_slice(slices: Seq<SliceView>, columns: Seq<usize>, m: Map<u64, usize>) -> Seq<SliceView> {
    if exists|i: int| 0 <= i < slices.len() && slices[i].0 == columns {
        slices.update(choose|i: int| 0 <= i < slices.len() && slices[i].0 == columns, (columns, m))
    } else {
        slices.push((columns, m))
    }
}

/// No selection has two indexes.
pub open spec fn distinct_keys(slices: Seq<SliceView>) -> bool {
    forall|i: int, j: int| 0 <= i < j < slices.len() ==> slices[i].0 != slices[j].0
}

/// The index after inserting the hashes of the rows in order, each mapped to
/// its row; a later row with the same hash takes the place of the earlier.
pub open spec fn index_state(init: Map<u64, usize>, hashes: Seq<u64>) -> Map<u64, usize>
    decreases hashes.len(),
{
    if hashes.len() == 0 {
        init
    } else {
        index_state(init, hashes.drop_last()).insert(hashes.last(), (hashes.len() - 1) as usize)
    }
}

/// The rows found to repeat a hash while indexing: (the row, the row that
/// held the hash until then), in row order.
pub open spec fn index_duplicates(init: Map<u64, usize>, hashes: Seq<u64>) -> Seq<(usize, usize)>
    decreases hashes.len(),
{
    if hashes.len() == 0 {
        seq![]
    } else {
        let prev = index_state(init, hashes.drop_last());
        let d = index_duplicates(init, hashes.drop_last());
        if prev.contains_key(hashes.last()) {
            d.push(((hashes.len() - 1) as usize, prev[hashes.last()]))
        } else {
            d
        }
    }
}

/// The hash of each row over a selection.
pub open spec fn row_hashes(rows: Seq<OkRow>, columns: Seq<usize>) -> Seq<u64> {
    rows.map_values(|r: OkRow| spec_row_hash(r.cells.deep_view(), columns))
}

/// The index a selection starts from: its current index, or an empty one.
pub open spec fn slice_or_empty(slices: Seq<SliceView>, columns: Seq<usize>) -> Map<u64, usize> {
    match slice_of(slices, columns) {
        Some(m) => m,
        None => Map::empty(),
    }
}

/// The view of each duplicate of a list.
pub open spec fn duplicates_view(d: Seq<IndexingDuplicateInfo>) -> Seq<(usize, usize)> {
    d.map_values(|x: IndexingDuplicateInfo| x@)
}

/// The view of each unique violation of a list.
pub open spec fn unique_list_view(v: Seq<UniqueViolation>) -> Seq<(u64, Seq<char>)> {
    v.map_values(|u: UniqueViolation| u@)
}

/// The unique violations recorded per row.
pub open spec fn uniques_view(m: Map<usize, Vec<UniqueViolation>>) -> Map<usize, Seq<(u64, Seq<char>)>> {
    m.map_values(|v: Vec<UniqueViolation>| unique_list_view(v@))
}

/// One pass of unique indexing over the selections `sels`, in order: the
/// indexes after the pass and the duplicates found, as (row, row it
/// repeats, position of the selection).
pub open spec fn unique_pass(slices: Seq<SliceView>, rows: Seq<OkRow>, sels: Seq<Seq<usize>>) -> (Seq<
    SliceView,
>, Seq<(usize, usize, usize)>)
    decreases sels.len(),
{
    if sels.len() == 0 {
        (slices, seq![])
    } else {
        let prev = unique_pass(slices, rows, sels.drop_last());
        let j = (sels.len() - 1) as usize;
        let sel = sels.last();
        let init = slice_or_empty(prev.0, sel);
        let hs = row_hashes(rows, sel);
        (
            set_slice(prev.0, sel, index_state(init, hs)),
            prev.1 + index_duplicates(init, hs).map_values(|d: (usize, usize)| (d.0, d.1, j)),
        )
    }
}

/// Records violation `v` for `row`, after those it already has.
pub open spec fn add_unique_violation(
    m: Map<usize, Seq<(u64, Seq<char>)>>,
    row: usize,
    v: (u64, Seq<char>),
) -> Map<usize, Seq<(u64, Seq<char>)>> {
    m.insert(
        row,
        if m.contains_key(row) {
            m[row].push(v)
        } else {
            seq![v]
        },
    )
}

/// Records violations in order.
pub open spec fn add_unique_violations(
    m: Map<usize, Seq<(u64, Seq<char>)>>,
    items: Seq<(usize, (u64, Seq<char>))>,
) -> Map<usize, Seq<(u64, Seq<char>)>>
    decreases items.len(),
{
    if items.len() == 0 {
        m
    } else {
        add_unique_violation(add_unique_violations(m, items.drop_last()), items.last().0, items.last().1)
    }
}

/// The violation each duplicate gives: the duplicate row, the line of the row
/// it repeats and the name of the constraint.
pub open spec fn violation_items(
    collected: Seq<(usize, usize, usize)>,
    rows: Seq<OkRow>,
    names: Seq<Seq<char>>,
) -> Seq<(usize, (u64, Seq<char>))> {
    collected.map_values(
        |t: (usize, usize, usize)| (t.0, (rows[t.1 as int].line_no, names[t.2 as int])),
    )
}

/// The column positions of each unique constraint of a schema.
pub open spec fn unique_selections(schema: CsvSchema) -> Seq<Seq<usize>> {
    schema.unique@.map_values(
        |u: crate::csv_schema::SchemaUniqueConstraint|
            crate::csv_schema::spec_selection(schema.names(), u.columns.deep_view()),
    )
}

/// The name of each unique constraint of a schema.
pub open spec fn unique_names(schema: CsvSchema) -> Seq<Seq<char>> {
    schema.unique@.map_values(|u: crate::csv_schema::SchemaUniqueConstraint| u.name@)
}

/// Every column a unique constraint names is a column of the schema.
pub open spec fn unique_columns_known(schema: CsvSchema) -> bool {
    forall|j: int|
        0 <= j < schema.unique@.len() ==> crate::csv_schema::all_names_known(
            schema.names(),
            #[trigger] schema.unique@[j].columns.deep_view(),
        )
}

/// What indexing the unique constraints of `schema` gives, from the indexes
/// `slices` and the recorded violations `uniques`, over the content (`loaded`,
/// `rows`): the result and the final indexes and violations. With no
/// constraint nothing changes; otherwise a file with nothing loaded fails
/// with `NoCsvLoaded`, an empty file fails with `CsvEmpty` once the first
/// constraint's index is made, and any other file has every constraint
/// indexed in order and every duplicate recorded.
pub open spec fn unique_outcome(
    slices: Seq<SliceView>,
    uniques: Map<usize, Seq<(u64, Seq<char>)>>,
    loaded: bool,
    rows: Seq<OkRow>,
    schema: CsvSchema,
    r: Result<(), CsvCachingError>,
    final_slices: Seq<SliceView>,
    final_uniques: Map<usize, Seq<(u64, Seq<char>)>>,
) -> bool {
    let sels = unique_selections(schema);
    if sels.len() == 0 {
        r is Ok && final_slices == slices && final_uniques == uniques
    } else if !loaded {
        r matches Err(CsvCachingError::NoCsvLoaded) && final_slices == slices && final_uniques == uniques
    } else if rows.len() == 0 {
        &&& r matches Err(CsvCachingError::CsvEmpty)
        &&& final_slices == set_slice(slices, sels[0], slice_or_empty(slices, sels[0]))
        &&& final_uniques == uniques
    } else {
        let pass = unique_pass(slices, rows, sels);
        &&& r is Ok
        &&& final_slices == pass.0
        &&& final_uniques == add_unique_violations(
            uniques,
            violation_items(pass.1, rows, unique_names(schema)),
        )
    }
}

/// The file can be validated with `mapping` holding the referenced files:
/// its unique constraints name known columns, and when it has rows every
/// foreign key can be checked on them.
pub open spec fn validation_ready(c: CachedCsv, mapping: Map<Seq<char>, CachedCsv>) -> bool {
    &&& unique_columns_known(c.spec_schema())
    &&& c.rows().len() > 0 ==> fks_checkable(
        mapping,
        c.spec_schema().foreign_keys@,
        c.spec_schema().columns@.len(),
    )
}

/// `after` is `before` with its rows validated against `mapping`, float
/// cells judged by `rules`: every row position gets the result of validating
/// that row, other results stay, and nothing else changes.
pub open spec fn rows_validated<F: Fn(&str, &Option<String>, &Option<String>) -> FloatVerdict>(
    before: CachedCsv,
    after: CachedCsv,
    mapping: Map<Seq<char>, CachedCsv>,
    rules: F,
) -> bool {
    &&& after.loaded() == before.loaded()
    &&& after.read_result() == before.read_result()
    &&& after.slices() == before.slices()
    &&& after.uniques() == before.uniques()
    &&& after.fk_results() == before.fk_results()
    &&& after.spec_filename() == before.spec_filename()
    &&& after.spec_schema() == before.spec_schema()
    &&& forall|k: usize|
        #[trigger] after.validated().contains_key(k) <==> before.validated().contains_key(k) || k
            < before.rows().len()
    &&& forall|k: usize|
        #![trigger after.validated()[k]]
        before.validated().contains_key(k) && k >= before.rows().len() ==> after.validated()[k]
            == before.validated()[k]
    &&& forall|k: usize|
        #![trigger after.validated()[k]]
        k < before.rows().len() ==> possible_row_result(
            rules,
            before.spec_schema(),
            mapping,
            before.rows()[k as int],
            after.validated()[k]@,
        )
}

/// A file held in memory: its name, its content once loaded, the indexes of
/// column selections, the validation results per row, and its schema.
pub struct CachedCsv {
    pub filename: String,
    csv: Option<CsvReadResult>,
    hashed_rows: Vec<(ColumnSelection, RowHashMap)>,
    validated_rows: HashMap<usize, RowCellsValidationResult>,
    validated_unique_constraints: HashMap<usize, Vec<UniqueViolation>>,
    validated_foreign_key_constraints: HashMap<usize, Vec<ForeignKeyViolation>>,
    pub schema: CsvSchema,
}

impl CachedCsv {
    /// The file name.
    pub closed spec fn spec_filename(&self) -> String {
        self.filename
    }

    /// The schema.
    pub closed spec fn spec_schema(&self) -> CsvSchema {
        self.schema
    }

    /// Whether content has been loaded.
    pub closed spec fn loaded(&self) -> bool {
        self.csv is Some
    }

    /// The content loaded last.
    pub closed spec fn read_result(&self) -> CsvReadResult {
        self.csv->0
    }

    /// The rows of the content, none before loading.
    pub open spec fn rows(&self) -> Seq<OkRow> {
        if self.loaded() {
            self.read_result().ok_rows@
        } else {
            seq![]
        }
    }

    /// The indexes of column selections, in the order they were made.
    pub closed spec fn slices(&self) -> Seq<SliceView> {
        self.hashed_rows@.map_values(|e: (ColumnSelection, RowHashMap)| (e.0@, e.1@))
    }

    /// The validation result of each validated row.
    pub closed spec fn validated(&self) -> Map<usize, RowCellsValidationResult> {
        self.validated_rows@
    }

    /// The unique violations of each row that has some.
    pub closed spec fn uniques(&self) -> Map<usize, Vec<UniqueViolation>> {
        self.validated_unique_constraints@
    }

    /// The foreign key violations kept per row.
    pub closed spec fn fk_results(&self) -> Map<usize, Vec<ForeignKeyViolation>> {
        self.validated_foreign_key_constraints@
    }

    /// Each loaded row has a cell for each column of the schema.
    pub closed spec fn rows_fit_schema(&self) -> bool {
        forall|r: int| 0 <= r < self.rows().len() ==> #[trigger] self.rows()[r].cells@.len()
            == self.schema.columns@.len()
    }

    /// The invariant of a cached file: one index per selection, no index
    /// before content is loaded, indexes only point at existing rows, and
    /// rows fit the schema.
    pub closed spec fn wf(&self) -> bool {
        &&& distinct_keys(self.slices())
        &&& !self.loaded() ==> self.slices().len() == 0
        &&& forall|i: int, h: u64|
            0 <= i < self.slices().len() && #[trigger] self.slices()[i].1.contains_key(h)
                ==> self.slices()[i].1[h] < self.rows().len()
        &&& self.rows_fit_schema()
    }

    /// The row that holds `hash` in the index of `columns`, if any.
    pub open spec fn spec_find(&self, columns: Seq<usize>, hash: u64) -> Option<int> {
        if !self.loaded() {
            None
        } else {
            match slice_of(self.slices(), columns) {
                Some(m) => if m.contains_key(hash) {
                    Some(m[hash] as int)
                } else {
                    None
                },
                None => None,
            }
        }
    }

    /// The schema of the file.
    pub fn schema(&self) -> (s: &CsvSchema)
        ensures
            *s == self.spec_schema(),
    {
        &self.schema
    }

    /// A file with nothing loaded yet.
    pub fn new(filename: String, schema: CsvSchema) -> (r: CachedCsv)
        ensures
            r.spec_filename() == filename,
            r.spec_schema() == schema,
            !r.loaded(),
            r.slices() == Seq::<SliceView>::empty(),
            r.validated() == Map::<usize, RowCellsValidationResult>::empty(),
            r.uniques() == Map::<usize, Vec<UniqueViolation>>::empty(),
            r.fk_results() == Map::<usize, Vec<ForeignKeyViolation>>::empty(),
            r.wf(),
    {
        let r = CachedCsv {
            filename,
            csv: None,
            hashed_rows: Vec::new(),
            validated_rows: HashMap::new(),
            validated_unique_constraints: HashMap::new(),
            validated_foreign_key_constraints: HashMap::new(),
            schema,
        };
        assert(r.slices() =~= Seq::<SliceView>::empty());
        r
    }

    /// The loaded content.
    pub fn content(&self) -> (r: Result<&CsvReadResult, CsvCachingError>)
        ensures
            match r {
                Ok(c) => self.loaded() && *c == self.read_result(),
                Err(e) => !self.loaded() && e is NoCsvLoaded,
            },
    {
        match &self.csv {
            Some(csv) => Ok(csv),
            None => Err(CsvCachingError::NoCsvLoaded),
        }
    }

    /// Takes `csv` as the file's content and drops the indexes, the row
    /// results and the foreign key results; the unique violations stay.
    pub fn load(&mut self, csv: CsvReadResult)
        requires
            old(self).wf(),
            forall|r: int| 0 <= r < csv.ok_rows@.len() ==> #[trigger] csv.ok_rows@[r].cells@.len()
                == old(self).spec_schema().columns@.len(),
        ensures
            final(self).wf(),
            final(self).loaded(),
            final(self).read_result() == csv,
            final(self).slices() == Seq::<SliceView>::empty(),
            final(self).validated() == Map::<usize, RowCellsValidationResult>::empty(),
            final(self).fk_results() == Map::<usize, Vec<ForeignKeyViolation>>::empty(),
            final(self).uniques() == old(self).uniques(),
            final(self).spec_filename() == old(self).spec_filename(),
            final(self).spec_schema() == old(self).spec_schema(),
    {
        self.csv = Some(csv);
        assert forall|r: int| 0 <= r < self.rows().len() implies #[trigger] self.rows()[r].cells@.len()
            == self.schema.columns@.len() by {
            assert(self.rows()[r] == csv.ok_rows@[r]);
        }
        self.clear();
    }

    /// Drops the indexes, the row results and the foreign key results.
    pub fn clear(&mut self)
        requires
            old(self).rows_fit_schema(),
        ensures
            final(self).wf(),
            final(self).loaded() == old(self).loaded(),
            final(self).read_result() == old(self).read_result(),
            final(self).slices() == Seq::<SliceView>::empty(),
            final(self).validated() == Map::<usize, RowCellsValidationResult>::empty(),
            final(self).fk_results() == Map::<usize, Vec<ForeignKeyViolation>>::empty(),
            final(self).uniques() == old(self).uniques(),
            final(self).spec_filename() == old(self).spec_filename(),
            final(self).spec_schema() == old(self).spec_schema(),
    {
        self.hashed_rows.clear();
        self.validated_rows.clear();
        self.validated_foreign_key_constraints.clear();
        assert(self.slices() =~= Seq::<SliceView>::empty());
        assert(self.rows() == old(self).rows());
        assert(self.rows_fit_schema());
    }

    /// Drops the row results and the unique violations.
    fn clear_validations(&mut self)
        requires
            old(self).wf(),
        ensures
            final(self).wf(),
            final(self).loaded() == old(self).loaded(),
            final(self).read_result() == old(self).read_result(),
            final(self).slices() == old(self).slices(),
            final(self).validated() == Map::<usize, RowCellsValidationResult>::empty(),
            final(self).uniques() == Map::<usize, Vec<UniqueViolation>>::empty(),
            final(self).fk_results() == old(self).fk_results(),
            final(self).spec_filename() == old(self).spec_filename(),
            final(self).spec_schema() == old(self).spec_schema(),
    {
        self.validated_rows.clear();
        self.validated_unique_constraints.clear();
        assert(self.slices() == old(self).slices());
        assert(self.rows() == old(self).rows());
        assert(self.rows_fit_schema());
    }

    /// Whether the file changed after it was read: `modified` is the file's
    /// modification time, in nanoseconds since the Unix epoch. A file with
    /// nothing loaded is never stale.
    pub fn is_cache_stale(&self, modified: u128) -> (b: bool)
        ensures
            b == (self.loaded() && modified > self.read_result().timestamp),
    {
        match &self.csv {
            Some(csv) => modified > csv.timestamp,
            None => false,
        }
    }

    /// The validation result and the unique violations of row `idx`.
    pub fn get_validated_row(&self, idx: usize) -> (r: Result<
        (&RowCellsValidationResult, Option<&Vec<UniqueViolation>>),
        CsvCachingError,
    >)
        ensures
            match r {
                Ok((v, u)) => {
                    &&& self.validated().contains_key(idx)
                    &&& *v == self.validated()[idx]
                    &&& match u {
                        Some(u) => self.uniques().contains_key(idx) && *u == self.uniques()[idx],
                        None => !self.uniques().contains_key(idx),
                    }
                },
                Err(e) => !self.validated().contains_key(idx) && e == (CsvCachingError::CsvRowIndexError {
                    index: idx,
                }),
            },
    {
        let row_result = match self.validated_rows.get(&idx) {
            Some(v) => v,
            None => {
                return Err(CsvCachingError::CsvRowIndexError { index: idx });
            },
        };
        let unique_result = self.validated_unique_constraints.get(&idx);
        Ok((row_result, unique_result))
    }

    /// The validation result and the unique violations of every row, in row
    /// order; fails at the first row without a result.
    pub fn get_validated_rows(&self) -> (r: Result<
        Vec<(&RowCellsValidationResult, Option<&Vec<UniqueViolation>>)>,
        CsvCachingError,
    >)
        ensures
            r is Ok <==> self.loaded() && forall|j: usize|
                j < self.rows().len() ==> #[trigger] self.validated().contains_key(j),
            match r {
                Ok(v) => {
                    &&& v@.len() == self.rows().len()
                    &&& forall|j: usize|
                        j < v@.len() ==> {
                            &&& *(#[trigger] v@[j as int]).0 == self.validated()[j]
                            &&& match v@[j as int].1 {
                                Some(u) => self.uniques().contains_key(j) && *u == self.uniques()[j],
                                None => !self.uniques().contains_key(j),
                            }
                        }
                },
                Err(CsvCachingError::NoCsvLoaded) => !self.loaded(),
                Err(CsvCachingError::CsvRowIndexError { index }) => {
                    &&& self.loaded()
                    &&& index < self.rows().len()
                    &&& !self.validated().contains_key(index)
                    &&& forall|j: usize| j < index ==> #[trigger] self.validated().contains_key(j)
                },
                Err(_) => false,
            },
    {
        let csv = self.content()?;
        let n = csv.ok_rows.len();
        let mut out: Vec<(&RowCellsValidationResult, Option<&Vec<UniqueViolation>>)> = Vec::new();
        let mut i: usize = 0;
        while i < n
            invariant
                i <= n,
                self.loaded(),
                n == self.rows().len(),
                out@.len() == i,
                forall|j: usize| j < i ==> #[trigger] self.validated().contains_key(j),
                forall|j: usize|
                    j < i ==> {
                        &&& *(#[trigger] out@[j as int]).0 == self.validated()[j]
                        &&& match out@[j as int].1 {
                            Some(u) => self.uniques().contains_key(j) && *u == self.uniques()[j],
                            None => !self.uniques().contains_key(j),
                        }
                    },
            decreases n - i,
        {
            let row = self.get_validated_row(i)?;
            out.push(row);
            assert(out@[i as int] == row);
            i = i + 1;
        }
        Ok(out)
    }

    /// The position of the index of `columns`, if there is one.
    fn find_slice(&self, columns: &ColumnSelection) -> (r: Option<usize>)
        ensures
            match r {
                Some(k) => k < self.slices().len() && self.slices()[k as int].0 == columns@,
                None => forall|i: int| 0 <= i < self.slices().len() ==> self.slices()[i].0 != columns@,
            },
    {
        let mut k: usize = 0;
        while k < self.hashed_rows.len()
            invariant
                k <= self.hashed_rows@.len(),
                self.slices().len() == self.hashed_rows@.len(),
                forall|i: int| 0 <= i < k ==> self.slices()[i].0 != columns@,
            decreases self.hashed_rows@.len() - k,
        {
            if same_columns(&self.hashed_rows[k].0, columns) {
                return Some(k);
            }
            k = k + 1;
        }
        None
    }

    /// The row that holds `hash` in the index of `columns`.
    pub fn find_row(&self, columns: &ColumnSelection, hash: u64) -> (r: Result<&OkRow, CsvCachingError>)
        requires
            self.wf(),
        ensures
            match r {
                Ok(row) => self.spec_find(columns@, hash) matches Some(i) && *row == self.rows()[i],
                Err(e) => self.spec_find(columns@, hash) is None && match e {
                    CsvCachingError::NoCsvLoaded => !self.loaded(),
                    CsvCachingError::CsvSliceKeyError { columns: c, available_columns } => {
                        &&& self.loaded()
                        &&& slice_of(self.slices(), columns@) is None
                        &&& c@ == columns@
                        &&& available_columns@.map_values(|a: ColumnSelection| a@)
                            == self.slices().map_values(|e: SliceView| e.0)
                    },
                    CsvCachingError::CsvRowKeyError { columns: c, hash: h } => {
                        &&& self.loaded()
                        &&& slice_of(self.slices(), columns@) matches Some(m)
                        &&& !m.contains_key(hash)
                        &&& c@ == columns@
                        &&& h == hash
                    },
                    _ => false,
                },
            },
    {
        let csv = match &self.csv {
            Some(csv) => csv,
            None => {
                return Err(CsvCachingError::NoCsvLoaded);
            },
        };
        let rows = &csv.ok_rows;
        match self.find_slice(columns) {
            None => {
                let mut available: Vec<ColumnSelection> = Vec::new();
                let mut k: usize = 0;
                while k < self.hashed_rows.len()
                    invariant
                        k <= self.hashed_rows@.len(),
                        self.slices().len() == self.hashed_rows@.len(),
                        available@.len() == k,
                        available@.map_values(|a: ColumnSelection| a@) == self.slices().map_values(
                            |e: SliceView| e.0,
                        ).take(k as int),
                    decreases self.hashed_rows@.len() - k,
                {
                    let c = self.hashed_rows[k].0.clone();
                    assert(c@ =~= self.hashed_rows@[k as int].0@);
                    assert(self.slices()[k as int].0 == self.hashed_rows@[k as int].0@);
                    let ghost prev = available@;
                    available.push(c);
                    assert forall|j: int| 0 <= j < k implies #[trigger] available@[j]@ == self.slices()[j].0 by {
                        assert(available@[j] == prev[j]);
                        assert(prev.map_values(|a: ColumnSelection| a@)[j] == self.slices().map_values(
                            |e: SliceView| e.0,
                        ).take(k as int)[j]);
                    }
                    assert(available@.map_values(|a: ColumnSelection| a@) =~= self.slices().map_values(
                        |e: SliceView| e.0,
                    ).take(k + 1));
                    k = k + 1;
                }
                assert(self.slices().map_values(|e: SliceView| e.0).take(k as int) =~= self.slices().map_values(
                    |e: SliceView| e.0,
                ));
                Err(CsvCachingError::CsvSliceKeyError { columns: columns.clone(), available_columns: available })
            },
            Some(k) => {
                proof {
                    self.lemma_slice_at(k as int, columns@);
                }
                match self.hashed_rows[k].1.get(&hash) {
                    Some(row_idx) => Ok(&rows[*row_idx]),
                    None => Err(CsvCachingError::CsvRowKeyError { columns: columns.clone(), hash }),
                }
            },
        }
    }

    /// Indexes the rows over the selection `columns`, starting from the index
    /// the selection already has (or an empty one): each row's hash is mapped
    /// to the row, and a row whose hash is already there is reported as a
    /// duplicate of the row it replaces. The index of the selection is made
    /// even when there are no rows.
    pub fn index_columns(&mut self, columns: &ColumnSelection) -> (r: Result<
        Vec<IndexingDuplicateInfo>,
        CsvCachingError,
    >)
        requires
            old(self).wf(),
            old(self).rows().len() > 0 ==> columns_below(
                columns@,
                old(self).spec_schema().columns@.len(),
            ),
        ensures
            final(self).wf(),
            final(self).loaded() == old(self).loaded(),
            final(self).read_result() == old(self).read_result(),
            final(self).rows() == old(self).rows(),
            final(self).validated() == old(self).validated(),
            final(self).uniques() == old(self).uniques(),
            final(self).fk_results() == old(self).fk_results(),
            final(self).spec_filename() == old(self).spec_filename(),
            final(self).spec_schema() == old(self).spec_schema(),
            !old(self).loaded() ==> {
                &&& r matches Err(CsvCachingError::NoCsvLoaded)
                &&& final(self).slices() == old(self).slices()
            },
            old(self).loaded() && old(self).rows().len() == 0 ==> {
                &&& r matches Err(CsvCachingError::CsvEmpty)
                &&& final(self).slices() == set_slice(
                    old(self).slices(),
                    columns@,
                    slice_or_empty(old(self).slices(), columns@),
                )
            },
            old(self).loaded() && old(self).rows().len() > 0 ==> {
                &&& r matches Ok(d)
                &&& final(self).slices() == set_slice(
                    old(self).slices(),
                    columns@,
                    index_state(
                        slice_or_empty(old(self).slices(), columns@),
                        row_hashes(old(self).rows(), columns@),
                    ),
                )
                &&& duplicates_view(d@) == index_duplicates(
                    slice_or_empty(old(self).slices(), columns@),
                    row_hashes(old(self).rows(), columns@),
                )
            },
    {
        if self.csv.is_none() {
            return Err(CsvCachingError::NoCsvLoaded);
        }
        let ghost old_slices = self.slices();
        let ghost init = slice_or_empty(old_slices, columns@);
        let pos = self.find_slice(columns);
        let mut slice: RowHashMap = match pos {
            Some(k) => {
                proof {
                    lemma_slice_position(old_slices, k as int, columns@);
                }
                let entry = self.hashed_rows.remove(k);
                entry.1
            },
            None => HashMap::new(),
        };
        assert(slice@ == init);
        assert forall|h: u64| #[trigger] init.contains_key(h) implies init[h] < self.rows().len() by {
            if let Some(k) = pos {
                assert(old_slices[k as int].1.contains_key(h));
            }
        }
        let result = match &self.csv {
            None => Err(CsvCachingError::NoCsvLoaded),
            Some(csv) => {
                let rows = &csv.ok_rows;
                let n = rows.len();
                if n == 0 {
                    Err(CsvCachingError::CsvEmpty)
                } else {
                    let row_len = rows[0].cells.len();
                    let mask = selection_mask(row_len, columns);
                    let ghost hashes = row_hashes(rows@, columns@);
                    let mut dups: Vec<IndexingDuplicateInfo> = Vec::new();
                    let mut i: usize = 0;
                    assert(hashes.take(0) =~= Seq::<u64>::empty());
                    proof {
                        assert forall|h: u64| #[trigger] init.contains_key(h) implies init[h] < n by {
                            if let Some(k) = pos {
                                assert(old_slices[k as int].1.contains_key(h));
                            }
                        }
                    }
                    while i < n
                        invariant
                            i <= n,
                            n == rows@.len(),
                            n == self.rows().len(),
                            *rows == self.read_result().ok_rows,
                            self.loaded(),
                            hashes == row_hashes(rows@, columns@),
                            row_len == rows@[0].cells@.len(),
                            forall|r: int| 0 <= r < n ==> #[trigger] rows@[r].cells@.len() == row_len,
                            mask@.len() == row_len,
                            forall|j: int| 0 <= j < row_len ==> mask@[j] == columns@.contains(j as usize),
                            forall|h: u64| #[trigger] init.contains_key(h) ==> init[h] < n,
                            slice@ == index_state(init, hashes.take(i as int)),
                            duplicates_view(dups@) == index_duplicates(init, hashes.take(i as int)),
                        decreases n - i,
                    {
                        let ghost prefix = hashes.take(i + 1);
                        assert(prefix.drop_last() == hashes.take(i as int));
                        let h = hash_masked(&rows[i].cells, &mask, Ghost(columns@));
                        assert(h == hashes[i as int]);
                        assert(prefix.last() == h);
                        proof {
                            lemma_index_state_bounded(init, hashes.take(i as int), n as nat);
                        }
                        if slice.contains_key(&h) {
                            let existing = match slice.get(&h) {
                                Some(e) => *e,
                                None => 0,
                            };
                            dups.push(IndexingDuplicateInfo { new_element_idx: i, existing_element_idx: existing });
                            assert(duplicates_view(dups@) =~= duplicates_view(dups@.drop_last()).push((i, existing)));
                        }
                        slice.insert(h, i);
                        i = i + 1;
                    }
                    assert(hashes.take(n as int) == hashes);
                    proof {
                        lemma_index_state_bounded(init, hashes, n as nat);
                    }
                    Ok(dups)
                }
            },
        };
        assert(forall|h: u64| #[trigger] slice@.contains_key(h) ==> slice@[h] < self.rows().len());
        assert(self.rows() == old(self).rows());
        let ghost bound = old(self).rows().len();
        assert(forall|h: u64| #[trigger] slice@.contains_key(h) ==> slice@[h] < bound);
        match pos {
            Some(k) => {
                self.hashed_rows.insert(k, (columns.clone(), slice));
            },
            None => {
                self.hashed_rows.push((columns.clone(), slice));
            },
        }
        proof {
            let m = slice@;
            assert(self.rows() == old(self).rows());
            lemma_set_slice_distinct(old_slices, columns@, m);
            if let Some(k) = pos {
                lemma_slice_position(old_slices, k as int, columns@);
            }
            assert(self.slices() =~= set_slice(old_slices, columns@, m));
            let fin = self.slices();
            assert forall|i: int, h: u64| 0 <= i < fin.len() && #[trigger] fin[i].1.contains_key(h)
                implies fin[i].1[h] < self.rows().len() by {
                assert(self.rows().len() == bound);
                if fin[i].0 != columns@ {
                    assert(fin[i] == old_slices[i]);
                    assert(old_slices[i].1.contains_key(h));
                    assert(old_slices[i].1[h] < bound);
                } else {
                    lemma_slice_position(fin, i, columns@);
                    assert(fin[i].1 == m);
                    assert(m[h] < bound);
                }
            }
        }
        assert(self.csv == old(self).csv);
        assert(self.schema == old(self).schema);
        assert(self.rows() == old(self).rows());
        assert(self.rows_fit_schema());
        result
    }

    /// Drops the row results and the unique violations, then indexes every
    /// unique constraint of the schema.
    pub fn prepare_validation(&mut self) -> (r: Result<(), CsvCachingError>)
        requires
            old(self).wf(),
            unique_columns_known(old(self).spec_schema()),
        ensures
            final(self).wf(),
            final(self).loaded() == old(self).loaded(),
            final(self).read_result() == old(self).read_result(),
            final(self).validated() == Map::<usize, RowCellsValidationResult>::empty(),
            final(self).fk_results() == old(self).fk_results(),
            final(self).spec_filename() == old(self).spec_filename(),
            final(self).spec_schema() == old(self).spec_schema(),
            unique_outcome(old(self).slices(), Map::empty(), old(self).loaded(), old(self).rows(), old(self).spec_schema(), r, final(self).slices(), uniques_view(final(self).uniques())),
    {
        self.clear_validations();
        proof {
            assert(uniques_view(self.uniques()) =~= Map::empty());
        }
        self.index_unique_constraints()
    }

    /// Indexes the rows over the columns of each unique constraint, in order,
    /// and records for every row whose selected cells repeat an earlier row's
    /// (or a row already in the index) a violation: the line of that row and
    /// the constraint's name.
    pub fn index_unique_constraints(&mut self) -> (r: Result<(), CsvCachingError>)
        requires
            old(self).wf(),
            unique_columns_known(old(self).spec_schema()),
        ensures
            final(self).wf(),
            final(self).loaded() == old(self).loaded(),
            final(self).read_result() == old(self).read_result(),
            final(self).validated() == old(self).validated(),
            final(self).fk_results() == old(self).fk_results(),
            final(self).spec_filename() == old(self).spec_filename(),
            final(self).spec_schema() == old(self).spec_schema(),
            unique_outcome(old(self).slices(), uniques_view(old(self).uniques()), old(self).loaded(), old(self).rows(), old(self).spec_schema(), r, final(self).slices(), uniques_view(final(self).uniques())),
    {
        let ghost sels = unique_selections(self.schema);
        let ghost names = unique_names(self.schema);
        let ghost old_slices = self.slices();
        let ghost old_uniques = uniques_view(self.uniques());
        let ghost rows = self.rows();
        let mut constraints: Vec<(ColumnSelection, String)> = Vec::new();
        let mut j: usize = 0;
        while j < self.schema.unique.len()
            invariant
                j <= self.schema.unique@.len(),
                unique_columns_known(self.schema),
                sels == unique_selections(self.schema),
                names == unique_names(self.schema),
                constraints@.len() == j,
                forall|q: int|
                    0 <= q < j ==> (#[trigger] constraints@[q]).0@ == sels[q] && constraints@[q].1@ == names[q]
                        && columns_below(constraints@[q].0@, self.schema.columns@.len()),
            decreases self.schema.unique@.len() - j,
        {
            let sel = self.schema.named_col2col_selection(&self.schema.unique[j].columns);
            let name = self.schema.unique[j].name.clone();
            constraints.push((sel, name));
            j = j + 1;
        }
        let mut collected: Vec<(usize, usize, usize)> = Vec::new();
        let mut c: usize = 0;
        while c < constraints.len()
            invariant
                c <= constraints@.len(),
                sels == unique_selections(old(self).spec_schema()),
                names == unique_names(old(self).spec_schema()),
                old_slices == old(self).slices(),
                rows == old(self).rows(),
                constraints@.len() == sels.len(),
                sels.len() == names.len(),
                forall|q: int|
                    0 <= q < sels.len() ==> (#[trigger] constraints@[q]).0@ == sels[q]
                        && columns_below(constraints@[q].0@, self.schema.columns@.len()),
                self.wf(),
                self.loaded() == old(self).loaded(),
                self.read_result() == old(self).read_result(),
                self.rows() == rows,
                self.validated() == old(self).validated(),
                self.uniques() == old(self).uniques(),
                self.fk_results() == old(self).fk_results(),
                self.spec_filename() == old(self).spec_filename(),
                self.spec_schema() == old(self).spec_schema(),
                c > 0 ==> self.loaded() && rows.len() > 0,
                c == 0 ==> self.slices() == old_slices,
                c > 0 ==> self.slices() == unique_pass(old_slices, rows, sels.take(c as int)).0,
                c > 0 ==> collected@ == unique_pass(old_slices, rows, sels.take(c as int)).1,
                c == 0 ==> collected@.len() == 0,
                forall|k: int| 0 <= k < collected@.len() ==> (#[trigger] collected@[k]).1 < rows.len()
                    && collected@[k].2 < c,
            decreases constraints@.len() - c,
        {
            let ghost before = self.slices();
            let dups = match self.index_columns(&constraints[c].0) {
                Ok(dups) => dups,
                Err(e) => {
                    proof {
                        assert(c == 0);
                        assert(sels.len() > 0);
                        assert(constraints@[0].0@ == sels[0]);
                        assert(self.uniques() == old(self).uniques());
                        if !old(self).loaded() {
                            assert(e is NoCsvLoaded);
                            assert(self.slices() == old_slices);
                        } else {
                            assert(rows.len() == 0);
                            assert(e is CsvEmpty);
                            assert(self.slices() == set_slice(old_slices, sels[0], slice_or_empty(old_slices, sels[0])));
                        }
                        assert(sels == unique_selections(old(self).spec_schema()));
                        assert(old_slices == old(self).slices());
                        assert(rows == old(self).rows());
                        assert(unique_outcome(old(self).slices(), uniques_view(old(self).uniques()), old(self).loaded(), old(self).rows(), old(self).spec_schema(), Err(e), self.slices(), uniques_view(self.uniques())));
                    }
                    return Err(e);
                },
            };
            let ghost sel = sels[c as int];
            let ghost init = slice_or_empty(before, sel);
            let ghost hs = row_hashes(rows, sel);
            proof {
                assert(sels.take(c + 1).drop_last() == sels.take(c as int));
                if c == 0 {
                    assert(unique_pass(old_slices, rows, sels.take(0)).0 == old_slices);
                }
                assert forall|h: u64| #[trigger] init.contains_key(h) implies init[h] < rows.len() by {
                    if exists|i: int| 0 <= i < before.len() && before[i].0 == sel {
                        let i = choose|i: int| 0 <= i < before.len() && before[i].0 == sel;
                        assert(before[i].1.contains_key(h));
                    }
                }
                lemma_index_duplicates_bounded(init, hs, rows.len());
            }
            let mut d: usize = 0;
            let ghost start = collected@;
            while d < dups.len()
                invariant
                    d <= dups@.len(),
                    duplicates_view(dups@) == index_duplicates(init, hs),
                    collected@ == start + index_duplicates(init, hs).take(d as int).map_values(
                        |x: (usize, usize)| (x.0, x.1, c),
                    ),
                    forall|k: int|
                        0 <= k < index_duplicates(init, hs).len() ==> (#[trigger] index_duplicates(
                            init,
                            hs,
                        )[k]).1 < rows.len(),
                    forall|k: int| 0 <= k < start.len() ==> (#[trigger] start[k]).1 < rows.len()
                        && start[k].2 < c,
                    forall|k: int| 0 <= k < collected@.len() ==> (#[trigger] collected@[k]).1 < rows.len()
                        && collected@[k].2 < c + 1,
                decreases dups@.len() - d,
            {
                let t = (dups[d].new_element_idx, dups[d].existing_element_idx, c);
                assert(duplicates_view(dups@)[d as int] == (t.0, t.1));
                collected.push(t);
                assert(collected@ =~= start + index_duplicates(init, hs).take(d + 1).map_values(
                    |x: (usize, usize)| (x.0, x.1, c),
                ));
                d = d + 1;
            }
            assert(index_duplicates(init, hs).take(dups@.len() as int) == index_duplicates(init, hs));
            c = c + 1;
        }
        assert(sels.take(sels.len() as int) == sels);
        let mut t: usize = 0;
        let ghost uniq0 = uniques_view(self.uniques());
        let ghost mid_slices = self.slices();
        while t < collected.len()
            invariant
                t <= collected@.len(),
                sels == unique_selections(old(self).spec_schema()),
                names == unique_names(old(self).spec_schema()),
                old_slices == old(self).slices(),
                rows == old(self).rows(),
                self.wf(),
                self.loaded() == old(self).loaded(),
                self.read_result() == old(self).read_result(),
                self.rows() == rows,
                self.slices() == mid_slices,
                self.validated() == old(self).validated(),
                self.fk_results() == old(self).fk_results(),
                self.spec_filename() == old(self).spec_filename(),
                self.spec_schema() == old(self).spec_schema(),
                sels.len() == names.len(),
                forall|k: int| 0 <= k < collected@.len() ==> (#[trigger] collected@[k]).1 < rows.len()
                    && collected@[k].2 < sels.len(),
                collected@.len() > 0 ==> self.loaded(),
                forall|q: int| 0 <= q < sels.len() ==> (#[trigger] constraints@[q]).1@ == names[q],
                constraints@.len() == sels.len(),
                uniques_view(self.uniques()) == add_unique_violations(
                    uniq0,
                    violation_items(collected@, rows, names).take(t as int),
                ),
            decreases collected@.len() - t,
        {
            let (new_idx, existing_idx, constraint_idx) = collected[t];
            let line_no = self.content()?.ok_rows[existing_idx].line_no;
            let violation = UniqueViolation {
                line_no,
                constraint_name: constraints[constraint_idx].1.clone(),
            };
            let ghost before = uniques_view(self.uniques());
            let ghost before_map = self.uniques();
            let ghost v = (line_no, names[constraint_idx as int]);
            assert(violation@ == v);
            let mut list = match self.validated_unique_constraints.remove(&new_idx) {
                Some(list) => list,
                None => Vec::new(),
            };
            let ghost prev_list = unique_list_view(list@);
            assert(prev_list == (if before.contains_key(new_idx) { before[new_idx] } else { seq![] }));
            list.push(violation);
            assert(unique_list_view(list@) =~= prev_list.push(v));
            self.validated_unique_constraints.insert(new_idx, list);
            assert(self.uniques() == before_map.remove(new_idx).insert(new_idx, list));
            proof {
                let items = violation_items(collected@, rows, names);
                assert(items.take(t + 1).drop_last() == items.take(t as int));
                assert(items.take(t + 1).last() == (new_idx, (line_no, names[constraint_idx as int])));
                assert(uniques_view(self.uniques()) =~= add_unique_violation(
                    before,
                    new_idx,
                    (line_no, names[constraint_idx as int]),
                ));
                assert(self.slices() == mid_slices);
                assert(self.rows() == rows);
                assert(self.rows_fit_schema());
            }
            t = t + 1;
        }
        assert(violation_items(collected@, rows, names).take(collected@.len() as int) == violation_items(
            collected@,
            rows,
            names,
        ));
        Ok(())
    }

    /// Validates every row against the schema, with `csv_mapping` holding
    /// the files that foreign keys reference, and keeps each row's result
    /// under the row's position. A file with nothing loaded is left as it is.
    pub fn validate_rows<F: Fn(&str, &Option<String>, &Option<String>) -> FloatVerdict>(&mut self, csv_mapping: &CsvMapping, rules: &F)
        requires
            old(self).wf(),
            csv_mapping.wf(),
            validation_ready(*old(self), csv_mapping@),
            rules_total(*rules),
        ensures
            final(self).wf(),
            rows_validated(*old(self), *final(self), csv_mapping@, *rules),
    {
        let mut validator = CsvValidator::new(&self.schema);
        let csv = match &self.csv {
            Some(csv) => csv,
            None => {
                return;
            },
        };
        let rows = &csv.ok_rows;
        let n = rows.len();
        let mut row_idx: usize = 0;
        while row_idx < n
            invariant
                row_idx <= n,
                n == rows@.len(),
                n == old(self).rows().len(),
                rows@ == old(self).rows(),
                self.schema == old(self).schema,
                self.csv == old(self).csv,
                self.filename == old(self).filename,
                self.hashed_rows == old(self).hashed_rows,
                self.validated_unique_constraints == old(self).validated_unique_constraints,
                self.validated_foreign_key_constraints == old(self).validated_foreign_key_constraints,
                csv_mapping.wf(),
                n > 0 ==> fks_checkable(csv_mapping@, self.schema.foreign_keys@, self.schema.columns@.len()),
                forall|r: int| 0 <= r < n ==> #[trigger] rows@[r].cells@.len() == self.schema.columns@.len(),
                forall|k: usize|
                    #[trigger] self.validated_rows@.contains_key(k) <==> old(self).validated().contains_key(k)
                        || k < row_idx,
                forall|k: usize|
                    #![trigger self.validated_rows@[k]]
                    old(self).validated().contains_key(k) && k >= row_idx
                        ==> self.validated_rows@[k] == old(self).validated()[k],
                forall|k: usize|
                    #![trigger self.validated_rows@[k]]
                    k < row_idx ==> possible_row_result(
                        *rules,
                        self.schema,
                        csv_mapping@,
                        rows@[k as int],
                        self.validated_rows@[k]@,
                    ),
                rules_total(*rules),
            decreases n - row_idx,
        {
            assert(rows@[row_idx as int].cells@.len() == self.schema.columns@.len());
            let result = validator.validate_row(&rows[row_idx], &self.schema, csv_mapping, rules);
            let ghost before = self.validated_rows@;
            self.validated_rows.insert(row_idx, result);
            assert forall|k: usize| #![trigger self.validated_rows@[k]] k < row_idx + 1 implies
                possible_row_result(*rules, self.schema, csv_mapping@, rows@[k as int], self.validated_rows@[k]@)
                by {
                if k < row_idx {
                    assert(self.validated_rows@[k] == before[k]);
                }
            }
            row_idx = row_idx + 1;
        }
        assert(self.rows() == old(self).rows());
    }

    /// Once the rows are indexed over `columns`, looking up the hash of any
    /// row finds a row with that hash, at or after it: the last such row (no
    /// later row has that hash).
    pub proof fn lemma_find_after_index(&self, columns: Seq<usize>, init: Map<u64, usize>, r: int)
        requires
            self.wf(),
            self.loaded(),
            slice_of(self.slices(), columns) == Some(index_state(init, row_hashes(self.rows(), columns))),
            0 <= r < self.rows().len(),
        ensures
            ({
                let h = spec_row_hash(self.rows()[r].cells.deep_view(), columns);
                &&& self.spec_find(columns, h) matches Some(v)
                &&& r <= v < self.rows().len()
                &&& spec_row_hash(self.rows()[v].cells.deep_view(), columns) == h
                &&& forall|j: int|
                    v < j < self.rows().len() ==> spec_row_hash(#[trigger] self.rows()[j].cells.deep_view(), columns)
                        != h
            }),
    {
        let hashes = row_hashes(self.rows(), columns);
        let h = hashes[r];
        assert(self.read_result().ok_rows.len() == self.rows().len());
        lemma_index_state_last(init, hashes, h);
        let v = index_state(init, hashes)[h];
        if v < r {
            assert(hashes[r] != h);
        }
        assert forall|j: int| v < j < self.rows().len() implies spec_row_hash(
            #[trigger] self.rows()[j].cells.deep_view(),
            columns,
        ) != h by {
            assert(hashes[j] == spec_row_hash(self.rows()[j].cells.deep_view(), columns));
        }
    }

    /// Without an index of `columns`, no lookup over them finds a row; in
    /// particular nothing is found right after loading.
    pub proof fn lemma_nothing_found_without_index(&self, columns: Seq<usize>, h: u64)
        requires
            slice_of(self.slices(), columns) is None,
        ensures
            self.spec_find(columns, h) is None,
    {
    }

    /// With one index per selection, the index found at `k` is the one
    /// `slice_of` names.
    proof fn lemma_slice_at(&self, k: int, columns: Seq<usize>)
        requires
            self.wf(),
            0 <= k < self.slices().len(),
            self.slices()[k].0 == columns,
        ensures
            slice_of(self.slices(), columns) == Some(self.slices()[k].1),
    {
        let c = choose|i: int| 0 <= i < self.slices().len() && self.slices()[i].0 == columns;
        if c != k {
            if c < k {
                assert(self.slices()[c].0 != self.slices()[k].0);
            } else {
                assert(self.slices()[k].0 != self.slices()[c].0);
            }
        }
    }
}

/// In a list with one index per selection, the position of a selection is
/// the one `choose` picks.
pub proof fn lemma_slice_position(slices: Seq<SliceView>, k: int, columns: Seq<usize>)
    requires
        distinct_keys(slices),
        0 <= k < slices.len(),
        slices[k].0 == columns,
    ensures
        (choose|i: int| 0 <= i < slices.len() && slices[i].0 == columns) == k,
        slice_of(slices, columns) == Some(slices[k].1),
        set_slice(slices, columns, slices[k].1) == slices,
{
    let c = choose|i: int| 0 <= i < slices.len() && slices[i].0 == columns;
    if c != k {
        if c < k {
            assert(slices[c].0 != slices[k].0);
        } else {
            assert(slices[k].0 != slices[c].0);
        }
    }
    assert(slices.update(k, (columns, slices[k].1)) =~= slices);
}

/// Setting the index of a selection keeps one index per selection.
pub proof fn lemma_set_slice_distinct(slices: Seq<SliceView>, columns: Seq<usize>, m: Map<u64, usize>)
    requires
        distinct_keys(slices),
    ensures
        distinct_keys(set_slice(slices, columns, m)),
        slice_of(set_slice(slices, columns, m), columns) == Some(m),
{
    let r = set_slice(slices, columns, m);
    if exists|i: int| 0 <= i < slices.len() && slices[i].0 == columns {
        let k = choose|i: int| 0 <= i < slices.len() && slices[i].0 == columns;
        assert forall|i: int, j: int| 0 <= i < j < r.len() implies r[i].0 != r[j].0 by {
            if i != k && j != k {
                assert(r[i] == slices[i] && r[j] == slices[j]);
            } else if i == k {
                assert(r[j] == slices[j]);
                assert(slices[k].0 != slices[j].0);
            } else {
                assert(r[i] == slices[i]);
                assert(slices[i].0 != slices[k].0);
            }
        }
        lemma_slice_position(r, k, columns);
    } else {
        assert forall|i: int, j: int| 0 <= i < j < r.len() implies r[i].0 != r[j].0 by {
            if j < slices.len() {
                assert(r[i] == slices[i] && r[j] == slices[j]);
            } else {
                assert(r[i] == slices[i]);
            }
        }
        lemma_slice_position(r, slices.len() as int, columns);
    }
}

/// Indexing maps each hash to a row given in `init` or to a row below the
/// number of hashes.
pub proof fn lemma_index_state_bounded(init: Map<u64, usize>, hashes: Seq<u64>, n: nat)
    requires
        hashes.len() <= n,
        forall|h: u64| #[trigger] init.contains_key(h) ==> init[h] < n,
    ensures
        forall|h: u64| #[trigger] index_state(init, hashes).contains_key(h) ==> index_state(init, hashes)[h] < n,
    decreases hashes.len(),
{
    if hashes.len() > 0 {
        lemma_index_state_bounded(init, hashes.drop_last(), n);
        let prev = index_state(init, hashes.drop_last());
        assert forall|h: u64| #[trigger] index_state(init, hashes).contains_key(h) implies index_state(
            init,
            hashes,
        )[h] < n by {
            if h != hashes.last() {
                assert(prev.contains_key(h));
            }
        }
    }
}

/// The duplicates found while indexing name rows below the number of
/// hashes, and rows already in the index or below the number of hashes.
pub proof fn lemma_index_duplicates_bounded(init: Map<u64, usize>, hashes: Seq<u64>, n: nat)
    requires
        hashes.len() <= n,
        forall|h: u64| #[trigger] init.contains_key(h) ==> init[h] < n,
    ensures
        forall|k: int|
            0 <= k < index_duplicates(init, hashes).len() ==> (#[trigger] index_duplicates(
                init,
                hashes,
            )[k]).0 < hashes.len() && index_duplicates(init, hashes)[k].1 < n,
    decreases hashes.len(),
{
    if hashes.len() > 0 {
        lemma_index_duplicates_bounded(init, hashes.drop_last(), n);
        lemma_index_state_bounded(init, hashes.drop_last(), n);
        let d = index_duplicates(init, hashes.drop_last());
        let full = index_duplicates(init, hashes);
        assert forall|k: int| 0 <= k < full.len() implies (#[trigger] full[k]).0 < hashes.len()
            && full[k].1 < n by {
            if k < d.len() {
                assert(full[k] == d[k]);
            }
        }
    }
}

/// After indexing, a hash that some row has maps to the last row with that
/// hash; any other hash keeps what the starting index gave it.
pub proof fn lemma_index_state_last(init: Map<u64, usize>, hashes: Seq<u64>, h: u64)
    requires
        hashes.len() <= usize::MAX + 1,
    ensures
        (exists|j: int| 0 <= j < hashes.len() && hashes[j] == h) ==> {
            let m = index_state(init, hashes);
            &&& m.contains_key(h)
            &&& m[h] < hashes.len()
            &&& hashes[m[h] as int] == h
            &&& forall|j: int| m[h] < j < hashes.len() ==> hashes[j] != h
        },
        !(exists|j: int| 0 <= j < hashes.len() && hashes[j] == h) ==> {
            &&& index_state(init, hashes).contains_key(h) == init.contains_key(h)
            &&& init.contains_key(h) ==> index_state(init, hashes)[h] == init[h]
        },
    decreases hashes.len(),
{
    if hashes.len() > 0 {
        let prev = hashes.drop_last();
        lemma_index_state_last(init, prev, h);
        if hashes.last() != h {
            if exists|j: int| 0 <= j < hashes.len() && hashes[j] == h {
                let j = choose|j: int| 0 <= j < hashes.len() && hashes[j] == h;
                assert(prev[j] == h);
                let m = index_state(init, prev);
                assert forall|q: int| m[h] < q < hashes.len() implies hashes[q] != h by {
                    if q < prev.len() {
                        assert(hashes[q] == prev[q]);
                    }
                }
                assert(hashes[m[h] as int] == prev[m[h] as int]);
            }
            if exists|j: int| 0 <= j < prev.len() && prev[j] == h {
                let j = choose|j: int| 0 <= j < prev.len() && prev[j] == h;
                assert(hashes[j] == h);
            }
        } else {
            assert(hashes[hashes.len() - 1] == h);
        }
    }
}

/// Each duplicate found while indexing from an empty index is a row whose
/// hash an earlier row has, paired with the last such earlier row.
pub proof fn lemma_duplicates_sound(hashes: Seq<u64>)
    requires
        hashes.len() <= usize::MAX + 1,
    ensures
        forall|k: int|
            0 <= k < index_duplicates(Map::empty(), hashes).len() ==> {
                let d = #[trigger] index_duplicates(Map::empty(), hashes)[k];
                &&& d.1 < d.0 < hashes.len()
                &&& hashes[d.1 as int] == hashes[d.0 as int]
                &&& forall|j: int| d.1 < j < d.0 ==> #[trigger] hashes[j] != hashes[d.0 as int]
            },
    decreases hashes.len(),
{
    if hashes.len() > 0 {
        let n = hashes.len() - 1;
        let prev = hashes.drop_last();
        let h = hashes.last();
        lemma_duplicates_sound(prev);
        lemma_index_state_last(Map::empty(), prev, h);
        let ds = index_duplicates(Map::empty(), prev);
        let all = index_duplicates(Map::empty(), hashes);
        let st = index_state(Map::empty(), prev);
        assert forall|k: int| 0 <= k < all.len() implies {
            let d = #[trigger] all[k];
            &&& d.1 < d.0 < hashes.len()
            &&& hashes[d.1 as int] == hashes[d.0 as int]
            &&& forall|j: int| d.1 < j < d.0 ==> #[trigger] hashes[j] != hashes[d.0 as int]
        } by {
            if k < ds.len() {
                assert(all[k] == ds[k]);
                let d = ds[k];
                assert(hashes[d.1 as int] == prev[d.1 as int]);
                assert(hashes[d.0 as int] == prev[d.0 as int]);
                assert forall|j: int| d.1 < j < d.0 implies #[trigger] hashes[j] != hashes[d.0 as int] by {
                    assert(hashes[j] == prev[j]);
                }
            } else {
                assert(st.contains_key(h));
                if !(exists|j: int| 0 <= j < prev.len() && prev[j] == h) {
                    assert(false);
                }
                assert(all[k] == (n as usize, st[h]));
                assert(hashes[st[h] as int] == prev[st[h] as int]);
                assert forall|j: int| st[h] < j < n implies #[trigger] hashes[j] != hashes[n] by {
                    assert(hashes[j] == prev[j]);
                }
            }
        }
    }
}

/// Indexing from an empty index reports row `i` as a duplicate exactly when
/// an earlier row has its hash.
pub proof fn lemma_duplicate_at(hashes: Seq<u64>, i: int)
    requires
        hashes.len() <= usize::MAX + 1,
        0 <= i < hashes.len(),
    ensures
        (exists|j: int| 0 <= j < i && hashes[j] == hashes[i]) <==> exists|k: int|
            0 <= k < index_duplicates(Map::empty(), hashes).len() && (#[trigger] index_duplicates(
                Map::empty(),
                hashes,
            )[k]).0 == i,
    decreases hashes.len(),
{
    let n = hashes.len() - 1;
    let prev = hashes.drop_last();
    let ds = index_duplicates(Map::empty(), prev);
    let all = index_duplicates(Map::empty(), hashes);
    let st = index_state(Map::empty(), prev);
    let h = hashes.last();
    if i < n {
        lemma_duplicate_at(prev, i);
        assert(hashes[i] == prev[i]);
        if exists|j: int| 0 <= j < i && hashes[j] == hashes[i] {
            let j = choose|j: int| 0 <= j < i && hashes[j] == hashes[i];
            assert(prev[j] == prev[i]);
            let k = choose|k: int| 0 <= k < ds.len() && (#[trigger] ds[k]).0 == i;
            assert(all[k] == ds[k]);
        }
        if exists|k: int| 0 <= k < all.len() && (#[trigger] all[k]).0 == i {
            let k = choose|k: int| 0 <= k < all.len() && (#[trigger] all[k]).0 == i;
            if k < ds.len() {
                assert(all[k] == ds[k]);
                let j = choose|j: int| 0 <= j < i && prev[j] == prev[i];
                assert(hashes[j] == hashes[i]);
            } else {
                assert(all[k].0 == n);
            }
        }
    } else {
        lemma_duplicates_sound(prev);
        lemma_index_state_last(Map::empty(), prev, h);
        if exists|j: int| 0 <= j < i && hashes[j] == hashes[i] {
            let j = choose|j: int| 0 <= j < i && hashes[j] == hashes[i];
            assert(prev[j] == h);
            assert(all[ds.len() as int].0 == i);
        }
        if exists|k: int| 0 <= k < all.len() && (#[trigger] all[k]).0 == i {
            let k = choose|k: int| 0 <= k < all.len() && (#[trigger] all[k]).0 == i;
            if k < ds.len() {
                assert(all[k] == ds[k]);
            } else {
                if !(exists|j: int| 0 <= j < prev.len() && prev[j] == h) {
                    assert(false);
                }
                let j = choose|j: int| 0 <= j < prev.len() && prev[j] == h;
                assert(hashes[j] == hashes[i]);
            }
        }
    }
}

/// A row that holds the same values as an earlier row in the selected
/// columns is reported as a duplicate when the rows are indexed over those
/// columns from an empty index.
pub proof fn lemma_equal_keys_are_duplicates(rows: Seq<OkRow>, columns: Seq<usize>, i: int, j: int)
    requires
        0 <= j < i < rows.len(),
        rows.len() <= usize::MAX,
        rows[i].cells@.len() == rows[j].cells@.len(),
        rows[i].cells@.len() <= usize::MAX,
        forall|k: int|
            0 <= k < columns.len() && columns[k] < rows[i].cells@.len() ==> rows[i].cells@[columns[k] as int]@
                == rows[j].cells@[columns[k] as int]@,
    ensures
        exists|k: int|
            0 <= k < index_duplicates(Map::empty(), row_hashes(rows, columns)).len() && (#[trigger] index_duplicates(
                Map::empty(),
                row_hashes(rows, columns),
            )[k]).0 == i,
{
    let hashes = row_hashes(rows, columns);
    let a = rows[i].cells.deep_view();
    let b = rows[j].cells.deep_view();
    assert forall|k: int| 0 <= k < columns.len() && columns[k] < a.len() implies a[columns[k] as int] == b[columns[k] as int] by {
        assert(a[columns[k] as int] == rows[i].cells@[columns[k] as int]@);
        assert(b[columns[k] as int] == rows[j].cells@[columns[k] as int]@);
    }
    crate::csv_reader::lemma_row_hash_agree(a, b, columns);
    assert(hashes[j] == hashes[i]);
    lemma_duplicate_at(hashes, i);
}

/// An index built by inserting hashes holds every hash inserted.
pub proof fn lemma_index_state_holds(init: Map<u64, usize>, hashes: Seq<u64>, j: int)
    requires
        0 <= j < hashes.len(),
    ensures
        index_state(init, hashes).contains_key(hashes[j]),
    decreases hashes.len(),
{
    if j < hashes.len() - 1 {
        lemma_index_state_holds(init, hashes.drop_last(), j);
        assert(hashes.drop_last()[j] == hashes[j]);
    }
}

/// Whatever index it starts from, indexing reports a row as a duplicate
/// when an earlier row has the same hash.
pub proof fn lemma_repeat_reported(init: Map<u64, usize>, hashes: Seq<u64>, j: int, i: int)
    requires
        0 <= j < i < hashes.len(),
        hashes.len() <= usize::MAX + 1,
        hashes[j] == hashes[i],
    ensures
        exists|k: int|
            0 <= k < index_duplicates(init, hashes).len() && (#[trigger] index_duplicates(init, hashes)[k]).0 == i,
    decreases hashes.len(),
{
    let prev = hashes.drop_last();
    let d = index_duplicates(init, prev);
    let all = index_duplicates(init, hashes);
    if i == hashes.len() - 1 {
        assert(prev[j] == hashes[j]);
        lemma_index_state_holds(init, prev, j);
        assert(all[all.len() - 1].0 == i);
    } else {
        assert(prev[j] == hashes[j]);
        assert(prev[i] == hashes[i]);
        lemma_repeat_reported(init, prev, j, i);
        let k = choose|k: int| 0 <= k < d.len() && (#[trigger] d[k]).0 == i;
        assert(all[k] == d[k]);
    }
}

/// Each pass of unique indexing, the last included, reports a row whose
/// hash over that pass's selection repeats an earlier row's, tagged with the
/// pass's position.
pub proof fn lemma_pass_reports(slices: Seq<SliceView>, rows: Seq<OkRow>, sels: Seq<Seq<usize>>, c: int, j: int, i: int)
    requires
        0 <= c < sels.len(),
        0 <= j < i < rows.len(),
        rows.len() <= usize::MAX,
        sels.len() <= usize::MAX,
        row_hashes(rows, sels[c])[j] == row_hashes(rows, sels[c])[i],
    ensures
        exists|q: int|
            0 <= q < unique_pass(slices, rows, sels).1.len() && (#[trigger] unique_pass(slices, rows, sels).1[q]).0 == i
                && unique_pass(slices, rows, sels).1[q].2 == c,
    decreases sels.len(),
{
    let prev = unique_pass(slices, rows, sels.drop_last());
    let pass = unique_pass(slices, rows, sels);
    if c == sels.len() - 1 {
        let sel = sels.last();
        let init = slice_or_empty(prev.0, sel);
        let hs = row_hashes(rows, sel);
        lemma_repeat_reported(init, hs, j, i);
        let ds = index_duplicates(init, hs);
        let k = choose|k: int| 0 <= k < ds.len() && (#[trigger] ds[k]).0 == i;
        let tagged = ds.map_values(|d: (usize, usize)| (d.0, d.1, (sels.len() - 1) as usize));
        assert(pass.1[prev.1.len() + k] == tagged[k]);
    } else {
        assert(sels.drop_last()[c] == sels[c]);
        lemma_pass_reports(slices, rows, sels.drop_last(), c, j, i);
        let q = choose|q: int| 0 <= q < prev.1.len() && (#[trigger] prev.1[q]).0 == i && prev.1[q].2 == c;
        assert(pass.1[q] == prev.1[q]);
    }
}

/// Recording violations in order keeps every one of them under its row.
pub proof fn lemma_violation_kept(m: Map<usize, Seq<(u64, Seq<char>)>>, items: Seq<(usize, (u64, Seq<char>))>, q: int)
    requires
        0 <= q < items.len(),
    ensures
        add_unique_violations(m, items).contains_key(items[q].0),
        add_unique_violations(m, items)[items[q].0].contains(items[q].1),
    decreases items.len(),
{
    let prev = add_unique_violations(m, items.drop_last());
    let (row, v) = items.last();
    let all = add_unique_violations(m, items);
    if q == items.len() - 1 {
        let l = all[row];
        assert(l[l.len() - 1] == v);
    } else {
        assert(items.drop_last()[q] == items[q]);
        lemma_violation_kept(m, items.drop_last(), q);
        let (r2, v2) = items[q];
        if r2 == row {
            let l = prev[r2];
            let p = choose|p: int| 0 <= p < l.len() && l[p] == v2;
            assert(all[r2][p] == v2);
        }
    }
}

/// Preparing the unique constraints of a loaded file reports, for every
/// constraint (not only the first) and every row that holds the same values
/// as an earlier row in that constraint's columns, a violation of that row
/// naming the constraint.
pub proof fn lemma_unique_violations_recorded(
    slices: Seq<SliceView>,
    uniques: Map<usize, Seq<(u64, Seq<char>)>>,
    rows: Seq<OkRow>,
    schema: CsvSchema,
    r: Result<(), CsvCachingError>,
    final_slices: Seq<SliceView>,
    final_uniques: Map<usize, Seq<(u64, Seq<char>)>>,
    c: int,
    j: int,
    i: int,
)
    requires
        unique_outcome(slices, uniques, true, rows, schema, r, final_slices, final_uniques),
        rows.len() <= usize::MAX,
        schema.unique@.len() <= usize::MAX,
        0 <= c < schema.unique@.len(),
        0 <= j < i < rows.len(),
        rows[i].cells@.len() == rows[j].cells@.len(),
        rows[i].cells@.len() <= usize::MAX,
        forall|k: int|
            0 <= k < unique_selections(schema)[c].len() && unique_selections(schema)[c][k] < rows[i].cells@.len()
                ==> rows[i].cells@[unique_selections(schema)[c][k] as int]@ == rows[j].cells@[unique_selections(
                schema,
            )[c][k] as int]@,
    ensures
        r is Ok,
        final_uniques.contains_key(i as usize),
        exists|p: int|
            0 <= p < final_uniques[i as usize].len() && (#[trigger] final_uniques[i as usize][p]).1
                == schema.unique@[c].name@,
{
    let sels = unique_selections(schema);
    let names = unique_names(schema);
    let sel = sels[c];
    let a = rows[i].cells.deep_view();
    let b = rows[j].cells.deep_view();
    assert forall|k: int| 0 <= k < sel.len() && sel[k] < a.len() implies a[sel[k] as int] == b[sel[k] as int] by {
        assert(a[sel[k] as int] == rows[i].cells@[sel[k] as int]@);
        assert(b[sel[k] as int] == rows[j].cells@[sel[k] as int]@);
    }
    crate::csv_reader::lemma_row_hash_agree(b, a, sel);
    let hs = row_hashes(rows, sel);
    assert(hs[j] == hs[i]);
    lemma_pass_reports(slices, rows, sels, c, j, i);
    let pass = unique_pass(slices, rows, sels);
    let q = choose|q: int| 0 <= q < pass.1.len() && (#[trigger] pass.1[q]).0 == i && pass.1[q].2 == c;
    let items = violation_items(pass.1, rows, names);
    assert(items[q] == (pass.1[q].0, (rows[pass.1[q].1 as int].line_no, names[c])));
    lemma_violation_kept(uniques, items, q);
    let l = final_uniques[i as usize];
    let p = choose|p: int| 0 <= p < l.len() && l[p] == items[q].1;
    assert(l[p].1 == schema.unique@[c].name@);
}

/// The rows that indexing reports as duplicates are rows of the list.
pub proof fn lemma_duplicate_rows_in_range(init: Map<u64, usize>, hashes: Seq<u64>)
    ensures
        forall|k: int|
            0 <= k < index_duplicates(init, hashes).len() ==> (#[trigger] index_duplicates(init, hashes)[k]).0
                < hashes.len(),
    decreases hashes.len(),
{
    if hashes.len() > 0 {
        let prev = hashes.drop_last();
        lemma_duplicate_rows_in_range(init, prev);
        let d = index_duplicates(init, prev);
        let all = index_duplicates(init, hashes);
        assert forall|k: int| 0 <= k < all.len() implies (#[trigger] all[k]).0 < hashes.len() by {
            if k < d.len() {
                assert(all[k] == d[k]);
            }
        }
    }
}

/// What the passes of unique indexing report are rows of the file, tagged
/// with the position of one of the selections.
pub proof fn lemma_pass_in_range(slices: Seq<SliceView>, rows: Seq<OkRow>, sels: Seq<Seq<usize>>)
    ensures
        forall|q: int|
            0 <= q < unique_pass(slices, rows, sels).1.len() ==> (#[trigger] unique_pass(slices, rows, sels).1[q]).0
                < rows.len() && unique_pass(slices, rows, sels).1[q].2 < sels.len(),
    decreases sels.len(),
{
    if sels.len() > 0 {
        let prev = unique_pass(slices, rows, sels.drop_last());
        let pass = unique_pass(slices, rows, sels);
        lemma_pass_in_range(slices, rows, sels.drop_last());
        let sel = sels.last();
        let init = slice_or_empty(prev.0, sel);
        let hs = row_hashes(rows, sel);
        let ds = index_duplicates(init, hs);
        lemma_duplicate_rows_in_range(init, hs);
        let tagged = ds.map_values(|d: (usize, usize)| (d.0, d.1, (sels.len() - 1) as usize));
        assert forall|q: int| 0 <= q < pass.1.len() implies (#[trigger] pass.1[q]).0 < rows.len() && pass.1[q].2
            < sels.len() by {
            if q < prev.1.len() {
                assert(pass.1[q] == prev.1[q]);
            } else {
                assert(pass.1[q] == tagged[q - prev.1.len()]);
                assert(ds[q - prev.1.len()].0 < hs.len());
            }
        }
    }
}

/// Recording violations adds nothing but the items: every row with
/// violations had some before or is the row of an item, and every violation
/// is one it had before or one of the items.
pub proof fn lemma_violations_from_items(m: Map<usize, Seq<(u64, Seq<char>)>>, items: Seq<(usize, (u64, Seq<char>))>)
    ensures
        forall|i: usize|
            #[trigger] add_unique_violations(m, items).contains_key(i) ==> forall|p: int|
                0 <= p < add_unique_violations(m, items)[i].len() ==> (m.contains_key(i) && p < m[i].len()
                    && (#[trigger] add_unique_violations(m, items)[i][p]) == m[i][p]) || exists|q: int|
                    0 <= q < items.len() && #[trigger] items[q] == (i, add_unique_violations(m, items)[i][p]),
    decreases items.len(),
{
    if items.len() > 0 {
        let its = items.drop_last();
        let prev = add_unique_violations(m, its);
        let all = add_unique_violations(m, items);
        lemma_violations_from_items(m, its);
        let (row, v) = items.last();
        assert forall|i: usize| #[trigger] all.contains_key(i) implies forall|p: int|
            0 <= p < all[i].len() ==> (m.contains_key(i) && p < m[i].len() && (#[trigger] all[i][p]) == m[i][p])
                || exists|q: int| 0 <= q < items.len() && #[trigger] items[q] == (i, all[i][p]) by {
            assert forall|p: int| 0 <= p < all[i].len() implies (m.contains_key(i) && p < m[i].len() && (
            #[trigger] all[i][p]) == m[i][p]) || exists|q: int|
                0 <= q < items.len() && #[trigger] items[q] == (i, all[i][p]) by {
                if i == row && p == all[i].len() - 1 {
                    assert(items[items.len() - 1] == (i, all[i][p]));
                } else {
                    assert(prev.contains_key(i));
                    assert(all[i][p] == prev[i][p]);
                    if !(m.contains_key(i) && p < m[i].len() && prev[i][p] == m[i][p]) {
                        let q = choose|q: int| 0 <= q < its.len() && #[trigger] its[q] == (i, prev[i][p]);
                        assert(items[q] == its[q]);
                    }
                }
            }
        }
    }
}

/// Preparing the unique constraints of a loaded file, from no recorded
/// violations, records violations only for rows of the file, and each one
/// names a unique constraint of the schema.
pub proof fn lemma_unique_violations_sound(
    slices: Seq<SliceView>,
    rows: Seq<OkRow>,
    schema: CsvSchema,
    r: Result<(), CsvCachingError>,
    final_slices: Seq<SliceView>,
    final_uniques: Map<usize, Seq<(u64, Seq<char>)>>,
)
    requires
        unique_outcome(slices, Map::empty(), true, rows, schema, r, final_slices, final_uniques),
    ensures
        forall|i: usize|
            #[trigger] final_uniques.contains_key(i) ==> i < rows.len() && forall|p: int|
                0 <= p < final_uniques[i].len() ==> exists|c: int|
                    0 <= c < schema.unique@.len() && (#[trigger] final_uniques[i][p]).1 == schema.unique@[c].name@,
{
    let sels = unique_selections(schema);
    let names = unique_names(schema);
    if sels.len() > 0 && rows.len() > 0 {
        let pass = unique_pass(slices, rows, sels);
        let items = violation_items(pass.1, rows, names);
        lemma_pass_in_range(slices, rows, sels);
        lemma_violations_from_items(Map::empty(), items);
        assert forall|i: usize| #[trigger] final_uniques.contains_key(i) implies i < rows.len() && forall|p: int|
            0 <= p < final_uniques[i].len() ==> exists|c: int|
                0 <= c < schema.unique@.len() && (#[trigger] final_uniques[i][p]).1 == schema.unique@[c].name@ by {
            assert(final_uniques[i].len() > 0) by {
                assert(final_uniques == add_unique_violations(Map::empty(), items));
                lemma_violations_nonempty(Map::empty(), items, i);
            }
            let q0 = choose|q: int| 0 <= q < items.len() && #[trigger] items[q] == (i, final_uniques[i][0]);
            assert(items[q0] == (pass.1[q0].0, (rows[pass.1[q0].1 as int].line_no, names[pass.1[q0].2 as int])));
            assert forall|p: int| 0 <= p < final_uniques[i].len() implies exists|c: int|
                0 <= c < schema.unique@.len() && (#[trigger] final_uniques[i][p]).1 == schema.unique@[c].name@ by {
                let q = choose|q: int| 0 <= q < items.len() && #[trigger] items[q] == (i, final_uniques[i][p]);
                assert(items[q] == (pass.1[q].0, (rows[pass.1[q].1 as int].line_no, names[pass.1[q].2 as int])));
                let c = pass.1[q].2 as int;
                assert(final_uniques[i][p].1 == schema.unique@[c].name@);
            }
        }
    }
}

/// A row that recording gives violations has at least one, when it had none
/// before.
proof fn lemma_violations_nonempty(m: Map<usize, Seq<(u64, Seq<char>)>>, items: Seq<(usize, (u64, Seq<char>))>, i: usize)
    requires
        m == Map::<usize, Seq<(u64, Seq<char>)>>::empty(),
        add_unique_violations(m, items).contains_key(i),
    ensures
        add_unique_violations(m, items)[i].len() > 0,
    decreases items.len(),
{
    if items.len() > 0 {
        if items.last().0 != i {
            lemma_violations_nonempty(m, items.drop_last(), i);
        }
    }
}

/// Whether two column selections are the same.
fn same_columns(a: &ColumnSelection, b: &ColumnSelection) -> (r: bool)
    ensures
        r == (a@ == b@),
{
    if a.len() != b.len() {
        return false;
    }
    let mut i: usize = 0;
    while i < a.len()
        invariant
            i <= a@.len(),
            a@.len() == b@.len(),
            forall|j: int| 0 <= j < i ==> a@[j] == b@[j],
        decreases a@.len() - i,
    {
        if a[i] != b[i] {
            return false;
        }
        i = i + 1;
    }
    assert(a@ =~= b@);
    true
}

} // verus!
