//! Validation of whole rows: every cell against its column, and every
//! foreign key against the file it references.

use crate::csv_cached::{index_state, row_hashes, slice_of, unique_columns_known, unique_selections, CachedCsv};
use crate::csv_cell_validators::{
    errors_view, rules_total, CellErrorView, CellValidationError, FloatVerdict, FloatVerdictView,
    ValueResultView, ValueValidationResult,
};
use crate::csv_reader::{columns_below, spec_row_hash, OkRow, RowMap};
use crate::csv_schema::{
    all_names_known, column_rules_gave, spec_eval_value, spec_selection, CellEvaluator, ColumnTypeView, CsvSchema,
    ForeignKey, ForeignKeyView, RowView, SchemaUniqueConstraint,
};
use crate::csv_workspace::CsvMapping;
use std::collections::HashMap;
use vstd::prelude::*;

verus! {

/// The column positions a hash is taken over.
pub type ColumnSelection = Vec<usize>;

/// Maps the hash of a row's selected cells to the row's position.
pub type RowHashMap = std::collections::HashMap<u64, usize>;

/// A cell that failed the check of its column.
#[derive(Debug)]
pub struct CellDataViolation {
    pub value: String,
    pub col_no: u16,
    pub line_no: u64,
    pub errors: Vec<CellValidationError>,
}

/// `CellDataViolation` with its text as characters.
pub struct CellViolationView {
    pub value: Seq<char>,
    pub col_no: u16,
    pub line_no: u64,
    pub errors: Seq<CellErrorView>,
}

impl View for CellDataViolation {
    type V = CellViolationView;

    open spec fn view(&self) -> CellViolationView {
        CellViolationView {
            value: self.value@,
            col_no: self.col_no,
            line_no: self.line_no,
            errors: errors_view(self.errors@),
        }
    }
}

/// A unique constraint together with the mask of its columns.
#[derive(Debug)]
pub struct UniqueConstraint {
    constraint: SchemaUniqueConstraint,
    bit_mask: Vec<u8>,
}

/// A row whose foreign key finds no row in the referenced file.
#[derive(Debug)]
pub struct ForeignKeyViolation {
    pub line_no: u64,
    pub foreign_key: ForeignKey,
}

/// `ForeignKeyViolation` with its text as characters.
pub struct FkViolationView {
    pub line_no: u64,
    pub foreign_key: ForeignKeyView,
}

impl View for ForeignKeyViolation {
    type V = FkViolationView;

    open spec fn view(&self) -> FkViolationView {
        FkViolationView { line_no: self.line_no, foreign_key: self.foreign_key@ }
    }
}

/// A row whose selected cells repeat those of the row on line `line_no`.
#[derive(Debug)]
pub struct UniqueViolation {
    pub line_no: u64,
    pub constraint_name: String,
}

impl View for UniqueViolation {
    type V = (u64, Seq<char>);

    open spec fn view(&self) -> (u64, Seq<char>) {
        (self.line_no, self.constraint_name@)
    }
}

/// Why a line was not validated.
#[derive(Debug)]
pub enum LineSkippedReason {
    ColumnMismatch { expected: u64, actual: u64 },
    UnknownError {},
}

/// The outcome of validating a row.
#[derive(Debug)]
pub enum RowCellsValidationResult {
    Valid { line_no: u64 },
    Skipped { line_no: u64, reason: LineSkippedReason },
    Error {
        line_no: u64,
        cell_data_violations: Vec<CellDataViolation>,
        fk_violations: Vec<ForeignKeyViolation>,
    },
}

/// `RowCellsValidationResult` with its text as characters.
pub enum RowResultView {
    Valid { line_no: u64 },
    Skipped { line_no: u64 },
    Error { line_no: u64, cells: Seq<CellViolationView>, fks: Seq<FkViolationView> },
}

/// The view of each cell violation of a list.
pub open spec fn cell_violations_view(v: Seq<CellDataViolation>) -> Seq<CellViolationView> {
    v.map_values(|c: CellDataViolation| c@)
}

/// The view of each foreign key violation of a list.
pub open spec fn fk_violations_view(v: Seq<ForeignKeyViolation>) -> Seq<FkViolationView> {
    v.map_values(|c: ForeignKeyViolation| c@)
}

impl View for RowCellsValidationResult {
    type V = RowResultView;

    open spec fn view(&self) -> RowResultView {
        match self {
            RowCellsValidationResult::Valid { line_no } => RowResultView::Valid { line_no: *line_no },
            RowCellsValidationResult::Skipped { line_no, .. } => RowResultView::Skipped {
                line_no: *line_no,
            },
            RowCellsValidationResult::Error { line_no, cell_data_violations, fk_violations } =>
                RowResultView::Error {
                line_no: *line_no,
                cells: cell_violations_view(cell_data_violations@),
                fks: fk_violations_view(fk_violations@),
            },
        }
    }
}

impl RowCellsValidationResult {
    /// The line the result is about.
    pub open spec fn spec_line_no(&self) -> u64 {
        match self {
            RowCellsValidationResult::Valid { line_no } => *line_no,
            RowCellsValidationResult::Skipped { line_no, .. } => *line_no,
            RowCellsValidationResult::Error { line_no, .. } => *line_no,
        }
    }

    /// The line the result is about.
    pub fn line_no(&self) -> (n: u64)
        ensures
            n == self.spec_line_no(),
    {
        match self {
            RowCellsValidationResult::Valid { line_no } => *line_no,
            RowCellsValidationResult::Skipped { line_no, .. } => *line_no,
            RowCellsValidationResult::Error { line_no, .. } => *line_no,
        }
    }
}


// ---------------------------------------------------------------- specs

/// The type of each column of a schema.
pub open spec fn column_types(schema: CsvSchema) -> Seq<ColumnTypeView> {
    schema.columns@.map_values(|c: crate::csv_schema::CsvColumnSchema| c.dtype@)
}

/// A row as (column name, cell) pairs, one per column of the schema.
pub open spec fn row_pairs(names: Seq<Seq<char>>, cells: Seq<Seq<char>>) -> RowView {
    Seq::new(names.len(), |i: int| (names[i], cells[i]))
}

/// The violations of the cells of a row, in column order: one for each
/// column whose check fails; `verdicts[i]` is what the float rules said of
/// cell `i`.
pub open spec fn spec_cell_violations(
    types: Seq<ColumnTypeView>,
    cells: Seq<Seq<char>>,
    line_no: u64,
    verdicts: Seq<FloatVerdictView>,
) -> Seq<CellViolationView>
    decreases types.len(),
{
    if types.len() == 0 {
        seq![]
    } else {
        let i = types.len() - 1;
        let prev = spec_cell_violations(types.drop_last(), cells, line_no, verdicts);
        match spec_eval_value(types[i], cells[i], verdicts[i]) {
            ValueResultView::Error { value, errors } => prev.push(
                CellViolationView { value, col_no: i as u16, line_no, errors },
            ),
            ValueResultView::Valid { .. } => prev,
        }
    }
}

/// The positions, in the referenced file, of the columns a foreign key
/// references.
pub open spec fn fk_selection(mapping: Map<Seq<char>, CachedCsv>, fk: ForeignKey) -> Seq<usize> {
    spec_selection(
        mapping[fk.references.file@].spec_schema().names(),
        fk.references.columns.deep_view(),
    )
}

/// A foreign key can be checked on a row of `row_len` cells: the referenced
/// file is in the workspace, its schema has the referenced columns, and their
/// positions are cells of the row.
pub open spec fn fk_checkable(mapping: Map<Seq<char>, CachedCsv>, fk: ForeignKey, row_len: nat) -> bool {
    &&& mapping.contains_key(fk.references.file@)
    &&& mapping[fk.references.file@].wf()
    &&& all_names_known(
        mapping[fk.references.file@].spec_schema().names(),
        fk.references.columns.deep_view(),
    )
    &&& columns_below(fk_selection(mapping, fk), row_len)
}

/// Every foreign key of a schema can be checked on a row of `row_len` cells.
pub open spec fn fks_checkable(mapping: Map<Seq<char>, CachedCsv>, fks: Seq<ForeignKey>, row_len: nat) -> bool {
    forall|k: int| 0 <= k < fks.len() ==> fk_checkable(mapping, #[trigger] fks[k], row_len)
}

/// The referenced file finds no row for the hash of the row's cells at the
/// referenced positions.
pub open spec fn fk_violated(mapping: Map<Seq<char>, CachedCsv>, fk: ForeignKey, cells: Seq<Seq<char>>) -> bool {
    let sel = fk_selection(mapping, fk);
    mapping[fk.references.file@].spec_find(sel, spec_row_hash(cells, sel)) is None
}

/// The violations of the foreign keys `fks` by a row, in order.
pub open spec fn spec_fk_violations(
    mapping: Map<Seq<char>, CachedCsv>,
    fks: Seq<ForeignKey>,
    cells: Seq<Seq<char>>,
    line_no: u64,
) -> Seq<FkViolationView>
    decreases fks.len(),
{
    if fks.len() == 0 {
        seq![]
    } else {
        let prev = spec_fk_violations(mapping, fks.drop_last(), cells, line_no);
        if fk_violated(mapping, fks.last(), cells) {
            prev.push(FkViolationView { line_no, foreign_key: fks.last()@ })
        } else {
            prev
        }
    }
}

/// `Valid` when nothing was violated, else `Error` with the violations.
pub open spec fn spec_row_result(
    line_no: u64,
    cells: Seq<CellViolationView>,
    fks: Seq<FkViolationView>,
) -> RowResultView {
    if cells.len() == 0 && fks.len() == 0 {
        RowResultView::Valid { line_no }
    } else {
        RowResultView::Error { line_no, cells, fks }
    }
}

/// The result of validating a row, given the float verdicts of its cells.
pub open spec fn spec_validate_row(
    schema: CsvSchema,
    mapping: Map<Seq<char>, CachedCsv>,
    row: OkRow,
    verdicts: Seq<FloatVerdictView>,
) -> RowResultView {
    spec_row_result(
        row.line_no,
        spec_cell_violations(column_types(schema), row.cells.deep_view(), row.line_no, verdicts),
        spec_fk_violations(mapping, schema.foreign_keys@, row.cells.deep_view(), row.line_no),
    )
}

/// `verdicts` holds, column by column, what the float rules `rules` gave on
/// the cells `cells` of a row of `schema` (`NotANumber` for the columns that
/// are not floats).
pub open spec fn rules_gave_row<F: Fn(&str, &Option<String>, &Option<String>) -> FloatVerdict>(
    rules: F,
    schema: CsvSchema,
    cells: Seq<Seq<char>>,
    verdicts: Seq<FloatVerdictView>,
) -> bool {
    &&& verdicts.len() == column_types(schema).len()
    &&& forall|i: int|
        0 <= i < verdicts.len() ==> column_rules_gave(rules, column_types(schema)[i], cells[i], #[trigger] verdicts[i])
}

/// `r` is the result of validating `row`, with verdicts that the float rules
/// `rules` gave on its cells.
pub open spec fn possible_row_result<F: Fn(&str, &Option<String>, &Option<String>) -> FloatVerdict>(
    rules: F,
    schema: CsvSchema,
    mapping: Map<Seq<char>, CachedCsv>,
    row: OkRow,
    r: RowResultView,
) -> bool {
    exists|verdicts: Seq<FloatVerdictView>|
        rules_gave_row(rules, schema, row.cells.deep_view(), verdicts) && r == spec_validate_row(
            schema,
            mapping,
            row,
            verdicts,
        )
}

/// A row can be validated against `schema` in `mapping`: it has a cell for
/// every column and every foreign key can be checked on it.
pub open spec fn row_checkable(schema: CsvSchema, mapping: CsvMapping, row: OkRow) -> bool {
    &&& row.cells@.len() >= schema.columns@.len()
    &&& mapping.wf()
    &&& fks_checkable(mapping@, schema.foreign_keys@, row.cells@.len())
}

// ---------------------------------------------------------------- validator

/// The rows seen so far for each unique constraint's column selection.
pub struct CsvValidator {
    unique_constraint_rows_seen: Vec<(ColumnSelection, RowHashMap)>,
}

impl CsvValidator {
    /// The column selections tracked, each once.
    pub closed spec fn selections(&self) -> Seq<Seq<usize>> {
        self.unique_constraint_rows_seen@.map_values(|e: (ColumnSelection, RowHashMap)| e.0@)
    }

    /// A validator tracking the column selection of every unique constraint
    /// of `schema`, each with no row seen yet.
    pub fn new(schema: &CsvSchema) -> (r: CsvValidator)
        requires
            unique_columns_known(*schema),
        ensures
            r.selections().to_set() == unique_selections(*schema).to_set(),
            r.selections().no_duplicates(),
    {
        let ghost sels = unique_selections(*schema);
        let mut seen: Vec<(ColumnSelection, RowHashMap)> = Vec::new();
        let mut j: usize = 0;
        while j < schema.unique.len()
            invariant
                j <= schema.unique@.len(),
                unique_columns_known(*schema),
                sels == unique_selections(*schema),
                seen@.map_values(|e: (ColumnSelection, RowHashMap)| e.0@).to_set() == sels.take(j as int).to_set(),
                seen@.map_values(|e: (ColumnSelection, RowHashMap)| e.0@).no_duplicates(),
            decreases schema.unique@.len() - j,
        {
            let sel = schema.named_col2col_selection(&schema.unique[j].columns);
            let ghost keys = seen@.map_values(|e: (ColumnSelection, RowHashMap)| e.0@);
            let mut k: usize = 0;
            let mut found = false;
            while k < seen.len()
                invariant
                    k <= seen@.len(),
                    keys == seen@.map_values(|e: (ColumnSelection, RowHashMap)| e.0@),
                    found ==> keys.contains(sel@),
                    !found ==> forall|q: int| 0 <= q < k ==> keys[q] != sel@,
                decreases seen@.len() - k,
            {
                if same_selection(&seen[k].0, &sel) {
                    assert(keys[k as int] == sel@);
                    found = true;
                }
                k = k + 1;
            }
            assert(sels.take(j + 1) == sels.take(j as int).push(sels[j as int]));
            assert(sel@ == sels[j as int]);
            proof {
                sels.take(j as int).lemma_push_to_set_commute(sels[j as int]);
            }
            if !found {
                seen.push((sel, HashMap::new()));
                assert(seen@.map_values(|e: (ColumnSelection, RowHashMap)| e.0@) =~= keys.push(sels[j as int]));
                assert(!keys.contains(sels[j as int]));
                proof {
                    keys.lemma_push_to_set_commute(sels[j as int]);
                    assert(keys.push(sels[j as int]).no_duplicates()) by {
                        assert forall|a: int, b: int| 0 <= a < keys.len() + 1 && 0 <= b < keys.len() + 1 && a != b implies keys.push(sels[j as int])[a] != keys.push(sels[j as int])[b] by {
                            if a < keys.len() && b < keys.len() {
                            } else if a == keys.len() {
                                assert(keys.push(sels[j as int])[b] == keys[b]);
                            } else {
                                assert(keys.push(sels[j as int])[a] == keys[a]);
                            }
                        }
                    }
                }
            } else {
                assert(keys.to_set().contains(sels[j as int]));
                assert(sels.take(j + 1).to_set() =~= sels.take(j as int).to_set());
            }
            j = j + 1;
        }
        assert(sels.take(schema.unique@.len() as int) == sels);
        CsvValidator { unique_constraint_rows_seen: seen }
    }

    /// The row as a map from column name to cell.
    fn build_row_map(&self, row: &OkRow, schema: &CsvSchema) -> (m: RowMap)
        requires
            row.cells@.len() >= schema.columns@.len(),
        ensures
            m@ == row_pairs(schema.names(), row.cells.deep_view()),
    {
        let mut m = RowMap::new();
        let mut i: usize = 0;
        while i < schema.columns.len()
            invariant
                i <= schema.columns@.len(),
                row.cells@.len() >= schema.columns@.len(),
                m@ == row_pairs(schema.names().take(i as int), row.cells.deep_view()),
            decreases schema.columns@.len() - i,
        {
            m.insert(schema.columns[i].name.clone(), row.cells[i].clone());
            assert(row_pairs(schema.names().take(i + 1), row.cells.deep_view()) =~= row_pairs(
                schema.names().take(i as int),
                row.cells.deep_view(),
            ).push((schema.names()[i as int], row.cells.deep_view()[i as int])));
            i = i + 1;
        }
        assert(schema.names().take(schema.columns@.len() as int) == schema.names());
        m
    }

    /// Checks every cell of the row against its column's type.
    fn validate_row_cells<F: Fn(&str, &Option<String>, &Option<String>) -> FloatVerdict>(&self, schema: &CsvSchema, row: &OkRow, rules: &F) -> (v: Vec<
        CellDataViolation,
    >)
        requires
            row.cells@.len() >= schema.columns@.len(),
            rules_total(*rules),
        ensures
            exists|verdicts: Seq<FloatVerdictView>|
                rules_gave_row(*rules, *schema, row.cells.deep_view(), verdicts) && cell_violations_view(v@)
                    == spec_cell_violations(column_types(*schema), row.cells.deep_view(), row.line_no, verdicts),
    {
        let row_map = self.build_row_map(row, schema);
        let mut cell_violations: Vec<CellDataViolation> = Vec::new();
        let ghost types = column_types(*schema);
        let ghost cells = row.cells.deep_view();
        let ghost mut verdicts: Seq<FloatVerdictView> = seq![];
        let mut col_idx: usize = 0;
        while col_idx < schema.columns.len()
            invariant
                col_idx <= schema.columns@.len(),
                row.cells@.len() >= schema.columns@.len(),
                types == column_types(*schema),
                cells == row.cells.deep_view(),
                verdicts.len() == col_idx,
                rules_total(*rules),
                forall|i: int|
                    0 <= i < col_idx ==> column_rules_gave(*rules, types[i], cells[i], #[trigger] verdicts[i]),
                cell_violations_view(cell_violations@) == spec_cell_violations(
                    types.take(col_idx as int),
                    cells,
                    row.line_no,
                    verdicts,
                ),
            decreases schema.columns@.len() - col_idx,
        {
            let result = schema.columns[col_idx].dtype.eval_value(row.cells[col_idx].as_str(), &row_map, rules);
            let ghost vd = choose|v: FloatVerdictView|
                column_rules_gave(*rules, types[col_idx as int], cells[col_idx as int], v) && result@
                    == spec_eval_value(types[col_idx as int], cells[col_idx as int], v);
            let ghost prev_verdicts = verdicts;
            proof {
                verdicts = verdicts.push(vd);
                assert(types.take(col_idx + 1).drop_last() == types.take(col_idx as int));
                lemma_cell_violations_verdict_prefix(types.take(col_idx as int), cells, row.line_no, prev_verdicts, verdicts);
            }
            if let ValueValidationResult::Error { value, errors } = result {
                let violation = CellDataViolation {
                    value,
                    col_no: col_idx as u16,
                    line_no: row.line_no,
                    errors,
                };
                cell_violations.push(violation);
                assert(cell_violations_view(cell_violations@) =~= cell_violations_view(
                    cell_violations@.drop_last(),
                ).push(violation@));
            }
            col_idx = col_idx + 1;
        }
        assert(types.take(schema.columns@.len() as int) == types);
        assert(rules_gave_row(*rules, *schema, cells, verdicts));
        cell_violations
    }

    /// Checks every foreign key of the schema on the row: a key is violated
    /// when the referenced file finds no row for the hash of the row's cells
    /// at the referenced positions.
    pub fn validate_foreign_key_constraints(
        &self,
        row: &OkRow,
        csv_mapping: &CsvMapping,
        schema: &CsvSchema,
    ) -> (v: Vec<ForeignKeyViolation>)
        requires
            csv_mapping.wf(),
            fks_checkable(csv_mapping@, schema.foreign_keys@, row.cells@.len()),
        ensures
            fk_violations_view(v@) == spec_fk_violations(
                csv_mapping@,
                schema.foreign_keys@,
                row.cells.deep_view(),
                row.line_no,
            ),
    {
        let mut violations: Vec<ForeignKeyViolation> = Vec::new();
        let mut k: usize = 0;
        let ghost fks = schema.foreign_keys@;
        while k < schema.foreign_keys.len()
            invariant
                k <= fks.len(),
                fks == schema.foreign_keys@,
                csv_mapping.wf(),
                fks_checkable(csv_mapping@, fks, row.cells@.len()),
                fk_violations_view(violations@) == spec_fk_violations(
                    csv_mapping@,
                    fks.take(k as int),
                    row.cells.deep_view(),
                    row.line_no,
                ),
            decreases fks.len() - k,
        {
            let fk = &schema.foreign_keys[k];
            assert(fk_checkable(csv_mapping@, fks[k as int], row.cells@.len()));
            assert(fks.take(k + 1).drop_last() == fks.take(k as int));
            let ref_csv = match csv_mapping.get(fk.references.file.as_str()) {
                Some(c) => c,
                None => {
                    assert(false);
                    return violations;
                },
            };
            let column_selection = ref_csv.schema().named_col2col_selection(&fk.references.columns);
            assert(column_selection@ == fk_selection(csv_mapping@, *fk));
            let row_hash = row.hash(&column_selection);
            let found = ref_csv.find_row(&column_selection, row_hash);
            if found.is_err() {
                let violation = ForeignKeyViolation { line_no: row.line_no, foreign_key: fk.clone() };
                violations.push(violation);
                assert(fk_violations_view(violations@) =~= fk_violations_view(violations@.drop_last()).push(
                    violation@,
                ));
            }
            k = k + 1;
        }
        assert(fks.take(fks.len() as int) == fks);
        violations
    }

    /// Validates the cells and the foreign keys of a row.
    pub fn validate_row<F: Fn(&str, &Option<String>, &Option<String>) -> FloatVerdict>(
        &mut self,
        row: &OkRow,
        schema: &CsvSchema,
        csv_mapping: &CsvMapping,
        rules: &F,
    ) -> (r: RowCellsValidationResult)
        requires
            row_checkable(*schema, *csv_mapping, *row),
            rules_total(*rules),
        ensures
            possible_row_result(*rules, *schema, csv_mapping@, *row, r@),
            final(self).selections() == old(self).selections(),
    {
        let cell_violations = self.validate_row_cells(schema, row, rules);
        let fk_violations = self.validate_foreign_key_constraints(row, csv_mapping, schema);
        let has_errors = cell_violations.len() != 0 || fk_violations.len() != 0;
        let ghost verdicts = choose|verdicts: Seq<FloatVerdictView>|
            rules_gave_row(*rules, *schema, row.cells.deep_view(), verdicts) && cell_violations_view(
                cell_violations@,
            ) == spec_cell_violations(column_types(*schema), row.cells.deep_view(), row.line_no, verdicts);
        let r = if has_errors {
            RowCellsValidationResult::Error {
                line_no: row.line_no,
                cell_data_violations: cell_violations,
                fk_violations,
            }
        } else {
            RowCellsValidationResult::Valid { line_no: row.line_no }
        };
        assert(r@ == spec_validate_row(*schema, csv_mapping@, *row, verdicts));
        r
    }

    /// Does nothing.
    pub fn validate_row22(&mut self, row: &OkRow, csv_schema: &CsvSchema)
        ensures
            final(self).selections() == old(self).selections(),
    {
    }
}

/// Whether two column selections are the same.
fn same_selection(a: &ColumnSelection, b: &ColumnSelection) -> (r: bool)
    ensures
        r == (a@ == b@),
{
    if a.len() != b.len() {
        return false;
    }
    let mut i: usize = 0;
    while i < a.len()
        invariant
            i <= a@.len(),
            a@.len() == b@.len(),
            forall|j: int| 0 <= j < i ==> a@[j] == b@[j],
        decreases a@.len() - i,
    {
        if a[i] != b[i] {
            return false;
        }
        i = i + 1;
    }
    assert(a@ =~= b@);
    true
}

/// The violations of the first columns do not depend on the verdicts of
/// later columns.
pub proof fn lemma_cell_violations_verdict_prefix(
    types: Seq<ColumnTypeView>,
    cells: Seq<Seq<char>>,
    line_no: u64,
    a: Seq<FloatVerdictView>,
    b: Seq<FloatVerdictView>,
)
    requires
        types.len() <= a.len() <= b.len(),
        forall|i: int| 0 <= i < a.len() ==> a[i] == b[i],
    ensures
        spec_cell_violations(types, cells, line_no, a) == spec_cell_violations(types, cells, line_no, b),
    decreases types.len(),
{
    if types.len() > 0 {
        lemma_cell_violations_verdict_prefix(types.drop_last(), cells, line_no, a, b);
    }
}


/// Every column of a row is checked, the last one included: a column whose
/// cell fails the check of its type gives a violation with the column's
/// number, the cell, the line and the errors of that check; a column whose
/// cell passes gives none; and every violation is of a failing column.
pub proof fn lemma_cell_violations_per_column(
    types: Seq<ColumnTypeView>,
    cells: Seq<Seq<char>>,
    line_no: u64,
    verdicts: Seq<FloatVerdictView>,
)
    requires
        types.len() <= cells.len(),
        types.len() <= verdicts.len(),
        types.len() <= 65536,
    ensures
        forall|i: int|
            #![trigger types[i]]
            0 <= i < types.len() ==> match spec_eval_value(types[i], cells[i], verdicts[i]) {
                ValueResultView::Error { value, errors } => spec_cell_violations(
                    types,
                    cells,
                    line_no,
                    verdicts,
                ).contains(CellViolationView { value, col_no: i as u16, line_no, errors }),
                ValueResultView::Valid { .. } => forall|q: int|
                    0 <= q < spec_cell_violations(types, cells, line_no, verdicts).len() ==> (#[trigger] spec_cell_violations(
                        types,
                        cells,
                        line_no,
                        verdicts,
                    )[q]).col_no != i,
            },
        forall|q: int|
            #![trigger spec_cell_violations(types, cells, line_no, verdicts)[q]]
            0 <= q < spec_cell_violations(types, cells, line_no, verdicts).len() ==> {
                let v = spec_cell_violations(types, cells, line_no, verdicts)[q];
                &&& v.col_no < types.len()
                &&& v.line_no == line_no
                &&& spec_eval_value(types[v.col_no as int], cells[v.col_no as int], verdicts[v.col_no as int])
                    == ValueResultView::Error { value: v.value, errors: v.errors }
            },
    decreases types.len(),
{
    let all = spec_cell_violations(types, cells, line_no, verdicts);
    if types.len() > 0 {
        let n = types.len() - 1;
        let tp = types.drop_last();
        let prev = spec_cell_violations(tp, cells, line_no, verdicts);
        lemma_cell_violations_per_column(tp, cells, line_no, verdicts);
        assert forall|q: int| 0 <= q < prev.len() implies all[q] == prev[q] by {}
        assert forall|i: int| #![trigger types[i]] 0 <= i < types.len() implies match spec_eval_value(
            types[i],
            cells[i],
            verdicts[i],
        ) {
            ValueResultView::Error { value, errors } => spec_cell_violations(types, cells, line_no, verdicts).contains(
                CellViolationView { value, col_no: i as u16, line_no, errors },
            ),
            ValueResultView::Valid { .. } => forall|q: int|
                0 <= q < spec_cell_violations(types, cells, line_no, verdicts).len() ==> (#[trigger] spec_cell_violations(
                    types,
                    cells,
                    line_no,
                    verdicts,
                )[q]).col_no != i,
        } by {
            if i < n {
                assert(types[i] == tp[i]);
                match spec_eval_value(types[i], cells[i], verdicts[i]) {
                    ValueResultView::Error { value, errors } => {
                        let x = CellViolationView { value, col_no: i as u16, line_no, errors };
                        assert(prev.contains(x));
                        let p = choose|p: int| 0 <= p < prev.len() && prev[p] == x;
                        assert(all[p] == x);
                    },
                    ValueResultView::Valid { .. } => {
                        assert forall|q: int| 0 <= q < all.len() implies (#[trigger] all[q]).col_no != i by {
                            if q < prev.len() {
                                assert(all[q] == prev[q]);
                            }
                        }
                    },
                }
            } else {
                match spec_eval_value(types[i], cells[i], verdicts[i]) {
                    ValueResultView::Error { value, errors } => {
                        assert(all[all.len() - 1] == CellViolationView { value, col_no: i as u16, line_no, errors });
                    },
                    ValueResultView::Valid { .. } => {
                        assert forall|q: int| 0 <= q < all.len() implies (#[trigger] all[q]).col_no != i by {
                            assert(all[q] == prev[q]);
                        }
                    },
                }
            }
        }
        assert forall|q: int|
            #![trigger spec_cell_violations(types, cells, line_no, verdicts)[q]]
            0 <= q < spec_cell_violations(types, cells, line_no, verdicts).len() implies {
                let v = spec_cell_violations(types, cells, line_no, verdicts)[q];
                &&& v.col_no < types.len()
                &&& v.line_no == line_no
                &&& spec_eval_value(types[v.col_no as int], cells[v.col_no as int], verdicts[v.col_no as int])
                    == ValueResultView::Error { value: v.value, errors: v.errors }
            } by {
            if q < prev.len() {
                assert(all[q] == prev[q]);
                assert(types[prev[q].col_no as int] == tp[prev[q].col_no as int]);
            }
        }
    }
}

/// Every foreign key of a row is checked, not only the first: a key whose
/// referenced file finds no row for the row's hash over the referenced
/// columns gives a violation with the key and the line; a key whose file
/// finds one gives none; and every violation is of a violated key.
pub proof fn lemma_fk_violations_per_key(
    mapping: Map<Seq<char>, CachedCsv>,
    fks: Seq<ForeignKey>,
    cells: Seq<Seq<char>>,
    line_no: u64,
)
    ensures
        forall|k: int|
            #![trigger fks[k]]
            0 <= k < fks.len() ==> if fk_violated(mapping, fks[k], cells) {
                spec_fk_violations(mapping, fks, cells, line_no).contains(
                    FkViolationView { line_no, foreign_key: fks[k]@ },
                )
            } else {
                forall|q: int|
                    0 <= q < spec_fk_violations(mapping, fks, cells, line_no).len() ==> (#[trigger] spec_fk_violations(
                        mapping,
                        fks,
                        cells,
                        line_no,
                    )[q]).foreign_key != fks[k]@
            },
        forall|q: int|
            #![trigger spec_fk_violations(mapping, fks, cells, line_no)[q]]
            0 <= q < spec_fk_violations(mapping, fks, cells, line_no).len() ==> exists|k: int|
                #![trigger fks[k]]
                0 <= k < fks.len() && fk_violated(mapping, fks[k], cells) && spec_fk_violations(
                    mapping,
                    fks,
                    cells,
                    line_no,
                )[q] == (FkViolationView { line_no, foreign_key: fks[k]@ }),
    decreases fks.len(),
{
    if fks.len() > 0 {
        let n = fks.len() - 1;
        let fp = fks.drop_last();
        let all = spec_fk_violations(mapping, fks, cells, line_no);
        let prev = spec_fk_violations(mapping, fp, cells, line_no);
        lemma_fk_violations_per_key(mapping, fp, cells, line_no);
        assert forall|q: int| 0 <= q < prev.len() implies all[q] == prev[q] by {}
        assert forall|q: int|
            #![trigger spec_fk_violations(mapping, fks, cells, line_no)[q]]
            0 <= q < spec_fk_violations(mapping, fks, cells, line_no).len() implies exists|k: int|
                #![trigger fks[k]]
                0 <= k < fks.len() && fk_violated(mapping, fks[k], cells) && spec_fk_violations(
                    mapping,
                    fks,
                    cells,
                    line_no,
                )[q] == (FkViolationView { line_no, foreign_key: fks[k]@ }) by {
            if q < prev.len() {
                assert(all[q] == prev[q]);
                let k = choose|k: int|
                    #![trigger fp[k]]
                    0 <= k < fp.len() && fk_violated(mapping, fp[k], cells) && prev[q] == (FkViolationView {
                        line_no,
                        foreign_key: fp[k]@,
                    });
                assert(fks[k] == fp[k]);
            } else {
                assert(fks[n] == fks.last());
            }
        }
        assert forall|k: int|
            #![trigger fks[k]]
            0 <= k < fks.len() implies if fk_violated(mapping, fks[k], cells) {
                spec_fk_violations(mapping, fks, cells, line_no).contains(
                    FkViolationView { line_no, foreign_key: fks[k]@ },
                )
            } else {
                forall|q: int|
                    0 <= q < spec_fk_violations(mapping, fks, cells, line_no).len() ==> (#[trigger] spec_fk_violations(
                        mapping,
                        fks,
                        cells,
                        line_no,
                    )[q]).foreign_key != fks[k]@
            } by {
            if fk_violated(mapping, fks[k], cells) {
                let x = FkViolationView { line_no, foreign_key: fks[k]@ };
                if k < n {
                    assert(fks[k] == fp[k]);
                    assert(prev.contains(x));
                    let p = choose|p: int| 0 <= p < prev.len() && prev[p] == x;
                    assert(all[p] == x);
                } else {
                    assert(all[all.len() - 1] == x);
                }
            } else {
                assert forall|q: int| 0 <= q < all.len() implies (#[trigger] all[q]).foreign_key != fks[k]@ by {
                    if all[q].foreign_key == fks[k]@ {
                        let m = choose|m: int|
                            #![trigger fks[m]]
                            0 <= m < fks.len() && fk_violated(mapping, fks[m], cells) && all[q] == (FkViolationView {
                                line_no,
                                foreign_key: fks[m]@,
                            });
                        assert(fks[m].references.file@ == fks[k].references.file@);
                        assert(fks[m].references.columns.deep_view() == fks[k].references.columns.deep_view());
                        assert(fk_selection(mapping, fks[m]) == fk_selection(mapping, fks[k]));
                    }
                }
            }
        }
    }
}

/// A foreign key holds for a row when the referenced file has been indexed
/// over the referenced positions and one of its rows holds the same values
/// as the row at those positions.
pub proof fn lemma_fk_satisfied_by_matching_row(
    mapping: Map<Seq<char>, CachedCsv>,
    fk: ForeignKey,
    cells: Seq<Seq<char>>,
    init: Map<u64, usize>,
    r: int,
)
    requires
        mapping.contains_key(fk.references.file@),
        mapping[fk.references.file@].wf(),
        mapping[fk.references.file@].loaded(),
        slice_of(mapping[fk.references.file@].slices(), fk_selection(mapping, fk)) == Some(
            index_state(init, row_hashes(mapping[fk.references.file@].rows(), fk_selection(mapping, fk))),
        ),
        0 <= r < mapping[fk.references.file@].rows().len(),
        mapping[fk.references.file@].rows()[r].cells@.len() == cells.len(),
        cells.len() <= usize::MAX,
        forall|k: int|
            0 <= k < fk_selection(mapping, fk).len() && fk_selection(mapping, fk)[k] < cells.len()
                ==> mapping[fk.references.file@].rows()[r].cells@[fk_selection(mapping, fk)[k] as int]@
                == cells[fk_selection(mapping, fk)[k] as int],
    ensures
        !fk_violated(mapping, fk, cells),
{
    let target = mapping[fk.references.file@];
    let sel = fk_selection(mapping, fk);
    let a = target.rows()[r].cells.deep_view();
    assert forall|k: int| 0 <= k < sel.len() && sel[k] < a.len() implies a[sel[k] as int] == cells[sel[k] as int] by {
        assert(a[sel[k] as int] == target.rows()[r].cells@[sel[k] as int]@);
    }
    crate::csv_reader::lemma_row_hash_agree(a, cells, sel);
    target.lemma_find_after_index(sel, init, r);
}

/// The result of a row is about the row's line, and is `Valid` exactly when
/// no cell and no foreign key is violated.
pub proof fn lemma_row_result_line(line_no: u64, cells: Seq<CellViolationView>, fks: Seq<FkViolationView>)
    ensures
        spec_row_result(line_no, cells, fks) is Valid <==> cells.len() == 0 && fks.len() == 0,
        match spec_row_result(line_no, cells, fks) {
            RowResultView::Valid { line_no: l } => l == line_no,
            RowResultView::Error { line_no: l, cells: c, fks: f } => l == line_no && c == cells && f == fks,
            RowResultView::Skipped { .. } => false,
        },
{
}

} // verus!
