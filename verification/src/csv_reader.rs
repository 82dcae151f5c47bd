//! Rows of a CSV file as the library holds them, and the split of raw
//! records into well-formed rows and rejected rows.

use crate::csv_schema::{CsvColumnSchema, CsvSchema, CsvSchemaSettings};
use crate::hashing::{hash_vec, spec_hash_vec, str_views};
use vstd::prelude::*;

verus! {

/// The cells of `cells` whose index is in `columns`, in the order of the row.
/// An index named twice selects its cell once.
pub open spec fn select_cells(cells: Seq<Seq<char>>, columns: Seq<usize>) -> Seq<Seq<char>>
    decreases cells.len(),
{
    if cells.len() == 0 {
        seq![]
    } else {
        let prev = select_cells(cells.drop_last(), columns);
        if columns.contains((cells.len() - 1) as usize) {
            prev.push(cells.last())
        } else {
            prev
        }
    }
}

/// The hash of the cells of a row that a column selection picks.
pub open spec fn spec_row_hash(cells: Seq<Seq<char>>, columns: Seq<usize>) -> u64 {
    spec_hash_vec(select_cells(cells, columns))
}

/// Every index of `columns` is below `len`.
pub open spec fn columns_below(columns: Seq<usize>, len: nat) -> bool {
    forall|k: int| 0 <= k < columns.len() ==> columns[k] < len
}

/// A row whose number of cells matched the schema.
#[derive(Debug)]
pub struct OkRow {
    pub line_no: u64,
    pub cells: Vec<String>,
    pub index: usize,
}

/// A flag for each of `len` cells: whether its index occurs in `columns`.
pub(crate) fn selection_mask(len: usize, columns: &Vec<usize>) -> (mask: Vec<bool>)
    requires
        columns_below(columns@, len as nat),
    ensures
        mask@.len() == len,
        forall|j: int| 0 <= j < len ==> mask@[j] == columns@.contains(j as usize),
{
    let mut mask: Vec<bool> = Vec::new();
    let mut j: usize = 0;
    while j < len
        invariant
            j <= len,
            mask@.len() == j,
            forall|t: int| 0 <= t < j ==> !mask@[t],
        decreases len - j,
    {
        mask.push(false);
        j = j + 1;
    }
    let mut k: usize = 0;
    while k < columns.len()
        invariant
            k <= columns@.len(),
            mask@.len() == len,
            columns_below(columns@, len as nat),
            forall|t: int|
                0 <= t < len ==> mask@[t] == (exists|q: int|
                    0 <= q < k && columns@[q] == t as usize),
        decreases columns@.len() - k,
    {
        let c = columns[k];
        mask.set(c, true);
        assert forall|t: int| 0 <= t < len implies mask@[t] == (exists|q: int|
            0 <= q < k + 1 && columns@[q] == t as usize) by {
            if t == c as int {
                assert(columns@[k as int] == t as usize);
            }
        }
        k = k + 1;
    }
    assert forall|j: int| 0 <= j < len implies mask@[j] == columns@.contains(j as usize) by {
        if columns@.contains(j as usize) {
            let q = choose|q: int| 0 <= q < columns@.len() && columns@[q] == j as usize;
            assert(columns@[q] == j as usize);
        }
    }
    mask
}

/// Hashes the cells of `cells` whose flag in `mask` is set; the flags are
/// those of the selection `columns`.
pub(crate) fn hash_masked(cells: &Vec<String>, mask: &Vec<bool>, Ghost(columns): Ghost<Seq<usize>>) -> (h: u64)
    requires
        cells@.len() <= mask@.len(),
        forall|j: int| 0 <= j < mask@.len() ==> mask@[j] == columns.contains(j as usize),
    ensures
        h == spec_row_hash(cells.deep_view(), columns),
{
    let n = cells.len();
    let mut source: Vec<&str> = Vec::new();
    let mut idx: usize = 0;
    let ghost cs = cells.deep_view();
    while idx < n
        invariant
            idx <= n,
            n == cells@.len(),
            n <= mask@.len(),
            cs == cells.deep_view(),
            forall|j: int| 0 <= j < mask@.len() ==> mask@[j] == columns.contains(j as usize),
            str_views(source@) == select_cells(cs.take(idx as int), columns),
        decreases n - idx,
    {
        assert(cs.take(idx + 1).drop_last() == cs.take(idx as int));
        if mask[idx] {
            source.push(cells[idx].as_str());
            assert(str_views(source@) == str_views(source@.drop_last()).push(cells@[idx as int]@));
        }
        idx = idx + 1;
    }
    assert(cs.take(n as int) == cs);
    hash_vec(source.as_slice())
}

impl OkRow {
    /// The row as a map from the name of each column of `schema` to its cell.
    pub fn as_hashmap(&self, schema: &Vec<CsvColumnSchema>) -> (m: RowMap)
        requires
            self.cells@.len() == schema@.len(),
        ensures
            m@ == Seq::new(schema@.len(), |i: int| (schema@[i].name@, self.cells@[i]@)),
    {
        let mut m = RowMap::new();
        let mut i: usize = 0;
        while i < schema.len()
            invariant
                i <= schema@.len(),
                self.cells@.len() == schema@.len(),
                m@ == Seq::new(i as nat, |j: int| (schema@[j].name@, self.cells@[j]@)),
            decreases schema@.len() - i,
        {
            m.insert(schema[i].name.clone(), self.cells[i].clone());
            assert(m@ =~= Seq::new((i + 1) as nat, |j: int| (schema@[j].name@, self.cells@[j]@)));
            i = i + 1;
        }
        m
    }

    /// Hashes the cells that `column_selection` picks, in the order of the row.
    pub fn hash(&self, column_selection: &Vec<usize>) -> (h: u64)
        requires
            columns_below(column_selection@, self.cells@.len()),
        ensures
            h == spec_row_hash(self.cells.deep_view(), column_selection@),
    {
        let mask = selection_mask(self.cells.len(), column_selection);
        hash_masked(&self.cells, &mask, Ghost(column_selection@))
    }
}

/// Rows that agree on the selected cells select the same cells.
pub proof fn lemma_select_cells_agree(a: Seq<Seq<char>>, b: Seq<Seq<char>>, columns: Seq<usize>)
    requires
        a.len() == b.len(),
        forall|i: int| 0 <= i < a.len() && columns.contains(i as usize) ==> a[i] == b[i],
    ensures
        select_cells(a, columns) == select_cells(b, columns),
    decreases a.len(),
{
    if a.len() > 0 {
        lemma_select_cells_agree(a.drop_last(), b.drop_last(), columns);
        if columns.contains((a.len() - 1) as usize) {
            assert(a[a.len() - 1] == b[b.len() - 1]);
        }
    }
}

/// Two rows of equal width that hold the same values in the selected
/// columns have the same hash over those columns.
pub proof fn lemma_row_hash_agree(a: Seq<Seq<char>>, b: Seq<Seq<char>>, columns: Seq<usize>)
    requires
        a.len() == b.len(),
        a.len() <= usize::MAX,
        forall|k: int| 0 <= k < columns.len() && columns[k] < a.len() ==> a[columns[k] as int] == b[columns[k] as int],
    ensures
        spec_row_hash(a, columns) == spec_row_hash(b, columns),
{
    assert forall|i: int| 0 <= i < a.len() && columns.contains(i as usize) implies a[i] == b[i] by {
        let k = choose|k: int| 0 <= k < columns.len() && columns[k] == i as usize;
        assert(columns[k] as int == i);
    }
    lemma_select_cells_agree(a, b, columns);
}

/// Every row that reading gives has exactly the expected number of cells.
pub proof fn lemma_ok_rows_width(records: Seq<CsvRecordView>, expected: nat)
    ensures
        forall|i: int| 0 <= i < spec_ok_rows(records, expected).len() ==> (#[trigger] spec_ok_rows(records, expected)[i]).1.len() == expected,
    decreases records.len(),
{
    if records.len() > 0 {
        lemma_ok_rows_width(records.drop_last(), expected);
        let prev = spec_ok_rows(records.drop_last(), expected);
        let all = spec_ok_rows(records, expected);
        assert forall|i: int| 0 <= i < all.len() implies (#[trigger] all[i]).1.len() == expected by {
            if i < prev.len() {
                assert(all[i] == prev[i]);
            }
        }
    }
}

/// Whether two strings hold the same characters.
pub(crate) fn str_eq(a: &str, b: &str) -> (r: bool)
    ensures
        r == (a@ == b@),
{
    let x = crate::csv_cell_validators::chars_of(a);
    let y = crate::csv_cell_validators::chars_of(b);
    if x.len() != y.len() {
        return false;
    }
    let mut i: usize = 0;
    while i < x.len()
        invariant
            i <= x@.len(),
            x@.len() == y@.len(),
            x@ == a@,
            y@ == b@,
            forall|j: int| 0 <= j < i ==> x@[j] == y@[j],
        decreases x@.len() - i,
    {
        if x[i] != y[i] {
            assert(a@[i as int] != b@[i as int]);
            return false;
        }
        i = i + 1;
    }
    assert(x@ =~= y@);
    true
}

/// The value stored last under `key`, as a lookup in a map built by
/// inserting the entries in order finds it.
pub open spec fn row_get(row: Seq<(Seq<char>, Seq<char>)>, key: Seq<char>) -> Option<Seq<char>>
    decreases row.len(),
{
    if row.len() == 0 {
        None
    } else if row.last().0 == key {
        Some(row.last().1)
    } else {
        row_get(row.drop_last(), key)
    }
}

/// A row as a map from column name to cell value, the form in which
/// conditions and custom validators read it.
#[derive(Debug)]
pub struct RowMap {
    pub(crate) entries: Vec<(String, String)>,
}

impl View for RowMap {
    type V = Seq<(Seq<char>, Seq<char>)>;

    closed spec fn view(&self) -> Seq<(Seq<char>, Seq<char>)> {
        self.entries@.map_values(|e: (String, String)| (e.0@, e.1@))
    }
}

impl RowMap {
    /// An empty map.
    pub fn new() -> (m: RowMap)
        ensures
            m@ == Seq::<(Seq<char>, Seq<char>)>::empty(),
    {
        RowMap { entries: Vec::new() }
    }

    /// Sets `key` to `value`, replacing an earlier value of `key`.
    pub fn insert(&mut self, key: String, value: String)
        ensures
            final(self)@ == old(self)@.push((key@, value@)),
    {
        self.entries.push((key, value));
        assert(final(self)@ == old(self)@.push((key@, value@)));
    }

    /// The value of `key`, if it has one.
    pub fn get(&self, key: &str) -> (r: Option<&String>)
        ensures
            match r {
                Some(v) => row_get(self@, key@) == Some(v@),
                None => row_get(self@, key@) is None,
            },
    {
        let mut i = self.entries.len();
        assert(self@.take(i as int) == self@);
        while i > 0
            invariant
                i <= self.entries@.len(),
                row_get(self@, key@) == row_get(self@.take(i as int), key@),
            decreases i,
        {
            assert(self@.take(i as int).drop_last() == self@.take(i - 1));
            if str_eq(self.entries[i - 1].0.as_str(), key) {
                return Some(&self.entries[i - 1].1);
            }
            i = i - 1;
        }
        None
    }

    /// The number of entries, overwritten ones included.
    pub fn len(&self) -> (n: usize)
        ensures
            n == self@.len(),
    {
        self.entries.len()
    }

    /// The entry at position `i`, in the order of insertion.
    pub fn entry(&self, i: usize) -> (e: (&String, &String))
        requires
            i < self@.len(),
        ensures
            (e.0@, e.1@) == self@[i as int],
    {
        (&self.entries[i].0, &self.entries[i].1)
    }
}


/// Why a record did not become a row.
#[derive(Debug)]
pub enum CsvRowError {
    WrongColumnCount { expected: usize, actual: usize },
    ParseError(String),
    InvalidUtf8,
}

/// `CsvRowError` with its text as characters.
pub enum CsvRowErrorView {
    WrongColumnCount { expected: usize, actual: usize },
    ParseError(Seq<char>),
    InvalidUtf8,
}

impl View for CsvRowError {
    type V = CsvRowErrorView;

    open spec fn view(&self) -> CsvRowErrorView {
        match self {
            CsvRowError::WrongColumnCount { expected, actual } => CsvRowErrorView::WrongColumnCount {
                expected: *expected,
                actual: *actual,
            },
            CsvRowError::ParseError(m) => CsvRowErrorView::ParseError(m@),
            CsvRowError::InvalidUtf8 => CsvRowErrorView::InvalidUtf8,
        }
    }
}

/// A record that was rejected, with the line it started on.
#[derive(Debug)]
pub struct ErrorRow {
    pub line_no: u64,
    pub reason: CsvRowError,
}

/// A record as the CSV reader hands it over: the raw fields of a line, or
/// the reader's message for a line it could not read. A line number of 0
/// stands for an error without a position.
#[derive(Debug)]
pub enum CsvRecord {
    Fields { line_no: u64, fields: Vec<String> },
    Unreadable { line_no: u64, message: String },
}

/// `CsvRecord` with its text as characters.
pub enum CsvRecordView {
    Fields { line_no: u64, fields: Seq<Seq<char>> },
    Unreadable { line_no: u64, message: Seq<char> },
}

impl View for CsvRecord {
    type V = CsvRecordView;

    open spec fn view(&self) -> CsvRecordView {
        match self {
            CsvRecord::Fields { line_no, fields } => CsvRecordView::Fields {
                line_no: *line_no,
                fields: fields.deep_view(),
            },
            CsvRecord::Unreadable { line_no, message } => CsvRecordView::Unreadable {
                line_no: *line_no,
                message: message@,
            },
        }
    }
}

/// The characters of a string without leading and trailing white space, as
/// `str::trim` (std) returns them.
pub uninterp spec fn trimmed(s: Seq<char>) -> Seq<char>;

/// `str::trim` (std), copied into a `String`. Trusted: the result is the
/// trimmed text, a function of the input alone; which characters count as
/// white space is left to the name.
#[verifier::external_body]
fn trim(s: &str) -> (r: String)
    ensures
        r@ == trimmed(s@),
{
    s.trim().to_string()
}

/// The trimmed value of every field, in order.
pub open spec fn trimmed_fields(fields: Seq<Seq<char>>) -> Seq<Seq<char>> {
    fields.map_values(|f: Seq<char>| trimmed(f))
}

/// Trims every cell of a record.
pub fn csv_record_to_vec(fields: &Vec<String>) -> (cells: Vec<String>)
    ensures
        cells.deep_view() == trimmed_fields(fields.deep_view()),
{
    let mut cells: Vec<String> = Vec::new();
    let mut i: usize = 0;
    while i < fields.len()
        invariant
            i <= fields@.len(),
            cells.deep_view() == trimmed_fields(fields.deep_view().take(i as int)),
        decreases fields@.len() - i,
    {
        let c = trim(fields[i].as_str());
        cells.push(c);
        assert(trimmed_fields(fields.deep_view().take(i + 1)) == trimmed_fields(
            fields.deep_view().take(i as int),
        ).push(trimmed(fields.deep_view()[i as int])));
        i = i + 1;
    }
    assert(fields.deep_view().take(fields@.len() as int) == fields.deep_view());
    cells
}

/// The rows that the records in `records` give, when a row must have
/// `expected` cells: (line number, trimmed cells) of each record of the
/// right width, in order.
pub open spec fn spec_ok_rows(records: Seq<CsvRecordView>, expected: nat) -> Seq<(u64, Seq<Seq<char>>)>
    decreases records.len(),
{
    if records.len() == 0 {
        seq![]
    } else {
        let prev = spec_ok_rows(records.drop_last(), expected);
        match records.last() {
            CsvRecordView::Fields { line_no, fields } => if fields.len() == expected {
                prev.push((line_no, trimmed_fields(fields)))
            } else {
                prev
            },
            CsvRecordView::Unreadable { .. } => prev,
        }
    }
}

/// The rejected records of `records`, in order, with the reason of each.
pub open spec fn spec_error_rows(records: Seq<CsvRecordView>, expected: nat) -> Seq<(u64, CsvRowErrorView)>
    decreases records.len(),
{
    if records.len() == 0 {
        seq![]
    } else {
        let prev = spec_error_rows(records.drop_last(), expected);
        match records.last() {
            CsvRecordView::Fields { line_no, fields } => if fields.len() == expected {
                prev
            } else {
                prev.push(
                    (
                        line_no,
                        CsvRowErrorView::WrongColumnCount {
                            expected: expected as usize,
                            actual: fields.len() as usize,
                        },
                    ),
                )
            },
            CsvRecordView::Unreadable { line_no, message } => prev.push(
                (line_no, CsvRowErrorView::ParseError(message)),
            ),
        }
    }
}

/// Every record lands in exactly one of the two lists.
pub proof fn lemma_records_partition(records: Seq<CsvRecordView>, expected: nat)
    ensures
        spec_ok_rows(records, expected).len() + spec_error_rows(records, expected).len()
            == records.len(),
    decreases records.len(),
{
    if records.len() > 0 {
        lemma_records_partition(records.drop_last(), expected);
    }
}

/// Where each record lands when a file is read into rows of `expected`
/// cells: a record with exactly `expected` fields becomes a row holding all
/// its fields, trimmed, with its line; a record with another number of
/// fields is rejected as `WrongColumnCount` with that number; a record the
/// reader could not read is rejected with the reader's message. Every row
/// comes from such a record.
pub proof fn lemma_records_placed(records: Seq<CsvRecordView>, expected: nat)
    ensures
        forall|i: int|
            #![trigger records[i]]
            0 <= i < records.len() ==> match records[i] {
                CsvRecordView::Fields { line_no, fields } => if fields.len() == expected {
                    spec_ok_rows(records, expected).contains((line_no, trimmed_fields(fields)))
                } else {
                    spec_error_rows(records, expected).contains(
                        (
                            line_no,
                            CsvRowErrorView::WrongColumnCount {
                                expected: expected as usize,
                                actual: fields.len() as usize,
                            },
                        ),
                    )
                },
                CsvRecordView::Unreadable { line_no, message } => spec_error_rows(records, expected).contains(
                    (line_no, CsvRowErrorView::ParseError(message)),
                ),
            },
        forall|q: int|
            #![trigger spec_ok_rows(records, expected)[q]]
            0 <= q < spec_ok_rows(records, expected).len() ==> exists|i: int|
                #![trigger records[i]]
                0 <= i < records.len() && records[i] is Fields && records[i]->Fields_fields.len() == expected
                    && spec_ok_rows(records, expected)[q] == (
                    records[i]->Fields_line_no,
                    trimmed_fields(records[i]->Fields_fields),
                ),
    decreases records.len(),
{
    if records.len() > 0 {
        let prev = records.drop_last();
        lemma_records_placed(prev, expected);
        let ok = spec_ok_rows(records, expected);
        let okp = spec_ok_rows(prev, expected);
        let er = spec_error_rows(records, expected);
        let erp = spec_error_rows(prev, expected);
        let n = records.len() - 1;
        assert forall|x: (u64, Seq<Seq<char>>)| okp.contains(x) implies ok.contains(x) by {
            let p = choose|p: int| 0 <= p < okp.len() && okp[p] == x;
            assert(ok[p] == x);
        }
        assert forall|x: (u64, CsvRowErrorView)| erp.contains(x) implies er.contains(x) by {
            let p = choose|p: int| 0 <= p < erp.len() && erp[p] == x;
            assert(er[p] == x);
        }
        assert forall|i: int| #![trigger records[i]] 0 <= i < records.len() implies match records[i] {
            CsvRecordView::Fields { line_no, fields } => if fields.len() == expected {
                spec_ok_rows(records, expected).contains((line_no, trimmed_fields(fields)))
            } else {
                spec_error_rows(records, expected).contains(
                    (
                        line_no,
                        CsvRowErrorView::WrongColumnCount {
                            expected: expected as usize,
                            actual: fields.len() as usize,
                        },
                    ),
                )
            },
            CsvRecordView::Unreadable { line_no, message } => spec_error_rows(records, expected).contains(
                (line_no, CsvRowErrorView::ParseError(message)),
            ),
        } by {
            if i < n {
                assert(records[i] == prev[i]);
            } else {
                match records[i] {
                    CsvRecordView::Fields { line_no, fields } => {
                        if fields.len() == expected {
                            assert(ok[ok.len() - 1] == (line_no, trimmed_fields(fields)));
                        } else {
                            assert(er[er.len() - 1] == (
                                line_no,
                                CsvRowErrorView::WrongColumnCount {
                                    expected: expected as usize,
                                    actual: fields.len() as usize,
                                },
                            ));
                        }
                    },
                    CsvRecordView::Unreadable { line_no, message } => {
                        assert(er[er.len() - 1] == (line_no, CsvRowErrorView::ParseError(message)));
                    },
                }
            }
        }
        assert forall|q: int|
            #![trigger spec_ok_rows(records, expected)[q]]
            0 <= q < spec_ok_rows(records, expected).len() implies exists|i: int|
            #![trigger records[i]]
            0 <= i < records.len() && records[i] is Fields && records[i]->Fields_fields.len() == expected
                && spec_ok_rows(records, expected)[q] == (
                records[i]->Fields_line_no,
                trimmed_fields(records[i]->Fields_fields),
            ) by {
            if q < okp.len() {
                assert(ok[q] == okp[q]);
                let i = choose|i: int|
                    #![trigger prev[i]]
                    0 <= i < prev.len() && prev[i] is Fields && prev[i]->Fields_fields.len() == expected
                        && okp[q] == (prev[i]->Fields_line_no, trimmed_fields(prev[i]->Fields_fields));
                assert(records[i] == prev[i]);
            } else {
                assert(records[n] is Fields);
            }
        }
    } else {
        assert(spec_ok_rows(records, expected).len() == 0);
    }
}

/// The content of a CSV file as read at `timestamp` (nanoseconds since the
/// Unix epoch): rows of the schema's width and rejected records.
#[derive(Debug)]
pub struct CsvReadResult {
    pub ok_rows: Vec<OkRow>,
    pub error_rows: Vec<ErrorRow>,
    pub timestamp: u128,
}

/// The line numbers and cells of a list of rows.
pub open spec fn rows_view(rows: Seq<OkRow>) -> Seq<(u64, Seq<Seq<char>>)> {
    rows.map_values(|r: OkRow| (r.line_no, r.cells.deep_view()))
}

/// The line numbers and reasons of a list of rejected records.
pub open spec fn error_rows_view(rows: Seq<ErrorRow>) -> Seq<(u64, CsvRowErrorView)> {
    rows.map_values(|r: ErrorRow| (r.line_no, r.reason@))
}

/// Each row knows its position among the rows.
pub open spec fn rows_indexed(rows: Seq<OkRow>) -> bool {
    forall|i: int| 0 <= i < rows.len() ==> #[trigger] rows[i].index == i
}

impl CsvReadResult {
    /// Reads the content of a CSV file with the settings of `schema`; the
    /// same as `read_csv`.
    pub fn from_reader(input: &[u8], schema: &CsvSchema, timestamp: u128) -> (r: Self)
        requires
            schema.settings.delimiter@.len() > 0,
            schema.settings.comment@.len() > 0,
        ensures
            rows_view(r.ok_rows@) == spec_ok_rows(file_records(input@, schema.settings), schema.columns@.len()),
            error_rows_view(r.error_rows@) == spec_error_rows(file_records(input@, schema.settings), schema.columns@.len()),
            rows_indexed(r.ok_rows@),
            r.timestamp == timestamp,
    {
        read_csv(input, schema, timestamp)
    }

    /// The number of records read: rows and rejected records together.
    pub fn total_rows(&self) -> (n: usize)
        requires
            self.ok_rows@.len() + self.error_rows@.len() <= usize::MAX,
        ensures
            n == self.ok_rows@.len() + self.error_rows@.len(),
    {
        self.ok_rows.len() + self.error_rows.len()
    }
}

/// The view of each record of a list.
pub open spec fn records_view(records: Seq<CsvRecord>) -> Seq<CsvRecordView> {
    records.map_values(|c: CsvRecord| c@)
}

/// Splits records into rows with one trimmed cell per column of the schema
/// and rejected records, keeping their order; each row is numbered by its
/// position among the rows.
pub fn split_records(records: &Vec<CsvRecord>, schema: &CsvSchema, timestamp: u128) -> (r: CsvReadResult)
    ensures
        rows_view(r.ok_rows@) == spec_ok_rows(records_view(records@), schema.columns@.len()),
        error_rows_view(r.error_rows@) == spec_error_rows(records_view(records@), schema.columns@.len()),
        rows_indexed(r.ok_rows@),
        r.timestamp == timestamp,
{
    let expected_columns = schema.columns.len();
    let mut ok_rows: Vec<OkRow> = Vec::new();
    let mut error_rows: Vec<ErrorRow> = Vec::new();
    let ghost recs = records_view(records@);
    let mut i: usize = 0;
    while i < records.len()
        invariant
            i <= records@.len(),
            recs == records_view(records@),
            rows_view(ok_rows@) == spec_ok_rows(recs.take(i as int), expected_columns as nat),
            error_rows_view(error_rows@) == spec_error_rows(recs.take(i as int), expected_columns as nat),
            rows_indexed(ok_rows@),
        decreases records@.len() - i,
    {
        assert(recs.take(i + 1).drop_last() == recs.take(i as int));
        assert(recs.take(i + 1).last() == records@[i as int]@);
        match &records[i] {
            CsvRecord::Fields { line_no, fields } => {
                let cells = csv_record_to_vec(fields);
                assert(cells.deep_view().len() == cells@.len());
                assert(fields.deep_view().len() == fields@.len());
                assert(recs.take(i + 1).last() == (CsvRecordView::Fields { line_no: *line_no, fields: fields.deep_view() }));
                if cells.len() != expected_columns {
                    let actual = cells.len();
                    error_rows.push(ErrorRow {
                        line_no: *line_no,
                        reason: CsvRowError::WrongColumnCount { expected: expected_columns, actual },
                    });
                    assert(error_rows_view(error_rows@) == error_rows_view(error_rows@.drop_last()).push(error_rows@.last().view_pair()));
                } else {
                    let index = ok_rows.len();
                    ok_rows.push(OkRow { line_no: *line_no, cells, index });
                    assert(rows_view(ok_rows@) == rows_view(ok_rows@.drop_last()).push((*line_no, ok_rows@.last().cells.deep_view())));
                }
            },
            CsvRecord::Unreadable { line_no, message } => {
                assert(recs.take(i + 1).last() == (CsvRecordView::Unreadable { line_no: *line_no, message: message@ }));
                error_rows.push(ErrorRow { line_no: *line_no, reason: CsvRowError::ParseError(message.clone()) });
                assert(error_rows_view(error_rows@) == error_rows_view(error_rows@.drop_last()).push(error_rows@.last().view_pair()));
            },
        }
        i = i + 1;
    }
    assert(recs.take(records@.len() as int) == recs);
    CsvReadResult { ok_rows, error_rows, timestamp }
}

/// The records that the `csv` crate reads from `input` with no header row,
/// `delimiter` between fields, lines that start with `comment` skipped, the
/// backslash as escape and no doubled quotes.
pub uninterp spec fn csv_records(input: Seq<u8>, delimiter: u8, comment: u8) -> Seq<CsvRecordView>;

/// Reads every record of `input` through `csv::Reader::records` (csv crate),
/// the reader built by `csv::ReaderBuilder` with the settings above.
/// Trusted: the records are a function of the bytes and the two settings
/// alone. Each is a record's fields with the line it starts on (the crate
/// sets a position on every record it yields), or, where the reader fails,
/// its message and the line it gives (0 without one). Which records the
/// crate finds is left to the name.
#[verifier::external_body]
fn parse_records(input: &[u8], delimiter: u8, comment: u8) -> (r: Vec<CsvRecord>)
    ensures
        records_view(r@) == csv_records(input@, delimiter, comment),
{
    let mut reader = csv::ReaderBuilder::new().has_headers(false).delimiter(delimiter).double_quote(false)
        .escape(Some(b'\\')).comment(Some(comment)).from_reader(input);
    reader.records().map(|record| match record {
        Ok(row) => CsvRecord::Fields { line_no: row.position().unwrap().line(), fields: row.iter().map(|f| f.to_string()).collect() },
        Err(err) => CsvRecord::Unreadable { line_no: err.position().map(|p| p.line()).unwrap_or(0), message: err.to_string() },
    }).collect()
}

/// The first byte of the UTF-8 encoding of a text.
pub open spec fn first_byte(s: Seq<char>) -> u8 {
    vstd::utf8::encode_utf8(s)[0]
}

/// The records of a file's content, read with the delimiter and the comment
/// character of `settings` (the first byte of each).
pub open spec fn file_records(input: Seq<u8>, settings: CsvSchemaSettings) -> Seq<CsvRecordView> {
    csv_records(input, first_byte(settings.delimiter@), first_byte(settings.comment@))
}

proof fn lemma_encoding_nonempty(s: Seq<char>)
    requires
        s.len() > 0,
    ensures
        vstd::utf8::encode_utf8(s).len() > 0,
{
}

/// The delimiter and the comment character of `settings`: the first byte of
/// each.
pub fn reader_settings(settings: &CsvSchemaSettings) -> (r: (u8, u8))
    requires
        settings.delimiter@.len() > 0,
        settings.comment@.len() > 0,
    ensures
        r == (first_byte(settings.delimiter@), first_byte(settings.comment@)),
{
    proof {
        lemma_encoding_nonempty(settings.delimiter@);
        lemma_encoding_nonempty(settings.comment@);
    }
    let delimiter = settings.delimiter.as_str().as_bytes()[0];
    let comment = settings.comment.as_str().as_bytes()[0];
    (delimiter, comment)
}

/// Reads the content of a CSV file with the settings of `schema`: the
/// records the csv crate finds in `input`, split into rows of the schema's
/// width and rejected records as `split_records` splits them.
pub fn read_csv(input: &[u8], schema: &CsvSchema, timestamp: u128) -> (r: CsvReadResult)
    requires
        schema.settings.delimiter@.len() > 0,
        schema.settings.comment@.len() > 0,
    ensures
        rows_view(r.ok_rows@) == spec_ok_rows(file_records(input@, schema.settings), schema.columns@.len()),
        error_rows_view(r.error_rows@) == spec_error_rows(file_records(input@, schema.settings), schema.columns@.len()),
        rows_indexed(r.ok_rows@),
        r.timestamp == timestamp,
{
    let (delimiter, comment) = reader_settings(&schema.settings);
    let records = parse_records(input, delimiter, comment);
    split_records(&records, schema, timestamp)
}

impl ErrorRow {
    /// The line number and the reason of a rejected record.
    pub open spec fn view_pair(self) -> (u64, CsvRowErrorView) {
        (self.line_no, self.reason@)
    }
}

/// A CSV file could not be opened.
#[derive(Debug)]
pub enum CsvReadError {
    Io(std::io::Error),
}

/// `std::io::Error`, carried through to callers of the library.
#[verifier::external_type_specification]
#[verifier::external_body]
pub struct ExIoError(std::io::Error);

} // verus!
