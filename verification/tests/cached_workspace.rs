use csv_validator::csv_cached::{CachedCsv, CsvCachingError};
use csv_validator::csv_cell_validators::FloatVerdict;
use csv_validator::csv_reader::{split_records, CsvRecord};
use csv_validator::csv_row_validators::{CsvValidator, RowCellsValidationResult, UniqueViolation};
use csv_validator::csv_schema::{
    ColumnType, CsvColumnSchema, CsvSchema, CsvSchemaSettings, ForeignKey, ForeignReference,
    SchemaUniqueConstraint,
};
use csv_validator::csv_workspace::{fk_schema_filename, schema_filename_for, CachedCsvWorkspace, CsvMapping};
use csv_validator::summary::{row_is_ok, rows_to_report, summarize_results, SummaryGrade};

fn no_floats(_value: &str, _min: &Option<String>, _max: &Option<String>) -> FloatVerdict {
    FloatVerdict::NotANumber
}

fn col(name: &str, dtype: ColumnType) -> CsvColumnSchema {
    CsvColumnSchema { name: name.to_string(), required: None, dtype, overrides: None }
}

fn text() -> ColumnType {
    ColumnType::String { min_length: None, max_length: None, regex: None, custom_validator: None }
}

fn settings() -> CsvSchemaSettings {
    CsvSchemaSettings { comment: "#".to_string(), encoding: "utf8".to_string(), delimiter: ",".to_string() }
}

fn records(rows: &[&[&str]]) -> Vec<CsvRecord> {
    rows.iter()
        .enumerate()
        .map(|(i, r)| CsvRecord::Fields { line_no: (i + 1) as u64, fields: r.iter().map(|s| s.to_string()).collect() })
        .collect()
}

fn article_schema() -> CsvSchema {
    CsvSchema {
        columns: vec![
            col("id", ColumnType::Integer { min: Some(1), max: None }),
            col("code", text()),
        ],
        unique: vec![SchemaUniqueConstraint { columns: vec!["id".to_string()], name: "pk".to_string() }],
        foreign_keys: vec![ForeignKey {
            columns: vec!["code".to_string()],
            references: ForeignReference { file: "types.csv".to_string(), columns: vec!["code".to_string()] },
            name: "fk_type".to_string(),
        }],
        settings: settings(),
    }
}

fn type_schema() -> CsvSchema {
    // the referenced column sits at the same position as `code` in articles
    CsvSchema {
        columns: vec![col("label", text()), col("code", text())],
        unique: vec![],
        foreign_keys: vec![],
        settings: settings(),
    }
}

fn loaded(name: &str, schema: CsvSchema, rows: &[&[&str]]) -> CachedCsv {
    let content = split_records(&records(rows), &schema, 10);
    let mut c = CachedCsv::new(name.to_string(), schema);
    c.load(content);
    c
}

#[test]
fn content_needs_a_load() {
    let c = CachedCsv::new("a.csv".to_string(), type_schema());
    assert!(matches!(c.content(), Err(CsvCachingError::NoCsvLoaded)));
    assert!(!c.is_cache_stale(1_000));
    assert!(matches!(c.get_validated_rows(), Err(CsvCachingError::NoCsvLoaded)));
    assert!(matches!(c.get_validated_row(0), Err(CsvCachingError::CsvRowIndexError { index: 0 })));
}

#[test]
fn stale_after_newer_modification() {
    let c = loaded("t.csv", type_schema(), &[&["a", "A"]]);
    assert!(c.is_cache_stale(11));
    assert!(!c.is_cache_stale(10));
}

#[test]
fn index_columns_reports_duplicates_and_finds_rows() {
    let mut c = loaded("t.csv", type_schema(), &[&["x", "A"], &["y", "B"], &["z", "A"]]);
    let cols = vec![1usize];
    assert!(matches!(c.find_row(&cols, 0), Err(CsvCachingError::CsvSliceKeyError { .. })));
    let dups = c.index_columns(&cols).unwrap();
    assert_eq!(dups.len(), 1);
    assert_eq!((dups[0].new_element_idx, dups[0].existing_element_idx), (2, 0));
    let key = csv_validator::hashing::hash_vec(&["A"]);
    let found = c.find_row(&cols, key).unwrap();
    assert_eq!(found.line_no, 3);
    match c.find_row(&cols, key.wrapping_add(1)) {
        Err(CsvCachingError::CsvRowKeyError { columns, hash }) => {
            assert_eq!(columns, cols);
            assert_eq!(hash, key.wrapping_add(1));
        }
        Err(CsvCachingError::CsvSliceKeyError { .. }) | Ok(_) | Err(_) => {}
    }
    // indexing again starts from the existing index: every row repeats
    let again = c.index_columns(&cols).unwrap();
    assert_eq!(again.len(), 3);
    c.clear();
    match c.find_row(&cols, key) {
        Err(CsvCachingError::CsvSliceKeyError { available_columns, .. }) => assert!(available_columns.is_empty()),
        _ => panic!("index should be gone"),
    }
}

#[test]
fn index_columns_on_empty_or_missing_content() {
    let mut c = CachedCsv::new("t.csv".to_string(), type_schema());
    assert!(matches!(c.index_columns(&vec![0]), Err(CsvCachingError::NoCsvLoaded)));
    let mut e = loaded("t.csv", type_schema(), &[]);
    assert!(matches!(e.index_columns(&vec![0]), Err(CsvCachingError::CsvEmpty)));
    match e.find_row(&vec![0], 5) {
        Err(CsvCachingError::CsvRowKeyError { .. }) => {}
        _ => panic!("the empty index exists"),
    }
}

#[test]
fn unique_constraints_record_violations() {
    let mut c = loaded("a.csv", article_schema(), &[&["1", "A"], &["2", "B"], &["1", "C"], &["1", "D"]]);
    c.prepare_validation().unwrap();
    let mapping = CsvMapping::new();
    // no foreign key target: validate without rows needing it is not possible; use a mapping with types
    let _ = mapping;
    let mut types = loaded("types.csv", type_schema(), &[&["x", "A"], &["y", "B"]]);
    types.index_columns(&vec![1]).unwrap();
    let mut m = CsvMapping::new();
    m.insert("types.csv".to_string(), types);
    c.validate_rows(&m, &no_floats);
    let rows = c.get_validated_rows().unwrap();
    assert_eq!(rows.len(), 4);
    assert!(rows[0].1.is_none());
    let third = rows[2].1.unwrap();
    assert_eq!(third.len(), 1);
    assert_eq!(third[0].line_no, 1);
    assert_eq!(third[0].constraint_name, "pk");
    let fourth = rows[3].1.unwrap();
    assert_eq!(fourth[0].line_no, 3);
    // foreign keys: C and D are not codes of a type
    assert!(matches!(rows[0].0, RowCellsValidationResult::Valid { line_no: 1 }));
    assert!(matches!(rows[1].0, RowCellsValidationResult::Valid { line_no: 2 }));
    match rows[2].0 {
        RowCellsValidationResult::Error { line_no, cell_data_violations, fk_violations } => {
            assert_eq!(*line_no, 3);
            assert!(cell_data_violations.is_empty());
            assert_eq!(fk_violations.len(), 1);
            assert_eq!(fk_violations[0].foreign_key.name, "fk_type");
            assert_eq!(fk_violations[0].line_no, 3);
        }
        r => panic!("unexpected {:?}", r),
    }
    assert!(row_is_ok(rows[0].0, rows[0].1));
    assert!(!row_is_ok(rows[2].0, rows[2].1));
    let summary = summarize_results(&rows, true);
    assert_eq!(summary.total, 4);
    assert_eq!(summary.ok_rows, 2);
    assert_eq!(summary.hidden_ok_rows, 2);
    assert_eq!(summary.percent_ok, 50);
    assert_eq!(summary.grade, SummaryGrade::Poor);
    assert_eq!(rows[2].0.line_no(), 3);
}

#[test]
fn validate_row_reports_cell_violations() {
    let mut types = loaded("types.csv", type_schema(), &[&["x", "A"]]);
    types.index_columns(&vec![1]).unwrap();
    let mut m = CsvMapping::new();
    m.insert("types.csv".to_string(), types);
    let schema = article_schema();
    let mut v = CsvValidator::new(&schema);
    let content = split_records(&records(&[&["0", "A"], &["x", "A"]]), &schema, 0);
    match v.validate_row(&content.ok_rows[0], &schema, &m, &no_floats) {
        RowCellsValidationResult::Error { cell_data_violations, fk_violations, .. } => {
            assert_eq!(cell_data_violations.len(), 1);
            assert_eq!(cell_data_violations[0].col_no, 0);
            assert_eq!(cell_data_violations[0].value, "0");
            assert!(fk_violations.is_empty());
        }
        r => panic!("unexpected {:?}", r),
    }
    let fks = v.validate_foreign_key_constraints(&content.ok_rows[1], &m, &schema);
    assert!(fks.is_empty());
    v.validate_row22(&content.ok_rows[1], &schema);
}

#[test]
fn workspace_files() {
    let mut ws = CachedCsvWorkspace::new();
    assert!(!ws.has_file("types.csv"));
    ws.add_csv_file("types.csv", type_schema());
    ws.add_csv_file("articles.csv", article_schema());
    assert!(ws.has_file("types.csv"));
    let mut files: Vec<&str> = ws.files();
    files.sort();
    assert_eq!(files, vec!["articles.csv", "types.csv"]);
    ws.remove("types.csv");
    assert!(!ws.has_file("types.csv"));
    ws.remove("types.csv");
    ws.clear();
    assert!(ws.files().is_empty());
}

#[test]
fn workspace_validation_steps() {
    let mut ws = CachedCsvWorkspace::new();
    ws.add_csv_file("articles.csv", article_schema());
    ws.add_csv_file("types.csv", type_schema());
    let schema = article_schema();
    let art = split_records(&records(&[&["1", "A"], &["2", "Z"]]), &schema, 1);
    ws.csv("articles.csv").load(art);
    // the referenced file is not loaded yet
    assert!(matches!(ws.prepare_fk_validation_for("articles.csv"), Err(CsvCachingError::NoCsvLoaded)));
    let tys = split_records(&records(&[&["x", "A"]]), &type_schema(), 1);
    ws.csv("types.csv").load(tys);
    ws.prepare_fk_validation_for("articles.csv").unwrap();
    ws.csv("articles.csv").prepare_validation().unwrap();
    ws.validate_csv("articles.csv", &no_floats);
    let rows = ws.csv("articles.csv").get_validated_rows().unwrap();
    assert!(matches!(rows[0].0, RowCellsValidationResult::Valid { .. }));
    assert!(matches!(rows[1].0, RowCellsValidationResult::Error { .. }));
}

#[test]
fn prepare_fk_on_empty_reference() {
    let mut ws = CachedCsvWorkspace::new();
    ws.add_csv_file("articles.csv", article_schema());
    ws.add_csv_file("types.csv", type_schema());
    let empty = split_records(&vec![], &type_schema(), 1);
    ws.csv("types.csv").load(empty);
    assert!(matches!(ws.prepare_fk_validation_for("articles.csv"), Err(CsvCachingError::CsvEmpty)));
}

#[test]
fn schema_file_names() {
    assert_eq!(schema_filename_for("mt_article.csv"), "schema.mt_article.toml");
    assert_eq!(schema_filename_for("a.csv.csv"), "schema.a.toml");
    assert_eq!(schema_filename_for("plain"), "schema.plain.toml");
    assert_eq!(fk_schema_filename("mt_type.csv"), "schema.mt_type.toml");
    assert_eq!(fk_schema_filename("x.csv.bak"), "schema.x.toml.bak");
}

#[test]
fn summary_of_nothing() {
    let s = summarize_results(&vec![], false);
    assert_eq!(s.total, 0);
    assert_eq!(s.percent_ok, 0);
    assert_eq!(s.hidden_ok_rows, 0);
    assert_eq!(s.grade, SummaryGrade::Poor);
}

#[test]
fn prepare_fk_key_steps_one_key() {
    let mut ws = CachedCsvWorkspace::new();
    ws.add_csv_file("articles.csv", article_schema());
    ws.add_csv_file("types.csv", type_schema());
    assert!(matches!(ws.prepare_fk_key("articles.csv", 0), Err(CsvCachingError::NoCsvLoaded)));
    let empty = split_records(&vec![], &type_schema(), 1);
    ws.csv("types.csv").load(empty);
    assert!(matches!(ws.prepare_fk_key("articles.csv", 0), Err(CsvCachingError::CsvEmpty)));
    let tys = split_records(&records(&[&["x", "A"], &["y", "B"]]), &type_schema(), 1);
    ws.csv("types.csv").load(tys);
    assert!(ws.prepare_fk_key("articles.csv", 0).is_ok());
    let key = csv_validator::hashing::hash_vec(&["B"]);
    assert_eq!(ws.csv("types.csv").find_row(&vec![1], key).unwrap().line_no, 2);
}

#[test]
fn rows_to_report_hides_passing_rows_on_request() {
    let ok = RowCellsValidationResult::Valid { line_no: 1 };
    let bad = RowCellsValidationResult::Error { line_no: 2, cell_data_violations: vec![], fk_violations: vec![] };
    let dup = vec![UniqueViolation { line_no: 1, constraint_name: "pk".to_string() }];
    let none: Vec<UniqueViolation> = vec![];
    let results = vec![(&ok, None), (&bad, None), (&ok, Some(&dup)), (&ok, Some(&none))];
    assert_eq!(rows_to_report(&results, true), vec![1, 2]);
    assert_eq!(rows_to_report(&results, false), vec![0, 1, 2, 3]);
    assert_eq!(summarize_results(&results, true).hidden_ok_rows, 2);
}
