use csv_validator::csv_reader::{read_csv, split_records, CsvReadResult, CsvRecord, CsvRowError, OkRow, RowMap};
use csv_validator::csv_schema::{
    And, ColumnType, Conditional, CsvColumnSchema, CsvColumnSchemaOverride, CsvCondition, CsvSchema,
    CsvSchemaSettings, Leaf, Op, Or,
};
use csv_validator::csv_schema_overrides::eval_column_type_for_cell;
use csv_validator::hashing::hash_vec;

fn col(name: &str) -> CsvColumnSchema {
    CsvColumnSchema {
        name: name.to_string(),
        required: None,
        dtype: ColumnType::String { min_length: None, max_length: None, regex: None, custom_validator: None },
        overrides: None,
    }
}

fn schema(names: &[&str]) -> CsvSchema {
    CsvSchema {
        columns: names.iter().map(|n| col(n)).collect(),
        unique: vec![],
        foreign_keys: vec![],
        settings: CsvSchemaSettings { comment: "#".to_string(), encoding: "utf8".to_string(), delimiter: ",".to_string() },
    }
}

fn fields(line_no: u64, f: &[&str]) -> CsvRecord {
    CsvRecord::Fields { line_no, fields: f.iter().map(|s| s.to_string()).collect() }
}

fn leaf(column: &str, value: &str) -> CsvCondition {
    CsvCondition::Leaf(Leaf { column: column.to_string(), op: Op::Eq(value.to_string()) })
}

fn row_map(pairs: &[(&str, &str)]) -> RowMap {
    let mut m = RowMap::new();
    for (k, v) in pairs {
        m.insert(k.to_string(), v.to_string());
    }
    m
}

#[test]
fn split_records_splits_rows_by_width() {
    let s = schema(&["a", "b"]);
    let records = vec![
        fields(1, &[" x ", "y"]),
        fields(2, &["only"]),
        CsvRecord::Unreadable { line_no: 3, message: "bad quote".to_string() },
        fields(4, &["p", "\tq\n"]),
    ];
    let r = split_records(&records, &s, 77);
    assert_eq!(r.timestamp, 77);
    assert_eq!(r.ok_rows.len(), 2);
    assert_eq!(r.ok_rows[0].cells, vec!["x".to_string(), "y".to_string()]);
    assert_eq!(r.ok_rows[0].line_no, 1);
    assert_eq!(r.ok_rows[0].index, 0);
    assert_eq!(r.ok_rows[1].cells, vec!["p".to_string(), "q".to_string()]);
    assert_eq!(r.ok_rows[1].index, 1);
    assert_eq!(r.error_rows.len(), 2);
    assert_eq!(r.error_rows[0].line_no, 2);
    assert!(matches!(r.error_rows[0].reason, CsvRowError::WrongColumnCount { expected: 2, actual: 1 }));
    assert_eq!(r.error_rows[1].line_no, 3);
    match &r.error_rows[1].reason {
        CsvRowError::ParseError(m) => assert_eq!(m, "bad quote"),
        e => panic!("unexpected {:?}", e),
    }
    assert_eq!(r.total_rows(), 4);
}

#[test]
fn read_csv_reads_fields_and_lines() {
    let s = schema(&["a", "b"]);
    let r = read_csv(b" x , y \n\"q\\\"t\",z\n", &s, 5);
    assert_eq!(r.timestamp, 5);
    assert!(r.error_rows.is_empty());
    assert_eq!(r.ok_rows.len(), 2);
    assert_eq!(r.ok_rows[0].cells, vec!["x".to_string(), "y".to_string()]);
    assert_eq!(r.ok_rows[0].line_no, 1);
    assert_eq!(r.ok_rows[1].cells, vec!["q\"t".to_string(), "z".to_string()]);
    assert_eq!(r.ok_rows[1].line_no, 2);
    assert_eq!(r.ok_rows[1].index, 1);
}

#[test]
fn read_csv_skips_comments_and_uses_the_delimiter() {
    let mut s = schema(&["a", "b"]);
    s.settings.delimiter = ";".to_string();
    s.settings.comment = "%".to_string();
    let r = read_csv(b"%skip;me\na;b,c\n", &s, 0);
    assert!(r.error_rows.is_empty());
    assert_eq!(r.ok_rows.len(), 1);
    assert_eq!(r.ok_rows[0].cells, vec!["a".to_string(), "b,c".to_string()]);
}

#[test]
fn read_csv_reports_width_and_reader_errors() {
    let wide = schema(&["a", "b", "c"]);
    let r = read_csv(b"a,b\n", &wide, 0);
    assert!(r.ok_rows.is_empty());
    assert_eq!(r.error_rows.len(), 1);
    assert_eq!(r.error_rows[0].line_no, 1);
    assert!(matches!(r.error_rows[0].reason, CsvRowError::WrongColumnCount { expected: 3, actual: 2 }));

    let s = schema(&["a", "b"]);
    let r = CsvReadResult::from_reader(b"a,b\nc\n", &s, 0);
    assert_eq!(r.ok_rows.len(), 1);
    assert_eq!(r.error_rows.len(), 1);
    assert_eq!(r.error_rows[0].line_no, 2);
    assert!(matches!(r.error_rows[0].reason, CsvRowError::ParseError(_)));
    assert_eq!(r.total_rows(), 2);
}

#[test]
fn row_hash_depends_on_selected_cells_only() {
    let a = OkRow { line_no: 1, cells: vec!["k".to_string(), "x".to_string(), "v".to_string()], index: 0 };
    let b = OkRow { line_no: 2, cells: vec!["k".to_string(), "y".to_string(), "v".to_string()], index: 1 };
    assert_eq!(a.hash(&vec![0, 2]), b.hash(&vec![0, 2]));
    assert_eq!(a.hash(&vec![2, 0, 2]), a.hash(&vec![0, 2]));
    assert_eq!(a.hash(&vec![0, 2]), hash_vec(&["k", "v"]));
    assert_eq!(a.hash(&vec![]), hash_vec(&[]));
    assert_ne!(a.hash(&vec![1]), b.hash(&vec![1]));
}

#[test]
fn hash_vec_is_deterministic() {
    assert_eq!(hash_vec(&["a", "b"]), hash_vec(&["a", "b"]));
    assert_ne!(hash_vec(&["ab"]), hash_vec(&["a", "b"]));
}

#[test]
fn as_hashmap_names_cells() {
    let s = schema(&["a", "b"]);
    let row = OkRow { line_no: 1, cells: vec!["1".to_string(), "2".to_string()], index: 0 };
    let m = row.as_hashmap(&s.columns);
    assert_eq!(m.len(), 2);
    assert_eq!(m.get("b"), Some(&"2".to_string()));
    assert_eq!(m.get("c"), None);
}

#[test]
fn row_map_later_value_wins() {
    let m = row_map(&[("a", "1"), ("b", "2"), ("a", "3")]);
    assert_eq!(m.get("a"), Some(&"3".to_string()));
    assert_eq!(m.get("b"), Some(&"2".to_string()));
    let (k, v) = m.entry(0);
    assert_eq!((k.as_str(), v.as_str()), ("a", "1"));
}

#[test]
fn conditions_evaluate() {
    let row = row_map(&[("kind", "book"), ("lang", "de")]);
    assert!(leaf("kind", "book").evaluate(&row));
    assert!(!leaf("kind", "film").evaluate(&row));
    let both = CsvCondition::And(And { and: vec![leaf("kind", "book"), leaf("lang", "de")] });
    assert!(both.evaluate(&row));
    let either = CsvCondition::Or(Or { or: vec![leaf("kind", "film"), leaf("lang", "de")] });
    assert!(either.evaluate(&row));
    assert!(And { and: vec![] }.evaluate(&row));
    assert!(!Or { or: vec![] }.evaluate(&row));
    // evaluation stops before a missing column
    let short = CsvCondition::Or(Or { or: vec![leaf("kind", "book"), leaf("missing", "x")] });
    assert!(short.evaluate(&row));
    let copy = both.clone();
    assert!(copy.evaluate(&row));
}

#[test]
fn column_names_resolve_to_first_position() {
    let s = schema(&["a", "b", "a"]);
    assert_eq!(s.col_name_to_col_idx("a"), Some(0));
    assert_eq!(s.col_name_to_col_idx("b"), Some(1));
    assert_eq!(s.col_name_to_col_idx("z"), None);
    assert_eq!(s.named_col2col_selection(&vec!["b".to_string(), "a".to_string()]), vec![1, 0]);
}

#[test]
fn overrides_pick_first_matching_condition() {
    let mut c = col("price");
    c.required = Some(false);
    c.overrides = Some(vec![
        CsvColumnSchemaOverride {
            required: None,
            dtype: ColumnType::Integer { min: Some(1), max: None },
            condition: leaf("kind", "book"),
        },
        CsvColumnSchemaOverride {
            required: Some(true),
            dtype: ColumnType::Enum { values: vec![] },
            condition: leaf("kind", "film"),
        },
    ]);
    let cols = vec![col("kind"), c];
    let book = eval_column_type_for_cell(&row_map(&[("kind", "book")]), 1, &cols);
    assert_eq!(book.name, "price");
    assert_eq!(book.required, Some(false));
    assert!(book.overrides.is_none());
    assert!(matches!(book.dtype, ColumnType::Integer { min: Some(1), max: None }));
    let film = eval_column_type_for_cell(&row_map(&[("kind", "film")]), 1, &cols);
    assert_eq!(film.required, Some(true));
    assert!(matches!(film.dtype, ColumnType::Enum { .. }));
    let other = eval_column_type_for_cell(&row_map(&[("kind", "map")]), 1, &cols);
    assert!(matches!(other.dtype, ColumnType::String { .. }));
    assert_eq!(other.overrides.as_ref().map(|o| o.len()), Some(2));
    let plain = eval_column_type_for_cell(&row_map(&[]), 0, &cols);
    assert_eq!(plain.name, "kind");
    assert!(plain.overrides.is_none());
}
