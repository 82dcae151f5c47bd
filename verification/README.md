# csv_validator

Validates CSV files against TOML schemas: the type of each column (string
lengths and patterns, integer and float bounds, enumerations), conditional
overrides of a column's type, unique constraints over sets of columns, and
foreign keys from the rows of one file to those of another.

- `src/` is the library, verified with Verus. Each public function states in
  its contract what it returns or changes; the proof functions state the
  properties that span several calls (for example, that two rows with equal
  values in a unique constraint's columns are reported as a duplicate, or
  that a row is found through an index made over its columns).
- `app/` is the program around it: reading schema and CSV files from disk,
  the serde copies of the schema types, floating-point comparisons, and the
  printed report.
- `tests/` runs the library on concrete values.
