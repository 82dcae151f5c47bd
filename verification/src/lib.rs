//! Schema-driven validation of CSV files: cell types, overrides, unique
//! constraints and foreign keys between files of a workspace.

pub mod hashing;
pub mod csv_reader;
pub mod csv_schema;
pub mod csv_cell_validators;
pub mod rhai_custom_cell_validator;
pub mod csv_schema_overrides;
pub mod csv_row_validators;
pub mod csv_cached;
pub mod csv_workspace;
pub mod summary;
