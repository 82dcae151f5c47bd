//! The type a column takes on a given row, once its overrides are applied.

use crate::csv_reader::RowMap;
use crate::csv_schema::{
    condition_defined, condition_holds, ColumnSchemaView, Conditional, CsvColumnSchema,
    CsvColumnSchemaOverride, RowView,
};
use vstd::prelude::*;

verus! {

/// Trying the overrides in order until one's condition holds never
/// evaluates a condition on a column the row lacks.
pub open spec fn overrides_defined(os: Seq<CsvColumnSchemaOverride>, row: RowView) -> bool
    decreases os.len(),
{
    if os.len() == 0 {
        true
    } else {
        condition_defined(os[0].condition, row) && (condition_holds(os[0].condition, row)
            || overrides_defined(os.drop_first(), row))
    }
}

/// The position of the first override whose condition holds.
pub open spec fn first_holding(os: Seq<CsvColumnSchemaOverride>, row: RowView) -> Option<int>
    decreases os.len(),
{
    if os.len() == 0 {
        None
    } else if condition_holds(os[0].condition, row) {
        Some(0)
    } else {
        match first_holding(os.drop_first(), row) {
            Some(i) => Some(i + 1),
            None => None,
        }
    }
}

/// `first` if it is set, else `second`.
pub open spec fn or_else(first: Option<bool>, second: Option<bool>) -> Option<bool> {
    match first {
        Some(b) => Some(b),
        None => second,
    }
}

/// The column as it applies to a row: the first override whose condition
/// holds gives the type and (when it sets it) the requirement, and drops the
/// overrides; when none holds, the column as it is.
pub open spec fn spec_column_for_row(col: CsvColumnSchema, row: RowView) -> ColumnSchemaView {
    match col.overrides {
        None => col@,
        Some(os) => match first_holding(os@, row) {
            Some(i) => ColumnSchemaView {
                name: col.name@,
                required: or_else(os@[i].required, col.required),
                dtype: os@[i].dtype@,
                overrides: None,
            },
            None => col@,
        },
    }
}

/// The overrides can be tried on the row without reaching a missing column.
pub open spec fn column_defined_on(col: CsvColumnSchema, row: RowView) -> bool {
    match col.overrides {
        None => true,
        Some(os) => overrides_defined(os@, row),
    }
}

/// The schema of column `column_idx` as it applies to the row `row_map`.
#[verifier::loop_isolation(false)]
pub fn eval_column_type_for_cell(
    row_map: &RowMap,
    column_idx: usize,
    schema_columns: &Vec<CsvColumnSchema>,
) -> (r: CsvColumnSchema)
    requires
        column_idx < schema_columns@.len(),
        column_defined_on(schema_columns@[column_idx as int], row_map@),
    ensures
        r@ == spec_column_for_row(schema_columns@[column_idx as int], row_map@),
{
    let column = &schema_columns[column_idx];
    let coll_schema = column.clone();
    let required_default = column.required;
    match &column.overrides {
        None => coll_schema,
        Some(overrides) => {
            let ghost os = overrides@;
            let mut i: usize = 0;
            assert(os.skip(0) == os);
            while i < overrides.len()
                invariant
                    i <= os.len(),
                    os == overrides@,
                    overrides_defined(os.skip(i as int), row_map@),
                    first_holding(os, row_map@) == match first_holding(os.skip(i as int), row_map@) {
                        Some(j) => Some(j + i),
                        None => None,
                    },
                decreases os.len() - i,
            {
                assert(os.skip(i as int)[0] == os[i as int]);
                assert(os.skip(i as int).drop_first() == os.skip(i + 1));
                let ovride = &overrides[i];
                if ovride.condition.evaluate(row_map) {
                    assert(first_holding(os.skip(i as int), row_map@) == Some(0int));
                    return CsvColumnSchema {
                        dtype: ovride.dtype.clone(),
                        name: column.name.clone(),
                        overrides: None,
                        required: match ovride.required {
                            Some(b) => Some(b),
                            None => required_default,
                        },
                    };
                }
                i = i + 1;
            }
            coll_schema
        },
    }
}


/// A column keeps its name on every row; when an override applies, the
/// column's own overrides are dropped, and without overrides the column is
/// taken as it is.
pub proof fn lemma_column_for_row_name(col: CsvColumnSchema, row: RowView)
    ensures
        spec_column_for_row(col, row).name == col.name@,
        col.overrides is None ==> spec_column_for_row(col, row) == col@,
        spec_column_for_row(col, row) != col@ ==> spec_column_for_row(col, row).overrides is None,
{
}

} // verus!
