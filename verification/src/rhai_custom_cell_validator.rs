//! Custom cell checks written as rhai scripts.

use crate::csv_reader::RowMap;
use vstd::prelude::*;

verus! {

/// Evaluates a rhai script with `rhai::Engine::eval_with_scope`, the cell in
/// the variable `value` and its row (a map from column name to cell) in
/// `row`. Unlike a bare `rhai::Engine::new()`, which sets no limit on the
/// number of operations, the engine here is capped (`set_max_operations`,
/// and the sizes of strings, arrays and maps) so that every call returns: a
/// script that would run past a cap fails instead of running on. Nothing is
/// stated of the outcome: `Some` with the script's boolean, or `None` when
/// the script fails or does not yield a boolean.
#[verifier::external_body]
pub(crate) fn run_custom_validator(script: &str, value: &str, row: &RowMap) -> Option<bool> {
    let mut rhai_row = rhai::Map::new();
    for (k, v) in row.entries.iter() {
        rhai_row.insert(k.clone().into(), rhai::Dynamic::from(v.clone()));
    }
    let mut scope = rhai::Scope::new();
    scope.push("value", value.to_string());
    scope.push("row", rhai_row);
    let mut engine = rhai::Engine::new();
    engine.set_max_operations(100_000).set_max_string_size(1 << 20).set_max_array_size(1 << 16).set_max_map_size(1 << 16);
    engine.eval_with_scope::<bool>(&mut scope, script).ok()
}

} // verus!
