//! Counting the rows of a validated file that passed every check.

use crate::csv_row_validators::{RowCellsValidationResult, UniqueViolation};
use vstd::prelude::*;

verus! {

/// A row passed: its cells and foreign keys are valid and it repeats no
/// other row under a unique constraint.
pub open spec fn spec_row_ok(result: RowCellsValidationResult, uniques: Option<Vec<UniqueViolation>>) -> bool {
    &&& result is Valid
    &&& match uniques {
        Some(u) => u@.len() == 0,
        None => true,
    }
}

/// Whether a row passed every check.
pub fn row_is_ok(result: &RowCellsValidationResult, uniques: Option<&Vec<UniqueViolation>>) -> (b: bool)
    ensures
        b == spec_row_ok(
            *result,
            match uniques {
                Some(u) => Some(*u),
                None => None,
            },
        ),
{
    let no_unique = match uniques {
        Some(u) => u.len() == 0,
        None => true,
    };
    no_unique && match result {
        RowCellsValidationResult::Valid { .. } => true,
        _ => false,
    }
}

/// Whether result `i` passed every check.
pub open spec fn result_ok(results: Seq<(&RowCellsValidationResult, Option<&Vec<UniqueViolation>>)>, i: int) -> bool {
    spec_row_ok(
        *results[i].0,
        match results[i].1 {
            Some(u) => Some(*u),
            None => None,
        },
    )
}

/// The positions, among the first `n` results, of the rows a report shows:
/// every row, or with `errors_only` the rows that did not pass.
pub open spec fn report_positions(
    results: Seq<(&RowCellsValidationResult, Option<&Vec<UniqueViolation>>)>,
    n: int,
    errors_only: bool,
) -> Seq<usize>
    decreases n,
{
    if n <= 0 {
        seq![]
    } else {
        let prev = report_positions(results, n - 1, errors_only);
        if errors_only && result_ok(results, n - 1) {
            prev
        } else {
            prev.push((n - 1) as usize)
        }
    }
}

/// The positions of the rows a report shows, in order: all rows, or with
/// `errors_only` only those that did not pass.
pub fn rows_to_report(
    results: &Vec<(&RowCellsValidationResult, Option<&Vec<UniqueViolation>>)>,
    errors_only: bool,
) -> (r: Vec<usize>)
    ensures
        r@ == report_positions(results@, results@.len() as int, errors_only),
{
    let mut r: Vec<usize> = Vec::new();
    let mut i: usize = 0;
    while i < results.len()
        invariant
            i <= results@.len(),
            r@ == report_positions(results@, i as int, errors_only),
        decreases results@.len() - i,
    {
        let (result, uniques) = results[i];
        if !(errors_only && row_is_ok(result, uniques)) {
            r.push(i);
        }
        i = i + 1;
    }
    r
}

/// A report shows every row but those it hides: with `errors_only` the rows
/// shown and the rows that passed add up to all rows; otherwise every row is
/// shown.
pub proof fn lemma_report_covers_rows(
    results: Seq<(&RowCellsValidationResult, Option<&Vec<UniqueViolation>>)>,
    n: int,
)
    requires
        0 <= n,
    ensures
        report_positions(results, n, true).len() + count_ok(results, n) == n,
        report_positions(results, n, false).len() == n,
    decreases n,
{
    if n > 0 {
        lemma_report_covers_rows(results, n - 1);
    }
}

/// How a file did overall.
#[derive(Debug, PartialEq, Eq)]
pub enum SummaryGrade {
    /// Every row passed.
    Perfect,
    /// At least 80 percent of the rows passed.
    Good,
    /// Fewer rows passed.
    Poor,
}

/// The counts over the rows of a validated file.
#[derive(Debug)]
pub struct ResultSummary {
    pub total: usize,
    pub ok_rows: usize,
    pub hidden_ok_rows: usize,
    pub percent_ok: usize,
    pub grade: SummaryGrade,
}

/// The number of rows among the first `n` that passed.
pub open spec fn count_ok(results: Seq<(&RowCellsValidationResult, Option<&Vec<UniqueViolation>>)>, n: int) -> nat
    decreases n,
{
    if n <= 0 {
        0
    } else {
        count_ok(results, n - 1) + if spec_row_ok(
            *results[n - 1].0,
            match results[n - 1].1 {
                Some(u) => Some(*u),
                None => None,
            },
        ) {
            1nat
        } else {
            0nat
        }
    }
}

/// The grade of a percentage.
pub open spec fn spec_grade(percent: usize) -> SummaryGrade {
    if percent == 100 {
        SummaryGrade::Perfect
    } else if percent >= 80 {
        SummaryGrade::Good
    } else {
        SummaryGrade::Poor
    }
}

proof fn lemma_count_ok_bounded(results: Seq<(&RowCellsValidationResult, Option<&Vec<UniqueViolation>>)>, n: int)
    requires
        0 <= n,
    ensures
        count_ok(results, n) <= n,
    decreases n,
{
    if n > 0 {
        lemma_count_ok_bounded(results, n - 1);
    }
}

/// Counts the rows that passed; with `errors_only` those rows are the ones
/// left out of a report. The percentage is rounded down, and 0 for no rows.
pub fn summarize_results(
    results: &Vec<(&RowCellsValidationResult, Option<&Vec<UniqueViolation>>)>,
    errors_only: bool,
) -> (s: ResultSummary)
    requires
        results@.len() * 100 <= usize::MAX,
    ensures
        s.total == results@.len(),
        s.ok_rows == count_ok(results@, results@.len() as int),
        s.hidden_ok_rows == (if errors_only { s.ok_rows } else { 0 }),
        s.percent_ok == (if s.total > 0 { (s.ok_rows * 100) / (s.total as int) } else { 0int }),
        s.grade == spec_grade(s.percent_ok),
{
    let mut ok_rows: usize = 0;
    let mut i: usize = 0;
    while i < results.len()
        invariant
            i <= results@.len(),
            ok_rows == count_ok(results@, i as int),
            ok_rows <= i,
        decreases results@.len() - i,
    {
        let (result, uniques) = results[i];
        if row_is_ok(result, uniques) {
            ok_rows = ok_rows + 1;
        }
        i = i + 1;
    }
    let total = results.len();
    let percent_ok = if total > 0 {
        assert(ok_rows * 100 <= total * 100) by (nonlinear_arith)
            requires
                ok_rows <= total,
        ;
        (ok_rows * 100) / total
    } else {
        0
    };
    let grade = if percent_ok == 100 {
        SummaryGrade::Perfect
    } else if percent_ok >= 80 {
        SummaryGrade::Good
    } else {
        SummaryGrade::Poor
    };
    ResultSummary {
        total,
        ok_rows,
        hidden_ok_rows: if errors_only { ok_rows } else { 0 },
        percent_ok,
        grade,
    }
}


/// The rows that passed are at most all rows, and the percentage is at
/// most 100.
pub proof fn lemma_summary_bounds(results: Seq<(&RowCellsValidationResult, Option<&Vec<UniqueViolation>>)>)
    ensures
        count_ok(results, results.len() as int) <= results.len(),
        results.len() > 0 ==> ((count_ok(results, results.len() as int) as int) * 100) / (results.len() as int) <= 100,
{
    lemma_count_ok_bounded(results, results.len() as int);
    if results.len() > 0 {
        let c = count_ok(results, results.len() as int) as int;
        let n = results.len() as int;
        assert((c * 100) / n <= 100) by (nonlinear_arith)
            requires
                0 <= c <= n,
                n > 0,
        ;
    }
}

} // verus!
