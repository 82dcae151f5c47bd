//! Validation of a single cell against the type of its column.

use crate::csv_reader::RowMap;
use crate::csv_schema::{regex_matches, Pattern};
use vstd::prelude::*;
use vstd::std_specs::iter::IteratorSpec;

verus! {

broadcast use vstd::string::group_string_axioms;

// ---------------------------------------------------------------- text

/// The characters of a string, one by one.
pub fn chars_of(s: &str) -> (v: Vec<char>)
    ensures
        v@ == s@,
{
    let mut v: Vec<char> = Vec::new();
    let mut it = s.chars();
    loop
        invariant
            it.remaining() == s@.skip(v@.len() as int),
            v@ == s@.take(v@.len() as int),
            v@.len() <= s@.len(),
        decreases s@.len() - v@.len(),
    {
        match it.next() {
            Some(c) => {
                assert(s@.skip(v@.len() as int).len() > 0);
                assert(s@.skip(v@.len() as int).drop_first() == s@.skip(v@.len() as int + 1));
                v.push(c);
                assert(v@ =~= s@.take(v@.len() as int));
            },
            None => {
                assert(s@.take(v@.len() as int) =~= s@);
                return v;
            },
        }
    }
}

/// A decimal digit.
pub open spec fn is_digit(c: char) -> bool {
    '0' <= c <= '9'
}

/// The value of a sequence of decimal digits.
pub open spec fn digits_value(d: Seq<char>) -> int
    decreases d.len(),
{
    if d.len() == 0 {
        0
    } else {
        digits_value(d.drop_last()) * 10 + (d.last() as int - '0' as int)
    }
}

/// All characters are decimal digits.
pub open spec fn all_digits(d: Seq<char>) -> bool {
    forall|i: int| 0 <= i < d.len() ==> is_digit(#[trigger] d[i])
}

/// The sign and the digits of a number: a leading '-' or '+' is the sign.
pub open spec fn split_sign(s: Seq<char>) -> (bool, Seq<char>) {
    if s.len() > 0 && s[0] == '-' {
        (true, s.drop_first())
    } else if s.len() > 0 && s[0] == '+' {
        (false, s.drop_first())
    } else {
        (false, s)
    }
}

/// What `str::parse::<i64>` (std) gives: an optional sign, then one or more
/// decimal digits, whose value fits in an `i64`.
pub open spec fn spec_parse_i64(s: Seq<char>) -> Option<i64> {
    let (neg, digits) = split_sign(s);
    if digits.len() == 0 || !all_digits(digits) {
        None
    } else {
        let v = if neg { -digits_value(digits) } else { digits_value(digits) };
        if i64::MIN <= v <= i64::MAX {
            Some(v as i64)
        } else {
            None
        }
    }
}

proof fn lemma_digits_value_nonneg(d: Seq<char>)
    requires
        all_digits(d),
    ensures
        digits_value(d) >= 0,
    decreases d.len(),
{
    if d.len() > 0 {
        assert(all_digits(d.drop_last())) by {
            assert forall|i: int| 0 <= i < d.drop_last().len() implies is_digit(#[trigger] d.drop_last()[i]) by {
                assert(d.drop_last()[i] == d[i]);
            }
        }
        lemma_digits_value_nonneg(d.drop_last());
        assert(is_digit(d[d.len() - 1]));
    }
}

/// Parses a decimal integer the way `str::parse::<i64>` does.
pub fn parse_i64(s: &str) -> (r: Option<i64>)
    ensures
        r == spec_parse_i64(s@),
{
    let chars = chars_of(s);
    let n = chars.len();
    let mut start: usize = 0;
    let mut neg = false;
    if n > 0 && chars[0] == '-' {
        neg = true;
        start = 1;
    } else if n > 0 && chars[0] == '+' {
        start = 1;
    }
    let ghost digits = split_sign(s@).1;
    assert(digits == s@.skip(start as int));
    if start == n {
        return None;
    }
    let limit: u128 = 9223372036854775808;
    let mut acc: u128 = 0;
    let mut overflow = false;
    let mut i = start;
    assert(digits.take(0) =~= Seq::<char>::empty());
    while i < n
        invariant
            start <= i <= n,
            n == s@.len(),
            chars@ == s@,
            digits == s@.skip(start as int),
            digits == split_sign(s@).1,
            neg == split_sign(s@).0,
            all_digits(digits.take(i - start)),
            !overflow ==> acc == digits_value(digits.take(i - start)) && acc <= limit,
            overflow ==> digits_value(digits.take(i - start)) > limit,
            limit == 9223372036854775808,
        decreases n - i,
    {
        let c = chars[i];
        let ghost prefix = digits.take(i - start);
        let ghost next = digits.take(i + 1 - start);
        assert(next.drop_last() == prefix);
        assert(next.last() == c);
        if !('0' <= c && c <= '9') {
            assert(!all_digits(digits)) by {
                assert(digits[i - start] == c);
                assert(!is_digit(digits[i - start]));
            }
            return None;
        }
        assert(all_digits(next)) by {
            assert forall|j: int| 0 <= j < next.len() implies is_digit(#[trigger] next[j]) by {
                if j < next.len() - 1 {
                    assert(next[j] == prefix[j]);
                }
            }
        }
        let d: u128 = (c as u32 - '0' as u32) as u128;
        if !overflow {
            let v = acc * 10 + d;
            if v > limit {
                overflow = true;
            } else {
                acc = v;
            }
        } else {
            proof {
                lemma_digits_value_nonneg(prefix);
            }
        }
        i = i + 1;
    }
    assert(digits.take(n - start) == digits);
    if overflow {
        return None;
    }
    if neg {
        if acc == limit {
            Some(i64::MIN)
        } else {
            let m = acc as i64;
            Some(-m)
        }
    } else if acc > 9223372036854775807 {
        None
    } else {
        Some(acc as i64)
    }
}


// ---------------------------------------------------------------- results

/// Why a cell is not valid.
#[allow(inconsistent_fields)]
#[derive(Debug)]
pub enum CellValidationError {
    RequiredMissing,
    TooShort { min: u32, actual: usize },
    TooLong { max: u32, actual: usize },
    RegexNoMatch { regex: String, value: String },
    NotAnInteger,
    TooSmallInteger { min: i64, actual: i64 },
    TooLargeInteger { max: i64, actual: i64 },
    TooSmallFloat { min: String, actual: String },
    TooLargeFloat { max: String, actual: String },
    InvalidEnumValue { allowed: Vec<String> },
}

/// `CellValidationError` with its text as characters.
#[allow(inconsistent_fields)]
pub enum CellErrorView {
    RequiredMissing,
    TooShort { min: u32, actual: usize },
    TooLong { max: u32, actual: usize },
    RegexNoMatch { regex: Seq<char>, value: Seq<char> },
    NotAnInteger,
    TooSmallInteger { min: i64, actual: i64 },
    TooLargeInteger { max: i64, actual: i64 },
    TooSmallFloat { min: Seq<char>, actual: Seq<char> },
    TooLargeFloat { max: Seq<char>, actual: Seq<char> },
    InvalidEnumValue { allowed: Seq<Seq<char>> },
}

impl View for CellValidationError {
    type V = CellErrorView;

    open spec fn view(&self) -> CellErrorView {
        match self {
            CellValidationError::RequiredMissing => CellErrorView::RequiredMissing,
            CellValidationError::TooShort { min, actual } => CellErrorView::TooShort {
                min: *min,
                actual: *actual,
            },
            CellValidationError::TooLong { max, actual } => CellErrorView::TooLong {
                max: *max,
                actual: *actual,
            },
            CellValidationError::RegexNoMatch { regex, value } => CellErrorView::RegexNoMatch {
                regex: regex@,
                value: value@,
            },
            CellValidationError::NotAnInteger => CellErrorView::NotAnInteger,
            CellValidationError::TooSmallInteger { min, actual } => CellErrorView::TooSmallInteger {
                min: *min,
                actual: *actual,
            },
            CellValidationError::TooLargeInteger { max, actual } => CellErrorView::TooLargeInteger {
                max: *max,
                actual: *actual,
            },
            CellValidationError::TooSmallFloat { min, actual } => CellErrorView::TooSmallFloat {
                min: min@,
                actual: actual@,
            },
            CellValidationError::TooLargeFloat { max, actual } => CellErrorView::TooLargeFloat {
                max: max@,
                actual: actual@,
            },
            CellValidationError::InvalidEnumValue { allowed } => CellErrorView::InvalidEnumValue {
                allowed: allowed.deep_view(),
            },
        }
    }
}

/// The view of each error of a list.
pub open spec fn errors_view(errors: Seq<CellValidationError>) -> Seq<CellErrorView> {
    errors.map_values(|e: CellValidationError| e@)
}

/// The outcome of validating one cell: the value, and the errors if any.
#[derive(Debug)]
pub enum ValueValidationResult {
    Valid { value: String },
    Error { value: String, errors: Vec<CellValidationError> },
}

/// `ValueValidationResult` with its text as characters.
pub enum ValueResultView {
    Valid { value: Seq<char> },
    Error { value: Seq<char>, errors: Seq<CellErrorView> },
}

impl View for ValueValidationResult {
    type V = ValueResultView;

    open spec fn view(&self) -> ValueResultView {
        match self {
            ValueValidationResult::Valid { value } => ValueResultView::Valid { value: value@ },
            ValueValidationResult::Error { value, errors } => ValueResultView::Error {
                value: value@,
                errors: errors_view(errors@),
            },
        }
    }
}

/// `Valid` when there is no error, else `Error` with the errors.
pub open spec fn result_of(value: Seq<char>, errors: Seq<CellErrorView>) -> ValueResultView {
    if errors.len() == 0 {
        ValueResultView::Valid { value }
    } else {
        ValueResultView::Error { value, errors }
    }
}

fn make_result(value: &str, errors: Vec<CellValidationError>) -> (r: ValueValidationResult)
    ensures
        r@ == result_of(value@, errors_view(errors@)),
{
    if errors.len() == 0 {
        ValueValidationResult::Valid { value: value.to_string() }
    } else {
        ValueValidationResult::Error { value: value.to_string(), errors }
    }
}

// ---------------------------------------------------------------- enums

/// An enum cell is valid when it is one of the allowed values.
pub open spec fn spec_eval_enum(value: Seq<char>, values: Seq<Seq<char>>) -> ValueResultView {
    if values.contains(value) {
        ValueResultView::Valid { value }
    } else {
        ValueResultView::Error {
            value,
            errors: seq![CellErrorView::InvalidEnumValue { allowed: values }],
        }
    }
}

/// Checks that `value` is one of `values`.
pub fn eval_enum(value: &str, values: &Vec<String>) -> (r: ValueValidationResult)
    ensures
        r@ == spec_eval_enum(value@, values.deep_view()),
{
    let mut i: usize = 0;
    let ghost vals = values.deep_view();
    while i < values.len()
        invariant
            i <= values@.len(),
            vals == values.deep_view(),
            forall|j: int| 0 <= j < i ==> vals[j] != value@,
        decreases values@.len() - i,
    {
        if crate::csv_reader::str_eq(values[i].as_str(), value) {
            assert(vals.contains(value@)) by {
                assert(vals[i as int] == value@);
            }
            return ValueValidationResult::Valid { value: value.to_string() };
        }
        i = i + 1;
    }
    let allowed = crate::csv_schema::clone_strings(values);
    let mut errors: Vec<CellValidationError> = Vec::new();
    errors.push(CellValidationError::InvalidEnumValue { allowed });
    assert(errors_view(errors@) =~= seq![CellErrorView::InvalidEnumValue { allowed: vals }]);
    ValueValidationResult::Error { value: value.to_string(), errors }
}

// ---------------------------------------------------------------- integers

/// The errors of an integer that is within reach of the bounds or not.
pub open spec fn integer_errors(n: i64, min: Option<i64>, max: Option<i64>) -> Seq<CellErrorView> {
    let low = match min {
        Some(m) => if n < m {
            seq![CellErrorView::TooSmallInteger { min: m, actual: n }]
        } else {
            seq![]
        },
        None => seq![],
    };
    let high = match max {
        Some(m) => if n > m {
            seq![CellErrorView::TooLargeInteger { max: m, actual: n }]
        } else {
            seq![]
        },
        None => seq![],
    };
    low + high
}

/// An integer cell must parse as an `i64` and lie within the bounds.
pub open spec fn spec_eval_integer(value: Seq<char>, min: Option<i64>, max: Option<i64>) -> ValueResultView {
    match spec_parse_i64(value) {
        Some(n) => result_of(value, integer_errors(n, min, max)),
        None => ValueResultView::Error { value, errors: seq![CellErrorView::NotAnInteger] },
    }
}

/// Checks that `value` is an integer within `min` and `max`.
pub fn eval_integer(value: &str, min: &Option<i64>, max: &Option<i64>) -> (r: ValueValidationResult)
    ensures
        r@ == spec_eval_integer(value@, *min, *max),
{
    match parse_i64(value) {
        Some(number) => {
            let mut errors: Vec<CellValidationError> = Vec::new();
            if let Some(min) = min {
                if number < *min {
                    errors.push(CellValidationError::TooSmallInteger { min: *min, actual: number });
                }
            }
            let ghost low = errors_view(errors@);
            if let Some(max) = max {
                if number > *max {
                    errors.push(CellValidationError::TooLargeInteger { max: *max, actual: number });
                }
            }
            assert(errors_view(errors@) =~= integer_errors(number, *min, *max));
            make_result(value, errors)
        },
        None => {
            let mut errors: Vec<CellValidationError> = Vec::new();
            errors.push(CellValidationError::NotAnInteger);
            assert(errors_view(errors@) =~= seq![CellErrorView::NotAnInteger]);
            ValueValidationResult::Error { value: value.to_string(), errors }
        },
    }
}

// ---------------------------------------------------------------- strings

/// The number of bytes of the UTF-8 encoding of a text, as `str::len`
/// returns it.
pub open spec fn byte_len(s: Seq<char>) -> usize {
    vstd::utf8::encode_utf8(s).len() as usize
}

/// The errors of a string cell whose byte length, cut to 32 bits, is `len`,
/// given the outcome of its pattern: the pattern's text and whether it
/// matched.
pub open spec fn string_errors(
    value: Seq<char>,
    len: u32,
    min_length: Option<u32>,
    max_length: Option<u32>,
    regex: Option<(Seq<char>, bool)>,
) -> Seq<CellErrorView> {
    let short = match min_length {
        Some(m) => if len < m {
            seq![CellErrorView::TooShort { min: m, actual: len as usize }]
        } else {
            seq![]
        },
        None => seq![],
    };
    let long = match max_length {
        Some(m) => if len > m {
            seq![CellErrorView::TooLong { max: m, actual: len as usize }]
        } else {
            seq![]
        },
        None => seq![],
    };
    let pattern = match regex {
        Some((p, matched)) => if !matched {
            seq![CellErrorView::RegexNoMatch { regex: p, value }]
        } else {
            seq![]
        },
        None => seq![],
    };
    short + long + pattern
}

/// The result for a string cell, given the outcome of its pattern.
pub open spec fn spec_string_result(
    value: Seq<char>,
    min_length: Option<u32>,
    max_length: Option<u32>,
    regex: Option<(Seq<char>, bool)>,
) -> ValueResultView {
    result_of(value, string_errors(value, byte_len(value) as u32, min_length, max_length, regex))
}

/// The pattern's text and whether it matches `value`.
pub open spec fn regex_outcome(regex: Option<Seq<char>>, value: Seq<char>) -> Option<(Seq<char>, bool)> {
    match regex {
        Some(p) => Some((p, regex_matches(p, value))),
        None => None,
    }
}

/// The text of an optional pattern.
pub open spec fn pattern_view(regex: Option<Pattern>) -> Option<Seq<char>> {
    match regex {
        Some(p) => Some(p@),
        None => None,
    }
}

/// Builds the result of a string cell from its length limits and the
/// outcome of its pattern (`regex`: the pattern's text and whether it
/// matched). Lengths count the bytes of the UTF-8 encoding, cut to 32 bits.
pub fn string_result(
    value: &str,
    min_length: &Option<u32>,
    max_length: &Option<u32>,
    regex: Option<(&str, bool)>,
) -> (r: ValueValidationResult)
    ensures
        r@ == spec_string_result(
            value@,
            *min_length,
            *max_length,
            match regex {
                Some((p, m)) => Some((p@, m)),
                None => None,
            },
        ),
{
    let len = #[verifier::truncate] (value.len() as u32);
    let mut errors: Vec<CellValidationError> = Vec::new();
    if let Some(min_length) = min_length {
        if len < *min_length {
            errors.push(CellValidationError::TooShort { min: *min_length, actual: len as usize });
        }
    }
    if let Some(max_length) = max_length {
        if len > *max_length {
            errors.push(CellValidationError::TooLong { max: *max_length, actual: len as usize });
        }
    }
    if let Some((pattern, matched)) = regex {
        if !matched {
            errors.push(
                CellValidationError::RegexNoMatch {
                    regex: pattern.to_string(),
                    value: value.to_string(),
                },
            );
        }
    }
    let ghost rv = match regex {
        Some((p, m)) => Some((p@, m)),
        None => None,
    };
    assert(errors_view(errors@) =~= string_errors(value@, len, *min_length, *max_length, rv));
    make_result(value, errors)
}

/// Checks a string cell: its byte length against the limits, and the
/// pattern. A custom validator script is run on the cell and its row; its
/// outcome does not enter the result.
pub fn eval_string(
    value: &str,
    min_length: &Option<u32>,
    max_length: &Option<u32>,
    regex: &Option<Pattern>,
    custom_validator: &Option<String>,
    row_map: &RowMap,
) -> (r: ValueValidationResult)
    ensures
        r@ == spec_string_result(
            value@,
            *min_length,
            *max_length,
            regex_outcome(pattern_view(*regex), value@),
        ),
{
    let outcome = match regex {
        Some(p) => Some((p.as_str(), p.is_match(value))),
        None => None,
    };
    if let Some(script) = custom_validator {
        let _ = crate::rhai_custom_cell_validator::run_custom_validator(script.as_str(), value, row_map);
    }
    string_result(value, min_length, max_length, outcome)
}

// ---------------------------------------------------------------- floats

/// What the float rules say of a cell: not a number, or a number (with its
/// text as the rules print it) and how it compares with the bounds.
#[derive(Debug)]
pub enum FloatVerdict {
    NotANumber,
    Number { actual: String, below_min: bool, above_max: bool },
}

/// `FloatVerdict` with its text as characters.
pub enum FloatVerdictView {
    NotANumber,
    Number { actual: Seq<char>, below_min: bool, above_max: bool },
}

impl View for FloatVerdict {
    type V = FloatVerdictView;

    open spec fn view(&self) -> FloatVerdictView {
        match self {
            FloatVerdict::NotANumber => FloatVerdictView::NotANumber,
            FloatVerdict::Number { actual, below_min, above_max } => FloatVerdictView::Number {
                actual: actual@,
                below_min: *below_min,
                above_max: *above_max,
            },
        }
    }
}

/// `v` is a verdict that the float rules `rules` gave on a cell whose text is
/// `value`, with bounds whose text is `min` and `max`. The rules, parsing
/// and comparison of floating-point cells, are left to the caller: given a
/// cell and the decimal text of the bounds, they say whether the cell is a
/// number and whether it lies below `min` or above `max`.
pub open spec fn rules_gave<F: Fn(&str, &Option<String>, &Option<String>) -> FloatVerdict>(
    rules: F,
    value: Seq<char>,
    min: Option<Seq<char>>,
    max: Option<Seq<char>>,
    v: FloatVerdictView,
) -> bool {
    exists|s: &str, a: &Option<String>, b: &Option<String>, out: FloatVerdict|
        #![trigger call_ensures(rules, (s, a, b), out)]
        s@ == value && crate::csv_schema::opt_view(*a) == min && crate::csv_schema::opt_view(*b) == max && out@ == v
            && call_ensures(rules, (s, a, b), out)
}

/// The rules can be applied to any cell and bounds.
pub open spec fn rules_total<F: Fn(&str, &Option<String>, &Option<String>) -> FloatVerdict>(rules: F) -> bool {
    forall|s: &str, a: &Option<String>, b: &Option<String>| #[trigger] call_requires(rules, (s, a, b))
}

/// The result of a float cell, given what the rules said of it. A cell that
/// is not a number is reported as `NotAnInteger`.
pub open spec fn spec_float_result(
    value: Seq<char>,
    min: Option<Seq<char>>,
    max: Option<Seq<char>>,
    verdict: FloatVerdictView,
) -> ValueResultView {
    match verdict {
        FloatVerdictView::NotANumber => ValueResultView::Error {
            value,
            errors: seq![CellErrorView::NotAnInteger],
        },
        FloatVerdictView::Number { actual, below_min, above_max } => {
            let low = match min {
                Some(m) => if below_min {
                    seq![CellErrorView::TooSmallFloat { min: m, actual }]
                } else {
                    seq![]
                },
                None => seq![],
            };
            let high = match max {
                Some(m) => if above_max {
                    seq![CellErrorView::TooLargeFloat { max: m, actual }]
                } else {
                    seq![]
                },
                None => seq![],
            };
            result_of(value, low + high)
        },
    }
}

/// Builds the result of a float cell from the verdict of the rules.
pub fn float_result(value: &str, min: &Option<String>, max: &Option<String>, verdict: FloatVerdict) -> (r:
    ValueValidationResult)
    ensures
        r@ == spec_float_result(
            value@,
            crate::csv_schema::opt_view(*min),
            crate::csv_schema::opt_view(*max),
            verdict@,
        ),
{
    match verdict {
        FloatVerdict::NotANumber => {
            let mut errors: Vec<CellValidationError> = Vec::new();
            errors.push(CellValidationError::NotAnInteger);
            assert(errors_view(errors@) =~= seq![CellErrorView::NotAnInteger]);
            ValueValidationResult::Error { value: value.to_string(), errors }
        },
        FloatVerdict::Number { actual, below_min, above_max } => {
            let ghost actual_view = actual@;
            let mut errors: Vec<CellValidationError> = Vec::new();
            if let Some(m) = min {
                if below_min {
                    errors.push(CellValidationError::TooSmallFloat { min: m.clone(), actual: actual.clone() });
                }
            }
            if let Some(m) = max {
                if above_max {
                    errors.push(CellValidationError::TooLargeFloat { max: m.clone(), actual });
                }
            }
            let ghost low = match crate::csv_schema::opt_view(*min) {
                Some(m) => if below_min {
                    seq![CellErrorView::TooSmallFloat { min: m, actual: actual_view }]
                } else {
                    seq![]
                },
                None => seq![],
            };
            let ghost high = match crate::csv_schema::opt_view(*max) {
                Some(m) => if above_max {
                    seq![CellErrorView::TooLargeFloat { max: m, actual: actual_view }]
                } else {
                    seq![]
                },
                None => seq![],
            };
            assert(errors_view(errors@) =~= low + high);
            make_result(value, errors)
        },
    }
}

/// Checks a float cell with the caller's rules: the result is the one
/// `float_result` builds from the verdict the rules gave on the cell.
pub fn eval_float<F: Fn(&str, &Option<String>, &Option<String>) -> FloatVerdict>(
    value: &str,
    min: &Option<String>,
    max: &Option<String>,
    rules: &F,
) -> (r: ValueValidationResult)
    requires
        rules_total(*rules),
    ensures
        exists|v: FloatVerdictView|
            rules_gave(*rules, value@, crate::csv_schema::opt_view(*min), crate::csv_schema::opt_view(*max), v)
                && r@ == spec_float_result(value@, crate::csv_schema::opt_view(*min), crate::csv_schema::opt_view(*max), v),
{
    let verdict = rules(value, min, max);
    let ghost v = verdict@;
    let r = float_result(value, min, max, verdict);
    assert(rules_gave(*rules, value@, crate::csv_schema::opt_view(*min), crate::csv_schema::opt_view(*max), v));
    r
}

} // verus!
