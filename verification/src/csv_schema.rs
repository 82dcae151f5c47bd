//! The schema of a CSV file: its columns and their types, the conditions
//! that switch a column to another type, unique constraints and foreign keys.

use crate::csv_cell_validators::{
    eval_enum, eval_float, eval_integer, eval_string, regex_outcome, spec_eval_enum,
    spec_eval_integer, spec_float_result, spec_string_result, spec_parse_i64, rules_gave, rules_total, FloatVerdict, FloatVerdictView,
    CellErrorView, ValueResultView, ValueValidationResult,
};
use crate::csv_reader::{row_get, str_eq, RowMap};
use vstd::prelude::*;

verus! {

broadcast use vstd::std_specs::vec::axiom_vec_index_decreases;

// ---------------------------------------------------------------- patterns

/// Whether `pattern` is a regular expression that `regex::Regex::new` accepts.
pub uninterp spec fn regex_compiles(pattern: Seq<char>) -> bool;

/// Whether the regular expression `pattern` matches somewhere in `text`, as
/// `regex::Regex::is_match` decides it.
pub uninterp spec fn regex_matches(pattern: Seq<char>, text: Seq<char>) -> bool;

/// `regex::Regex`, held by `Pattern`.
#[verifier::external_type_specification]
#[verifier::external_body]
pub struct ExRegex(regex::Regex);

/// `regex::Error`, the reason a pattern was refused.
#[verifier::external_type_specification]
#[verifier::external_body]
pub struct ExRegexError(regex::Error);

/// Compiles a pattern with `regex::Regex::new`. Trusted: it succeeds exactly on
/// the patterns that the name `regex_compiles` accepts, a function of the
/// pattern alone.
#[verifier::external_body]
fn compile_regex(pattern: &str) -> (r: Result<regex::Regex, regex::Error>)
    ensures
        r is Ok <==> regex_compiles(pattern@),
{
    regex::Regex::new(pattern)
}

/// Runs `regex::Regex::is_match` on a compiled pattern. Trusted: the result is
/// `regex_matches` of the pattern the `Pattern` was compiled from (its source,
/// which only `Pattern::new` sets, together with the compiled form) and of the
/// text.
#[verifier::external_body]
fn pattern_is_match(p: &Pattern, text: &str) -> (b: bool)
    ensures
        b == regex_matches(p@, text@),
{
    p.compiled.is_match(text)
}

/// Copies a compiled pattern with `<regex::Regex as Clone>::clone`. Nothing is
/// stated of the copy: the `Pattern` that holds it keeps the source with it.
#[verifier::external_body]
fn clone_regex(re: &regex::Regex) -> regex::Regex {
    re.clone()
}

/// A regular expression together with the text it was compiled from.
#[derive(Debug)]
pub struct Pattern {
    source: String,
    compiled: regex::Regex,
}

impl View for Pattern {
    type V = Seq<char>;

    closed spec fn view(&self) -> Seq<char> {
        self.source@
    }
}

impl Pattern {
    /// Compiles `source`; fails exactly when the regex crate refuses it.
    pub fn new(source: &str) -> (r: Result<Pattern, regex::Error>)
        ensures
            r is Ok <==> regex_compiles(source@),
            r matches Ok(p) ==> p@ == source@,
    {
        match compile_regex(source) {
            Ok(compiled) => Ok(Pattern { source: source.to_string(), compiled }),
            Err(e) => Err(e),
        }
    }

    /// The text the pattern was compiled from.
    pub fn as_str(&self) -> (s: &str)
        ensures
            s@ == self@,
    {
        self.source.as_str()
    }

    /// Whether the pattern matches somewhere in `text`.
    pub fn is_match(&self, text: &str) -> (b: bool)
        ensures
            b == regex_matches(self@, text@),
    {
        pattern_is_match(self, text)
    }
}

impl Clone for Pattern {
    fn clone(&self) -> (r: Self)
        ensures
            r@ == self@,
    {
        Pattern { source: self.source.clone(), compiled: clone_regex(&self.compiled) }
    }
}

// ---------------------------------------------------------------- conditions

/// Comparison of a cell with a value.
#[derive(Debug)]
pub enum Op {
    Eq(String),
}

/// A condition on one cell.
#[derive(Debug)]
pub struct Leaf {
    pub column: String,
    pub op: Op,
}

/// Holds when one of its conditions holds.
#[derive(Debug)]
pub struct Or {
    pub or: Vec<CsvCondition>,
}

/// Holds when all of its conditions hold.
#[derive(Debug)]
pub struct And {
    pub and: Vec<CsvCondition>,
}

/// A condition on the cells of a row.
#[derive(Debug)]
pub enum CsvCondition {
    Leaf(Leaf),
    And(And),
    Or(Or),
}

/// A row seen as (column name, cell) pairs.
pub type RowView = Seq<(Seq<char>, Seq<char>)>;

/// The value `Op::Eq` compares with.
pub open spec fn op_value(op: Op) -> Seq<char> {
    match op {
        Op::Eq(v) => v@,
    }
}

/// A leaf can be evaluated when the row has its column.
pub open spec fn leaf_defined(l: Leaf, row: RowView) -> bool {
    row_get(row, l.column@) is Some
}

/// A leaf holds when its column's cell equals its value.
pub open spec fn leaf_holds(l: Leaf, row: RowView) -> bool {
    row_get(row, l.column@) == Some(op_value(l.op))
}

/// Evaluating `c` on `row` reaches no leaf whose column the row lacks; `Or`
/// stops at the first condition that holds, `And` at the first that fails.
pub open spec fn condition_defined(c: CsvCondition, row: RowView) -> bool
    decreases c,
{
    match c {
        CsvCondition::Leaf(l) => leaf_defined(l, row),
        CsvCondition::Or(o) => any_defined(o.or@, row),
        CsvCondition::And(a) => all_defined(a.and@, row),
    }
}

/// Whether `c` holds on `row`.
pub open spec fn condition_holds(c: CsvCondition, row: RowView) -> bool
    decreases c,
{
    match c {
        CsvCondition::Leaf(l) => leaf_holds(l, row),
        CsvCondition::Or(o) => any_holds(o.or@, row),
        CsvCondition::And(a) => all_holds(a.and@, row),
    }
}

/// Evaluating the conditions in order until one holds stays defined.
pub open spec fn any_defined(cs: Seq<CsvCondition>, row: RowView) -> bool
    decreases cs,
{
    if cs.len() == 0 {
        true
    } else {
        condition_defined(cs[0], row) && (condition_holds(cs[0], row) || any_defined(
            cs.drop_first(),
            row,
        ))
    }
}

/// One of the conditions holds.
pub open spec fn any_holds(cs: Seq<CsvCondition>, row: RowView) -> bool
    decreases cs,
{
    if cs.len() == 0 {
        false
    } else {
        condition_holds(cs[0], row) || any_holds(cs.drop_first(), row)
    }
}

/// Evaluating the conditions in order until one fails stays defined.
pub open spec fn all_defined(cs: Seq<CsvCondition>, row: RowView) -> bool
    decreases cs,
{
    if cs.len() == 0 {
        true
    } else {
        condition_defined(cs[0], row) && (!condition_holds(cs[0], row) || all_defined(
            cs.drop_first(),
            row,
        ))
    }
}

/// All of the conditions hold.
pub open spec fn all_holds(cs: Seq<CsvCondition>, row: RowView) -> bool
    decreases cs,
{
    if cs.len() == 0 {
        true
    } else {
        condition_holds(cs[0], row) && all_holds(cs.drop_first(), row)
    }
}

/// `Or` holds exactly when one of its conditions holds.
pub proof fn lemma_any_holds_exists(cs: Seq<CsvCondition>, row: RowView)
    ensures
        any_holds(cs, row) <==> exists|i: int| 0 <= i < cs.len() && condition_holds(#[trigger] cs[i], row),
    decreases cs.len(),
{
    if cs.len() > 0 {
        lemma_any_holds_exists(cs.drop_first(), row);
        if exists|i: int| 0 <= i < cs.len() && condition_holds(#[trigger] cs[i], row) {
            let i = choose|i: int| 0 <= i < cs.len() && condition_holds(#[trigger] cs[i], row);
            if i > 0 {
                assert(cs.drop_first()[i - 1] == cs[i]);
            }
        }
        if exists|i: int| 0 <= i < cs.drop_first().len() && condition_holds(#[trigger] cs.drop_first()[i], row) {
            let i = choose|i: int| 0 <= i < cs.drop_first().len() && condition_holds(#[trigger] cs.drop_first()[i], row);
            assert(cs[i + 1] == cs.drop_first()[i]);
        }
    }
}

/// `And` holds exactly when all of its conditions hold.
pub proof fn lemma_all_holds_forall(cs: Seq<CsvCondition>, row: RowView)
    ensures
        all_holds(cs, row) <==> forall|i: int| 0 <= i < cs.len() ==> condition_holds(#[trigger] cs[i], row),
    decreases cs.len(),
{
    if cs.len() > 0 {
        lemma_all_holds_forall(cs.drop_first(), row);
        if forall|i: int| 0 <= i < cs.len() ==> condition_holds(#[trigger] cs[i], row) {
            assert forall|i: int| 0 <= i < cs.drop_first().len() implies condition_holds(#[trigger] cs.drop_first()[i], row) by {
                assert(cs.drop_first()[i] == cs[i + 1]);
            }
        }
        if all_holds(cs, row) {
            assert forall|i: int| 0 <= i < cs.len() implies condition_holds(#[trigger] cs[i], row) by {
                if i > 0 {
                    assert(cs.drop_first()[i - 1] == cs[i]);
                }
            }
        }
    }
}

/// Something that holds or not on a row.
pub trait Conditional {
    /// Evaluation on `row` reaches only columns that `row` has.
    spec fn defined_on(&self, row: RowView) -> bool;

    /// Whether the condition holds on `row`.
    spec fn holds_on(&self, row: RowView) -> bool;

    /// Evaluates the condition on a row.
    fn evaluate(&self, row: &RowMap) -> (b: bool)
        requires
            self.defined_on(row@),
        ensures
            b == self.holds_on(row@),
    ;
}

fn eval_leaf(l: &Leaf, row: &RowMap) -> (b: bool)
    requires
        leaf_defined(*l, row@),
    ensures
        b == leaf_holds(*l, row@),
{
    let cell = row.get(l.column.as_str());
    match cell {
        Some(cell) => match &l.op {
            Op::Eq(value) => str_eq(cell.as_str(), value.as_str()),
        },
        None => false,
    }
}

fn eval_condition(c: &CsvCondition, row: &RowMap) -> (b: bool)
    requires
        condition_defined(*c, row@),
    ensures
        b == condition_holds(*c, row@),
    decreases c,
{
    match c {
        CsvCondition::Leaf(l) => eval_leaf(l, row),
        CsvCondition::Or(o) => eval_any(&o.or, row),
        CsvCondition::And(a) => eval_all(&a.and, row),
    }
}

fn eval_any(cs: &Vec<CsvCondition>, row: &RowMap) -> (b: bool)
    requires
        any_defined(cs@, row@),
    ensures
        b == any_holds(cs@, row@),
    decreases cs,
{
    let mut i: usize = 0;
    assert(cs@.skip(0) == cs@);
    while i < cs.len()
        invariant
            i <= cs@.len(),
            any_defined(cs@.skip(i as int), row@),
            any_holds(cs@, row@) == any_holds(cs@.skip(i as int), row@),
        decreases cs@.len() - i,
    {
        assert(cs@.skip(i as int)[0] == cs@[i as int]);
        assert(cs@.skip(i as int).drop_first() == cs@.skip(i + 1));
        assert(decreases_to!(cs => cs[i as int]));
        if eval_condition(&cs[i], row) {
            return true;
        }
        i = i + 1;
    }
    false
}

fn eval_all(cs: &Vec<CsvCondition>, row: &RowMap) -> (b: bool)
    requires
        all_defined(cs@, row@),
    ensures
        b == all_holds(cs@, row@),
    decreases cs,
{
    let mut i: usize = 0;
    assert(cs@.skip(0) == cs@);
    while i < cs.len()
        invariant
            i <= cs@.len(),
            all_defined(cs@.skip(i as int), row@),
            all_holds(cs@, row@) == all_holds(cs@.skip(i as int), row@),
        decreases cs@.len() - i,
    {
        assert(cs@.skip(i as int)[0] == cs@[i as int]);
        assert(cs@.skip(i as int).drop_first() == cs@.skip(i + 1));
        assert(decreases_to!(cs => cs[i as int]));
        if !eval_condition(&cs[i], row) {
            return false;
        }
        i = i + 1;
    }
    true
}

impl Conditional for Leaf {
    open spec fn defined_on(&self, row: RowView) -> bool {
        leaf_defined(*self, row)
    }

    open spec fn holds_on(&self, row: RowView) -> bool {
        leaf_holds(*self, row)
    }

    fn evaluate(&self, row: &RowMap) -> (b: bool) {
        eval_leaf(self, row)
    }
}

impl Conditional for Or {
    open spec fn defined_on(&self, row: RowView) -> bool {
        any_defined(self.or@, row)
    }

    open spec fn holds_on(&self, row: RowView) -> bool {
        any_holds(self.or@, row)
    }

    fn evaluate(&self, row: &RowMap) -> (b: bool) {
        eval_any(&self.or, row)
    }
}

impl Conditional for And {
    open spec fn defined_on(&self, row: RowView) -> bool {
        all_defined(self.and@, row)
    }

    open spec fn holds_on(&self, row: RowView) -> bool {
        all_holds(self.and@, row)
    }

    fn evaluate(&self, row: &RowMap) -> (b: bool) {
        eval_all(&self.and, row)
    }
}

impl Conditional for CsvCondition {
    open spec fn defined_on(&self, row: RowView) -> bool {
        condition_defined(*self, row)
    }

    open spec fn holds_on(&self, row: RowView) -> bool {
        condition_holds(*self, row)
    }

    fn evaluate(&self, row: &RowMap) -> (b: bool) {
        eval_condition(self, row)
    }
}


// ---------------------------------------------------------------- copies

/// Copies a list of strings.
pub fn clone_strings(v: &Vec<String>) -> (r: Vec<String>)
    ensures
        r.deep_view() == v.deep_view(),
{
    let mut r: Vec<String> = Vec::new();
    let mut i: usize = 0;
    while i < v.len()
        invariant
            i <= v@.len(),
            r@.len() == i,
            r.deep_view() == v.deep_view().take(i as int),
        decreases v@.len() - i,
    {
        let c = v[i].clone();
        r.push(c);
        assert(r.deep_view() =~= v.deep_view().take(i + 1));
        i = i + 1;
    }
    assert(v.deep_view().take(v@.len() as int) == v.deep_view());
    r
}

/// `CsvCondition` with its text as characters.
pub enum ConditionView {
    Leaf { column: Seq<char>, value: Seq<char> },
    And(Seq<ConditionView>),
    Or(Seq<ConditionView>),
}

/// The characters of a condition and of all conditions inside it.
pub open spec fn condition_view(c: CsvCondition) -> ConditionView
    decreases c,
{
    match c {
        CsvCondition::Leaf(l) => ConditionView::Leaf { column: l.column@, value: op_value(l.op) },
        CsvCondition::And(a) => ConditionView::And(conditions_view(a.and@)),
        CsvCondition::Or(o) => ConditionView::Or(conditions_view(o.or@)),
    }
}

/// The view of each condition of a list.
pub open spec fn conditions_view(cs: Seq<CsvCondition>) -> Seq<ConditionView>
    decreases cs,
{
    if cs.len() == 0 {
        seq![]
    } else {
        seq![condition_view(cs[0])] + conditions_view(cs.drop_first())
    }
}

impl View for CsvCondition {
    type V = ConditionView;

    open spec fn view(&self) -> ConditionView {
        condition_view(*self)
    }
}

fn clone_condition(c: &CsvCondition) -> (r: CsvCondition)
    ensures
        condition_view(r) == condition_view(*c),
    decreases c,
{
    match c {
        CsvCondition::Leaf(l) => {
            let op = match &l.op {
                Op::Eq(v) => Op::Eq(v.clone()),
            };
            CsvCondition::Leaf(Leaf { column: l.column.clone(), op })
        },
        CsvCondition::And(a) => CsvCondition::And(And { and: clone_conditions(&a.and) }),
        CsvCondition::Or(o) => CsvCondition::Or(Or { or: clone_conditions(&o.or) }),
    }
}

fn clone_conditions(cs: &Vec<CsvCondition>) -> (r: Vec<CsvCondition>)
    ensures
        conditions_view(r@) == conditions_view(cs@),
    decreases cs,
{
    let mut r: Vec<CsvCondition> = Vec::new();
    let mut i: usize = 0;
    while i < cs.len()
        invariant
            i <= cs@.len(),
            r@.len() == i,
            forall|j: int| 0 <= j < i ==> condition_view(#[trigger] r@[j]) == condition_view(cs@[j]),
        decreases cs@.len() - i,
    {
        assert(decreases_to!(cs => cs[i as int]));
        let c = clone_condition(&cs[i]);
        r.push(c);
        i = i + 1;
    }
    proof {
        lemma_conditions_view_pointwise(r@, cs@);
    }
    r
}

/// Lists whose conditions have equal views pairwise have equal views.
proof fn lemma_conditions_view_pointwise(a: Seq<CsvCondition>, b: Seq<CsvCondition>)
    requires
        a.len() == b.len(),
        forall|j: int| 0 <= j < a.len() ==> condition_view(#[trigger] a[j]) == condition_view(b[j]),
    ensures
        conditions_view(a) == conditions_view(b),
    decreases a.len(),
{
    if a.len() > 0 {
        assert forall|j: int| 0 <= j < a.drop_first().len() implies condition_view(
            #[trigger] a.drop_first()[j],
        ) == condition_view(b.drop_first()[j]) by {
            assert(a.drop_first()[j] == a[j + 1]);
            assert(b.drop_first()[j] == b[j + 1]);
        }
        lemma_conditions_view_pointwise(a.drop_first(), b.drop_first());
    }
}

impl Clone for CsvCondition {
    fn clone(&self) -> (r: Self)
        ensures
            r@ == self@,
    {
        clone_condition(self)
    }
}

// ---------------------------------------------------------------- columns

/// The type of a column and its limits. The limits of a float column are
/// held as the decimal text of the bounds; the comparison itself is made by
/// float rules that the caller provides.
#[allow(inconsistent_fields)]
#[derive(Debug)]
pub enum ColumnType {
    String {
        min_length: Option<u32>,
        max_length: Option<u32>,
        regex: Option<Pattern>,
        custom_validator: Option<String>,
    },
    Integer { min: Option<i64>, max: Option<i64> },
    Float { min: Option<String>, max: Option<String> },
    Enum { values: Vec<String> },
}

/// `ColumnType` with its text as characters.
#[allow(inconsistent_fields)]
pub enum ColumnTypeView {
    String {
        min_length: Option<u32>,
        max_length: Option<u32>,
        regex: Option<Seq<char>>,
        custom_validator: Option<Seq<char>>,
    },
    Integer { min: Option<i64>, max: Option<i64> },
    Float { min: Option<Seq<char>>, max: Option<Seq<char>> },
    Enum { values: Seq<Seq<char>> },
}

/// The characters of an optional string.
pub open spec fn opt_view(s: Option<String>) -> Option<Seq<char>> {
    match s {
        Some(s) => Some(s@),
        None => None,
    }
}

impl View for ColumnType {
    type V = ColumnTypeView;

    open spec fn view(&self) -> ColumnTypeView {
        match self {
            ColumnType::String { min_length, max_length, regex, custom_validator } =>
                ColumnTypeView::String {
                min_length: *min_length,
                max_length: *max_length,
                regex: match regex {
                    Some(p) => Some(p@),
                    None => None,
                },
                custom_validator: opt_view(*custom_validator),
            },
            ColumnType::Integer { min, max } => ColumnTypeView::Integer { min: *min, max: *max },
            ColumnType::Float { min, max } => ColumnTypeView::Float {
                min: opt_view(*min),
                max: opt_view(*max),
            },
            ColumnType::Enum { values } => ColumnTypeView::Enum { values: values.deep_view() },
        }
    }
}

fn clone_opt_string(s: &Option<String>) -> (r: Option<String>)
    ensures
        opt_view(r) == opt_view(*s),
{
    match s {
        Some(s) => Some(s.clone()),
        None => None,
    }
}

impl Clone for ColumnType {
    fn clone(&self) -> (r: Self)
        ensures
            r@ == self@,
    {
        match self {
            ColumnType::String { min_length, max_length, regex, custom_validator } => {
                let regex = match regex {
                    Some(p) => Some(p.clone()),
                    None => None,
                };
                ColumnType::String {
                    min_length: *min_length,
                    max_length: *max_length,
                    regex,
                    custom_validator: clone_opt_string(custom_validator),
                }
            },
            ColumnType::Integer { min, max } => ColumnType::Integer { min: *min, max: *max },
            ColumnType::Float { min, max } => ColumnType::Float {
                min: clone_opt_string(min),
                max: clone_opt_string(max),
            },
            ColumnType::Enum { values } => ColumnType::Enum { values: clone_strings(values) },
        }
    }
}

/// Another type for a column, taken on rows where `condition` holds.
#[derive(Debug)]
pub struct CsvColumnSchemaOverride {
    pub required: Option<bool>,
    pub dtype: ColumnType,
    pub condition: CsvCondition,
}

/// `CsvColumnSchemaOverride` with its text as characters.
pub struct OverrideView {
    pub required: Option<bool>,
    pub dtype: ColumnTypeView,
    pub condition: ConditionView,
}

impl View for CsvColumnSchemaOverride {
    type V = OverrideView;

    open spec fn view(&self) -> OverrideView {
        OverrideView { required: self.required, dtype: self.dtype@, condition: self.condition@ }
    }
}

impl Clone for CsvColumnSchemaOverride {
    fn clone(&self) -> (r: Self)
        ensures
            r@ == self@,
    {
        CsvColumnSchemaOverride {
            required: self.required,
            dtype: self.dtype.clone(),
            condition: self.condition.clone(),
        }
    }
}

/// A column: its name, whether a value is required, its type and the
/// overrides of its type.
#[derive(Debug)]
pub struct CsvColumnSchema {
    pub name: String,
    pub required: Option<bool>,
    pub dtype: ColumnType,
    pub overrides: Option<Vec<CsvColumnSchemaOverride>>,
}

/// `CsvColumnSchema` with its text as characters.
pub struct ColumnSchemaView {
    pub name: Seq<char>,
    pub required: Option<bool>,
    pub dtype: ColumnTypeView,
    pub overrides: Option<Seq<OverrideView>>,
}

/// The view of each override of a list.
pub open spec fn overrides_view(os: Seq<CsvColumnSchemaOverride>) -> Seq<OverrideView> {
    os.map_values(|o: CsvColumnSchemaOverride| o@)
}

impl View for CsvColumnSchema {
    type V = ColumnSchemaView;

    open spec fn view(&self) -> ColumnSchemaView {
        ColumnSchemaView {
            name: self.name@,
            required: self.required,
            dtype: self.dtype@,
            overrides: match self.overrides {
                Some(os) => Some(overrides_view(os@)),
                None => None,
            },
        }
    }
}

fn clone_overrides(os: &Vec<CsvColumnSchemaOverride>) -> (r: Vec<CsvColumnSchemaOverride>)
    ensures
        overrides_view(r@) == overrides_view(os@),
{
    let mut r: Vec<CsvColumnSchemaOverride> = Vec::new();
    let mut i: usize = 0;
    while i < os.len()
        invariant
            i <= os@.len(),
            r@.len() == i,
            overrides_view(r@) == overrides_view(os@.take(i as int)),
        decreases os@.len() - i,
    {
        let o = os[i].clone();
        assert(o@ == os@[i as int]@);
        let ghost prev = r@;
        r.push(o);
        assert forall|j: int| 0 <= j < i + 1 implies #[trigger] overrides_view(r@)[j] == overrides_view(os@.take(i + 1))[j] by {
            if j < i {
                assert(r@[j] == prev[j]);
                assert(overrides_view(prev)[j] == overrides_view(os@.take(i as int))[j]);
            }
        }
        assert(overrides_view(r@) =~= overrides_view(os@.take(i + 1)));
        i = i + 1;
    }
    assert(os@.take(os@.len() as int) == os@);
    r
}

impl Clone for CsvColumnSchema {
    fn clone(&self) -> (r: Self)
        ensures
            r@ == self@,
    {
        let overrides = match &self.overrides {
            Some(os) => Some(clone_overrides(os)),
            None => None,
        };
        CsvColumnSchema {
            name: self.name.clone(),
            required: self.required,
            dtype: self.dtype.clone(),
            overrides,
        }
    }
}

// ---------------------------------------------------------------- schema

/// The file and columns a foreign key points to.
#[derive(Debug)]
pub struct ForeignReference {
    pub file: String,
    pub columns: Vec<String>,
}

/// Columns of this file whose values must occur in the referenced columns of
/// another file.
#[derive(Debug)]
pub struct ForeignKey {
    pub columns: Vec<String>,
    pub references: ForeignReference,
    pub name: String,
}

/// `ForeignKey` with its text as characters.
pub struct ForeignKeyView {
    pub columns: Seq<Seq<char>>,
    pub file: Seq<char>,
    pub referenced_columns: Seq<Seq<char>>,
    pub name: Seq<char>,
}

impl View for ForeignKey {
    type V = ForeignKeyView;

    open spec fn view(&self) -> ForeignKeyView {
        ForeignKeyView {
            columns: self.columns.deep_view(),
            file: self.references.file@,
            referenced_columns: self.references.columns.deep_view(),
            name: self.name@,
        }
    }
}

impl Clone for ForeignKey {
    fn clone(&self) -> (r: Self)
        ensures
            r@ == self@,
    {
        ForeignKey {
            columns: clone_strings(&self.columns),
            references: ForeignReference {
                file: self.references.file.clone(),
                columns: clone_strings(&self.references.columns),
            },
            name: self.name.clone(),
        }
    }
}

/// How the file is written.
#[derive(Debug)]
pub struct CsvSchemaSettings {
    pub comment: String,
    pub encoding: String,
    pub delimiter: String,
}

/// Columns whose values, taken together, must not repeat over the rows.
#[derive(Debug)]
pub struct SchemaUniqueConstraint {
    pub columns: Vec<String>,
    pub name: String,
}

/// The schema of a CSV file.
#[derive(Debug)]
pub struct CsvSchema {
    pub columns: Vec<CsvColumnSchema>,
    pub unique: Vec<SchemaUniqueConstraint>,
    pub foreign_keys: Vec<ForeignKey>,
    pub settings: CsvSchemaSettings,
}

/// The names of a list of columns.
pub open spec fn column_names(columns: Seq<CsvColumnSchema>) -> Seq<Seq<char>> {
    columns.map_values(|c: CsvColumnSchema| c.name@)
}

/// The position of the first occurrence of `name` in `names`, or -1.
pub open spec fn first_index(names: Seq<Seq<char>>, name: Seq<char>) -> int
    decreases names.len(),
{
    if names.len() == 0 {
        -1
    } else {
        let p = first_index(names.drop_last(), name);
        if p >= 0 {
            p
        } else if names.last() == name {
            names.len() - 1
        } else {
            -1
        }
    }
}

/// `first_index` finds the name exactly when it occurs, and finds its first
/// occurrence.
pub proof fn lemma_first_index(names: Seq<Seq<char>>, name: Seq<char>)
    ensures
        -1 <= first_index(names, name) < names.len(),
        first_index(names, name) >= 0 <==> names.contains(name),
        first_index(names, name) >= 0 ==> names[first_index(names, name)] == name,
        forall|j: int| 0 <= j < first_index(names, name) ==> names[j] != name,
        first_index(names, name) == -1 ==> forall|j: int| 0 <= j < names.len() ==> names[j] != name,
    decreases names.len(),
{
    if names.len() > 0 {
        lemma_first_index(names.drop_last(), name);
        assert forall|j: int| 0 <= j < names.len() - 1 implies names.drop_last()[j] == names[j] by {}
        if names.contains(name) {
            let j = choose|j: int| 0 <= j < names.len() && names[j] == name;
            if j < names.len() - 1 {
                assert(names.drop_last()[j] == name);
            }
        }
        if first_index(names.drop_last(), name) >= 0 {
            assert(names.drop_last().contains(name));
        }
    }
}

/// The column positions of `wanted`, each the first column with that name.
pub open spec fn spec_selection(names: Seq<Seq<char>>, wanted: Seq<Seq<char>>) -> Seq<usize> {
    wanted.map_values(|w: Seq<char>| first_index(names, w) as usize)
}

/// Every name of `wanted` is the name of a column.
pub open spec fn all_names_known(names: Seq<Seq<char>>, wanted: Seq<Seq<char>>) -> bool {
    forall|k: int| 0 <= k < wanted.len() ==> names.contains(#[trigger] wanted[k])
}

impl CsvSchema {
    /// The names of the columns.
    pub open spec fn names(&self) -> Seq<Seq<char>> {
        column_names(self.columns@)
    }

    /// The positions of the named columns, in the order of the names.
    pub fn named_col2col_selection(&self, named_columns: &Vec<String>) -> (sel: Vec<usize>)
        requires
            all_names_known(self.names(), named_columns.deep_view()),
        ensures
            sel@ == spec_selection(self.names(), named_columns.deep_view()),
            forall|k: int| 0 <= k < sel@.len() ==> sel@[k] < self.columns@.len(),
    {
        let mut sel: Vec<usize> = Vec::new();
        let mut i: usize = 0;
        let ghost wanted = named_columns.deep_view();
        while i < named_columns.len()
            invariant
                i <= named_columns@.len(),
                wanted == named_columns.deep_view(),
                all_names_known(self.names(), wanted),
                sel@ == spec_selection(self.names(), wanted.take(i as int)),
                forall|k: int| 0 <= k < sel@.len() ==> sel@[k] < self.columns@.len(),
            decreases named_columns@.len() - i,
        {
            assert(self.names().contains(wanted[i as int]));
            let idx = self.col_name_to_col_idx(named_columns[i].as_str());
            proof {
                lemma_first_index(self.names(), wanted[i as int]);
            }
            match idx {
                Some(idx) => {
                    sel.push(idx);
                    assert(sel@ == spec_selection(self.names(), wanted.take(i + 1)));
                },
                None => {
                    assert(false);
                },
            }
            i = i + 1;
        }
        assert(wanted.take(named_columns@.len() as int) == wanted);
        sel
    }

    /// The position of the first column named `col_name`.
    pub fn col_name_to_col_idx(&self, col_name: &str) -> (r: Option<usize>)
        ensures
            r == (if first_index(self.names(), col_name@) >= 0 {
                Some(first_index(self.names(), col_name@) as usize)
            } else {
                None
            }),
    {
        let mut i: usize = 0;
        let ghost names = self.names();
        while i < self.columns.len()
            invariant
                i <= self.columns@.len(),
                names == self.names(),
                first_index(names.take(i as int), col_name@) == -1,
            decreases self.columns@.len() - i,
        {
            assert(names.take(i + 1).drop_last() == names.take(i as int));
            if str_eq(self.columns[i].name.as_str(), col_name) {
                proof {
                    lemma_first_index(names.take(i + 1), col_name@);
                    lemma_prefix_first_index(names, col_name@, i + 1);
                }
                return Some(i);
            }
            i = i + 1;
        }
        assert(names.take(self.columns@.len() as int) == names);
        None
    }
}

/// A name found in a prefix is found at the same place in the whole list.
pub proof fn lemma_prefix_first_index(names: Seq<Seq<char>>, name: Seq<char>, n: int)
    requires
        0 <= n <= names.len(),
        first_index(names.take(n), name) >= 0,
    ensures
        first_index(names, name) == first_index(names.take(n), name),
    decreases names.len() - n,
{
    if n < names.len() {
        assert(names.take(n + 1).drop_last() == names.take(n));
        lemma_prefix_first_index(names, name, n + 1);
    } else {
        assert(names.take(n) == names);
    }
}


// ---------------------------------------------------------------- evaluation

/// The result of a cell of a column of type `t`; for a float column, given
/// what the float rules said of the cell.
pub open spec fn spec_eval_value(t: ColumnTypeView, value: Seq<char>, verdict: FloatVerdictView) -> ValueResultView {
    match t {
        ColumnTypeView::String { min_length, max_length, regex, .. } => spec_string_result(
            value,
            min_length,
            max_length,
            regex_outcome(regex, value),
        ),
        ColumnTypeView::Integer { min, max } => spec_eval_integer(value, min, max),
        ColumnTypeView::Float { min, max } => spec_float_result(value, min, max, verdict),
        ColumnTypeView::Enum { values } => spec_eval_enum(value, values),
    }
}

/// What checking a cell against a column type decides, for each kind of
/// column, in terms of the column's own fields. The result always carries
/// the cell. A string cell is valid exactly when its byte length (cut to 32
/// bits) is within the limits that are set and the column's pattern, if it
/// has one, matches the cell; a pattern that does not match gives a
/// `RegexNoMatch` error naming the pattern and the cell. An integer cell is
/// valid exactly when it parses as an `i64` within the bounds that are set.
/// A float cell is valid exactly when the verdict is a number neither below
/// a set minimum nor above a set maximum. An enum cell is valid exactly when
/// it is one of the values.
pub proof fn lemma_eval_value_by_type(t: ColumnTypeView, value: Seq<char>, v: FloatVerdictView)
    ensures
        match spec_eval_value(t, value, v) {
            ValueResultView::Valid { value: x } => x == value,
            ValueResultView::Error { value: x, errors } => x == value && errors.len() > 0,
        },
        match t {
            ColumnTypeView::String { min_length, max_length, regex, .. } => {
                let len = crate::csv_cell_validators::byte_len(value) as u32;
                &&& (spec_eval_value(t, value, v) is Valid <==> {
                    &&& match min_length {
                        Some(m) => len >= m,
                        None => true,
                    }
                    &&& match max_length {
                        Some(m) => len <= m,
                        None => true,
                    }
                    &&& match regex {
                        Some(p) => regex_matches(p, value),
                        None => true,
                    }
                })
                &&& match regex {
                    Some(p) => !regex_matches(p, value) ==> match spec_eval_value(t, value, v) {
                        ValueResultView::Error { errors, .. } => errors.contains(
                            CellErrorView::RegexNoMatch { regex: p, value },
                        ),
                        ValueResultView::Valid { .. } => false,
                    },
                    None => true,
                }
            },
            ColumnTypeView::Integer { min, max } => spec_eval_value(t, value, v) is Valid <==> match spec_parse_i64(
                value,
            ) {
                Some(n) => {
                    &&& match min {
                        Some(m) => n >= m,
                        None => true,
                    }
                    &&& match max {
                        Some(m) => n <= m,
                        None => true,
                    }
                },
                None => false,
            },
            ColumnTypeView::Float { min, max } => spec_eval_value(t, value, v) is Valid <==> match v {
                FloatVerdictView::Number { below_min, above_max, .. } => {
                    &&& !(min is Some && below_min)
                    &&& !(max is Some && above_max)
                },
                FloatVerdictView::NotANumber => false,
            },
            ColumnTypeView::Enum { values } => spec_eval_value(t, value, v) is Valid <==> values.contains(value),
        },
{
    match t {
        ColumnTypeView::String { min_length, max_length, regex, .. } => {
            let len = crate::csv_cell_validators::byte_len(value) as u32;
            let errs = crate::csv_cell_validators::string_errors(
                value,
                len,
                min_length,
                max_length,
                regex_outcome(regex, value),
            );
            if let Some(p) = regex {
                if !regex_matches(p, value) {
                    assert(errs[errs.len() - 1] == CellErrorView::RegexNoMatch { regex: p, value });
                }
            }
        },
        _ => {},
    }
}

/// Each failed check of a cell shows up in its errors with the limit and
/// what was found: a string shorter or longer than a set limit gives
/// `TooShort` or `TooLong` with the limit and the byte length; an integer
/// cell that does not parse gives `NotAnInteger`, and one below or above a
/// set bound gives `TooSmallInteger` or `TooLargeInteger` with the bound and
/// the value; a float verdict that is no number gives `NotAnInteger`, and
/// one below or above a set bound gives `TooSmallFloat` or `TooLargeFloat`
/// with the bound and the number's text; an enum cell that is not one of
/// the values gives `InvalidEnumValue` with the values.
pub proof fn lemma_eval_value_errors(t: ColumnTypeView, value: Seq<char>, v: FloatVerdictView)
    ensures
        ({
            let errors = match spec_eval_value(t, value, v) {
                ValueResultView::Error { errors, .. } => errors,
                ValueResultView::Valid { .. } => Seq::<CellErrorView>::empty(),
            };
            match t {
                ColumnTypeView::String { min_length, max_length, .. } => {
                    let len = crate::csv_cell_validators::byte_len(value) as u32;
                    &&& (min_length matches Some(m) && len < m) ==> errors.contains(
                        CellErrorView::TooShort { min: min_length->0, actual: len as usize },
                    )
                    &&& (max_length matches Some(m) && len > m) ==> errors.contains(
                        CellErrorView::TooLong { max: max_length->0, actual: len as usize },
                    )
                },
                ColumnTypeView::Integer { min, max } => match spec_parse_i64(value) {
                    None => errors == seq![CellErrorView::NotAnInteger],
                    Some(n) => {
                        &&& (min matches Some(m) && n < m) ==> errors.contains(
                            CellErrorView::TooSmallInteger { min: min->0, actual: n },
                        )
                        &&& (max matches Some(m) && n > m) ==> errors.contains(
                            CellErrorView::TooLargeInteger { max: max->0, actual: n },
                        )
                    },
                },
                ColumnTypeView::Float { min, max } => match v {
                    FloatVerdictView::NotANumber => errors == seq![CellErrorView::NotAnInteger],
                    FloatVerdictView::Number { actual, below_min, above_max } => {
                        &&& (min matches Some(m) && below_min) ==> errors.contains(
                            CellErrorView::TooSmallFloat { min: min->0, actual },
                        )
                        &&& (max matches Some(m) && above_max) ==> errors.contains(
                            CellErrorView::TooLargeFloat { max: max->0, actual },
                        )
                    },
                },
                ColumnTypeView::Enum { values } => !values.contains(value) ==> errors == seq![
                    CellErrorView::InvalidEnumValue { allowed: values },
                ],
            }
        }),
{
    match t {
        ColumnTypeView::String { min_length, max_length, regex, .. } => {
            let len = crate::csv_cell_validators::byte_len(value) as u32;
            let errs = crate::csv_cell_validators::string_errors(
                value,
                len,
                min_length,
                max_length,
                regex_outcome(regex, value),
            );
            if let Some(m) = min_length {
                if len < m {
                    assert(errs[0] == CellErrorView::TooShort { min: m, actual: len as usize });
                }
            }
            if let Some(m) = max_length {
                if len > m {
                    let k = if min_length matches Some(a) && len < a { 1int } else { 0int };
                    assert(errs[k] == CellErrorView::TooLong { max: m, actual: len as usize });
                }
            }
        },
        ColumnTypeView::Integer { min, max } => {
            if let Some(n) = spec_parse_i64(value) {
                let errs = crate::csv_cell_validators::integer_errors(n, min, max);
                if let Some(m) = min {
                    if n < m {
                        assert(errs[0] == CellErrorView::TooSmallInteger { min: m, actual: n });
                    }
                }
                if let Some(m) = max {
                    if n > m {
                        assert(errs[errs.len() - 1] == CellErrorView::TooLargeInteger { max: m, actual: n });
                    }
                }
            }
        },
        ColumnTypeView::Float { min, max } => {
            if let FloatVerdictView::Number { actual, below_min, above_max } = v {
                if let Some(m) = min {
                    if below_min {
                        let errs = match spec_eval_value(t, value, v) {
                            ValueResultView::Error { errors, .. } => errors,
                            ValueResultView::Valid { .. } => Seq::<CellErrorView>::empty(),
                        };
                        assert(errs[0] == CellErrorView::TooSmallFloat { min: m, actual });
                    }
                }
                if let Some(m) = max {
                    if above_max {
                        let errs = match spec_eval_value(t, value, v) {
                            ValueResultView::Error { errors, .. } => errors,
                            ValueResultView::Valid { .. } => Seq::<CellErrorView>::empty(),
                        };
                        assert(errs[errs.len() - 1] == CellErrorView::TooLargeFloat { max: m, actual });
                    }
                }
            }
        },
        ColumnTypeView::Enum { .. } => {},
    }
}

/// `v` is what the float rules `rules` gave on a cell of a column of type
/// `t`: a verdict they gave on it for a float column; other columns do not
/// consult the rules and take `NotANumber` in its place.
pub open spec fn column_rules_gave<F: Fn(&str, &Option<String>, &Option<String>) -> FloatVerdict>(
    rules: F,
    t: ColumnTypeView,
    value: Seq<char>,
    v: FloatVerdictView,
) -> bool {
    match t {
        ColumnTypeView::Float { min, max } => rules_gave(rules, value, min, max, v),
        _ => v == FloatVerdictView::NotANumber,
    }
}

/// Something a cell can be checked against.
pub trait CellEvaluator {
    /// Checks a cell; `row_map` is its row, `rules` compares float cells.
    fn eval_value<F: Fn(&str, &Option<String>, &Option<String>) -> FloatVerdict>(
        &self,
        value: &str,
        row_map: &RowMap,
        rules: &F,
    ) -> ValueValidationResult
        requires
            rules_total(*rules),
    ;
}

impl CellEvaluator for ColumnType {
    /// Checks a cell against the column type: the check of its kind, a
    /// float column with a verdict that `rules` gave on the cell.
    fn eval_value<F: Fn(&str, &Option<String>, &Option<String>) -> FloatVerdict>(
        &self,
        cell: &str,
        row_map: &RowMap,
        rules: &F,
    ) -> (r: ValueValidationResult)
        ensures
            exists|v: FloatVerdictView|
                column_rules_gave(*rules, self@, cell@, v) && r@ == spec_eval_value(self@, cell@, v),
    {
        match self {
            ColumnType::Integer { min, max } => {
                let r = eval_integer(cell, min, max);
                let ghost w = FloatVerdictView::NotANumber;
                assert(column_rules_gave(*rules, self@, cell@, w) && r@ == spec_eval_value(self@, cell@, w));
                r
            },
            ColumnType::Float { min, max } => {
                let r = eval_float(cell, min, max, rules);
                let ghost w = choose|v: FloatVerdictView|
                    rules_gave(*rules, cell@, opt_view(*min), opt_view(*max), v) && r@ == spec_float_result(
                        cell@,
                        opt_view(*min),
                        opt_view(*max),
                        v,
                    );
                assert(column_rules_gave(*rules, self@, cell@, w) && r@ == spec_eval_value(self@, cell@, w));
                r
            },
            ColumnType::String { min_length, max_length, regex, custom_validator } => {
                let r = eval_string(cell, min_length, max_length, regex, custom_validator, row_map);
                let ghost w = FloatVerdictView::NotANumber;
                assert(column_rules_gave(*rules, self@, cell@, w) && r@ == spec_eval_value(self@, cell@, w));
                r
            },
            ColumnType::Enum { values } => {
                let r = eval_enum(cell, values);
                let ghost w = FloatVerdictView::NotANumber;
                assert(column_rules_gave(*rules, self@, cell@, w) && r@ == spec_eval_value(self@, cell@, w));
                r
            },
        }
    }
}

} // verus!
