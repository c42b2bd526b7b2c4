//! Backend-agnostic payload filters: field conditions and a
//! filter-then-search query builder that adapters turn into their own
//! filter syntax.

use vstd::prelude::*;

verus! {

/// One condition on a payload field.
#[derive(Debug, Clone, PartialEq, Eq)]
pub enum FieldCondition {
    /// Field must exactly match the given string.
    Eq(String, String),
    /// Field must be one of the given strings.
    In(String, Vec<String>),
    /// Field must NOT match the given string.
    NotEq(String, String),
}

/// A field condition as text.
pub enum ConditionView {
    /// `field == value`.
    Eq(Seq<char>, Seq<char>),
    /// `field in values`.
    In(Seq<char>, Seq<Seq<char>>),
    /// `field != value`.
    NotEq(Seq<char>, Seq<char>),
}

impl View for FieldCondition {
    type V = ConditionView;

    open spec fn view(&self) -> ConditionView {
        match self {
            FieldCondition::Eq(f, v) => ConditionView::Eq(f@, v@),
            FieldCondition::In(f, vs) => ConditionView::In(f@, vs@.map_values(|s: String| s@)),
            FieldCondition::NotEq(f, v) => ConditionView::NotEq(f@, v@),
        }
    }
}

impl FieldCondition {
    /// Build an equality condition (`field == value`).
    pub fn eq(field: &str, value: &str) -> (c: Self)
        ensures
            c@ == ConditionView::Eq(field@, value@),
    {
        FieldCondition::Eq(field.to_owned(), value.to_owned())
    }

    /// Build a set-membership condition (`field in {values}`).
    pub fn one_of(field: &str, values: Vec<String>) -> (c: Self)
        ensures
            c@ == ConditionView::In(field@, values@.map_values(|s: String| s@)),
    {
        FieldCondition::In(field.to_owned(), values)
    }

    /// Build a negation condition (`field != value`).
    pub fn not_eq(field: &str, value: &str) -> (c: Self)
        ensures
            c@ == ConditionView::NotEq(field@, value@),
    {
        FieldCondition::NotEq(field.to_owned(), value.to_owned())
    }
}

/// The two condition lists of a query, in the order they were added.
pub struct QueryView {
    /// Positive conditions: every result must satisfy each of them.
    pub must: Seq<FieldCondition>,
    /// Negative conditions: results matching any of them are excluded.
    pub must_not: Seq<FieldCondition>,
}

impl QueryView {
    /// The query with no conditions.
    pub open spec fn empty() -> QueryView {
        QueryView { must: Seq::empty(), must_not: Seq::empty() }
    }

    /// The query with `c` appended to its positive conditions.
    pub open spec fn with_must(self, c: FieldCondition) -> QueryView {
        QueryView { must: self.must.push(c), must_not: self.must_not }
    }

    /// The query with `c` appended to its negative conditions.
    pub open spec fn with_must_not(self, c: FieldCondition) -> QueryView {
        QueryView { must: self.must, must_not: self.must_not.push(c) }
    }

    /// No condition of either kind.
    pub open spec fn has_no_conditions(self) -> bool {
        self.must.len() == 0 && self.must_not.len() == 0
    }
}

/// Filter-then-search query builder.
#[derive(Debug, Clone)]
pub struct FilteredQuery {
    must: Vec<FieldCondition>,
    must_not: Vec<FieldCondition>,
}

impl View for FilteredQuery {
    type V = QueryView;

    closed spec fn view(&self) -> QueryView {
        QueryView { must: self.must@, must_not: self.must_not@ }
    }
}

impl Default for FilteredQuery {
    fn default() -> (q: Self)
        ensures
            q@ == QueryView::empty(),
    {
        FilteredQuery { must: Vec::new(), must_not: Vec::new() }
    }
}

impl FilteredQuery {
    /// New empty query: every condition added afterwards tightens the filter.
    pub fn new() -> (q: Self)
        ensures
            q@ == QueryView::empty(),
    {
        FilteredQuery { must: Vec::new(), must_not: Vec::new() }
    }

    /// Add a positive condition (every result must satisfy it).
    pub fn must(self, cond: FieldCondition) -> (q: Self)
        ensures
            q@ == self@.with_must(cond),
    {
        let mut q = self;
        q.must.push(cond);
        q
    }

    /// Add a negative condition (results matching it are excluded).
    pub fn must_not(self, cond: FieldCondition) -> (q: Self)
        ensures
            q@ == self@.with_must_not(cond),
    {
        let mut q = self;
        q.must_not.push(cond);
        q
    }

    /// Read the positive conditions.
    pub fn must_conditions(&self) -> (r: &[FieldCondition])
        ensures
            r@ == self@.must,
    {
        self.must.as_slice()
    }

    /// Read the negative conditions.
    pub fn must_not_conditions(&self) -> (r: &[FieldCondition])
        ensures
            r@ == self@.must_not,
    {
        self.must_not.as_slice()
    }

    /// True when no conditions have been added.
    pub fn is_empty(&self) -> (b: bool)
        ensures
            b == self@.has_no_conditions(),
    {
        self.must.len() == 0 && self.must_not.len() == 0
    }
}

/// A query is empty exactly until its first condition: adding a condition of
/// either kind leaves a query that is not empty.
pub proof fn law_added_condition_makes_query_nonempty(q: QueryView, c: FieldCondition)
    ensures
        QueryView::empty().has_no_conditions(),
        !q.with_must(c).has_no_conditions(),
        !q.with_must_not(c).has_no_conditions(),
{
}

/// Each kind of condition goes to its own list and leaves the other list as
/// it was; the condition is kept as given, so the list it lands in is what
/// decides its polarity.
pub proof fn law_conditions_keep_their_bucket(q: QueryView, c: FieldCondition)
    ensures
        q.with_must(c).must_not == q.must_not,
        q.with_must(c).must.len() == q.must.len() + 1,
        q.with_must(c).must.last() == c,
        q.with_must_not(c).must == q.must,
        q.with_must_not(c).must_not.len() == q.must_not.len() + 1,
        q.with_must_not(c).must_not.last() == c,
{
}

/// Conditions accumulate in the order they are added: adding `a` then `b`
/// appends `a` then `b`, after everything added before.
pub proof fn law_conditions_keep_their_order(q: QueryView, a: FieldCondition, b: FieldCondition)
    ensures
        q.with_must(a).with_must(b).must == q.must + seq![a, b],
        q.with_must_not(a).with_must_not(b).must_not == q.must_not + seq![a, b],
        q.with_must(a).with_must_not(b) == q.with_must_not(b).with_must(a),
{
    assert(q.with_must(a).with_must(b).must =~= q.must + seq![a, b]);
    assert(q.with_must_not(a).with_must_not(b).must_not =~= q.must_not + seq![a, b]);
}

} // verus!
