use vecdb::filter::{FieldCondition, FilteredQuery};

#[test]
fn filtered_query_starts_empty() {
    let q = FilteredQuery::new();
    assert!(q.is_empty());
    assert!(q.must_conditions().is_empty());
    assert!(q.must_not_conditions().is_empty());
}

#[test]
fn filtered_query_must_then_must_not() {
    let q = FilteredQuery::new()
        .must(FieldCondition::eq("rating", "PG"))
        .must(FieldCondition::one_of(
            "category",
            vec!["Action".to_string(), "Drama".to_string()],
        ))
        .must_not(FieldCondition::eq("language", "Klingon"));
    assert!(!q.is_empty());
    assert_eq!(q.must_conditions().len(), 2);
    assert_eq!(q.must_not_conditions().len(), 1);
    assert_eq!(
        q.must_conditions()[0],
        FieldCondition::Eq("rating".to_string(), "PG".to_string())
    );
    // must_not() keeps the inner FieldCondition as-is; the bucket
    // (must vs must_not) is what flips the polarity.
    assert_eq!(
        q.must_not_conditions()[0],
        FieldCondition::Eq("language".to_string(), "Klingon".to_string())
    );
}

#[test]
fn field_condition_constructors_round_trip() {
    let a = FieldCondition::not_eq("year", "2026");
    assert_eq!(
        a,
        FieldCondition::NotEq("year".to_string(), "2026".to_string())
    );
}

#[test]
fn one_of_keeps_values_in_order() {
    let c = FieldCondition::one_of("category", vec!["Action".to_string(), "Drama".to_string()]);
    assert_eq!(
        c,
        FieldCondition::In(
            "category".to_string(),
            vec!["Action".to_string(), "Drama".to_string()]
        )
    );
}

#[test]
fn single_must_not_makes_query_nonempty() {
    let q = FilteredQuery::new().must_not(FieldCondition::not_eq("rating", "R"));
    assert!(!q.is_empty());
    assert!(q.must_conditions().is_empty());
    assert_eq!(
        q.must_not_conditions(),
        &[FieldCondition::NotEq("rating".to_string(), "R".to_string())][..]
    );
}

#[test]
fn conditions_keep_insertion_order() {
    let q = FilteredQuery::new()
        .must(FieldCondition::eq("a", "1"))
        .must_not(FieldCondition::eq("x", "9"))
        .must(FieldCondition::eq("b", "2"));
    assert_eq!(
        q.must_conditions(),
        &[
            FieldCondition::Eq("a".to_string(), "1".to_string()),
            FieldCondition::Eq("b".to_string(), "2".to_string())
        ][..]
    );
    assert_eq!(q.must_not_conditions().len(), 1);
}

#[test]
fn default_query_is_empty() {
    let q = FilteredQuery::default();
    assert!(q.is_empty());
}
