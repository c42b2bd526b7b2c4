use vecdb::metric::check_compatible;
use vecdb::MetricError;

#[test]
fn dimension_mismatch_errors() {
    let a = [1.0_f32, 2.0];
    let b = [1.0_f32, 2.0, 3.0];
    assert_eq!(
        check_compatible(a.len(), b.len()).unwrap_err(),
        MetricError::DimensionMismatch { lhs: 2, rhs: 3 }
    );
    assert_eq!(
        check_compatible(b.len(), a.len()).unwrap_err(),
        MetricError::DimensionMismatch { lhs: 3, rhs: 2 }
    );
}

#[test]
fn empty_vector_errors() {
    let empty: [f32; 0] = [];
    let v = [1.0_f32];
    assert_eq!(check_compatible(empty.len(), v.len()).unwrap_err(), MetricError::EmptyVector);
    assert_eq!(check_compatible(v.len(), empty.len()).unwrap_err(), MetricError::EmptyVector);
    assert_eq!(check_compatible(empty.len(), empty.len()).unwrap_err(), MetricError::EmptyVector);
}

#[test]
fn equal_nonzero_lengths_are_compatible() {
    assert_eq!(check_compatible(3, 3), Ok(()));
    assert_eq!(check_compatible(1, 1), Ok(()));
}

#[test]
fn empty_is_reported_before_mismatch() {
    assert_eq!(check_compatible(0, 5), Err(MetricError::EmptyVector));
}
