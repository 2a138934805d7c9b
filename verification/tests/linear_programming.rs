use cova::linear_programming::{check_shape, progress, Progress, ShapeMismatch,
    DEFAULT_MAX_ITERATIONS};

#[test]
fn matching_shapes_are_accepted() {
    assert_eq!(check_shape(2, 2, 2, 2), Ok(()));
    assert_eq!(check_shape(3, 2, 3, 2), Ok(()));
    assert_eq!(check_shape(0, 0, 0, 0), Ok(()));
}

#[test]
fn rows_are_checked_before_columns() {
    assert_eq!(check_shape(2, 3, 5, 2), Err(ShapeMismatch::Rows { expected: 2, actual: 3 }));
    assert_eq!(check_shape(2, 2, 5, 2), Err(ShapeMismatch::Columns { expected: 2, actual: 5 }));
}

#[test]
fn descent_stops_on_convergence_or_exhaustion() {
    assert_eq!(DEFAULT_MAX_ITERATIONS, 1000);
    assert_eq!(progress(0, 1000, false), Progress::Step);
    assert_eq!(progress(4, 1000, true), Progress::Converged { iterations: 5 });
    assert_eq!(progress(1000, 1000, true), Progress::Exhausted { iterations: 1000 });
    assert_eq!(progress(0, 0, false), Progress::Exhausted { iterations: 0 });
}
