//! The shape of a linear program: minimise `c . x` subject to `A x <= b`
//! and `x >= 0`, where `A` has a row for each bound and a column for each
//! variable.

use vstd::prelude::*;

verus! {

/// The number of iterations that a solver is given unless told otherwise.
pub const DEFAULT_MAX_ITERATIONS: u64 = 1000;

/// How the constraint matrix of a linear program fails to fit its vectors.
#[derive(Clone, Copy, Debug, PartialEq, Eq, Structural)]
pub enum ShapeMismatch {
    /// The matrix has `actual` rows where there are `expected` bounds.
    Rows { expected: usize, actual: usize },
    /// The matrix has `actual` columns where there are `expected` costs.
    Columns { expected: usize, actual: usize },
}

/// Checks that a constraint matrix of `rows` by `columns` fits `costs`
/// objective coefficients and `bounds` constraint bounds. The rows are
/// checked first.
pub fn check_shape(costs: usize, rows: usize, columns: usize, bounds: usize) -> (fit: Result<
    (),
    ShapeMismatch,
>)
    ensures
        fit is Ok <==> rows == bounds && columns == costs,
        fit matches Err(e) ==> e == if rows != bounds {
            (ShapeMismatch::Rows { expected: bounds, actual: rows })
        } else {
            (ShapeMismatch::Columns { expected: costs, actual: columns })
        },
{
    if rows != bounds {
        return Err(ShapeMismatch::Rows { expected: bounds, actual: rows });
    }
    if columns != costs {
        return Err(ShapeMismatch::Columns { expected: costs, actual: columns });
    }
    Ok(())
}

/// What a descent does after an iteration, given whether the gradient has
/// become small and how many iterations have been made.
#[derive(Clone, Copy, Debug, PartialEq, Eq, Structural)]
pub enum Progress {
    /// The gradient is small: stop, converged after this many iterations.
    Converged { iterations: u64 },
    /// The iterations are used up: stop without convergence.
    Exhausted { iterations: u64 },
    /// Take another step.
    Step,
}

/// Decides how a descent goes on at the start of iteration `iteration`,
/// counted from zero, out of `max_iterations`.
pub fn progress(iteration: u64, max_iterations: u64, gradient_is_small: bool) -> (next: Progress)
    ensures
        next == if iteration >= max_iterations {
            (Progress::Exhausted { iterations: max_iterations })
        } else if gradient_is_small {
            (Progress::Converged { iterations: (iteration + 1) as u64 })
        } else {
            Progress::Step
        },
{
    if iteration >= max_iterations {
        Progress::Exhausted { iterations: max_iterations }
    } else if gradient_is_small {
        Progress::Converged { iterations: iteration + 1 }
    } else {
        Progress::Step
    }
}

} // verus!
