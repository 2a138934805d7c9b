//! What elimination finds: pivot rows that form a staircase and span the
//! rows of the matrix, so that the rank is the least number of vectors that
//! span them; and, for two matrices whose product is zero, ranks that
//! together do not exceed the dimension they share.

use vstd::prelude::*;
use crate::matrix::{
    column, dot, eliminate, first_nonzero, lemma_first_nonzero, lemma_pivots_count,
    pivot_columns, pivot_rows, rectangular, reduce_row, spec_rank,
};
use crate::rings::{
    lemma_mul_neg, lemma_mul_zero, lemma_neg_add, lemma_quotient_clears, lemma_solve,
    lemma_zero_add, Field, Ring,
};
use crate::span::{
    blend, combines, in_span, lemma_dot_blend, lemma_dot_split, lemma_dot_without,
    lemma_dot_zero, lemma_span_blend, lemma_span_congruent, lemma_span_grows, lemma_span_row,
    lemma_span_transitive, lemma_span_zero, zeros,
};

verus! {

broadcast use vstd::seq_lib::group_seq_properties;

/// The entry at `c` is the first of `v` that is not zero.
pub open spec fn leads<F: Ring>(v: Seq<F>, c: int) -> bool {
    &&& v[c] != F::spec_zero()
    &&& forall|k: int| 0 <= k < c ==> v[k] == F::spec_zero()
}

/// Every row has width `w` and leads at its pivot, and the pivots move to
/// the right from row to row.
pub open spec fn staircase<F: Ring>(rows: Seq<Seq<F>>, pivots: Seq<int>, w: nat) -> bool {
    &&& rows.len() == pivots.len()
    &&& forall|i: int|
        0 <= i < rows.len() ==> (#[trigger] rows[i]).len() == w && 0 <= pivots[i] < w && leads(
            rows[i],
            pivots[i],
        )
    &&& forall|i: int, j: int| 0 <= i < j < pivots.len() ==> pivots[i] < pivots[j]
}

/// The product of `v` with every column of `b` is zero.
pub open spec fn annihilates<F: Ring>(v: Seq<F>, b: Seq<Seq<F>>, w: nat) -> bool {
    forall|k: int| 0 <= k < w ==> dot(v, #[trigger] column(b, k)) == F::spec_zero()
}

/// Coefficients with which the rows of `g` combine to `v`.
pub open spec fn coefficients_of<F: Ring>(g: Seq<Seq<F>>, v: Seq<F>, w: nat) -> Seq<F> {
    choose|coeffs: Seq<F>| combines(coeffs, g, v, w)
}

/// The vector `u` less the multiple of `v` that makes the entry `a` of `u`
/// vanish against the entry `p` of `v`.
pub open spec fn cleared<F: Field>(u: Seq<F>, a: F, v: Seq<F>, p: F) -> Seq<F> {
    blend(u, a.spec_mul(p.spec_inv()).spec_neg(), v)
}

/// Reducing a row by a pivot row adds a multiple of the pivot row.
pub proof fn lemma_reduce_is_blend<F: Field>(row: Seq<F>, pivot: Seq<F>, c: int)
    ensures
        reduce_row(row, pivot, c) == cleared(row, row[c], pivot, pivot[c]),
{
    let factor = row[c].spec_mul(pivot[c].spec_inv());
    assert forall|k: int| 0 <= k < row.len() implies reduce_row(row, pivot, c)[k] == cleared(
        row,
        row[c],
        pivot,
        pivot[c],
    )[k] by {
        lemma_mul_neg(factor, pivot[k]);
    }
    assert(reduce_row(row, pivot, c) =~= cleared(row, row[c], pivot, pivot[c]));
}

/// Clearing against a vector that leads at `c` leaves the entries before
/// `c` as they were.
pub proof fn lemma_cleared_keeps<F: Field>(u: Seq<F>, a: F, v: Seq<F>, p: F, c: int, k: int)
    requires
        leads(v, c),
        0 <= k < c,
        k < u.len(),
    ensures
        cleared(u, a, v, p)[k] == u[k],
{
    lemma_mul_zero(a.spec_mul(p.spec_inv()).spec_neg());
    F::lemma_add_zero(u[k]);
}

/// A staircase of vectors that the rows of `g` span has no more rows than
/// `g` has.
pub proof fn lemma_staircase_fits<F: Field>(
    rows: Seq<Seq<F>>,
    pivots: Seq<int>,
    g: Seq<Seq<F>>,
    w: nat,
)
    requires
        staircase(rows, pivots, w),
        forall|i: int| 0 <= i < rows.len() ==> in_span(g, #[trigger] rows[i], w),
    ensures
        rows.len() <= g.len(),
    decreases rows.len(),
{
    if rows.len() > 0 {
        let p = rows.len() - 1;
        let v = rows[p];
        let c = pivots[p];
        assert(in_span(g, v, w));
        let lambda = coefficients_of(g, v, w);
        assert(combines(lambda, g, v, w));
        assert(v[c] == dot(lambda, column(g, c)));
        if forall|j: int| 0 <= j < lambda.len() ==> lambda[j] == F::spec_zero() {
            lemma_dot_zero(lambda, column(g, c));
        }
        let js = choose|j: int| 0 <= j < lambda.len() && lambda[j] != F::spec_zero();
        let rest = g.remove(js);
        let lower = Seq::new(
            p as nat,
            |i: int| cleared(rows[i], coefficients_of(g, rows[i], w)[js], v, lambda[js]),
        );
        let fewer = pivots.drop_last();
        assert forall|i: int| 0 <= i < lower.len() implies (#[trigger] lower[i]).len() == w && 0
            <= fewer[i] < w && leads(lower[i], fewer[i]) by {
            let mu = coefficients_of(g, rows[i], w);
            assert(rows[i].len() == w && leads(rows[i], pivots[i]));
            assert(pivots[i] < pivots[p]);
            assert forall|k: int| 0 <= k <= fewer[i] implies lower[i][k] == rows[i][k] by {
                lemma_cleared_keeps(rows[i], mu[js], v, lambda[js], c, k);
            }
        }
        assert forall|i: int, j: int| 0 <= i < j < fewer.len() implies fewer[i] < fewer[j] by {
            assert(pivots[i] < pivots[j]);
        }
        assert(lower.len() == fewer.len());
        assert(staircase(lower, fewer, w));
        assert forall|i: int| 0 <= i < lower.len() implies in_span(rest, #[trigger] lower[i], w) by {
            assert(in_span(g, rows[i], w));
            let mu = coefficients_of(g, rows[i], w);
            assert(combines(mu, g, rows[i], w));
            let t = mu[js].spec_mul(lambda[js].spec_inv()).spec_neg();
            let rho = blend(mu, t, lambda);
            lemma_quotient_clears(mu[js], lambda[js]);
            assert(rho[js] == F::spec_zero());
            assert(rows[i].len() == w);
            assert forall|k: int| 0 <= k < w implies lower[i][k] == dot(
                rho.remove(js),
                #[trigger] column(rest, k),
            ) by {
                let col = column(g, k);
                assert(rows[i][k] == dot(mu, col));
                assert(v[k] == dot(lambda, col));
                lemma_dot_blend(mu, t, lambda, col);
                lemma_dot_without(rho, col, js);
                assert(col.remove(js) =~= column(rest, k));
            }
            assert(combines(rho.remove(js), rest, lower[i], w));
        }
        lemma_staircase_fits(lower, fewer, rest, w);
    }
}

/// Once a pivot row found in column `c`, among rows that vanish before `c`,
/// is taken out and the column cleared, the pivot row leads at `c` and the
/// rows that remain keep their width and vanish up to `c`.
proof fn lemma_eliminate_clears<F: Field>(rows: Seq<Seq<F>>, r: int, c: nat, w: nat)
    requires
        rectangular(rows, w),
        c < w,
        0 <= r < rows.len(),
        rows[r][c as int] != F::spec_zero(),
        forall|i: int, k: int|
            0 <= i < rows.len() && 0 <= k < c ==> #[trigger] rows[i][k] == F::spec_zero(),
    ensures
        leads(rows[r], c as int),
        rectangular(eliminate(rows.remove(r), rows[r], c as int), w),
        forall|i: int, k: int|
            0 <= i < rows.len() - 1 && 0 <= k < c + 1 ==> #[trigger] eliminate(
                rows.remove(r),
                rows[r],
                c as int,
            )[i][k] == F::spec_zero(),
{
    let v = rows[r];
    let others = rows.remove(r);
    let next = eliminate(others, v, c as int);
    assert forall|k: int| 0 <= k < c implies v[k] == F::spec_zero() by {
        assert(rows[r][k] == F::spec_zero());
    }
    assert forall|i: int| 0 <= i < next.len() implies (#[trigger] next[i]).len() == w && (forall|
        k: int,
    | 0 <= k < c + 1 ==> next[i][k] == F::spec_zero()) by {
        let m = others[i];
        let from = if i < r {
            i
        } else {
            i + 1
        };
        assert(m == rows[from] && rows[from].len() == w);
        lemma_reduce_is_blend(m, v, c as int);
        assert forall|k: int| 0 <= k < c + 1 implies next[i][k] == F::spec_zero() by {
            if k < c {
                lemma_cleared_keeps(m, m[c as int], v, v[c as int], c as int, k);
                assert(rows[from][k] == F::spec_zero());
            } else {
                lemma_quotient_clears(m[c as int], v[c as int]);
            }
        }
    }
    assert forall|i: int, k: int| 0 <= i < rows.len() - 1 && 0 <= k < c + 1 implies (
    #[trigger] next[i][k]) == F::spec_zero() by {
        assert(next[i].len() == w);
    }
}

/// The pivot rows that elimination finds from column `c` on, among rows
/// that vanish before `c`, form a staircase with the pivot columns; and
/// whatever holds of the rows, and of one vector plus a multiple of another
/// whenever it holds of both, holds of the pivot rows.
pub proof fn lemma_elimination_staircase<F: Field>(
    rows: Seq<Seq<F>>,
    c: nat,
    w: nat,
    good: spec_fn(Seq<F>) -> bool,
)
    requires
        rectangular(rows, w),
        c <= w,
        forall|i: int, k: int|
            0 <= i < rows.len() && 0 <= k < c ==> #[trigger] rows[i][k] == F::spec_zero(),
        forall|i: int| 0 <= i < rows.len() ==> good(#[trigger] rows[i]),
        forall|u: Seq<F>, s: F, v: Seq<F>|
            good(u) && good(v) && u.len() == w && v.len() == w ==> good(#[trigger] blend(u, s, v)),
    ensures
        staircase(pivot_rows(rows, c, w), pivot_columns(rows, c, w), w),
        forall|i: int|
            0 <= i < pivot_columns(rows, c, w).len() ==> c <= #[trigger] pivot_columns(
                rows,
                c,
                w,
            )[i],
        forall|i: int|
            0 <= i < pivot_rows(rows, c, w).len() ==> good(#[trigger] pivot_rows(rows, c, w)[i]),
    decreases w - c,
{
    lemma_pivots_count(rows, c, w);
    if c < w {
        lemma_first_nonzero(rows, c as int, 0);
        match first_nonzero(rows, c as int, 0) {
            None => {
                assert forall|i: int, k: int| 0 <= i < rows.len() && 0 <= k < c + 1 implies (
                #[trigger] rows[i][k]) == F::spec_zero() by {
                    if k == c {
                        assert(rows[i][c as int] == F::spec_zero());
                    }
                }
                lemma_elimination_staircase(rows, c + 1, w, good);
            },
            Some(r) => {
                let v = rows[r];
                let others = rows.remove(r);
                let next = eliminate(others, v, c as int);
                lemma_eliminate_clears(rows, r, c, w);
                assert forall|i: int| 0 <= i < next.len() implies good(#[trigger] next[i]) by {
                    let from = if i < r {
                        i
                    } else {
                        i + 1
                    };
                    assert(others[i] == rows[from]);
                    assert(good(rows[from]) && rows[from].len() == w);
                    lemma_reduce_is_blend(others[i], v, c as int);
                }
                lemma_elimination_staircase(next, c + 1, w, good);
                lemma_pivots_count(next, c + 1, w);
                let inner = (pivot_rows(next, c + 1, w), pivot_columns(next, c + 1, w));
                let stairs = (pivot_rows(rows, c, w), pivot_columns(rows, c, w));
                assert(stairs.0 == seq![v] + inner.0);
                assert(stairs.1 == seq![c as int] + inner.1);
                assert forall|i: int| 0 <= i < stairs.0.len() implies (#[trigger] stairs.0[i]).len()
                    == w && 0 <= stairs.1[i] < w && leads(stairs.0[i], stairs.1[i]) && good(
                    stairs.0[i],
                ) && c <= stairs.1[i] by {
                    if i > 0 {
                        assert(stairs.0[i] == inner.0[i - 1]);
                        assert(stairs.1[i] == inner.1[i - 1]);
                    }
                }
                assert forall|i: int, j: int| 0 <= i < j < stairs.1.len() implies stairs.1[i]
                    < stairs.1[j] by {
                    assert(stairs.1[j] == inner.1[j - 1]);
                    if i > 0 {
                        assert(stairs.1[i] == inner.1[i - 1]);
                    }
                }
            },
        }
    }
}

/// The rank of a matrix is at most the number of vectors that span its
/// rows.
pub proof fn lemma_rank_of_spanned<F: Field>(rows: Seq<Seq<F>>, g: Seq<Seq<F>>, w: nat)
    requires
        rectangular(rows, w),
        forall|i: int| 0 <= i < rows.len() ==> in_span(g, #[trigger] rows[i], w),
    ensures
        spec_rank(rows, w) <= g.len(),
{
    let good = |v: Seq<F>| in_span(g, v, w);
    assert forall|u: Seq<F>, s: F, v: Seq<F>|
        good(u) && good(v) && u.len() == w && v.len() == w implies good(
        #[trigger] blend(u, s, v),
    ) by {
        lemma_span_blend(g, u, s, v, w);
    }
    lemma_elimination_staircase(rows, 0, w, good);
    lemma_pivots_count(rows, 0, w);
    lemma_staircase_fits(pivot_rows(rows, 0, w), pivot_columns(rows, 0, w), g, w);
}

/// A reduced row plus the multiple of the pivot row that was taken from it
/// is the row as it was.
pub proof fn lemma_reduce_undone<F: Field>(row: Seq<F>, pivot: Seq<F>, c: int, k: int)
    requires
        0 <= k < row.len(),
    ensures
        blend(reduce_row(row, pivot, c), row[c].spec_mul(pivot[c].spec_inv()), pivot)[k] == row[k],
{
    let factor = row[c].spec_mul(pivot[c].spec_inv());
    let taken = factor.spec_mul(pivot[k]);
    F::lemma_add_associative(row[k], taken.spec_neg(), taken);
    lemma_neg_add(taken);
    F::lemma_add_zero(row[k]);
}

/// The pivot rows that elimination finds from column `c` on, among rows
/// that vanish before `c`, span those rows.
pub proof fn lemma_pivot_rows_span<F: Field>(rows: Seq<Seq<F>>, c: nat, w: nat)
    requires
        rectangular(rows, w),
        c <= w,
        forall|i: int, k: int|
            0 <= i < rows.len() && 0 <= k < c ==> #[trigger] rows[i][k] == F::spec_zero(),
    ensures
        forall|i: int|
            0 <= i < rows.len() ==> in_span(pivot_rows(rows, c, w), #[trigger] rows[i], w),
    decreases w - c,
{
    if c >= w {
        let g = Seq::<Seq<F>>::empty();
        assert forall|i: int| 0 <= i < rows.len() implies in_span(g, #[trigger] rows[i], w) by {
            assert forall|k: int| 0 <= k < w implies rows[i][k] == F::spec_zero() by {}
            lemma_span_zero(g, rows[i], w);
        }
    } else {
        lemma_first_nonzero(rows, c as int, 0);
        match first_nonzero(rows, c as int, 0) {
            None => {
                assert forall|i: int, k: int| 0 <= i < rows.len() && 0 <= k < c + 1 implies (
                #[trigger] rows[i][k]) == F::spec_zero() by {
                    if k == c {
                        assert(rows[i][c as int] == F::spec_zero());
                    }
                }
                lemma_pivot_rows_span(rows, c + 1, w);
            },
            Some(r) => {
                let v = rows[r];
                let others = rows.remove(r);
                let next = eliminate(others, v, c as int);
                lemma_eliminate_clears(rows, r, c, w);
                lemma_pivot_rows_span(next, c + 1, w);
                let inner = pivot_rows(next, c + 1, w);
                let g = seq![v] + inner;
                assert(g == pivot_rows(rows, c, w));
                assert forall|i: int| 0 <= i < rows.len() implies in_span(g, #[trigger] rows[i], w) by {
                    lemma_span_row(g, 0, w);
                    if i != r {
                        let to = if i < r {
                            i
                        } else {
                            i - 1
                        };
                        let m = rows[i];
                        assert(others[to] == m && m.len() == w);
                        assert(in_span(inner, next[to], w));
                        lemma_span_grows(inner, v, next[to], w);
                        let factor = m[c as int].spec_mul(v[c as int].spec_inv());
                        lemma_span_blend(g, next[to], factor, v, w);
                        assert forall|k: int| 0 <= k < w implies blend(next[to], factor, v)[k]
                            == m[k] by {
                            lemma_reduce_undone(m, v, c as int, k);
                        }
                        lemma_span_congruent(g, blend(next[to], factor, v), m, w);
                    }
                }
            },
        }
    }
}

/// The echelon form of a matrix is a staircase with its pivot columns, and
/// its rows span the rows of the matrix and are spanned by them.
pub proof fn lemma_echelon_form<F: Field>(rows: Seq<Seq<F>>, w: nat)
    requires
        rectangular(rows, w),
    ensures
        staircase(pivot_rows(rows, 0, w), pivot_columns(rows, 0, w), w),
        forall|i: int|
            0 <= i < rows.len() ==> in_span(pivot_rows(rows, 0, w), #[trigger] rows[i], w),
        forall|i: int|
            0 <= i < pivot_rows(rows, 0, w).len() ==> in_span(
                rows,
                #[trigger] pivot_rows(rows, 0, w)[i],
                w,
            ),
{
    let good = |v: Seq<F>| in_span(rows, v, w);
    assert forall|u: Seq<F>, s: F, v: Seq<F>|
        good(u) && good(v) && u.len() == w && v.len() == w implies good(
        #[trigger] blend(u, s, v),
    ) by {
        lemma_span_blend(rows, u, s, v, w);
    }
    assert forall|i: int| 0 <= i < rows.len() implies good(#[trigger] rows[i]) by {
        lemma_span_row(rows, i, w);
    }
    lemma_elimination_staircase(rows, 0, w, good);
    lemma_pivot_rows_span(rows, 0, w);
}

/// The rank of a matrix is the least number of vectors that span its rows:
/// some vectors, as many as the rank, span them, and no fewer do.
pub proof fn lemma_rank_is_least_span<F: Field>(rows: Seq<Seq<F>>, w: nat)
    requires
        rectangular(rows, w),
    ensures
        exists|g: Seq<Seq<F>>| #[trigger]
            g.len() == spec_rank(rows, w) && forall|i: int|
                0 <= i < rows.len() ==> in_span(g, #[trigger] rows[i], w),
        forall|g: Seq<Seq<F>>|
            (forall|i: int| 0 <= i < rows.len() ==> in_span(g, #[trigger] rows[i], w))
                ==> spec_rank(rows, w) <= #[trigger] g.len(),
{
    let least = pivot_rows(rows, 0, w);
    lemma_pivot_rows_span(rows, 0, w);
    lemma_pivots_count(rows, 0, w);
    assert(least.len() == spec_rank(rows, w));
    assert forall|g: Seq<Seq<F>>|
        (forall|i: int| 0 <= i < rows.len() ==> in_span(g, #[trigger] rows[i], w)) implies spec_rank(
        rows,
        w,
    ) <= #[trigger] g.len() by {
        lemma_rank_of_spanned(rows, g, w);
    }
}

/// Where a staircase of `p` vectors annihilates a matrix of `n` rows, some
/// `n - p` vectors span its rows.
pub proof fn lemma_annihilated_is_spanned<F: Field>(
    b: Seq<Seq<F>>,
    stairs: Seq<Seq<F>>,
    pivots: Seq<int>,
    w: nat,
) -> (g: Seq<Seq<F>>)
    requires
        staircase(stairs, pivots, b.len()),
        forall|i: int| 0 <= i < stairs.len() ==> annihilates(#[trigger] stairs[i], b, w),
    ensures
        g.len() + stairs.len() <= b.len(),
        forall|j: int| 0 <= j < b.len() ==> in_span(g, #[trigger] b[j], w),
    decreases stairs.len(),
{
    let n = b.len();
    if stairs.len() == 0 {
        assert forall|j: int| 0 <= j < b.len() implies in_span(b, #[trigger] b[j], w) by {
            lemma_span_row(b, j, w);
        }
        b
    } else {
        let p = stairs.len() - 1;
        let last = stairs[p];
        let c = pivots[p];
        assert(last.len() == n && 0 <= c < n && leads(last, c));
        let fewer = b.remove(c);
        let lower = Seq::new(
            p as nat,
            |i: int| cleared(stairs[i], stairs[i][c], last, last[c]).remove(c),
        );
        let left = pivots.drop_last();
        assert forall|i: int| 0 <= i < lower.len() implies (#[trigger] lower[i]).len() == n - 1
            && 0 <= left[i] < n - 1 && leads(lower[i], left[i]) && annihilates(lower[i], fewer, w) by {
            let whole = cleared(stairs[i], stairs[i][c], last, last[c]);
            assert(stairs[i].len() == n && leads(stairs[i], pivots[i]));
            assert(pivots[i] < pivots[p]);
            assert forall|k: int| 0 <= k <= left[i] implies lower[i][k] == stairs[i][k] by {
                lemma_cleared_keeps(stairs[i], stairs[i][c], last, last[c], c, k);
                assert(lower[i][k] == whole[k]);
            }
            lemma_quotient_clears(stairs[i][c], last[c]);
            assert(whole[c] == F::spec_zero());
            assert(annihilates(stairs[i], b, w));
            assert(annihilates(last, b, w));
            assert forall|k: int| 0 <= k < w implies dot(lower[i], #[trigger] column(fewer, k))
                == F::spec_zero() by {
                let col = column(b, k);
                let t = stairs[i][c].spec_mul(last[c].spec_inv()).spec_neg();
                assert(dot(stairs[i], col) == F::spec_zero());
                assert(dot(last, col) == F::spec_zero());
                lemma_dot_blend(stairs[i], t, last, col);
                lemma_mul_zero(t);
                F::lemma_add_zero(F::spec_zero());
                lemma_dot_without(whole, col, c);
                assert(col.remove(c) =~= column(fewer, k));
            }
        }
        assert forall|i: int, j: int| 0 <= i < j < left.len() implies left[i] < left[j] by {
            assert(pivots[i] < pivots[j]);
        }
        assert(lower.len() == left.len());
        assert(staircase(lower, left, (n - 1) as nat));
        let g = lemma_annihilated_is_spanned(fewer, lower, left, w);
        assert forall|j: int| 0 <= j < b.len() implies in_span(g, #[trigger] b[j], w) by {
            if j < c {
                assert(fewer[j] == b[j]);
            } else if j > c {
                assert(fewer[j - 1] == b[j]);
            } else {
                let s = last[c].spec_inv().spec_neg();
                let sigma = blend(zeros::<F>((n - 1) as nat), s, last.remove(c));
                assert(annihilates(last, b, w));
                assert forall|k: int| 0 <= k < w implies b[c][k] == dot(
                    sigma,
                    #[trigger] column(fewer, k),
                ) by {
                    let col = column(b, k);
                    assert(dot(last, col) == F::spec_zero());
                    lemma_dot_split(last, col, c);
                    assert(col.remove(c) =~= column(fewer, k));
                    let d = dot(last.remove(c), column(fewer, k));
                    lemma_solve(last[c], b[c][k], d);
                    lemma_dot_blend(zeros::<F>((n - 1) as nat), s, last.remove(c), column(fewer, k));
                    lemma_dot_zero(zeros::<F>((n - 1) as nat), column(fewer, k));
                    lemma_zero_add(s.spec_mul(d));
                }
                assert(combines(sigma, fewer, b[c], w));
                lemma_span_transitive(g, fewer, sigma, b[c], w);
            }
        }
        g
    }
}

/// Where every row of `a` annihilates `b`, the ranks of the two together
/// are at most the number of rows of `b`.
pub proof fn lemma_ranks_of_zero_product<F: Field>(a: Seq<Seq<F>>, b: Seq<Seq<F>>, w: nat)
    requires
        rectangular(a, b.len()),
        rectangular(b, w),
        forall|i: int| 0 <= i < a.len() ==> annihilates(#[trigger] a[i], b, w),
    ensures
        spec_rank(a, b.len()) + spec_rank(b, w) <= b.len(),
{
    let n = b.len();
    let good = |v: Seq<F>| annihilates(v, b, w);
    assert forall|u: Seq<F>, s: F, v: Seq<F>|
        good(u) && good(v) && u.len() == n && v.len() == n implies good(
        #[trigger] blend(u, s, v),
    ) by {
        assert forall|k: int| 0 <= k < w implies dot(blend(u, s, v), #[trigger] column(b, k))
            == F::spec_zero() by {
            assert(dot(u, column(b, k)) == F::spec_zero());
            assert(dot(v, column(b, k)) == F::spec_zero());
            lemma_dot_blend(u, s, v, column(b, k));
            lemma_mul_zero(s);
            F::lemma_add_zero(F::spec_zero());
        }
    }
    lemma_elimination_staircase(a, 0, n, good);
    lemma_pivots_count(a, 0, n);
    let g = lemma_annihilated_is_spanned(b, pivot_rows(a, 0, n), pivot_columns(a, 0, n), w);
    lemma_rank_of_spanned(b, g, w);
}

} // verus!
