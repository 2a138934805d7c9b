//! Linear combinations of the rows of a matrix, and the vectors they span.

use vstd::prelude::*;
use crate::matrix::{column, dot};
use crate::rings::{
    lemma_add_interchange, lemma_distributive_right, lemma_mul_zero, lemma_one_mul,
    lemma_zero_add, Ring,
};

verus! {

broadcast use vstd::seq_lib::group_seq_properties;

/// The vector `a` plus `s` times the vector `b`, entry by entry.
pub open spec fn blend<F: Ring>(a: Seq<F>, s: F, b: Seq<F>) -> Seq<F> {
    Seq::new(a.len(), |j: int| a[j].spec_add(s.spec_mul(b[j])))
}

/// The vector of the given length that is zero everywhere.
pub open spec fn zeros<F: Ring>(n: nat) -> Seq<F> {
    Seq::new(n, |j: int| F::spec_zero())
}

/// The vector of the given length that is one at `j` and zero elsewhere.
pub open spec fn unit<F: Ring>(n: nat, j: int) -> Seq<F> {
    Seq::new(
        n,
        |i: int|
            if i == j {
                F::spec_one()
            } else {
                F::spec_zero()
            },
    )
}

/// The first `w` entries of `v` are those of the sum of the rows of `g`,
/// each times its coefficient.
pub open spec fn combines<F: Ring>(coeffs: Seq<F>, g: Seq<Seq<F>>, v: Seq<F>, w: nat) -> bool {
    &&& coeffs.len() == g.len()
    &&& forall|k: int| 0 <= k < w ==> v[k] == dot(coeffs, #[trigger] column(g, k))
}

/// On its first `w` entries, `v` is a linear combination of the rows of `g`.
pub open spec fn in_span<F: Ring>(g: Seq<Seq<F>>, v: Seq<F>, w: nat) -> bool {
    exists|coeffs: Seq<F>| combines(coeffs, g, v, w)
}

/// A product depends on the second vector only as far as the first reaches.
pub proof fn lemma_dot_congruent<F: Ring>(a: Seq<F>, x: Seq<F>, y: Seq<F>)
    requires
        forall|i: int| 0 <= i < a.len() ==> x[i] == y[i],
    ensures
        dot(a, x) == dot(a, y),
    decreases a.len(),
{
    if a.len() > 0 {
        lemma_dot_congruent(a.drop_last(), x, y);
    }
}

/// The product with a vector of zeros is zero.
pub proof fn lemma_dot_zero<F: Ring>(a: Seq<F>, x: Seq<F>)
    requires
        forall|i: int| 0 <= i < a.len() ==> a[i] == F::spec_zero(),
    ensures
        dot(a, x) == F::spec_zero(),
    decreases a.len(),
{
    if a.len() > 0 {
        lemma_dot_zero(a.drop_last(), x);
        lemma_mul_zero(x[a.len() - 1]);
        F::lemma_add_zero(F::spec_zero());
    }
}

/// The product with a vector that vanishes on the right is zero.
pub proof fn lemma_dot_with_zero<F: Ring>(a: Seq<F>, x: Seq<F>)
    requires
        forall|i: int| 0 <= i < a.len() ==> x[i] == F::spec_zero(),
    ensures
        dot(a, x) == F::spec_zero(),
    decreases a.len(),
{
    if a.len() > 0 {
        lemma_dot_with_zero(a.drop_last(), x);
        lemma_mul_zero(a.last());
        F::lemma_add_zero(F::spec_zero());
    }
}

/// The product is linear in its first vector.
pub proof fn lemma_dot_blend<F: Ring>(a: Seq<F>, s: F, b: Seq<F>, x: Seq<F>)
    requires
        a.len() == b.len(),
    ensures
        dot(blend(a, s, b), x) == dot(a, x).spec_add(s.spec_mul(dot(b, x))),
    decreases a.len(),
{
    if a.len() == 0 {
        lemma_mul_zero(s);
        F::lemma_add_zero(F::spec_zero());
    } else {
        let n = a.len() - 1;
        assert(blend(a, s, b).drop_last() =~= blend(a.drop_last(), s, b.drop_last()));
        lemma_dot_blend(a.drop_last(), s, b.drop_last(), x);
        let front_a = dot(a.drop_last(), x);
        let front_b = dot(b.drop_last(), x);
        lemma_distributive_right(a[n], s.spec_mul(b[n]), x[n]);
        F::lemma_mul_associative(s, b[n], x[n]);
        F::lemma_distributive(s, front_b, b[n].spec_mul(x[n]));
        lemma_add_interchange(
            front_a,
            s.spec_mul(front_b),
            a[n].spec_mul(x[n]),
            s.spec_mul(b[n].spec_mul(x[n])),
        );
    }
}

/// The product splits into the term at `j` and the product without it.
pub proof fn lemma_dot_split<F: Ring>(a: Seq<F>, x: Seq<F>, j: int)
    requires
        0 <= j < a.len() <= x.len(),
    ensures
        dot(a, x) == a[j].spec_mul(x[j]).spec_add(dot(a.remove(j), x.remove(j))),
    decreases a.len(),
{
    let n = a.len() - 1;
    if j == n {
        assert(a.remove(j) =~= a.drop_last());
        lemma_dot_congruent(a.drop_last(), x, x.remove(j));
        F::lemma_add_commutative(dot(a.drop_last(), x), a[j].spec_mul(x[j]));
    } else {
        lemma_dot_split(a.drop_last(), x, j);
        assert(a.remove(j).drop_last() =~= a.drop_last().remove(j));
        assert(a.remove(j).last() == a[n]);
        assert(x.remove(j)[n - 1] == x[n]);
        F::lemma_add_associative(
            a[j].spec_mul(x[j]),
            dot(a.drop_last().remove(j), x.remove(j)),
            a[n].spec_mul(x[n]),
        );
    }
}

/// Where the first vector is zero at `j`, the product is that of the
/// vectors without their entries at `j`.
pub proof fn lemma_dot_without<F: Ring>(a: Seq<F>, x: Seq<F>, j: int)
    requires
        0 <= j < a.len() <= x.len(),
        a[j] == F::spec_zero(),
    ensures
        dot(a, x) == dot(a.remove(j), x.remove(j)),
{
    lemma_dot_split(a, x, j);
    lemma_mul_zero(x[j]);
    lemma_zero_add(dot(a.remove(j), x.remove(j)));
}

/// A product vanishes where at each place one of the two entries is zero.
pub proof fn lemma_dot_vanishes<F: Ring>(a: Seq<F>, x: Seq<F>)
    requires
        a.len() <= x.len(),
        forall|h: int| 0 <= h < a.len() ==> a[h] == F::spec_zero() || x[h] == F::spec_zero(),
    ensures
        dot(a, x) == F::spec_zero(),
    decreases a.len(),
{
    if a.len() > 0 {
        lemma_dot_vanishes(a.drop_last(), x);
        lemma_mul_zero(a.last());
        lemma_mul_zero(x[a.len() - 1]);
        F::lemma_add_zero(F::spec_zero());
    }
}

/// A product whose terms vanish at every place but two is the sum of the
/// terms at those two.
pub proof fn lemma_dot_two<F: Ring>(a: Seq<F>, x: Seq<F>, p: int, q: int)
    requires
        0 <= p < q < a.len() <= x.len(),
        forall|h: int|
            0 <= h < a.len() && h != p && h != q ==> a[h] == F::spec_zero() || x[h]
                == F::spec_zero(),
    ensures
        dot(a, x) == a[p].spec_mul(x[p]).spec_add(a[q].spec_mul(x[q])),
{
    let a1 = a.remove(q);
    let x1 = x.remove(q);
    let a2 = a1.remove(p);
    let x2 = x1.remove(p);
    lemma_dot_split(a, x, q);
    lemma_dot_split(a1, x1, p);
    assert forall|h: int| 0 <= h < a2.len() implies a2[h] == F::spec_zero() || x2[h]
        == F::spec_zero() by {
        let from = if h < p {
            h
        } else if h < q - 1 {
            h + 1
        } else {
            h + 2
        };
        assert(a2[h] == a[from] && x2[h] == x[from]);
    }
    lemma_dot_vanishes(a2, x2);
    F::lemma_add_zero(a[p].spec_mul(x[p]));
    F::lemma_add_commutative(a[q].spec_mul(x[q]), a[p].spec_mul(x[p]));
}

/// The product with a unit vector picks one entry.
pub proof fn lemma_dot_unit<F: Ring>(n: nat, j: int, x: Seq<F>)
    requires
        0 <= j < n <= x.len(),
    ensures
        dot(unit::<F>(n, j), x) == x[j],
{
    let e = unit::<F>(n, j);
    lemma_dot_split(e, x, j);
    lemma_dot_zero(e.remove(j), x.remove(j));
    lemma_one_mul(x[j]);
    F::lemma_add_zero(x[j]);
}

/// Whether a vector is spanned depends on its first `w` entries only.
pub proof fn lemma_span_congruent<F: Ring>(g: Seq<Seq<F>>, u: Seq<F>, v: Seq<F>, w: nat)
    requires
        in_span(g, u, w),
        forall|k: int| 0 <= k < w ==> u[k] == v[k],
    ensures
        in_span(g, v, w),
{
    let coeffs = choose|coeffs: Seq<F>| combines(coeffs, g, u, w);
    assert(combines(coeffs, g, v, w));
}

/// The rows span the zero vector.
pub proof fn lemma_span_zero<F: Ring>(g: Seq<Seq<F>>, v: Seq<F>, w: nat)
    requires
        forall|k: int| 0 <= k < w ==> v[k] == F::spec_zero(),
    ensures
        in_span(g, v, w),
{
    let coeffs = zeros::<F>(g.len());
    assert forall|k: int| 0 <= k < w implies v[k] == dot(coeffs, #[trigger] column(g, k)) by {
        lemma_dot_zero(coeffs, column(g, k));
    }
    assert(combines(coeffs, g, v, w));
}

/// The rows span each of themselves.
pub proof fn lemma_span_row<F: Ring>(g: Seq<Seq<F>>, j: int, w: nat)
    requires
        0 <= j < g.len(),
    ensures
        in_span(g, g[j], w),
{
    let coeffs = unit::<F>(g.len(), j);
    assert forall|k: int| 0 <= k < w implies g[j][k] == dot(coeffs, #[trigger] column(g, k)) by {
        lemma_dot_unit(g.len(), j, column(g, k));
    }
    assert(combines(coeffs, g, g[j], w));
}

/// What the rows span they still span with one more row before them.
pub proof fn lemma_span_grows<F: Ring>(g: Seq<Seq<F>>, extra: Seq<F>, v: Seq<F>, w: nat)
    requires
        in_span(g, v, w),
    ensures
        in_span(seq![extra] + g, v, w),
{
    let coeffs = choose|coeffs: Seq<F>| combines(coeffs, g, v, w);
    let more = seq![extra] + g;
    let wider = seq![F::spec_zero()] + coeffs;
    assert forall|k: int| 0 <= k < w implies v[k] == dot(wider, #[trigger] column(more, k)) by {
        lemma_dot_without(wider, column(more, k), 0);
        assert(wider.remove(0) =~= coeffs);
        assert(column(more, k).remove(0) =~= column(g, k));
    }
    assert(combines(wider, more, v, w));
}

/// With two vectors the rows span the one plus any multiple of the other.
pub proof fn lemma_span_blend<F: Ring>(g: Seq<Seq<F>>, u: Seq<F>, s: F, v: Seq<F>, w: nat)
    requires
        in_span(g, u, w),
        in_span(g, v, w),
        w <= u.len(),
    ensures
        in_span(g, blend(u, s, v), w),
{
    let a = choose|coeffs: Seq<F>| combines(coeffs, g, u, w);
    let b = choose|coeffs: Seq<F>| combines(coeffs, g, v, w);
    let coeffs = blend(a, s, b);
    assert forall|k: int| 0 <= k < w implies blend(u, s, v)[k] == dot(
        coeffs,
        #[trigger] column(g, k),
    ) by {
        lemma_dot_blend(a, s, b, column(g, k));
    }
    assert(combines(coeffs, g, blend(u, s, v), w));
}

/// A linear combination of vectors that the rows of `g` span is spanned by
/// them too.
pub proof fn lemma_span_transitive<F: Ring>(
    g: Seq<Seq<F>>,
    h: Seq<Seq<F>>,
    coeffs: Seq<F>,
    v: Seq<F>,
    w: nat,
)
    requires
        forall|j: int| 0 <= j < h.len() ==> in_span(g, #[trigger] h[j], w),
        combines(coeffs, h, v, w),
    ensures
        in_span(g, v, w),
    decreases h.len(),
{
    if h.len() == 0 {
        assert forall|k: int| 0 <= k < w implies v[k] == F::spec_zero() by {
            assert(v[k] == dot(coeffs, column(h, k)));
        }
        lemma_span_zero(g, v, w);
    } else {
        let n = h.len() - 1;
        let front = Seq::new(w, |k: int| dot(coeffs.drop_last(), column(h.drop_last(), k)));
        assert(combines(coeffs.drop_last(), h.drop_last(), front, w));
        assert forall|j: int| 0 <= j < h.drop_last().len() implies in_span(
            g,
            #[trigger] h.drop_last()[j],
            w,
        ) by {
            assert(h.drop_last()[j] == h[j]);
        }
        lemma_span_transitive(g, h.drop_last(), coeffs.drop_last(), front, w);
        assert(in_span(g, h[n], w));
        lemma_span_blend(g, front, coeffs[n], h[n], w);
        assert forall|k: int| 0 <= k < w implies blend(front, coeffs[n], h[n])[k] == v[k] by {
            assert(v[k] == dot(coeffs, column(h, k)));
            lemma_dot_congruent(coeffs.drop_last(), column(h, k), column(h.drop_last(), k));
        }
        lemma_span_congruent(g, blend(front, coeffs[n], h[n]), v, w);
    }
}

} // verus!
