//! Why the boundary of a boundary vanishes.
//!
//! A formal sum is paired with a function on cells by summing the function
//! over its terms, each weighted by its coefficient. Two formal sums with the
//! same coefficients pair alike with every function, and the coefficient of a
//! boundary is such a pairing. The law then comes down to one simplex: the
//! two ways of omitting two of its vertices carry opposite signs.

use vstd::prelude::*;
use crate::chain::{
    boundary_terms, coefficient, face_terms, faces_of, lemma_coefficient_absent,
    lemma_coefficient_at, lemma_coefficient_concat, signed, terms_wf, Terms,
};
use crate::rings::{
    lemma_add_swap, lemma_distributive_right, lemma_mul_neg, lemma_mul_zero, lemma_neg_add,
    lemma_neg_neg, lemma_zero_add, Ring,
};
use crate::simplex::{lemma_remove_keeps_order, sign_at, strictly_increasing, Sign};

verus! {

/// The sum over the terms of `t` of the coefficient times the value of `g`
/// on the cell.
pub open spec fn pairing<F: Ring>(t: Terms<F>, g: spec_fn(Seq<usize>) -> F) -> F
    decreases t.len(),
{
    if t.len() == 0 {
        F::spec_zero()
    } else {
        pairing(t.drop_last(), g).spec_add(t.last().1.spec_mul(g(t.last().0)))
    }
}

/// The sum over the listed cells of the coefficient in `t` times the value
/// of `g`.
pub open spec fn keyed_sum<F: Ring>(
    keys: Seq<Seq<usize>>,
    t: Terms<F>,
    g: spec_fn(Seq<usize>) -> F,
) -> F
    decreases keys.len(),
{
    if keys.len() == 0 {
        F::spec_zero()
    } else {
        keyed_sum(keys.drop_last(), t, g).spec_add(
            coefficient(t, keys.last()).spec_mul(g(keys.last())),
        )
    }
}

/// The entries of `s` in the order of their first occurrence.
pub open spec fn distinct<A>(s: Seq<A>) -> Seq<A>
    decreases s.len(),
{
    if s.len() == 0 {
        s
    } else if distinct(s.drop_last()).contains(s.last()) {
        distinct(s.drop_last())
    } else {
        distinct(s.drop_last()).push(s.last())
    }
}

/// The incidence number of `rho` in `sigma`: the sign with which `rho`
/// occurs among the faces of `sigma`, zero where it does not.
pub open spec fn incidence<F: Ring>(sigma: Seq<usize>, rho: Seq<usize>) -> F {
    coefficient(faces_of(sigma, F::spec_one()), rho)
}

/// The incidence numbers of `rho`, as a function of the cell.
pub open spec fn incidence_to<F: Ring>(rho: Seq<usize>) -> spec_fn(Seq<usize>) -> F {
    |sigma: Seq<usize>| incidence::<F>(sigma, rho)
}

/// The pairing of `g` with the boundary of a cell, as a function of the cell.
pub open spec fn over_faces<F: Ring>(g: spec_fn(Seq<usize>) -> F) -> spec_fn(Seq<usize>) -> F {
    |sigma: Seq<usize>| pairing(faces_of(sigma, F::spec_one()), g)
}

/// The unit with the sign of a position.
pub open spec fn unit_at<F: Ring>(position: int) -> F {
    signed(sign_at(position), F::spec_one())
}

pub proof fn lemma_distinct<A>(s: Seq<A>)
    ensures
        distinct(s).no_duplicates(),
        forall|x: A| distinct(s).contains(x) <==> s.contains(x),
    decreases s.len(),
{
    broadcast use vstd::seq_lib::group_seq_properties;

    if s.len() > 0 {
        let front = s.drop_last();
        lemma_distinct(front);
        assert forall|x: A| distinct(s).contains(x) <==> s.contains(x) by {
            if s.contains(x) {
                let i = choose|i: int| 0 <= i < s.len() && s[i] == x;
                if i < s.len() - 1 {
                    assert(front[i] == x);
                    assert(front.contains(x));
                }
            }
            if distinct(s).contains(x) {
                if distinct(front).contains(x) {
                    assert(front.contains(x));
                    let i = choose|i: int| 0 <= i < front.len() && front[i] == x;
                    assert(s[i] == x);
                } else {
                    assert(x == s.last());
                    assert(s[s.len() - 1] == x);
                }
            }
        }
    }
}

/// The face terms of a cell, position by position.
pub proof fn lemma_face_terms_index<F: Ring>(c: Seq<usize>, a: F, n: nat)
    ensures
        face_terms(c, a, n).len() == n,
        forall|j: int|
            0 <= j < n ==> (#[trigger] face_terms(c, a, n)[j]) == (
                c.remove(j),
                signed(sign_at(j), a),
            ),
    decreases n,
{
    if n > 0 {
        lemma_face_terms_index(c, a, (n - 1) as nat);
    }
}

/// Omitting different positions of a simplex gives different faces.
pub proof fn lemma_faces_differ(c: Seq<usize>, i: int, j: int)
    requires
        strictly_increasing(c),
        0 <= i < j < c.len(),
    ensures
        c.remove(i) != c.remove(j),
{
    assert(c.remove(i)[i] == c[i + 1]);
    assert(c.remove(j)[i] == c[i]);
    assert(c[i] < c[i + 1]);
}

pub proof fn lemma_pairing_concat<F: Ring>(a: Terms<F>, b: Terms<F>, g: spec_fn(Seq<usize>) -> F)
    ensures
        pairing(a + b, g) == pairing(a, g).spec_add(pairing(b, g)),
    decreases b.len(),
{
    if b.len() == 0 {
        assert(a + b =~= a);
        F::lemma_add_zero(pairing(a, g));
    } else {
        assert((a + b).drop_last() =~= a + b.drop_last());
        lemma_pairing_concat(a, b.drop_last(), g);
        F::lemma_add_associative(
            pairing(a, g),
            pairing(b.drop_last(), g),
            b.last().1.spec_mul(g(b.last().0)),
        );
    }
}

/// A pairing vanishes where the function vanishes on every cell of the sum.
pub proof fn lemma_pairing_zero<F: Ring>(t: Terms<F>, g: spec_fn(Seq<usize>) -> F)
    requires
        forall|i: int| 0 <= i < t.len() ==> g((#[trigger] t[i]).0) == F::spec_zero(),
    ensures
        pairing(t, g) == F::spec_zero(),
    decreases t.len(),
{
    if t.len() > 0 {
        lemma_pairing_zero(t.drop_last(), g);
        assert(g(t[t.len() - 1].0) == F::spec_zero());
        lemma_mul_zero(t.last().1);
        F::lemma_add_zero(F::spec_zero());
    }
}

/// A pairing in which the function vanishes on all terms but one.
pub proof fn lemma_pairing_one<F: Ring>(t: Terms<F>, g: spec_fn(Seq<usize>) -> F, p: int)
    requires
        0 <= p < t.len(),
        forall|i: int| 0 <= i < t.len() && i != p ==> g((#[trigger] t[i]).0) == F::spec_zero(),
    ensures
        pairing(t, g) == t[p].1.spec_mul(g(t[p].0)),
    decreases t.len(),
{
    let front = t.drop_last();
    if p == t.len() - 1 {
        assert forall|i: int| 0 <= i < front.len() implies g((#[trigger] front[i]).0)
            == F::spec_zero() by {
            assert(front[i] == t[i]);
        }
        lemma_pairing_zero(front, g);
        lemma_zero_add(t[p].1.spec_mul(g(t[p].0)));
    } else {
        assert forall|i: int| 0 <= i < front.len() && i != p implies g((#[trigger] front[i]).0)
            == F::spec_zero() by {
            assert(front[i] == t[i]);
        }
        lemma_pairing_one(front, g, p);
        assert(g(t[t.len() - 1].0) == F::spec_zero());
        lemma_mul_zero(t.last().1);
        F::lemma_add_zero(pairing(front, g));
    }
}

/// A pairing in which the function vanishes on all terms but two.
pub proof fn lemma_pairing_two<F: Ring>(t: Terms<F>, g: spec_fn(Seq<usize>) -> F, p: int, q: int)
    requires
        0 <= p < q < t.len(),
        forall|i: int|
            0 <= i < t.len() && i != p && i != q ==> g((#[trigger] t[i]).0) == F::spec_zero(),
    ensures
        pairing(t, g) == t[p].1.spec_mul(g(t[p].0)).spec_add(t[q].1.spec_mul(g(t[q].0))),
    decreases t.len(),
{
    let front = t.drop_last();
    if q == t.len() - 1 {
        assert forall|i: int| 0 <= i < front.len() && i != p implies g((#[trigger] front[i]).0)
            == F::spec_zero() by {
            assert(front[i] == t[i]);
        }
        lemma_pairing_one(front, g, p);
    } else {
        assert forall|i: int|
            0 <= i < front.len() && i != p && i != q implies g((#[trigger] front[i]).0)
            == F::spec_zero() by {
            assert(front[i] == t[i]);
        }
        lemma_pairing_two(front, g, p, q);
        assert(g(t[t.len() - 1].0) == F::spec_zero());
        lemma_mul_zero(t.last().1);
        F::lemma_add_zero(pairing(front, g));
    }
}

pub proof fn lemma_keyed_sum_of_nothing<F: Ring>(
    keys: Seq<Seq<usize>>,
    g: spec_fn(Seq<usize>) -> F,
)
    ensures
        keyed_sum(keys, Terms::<F>::empty(), g) == F::spec_zero(),
    decreases keys.len(),
{
    if keys.len() > 0 {
        lemma_keyed_sum_of_nothing(keys.drop_last(), g);
        lemma_mul_zero(g(keys.last()));
        F::lemma_add_zero(F::spec_zero());
    }
}

/// One more term changes the keyed sum by its weight, if its cell is listed.
pub proof fn lemma_keyed_sum_push<F: Ring>(
    keys: Seq<Seq<usize>>,
    t: Terms<F>,
    g: spec_fn(Seq<usize>) -> F,
    k: Seq<usize>,
    a: F,
)
    requires
        keys.no_duplicates(),
    ensures
        keyed_sum(keys, t.push((k, a)), g) == keyed_sum(keys, t, g).spec_add(
            if keys.contains(k) {
                a.spec_mul(g(k))
            } else {
                F::spec_zero()
            },
        ),
    decreases keys.len(),
{
    broadcast use vstd::seq_lib::group_seq_properties;

    let more = t.push((k, a));
    assert(more.drop_last() =~= t);
    if keys.len() == 0 {
        F::lemma_add_zero(F::spec_zero());
    } else {
        let front = keys.drop_last();
        let x = keys.last();
        lemma_keyed_sum_push(front, t, g, k, a);
        let s0 = keyed_sum(front, t, g);
        let w = coefficient(t, x).spec_mul(g(x));
        if x == k {
            assert(!front.contains(k)) by {
                if front.contains(k) {
                    let i = choose|i: int| 0 <= i < front.len() && front[i] == k;
                    assert(keys[i] == keys[keys.len() - 1]);
                }
            }
            assert(keys[keys.len() - 1] == k);
            F::lemma_add_zero(s0);
            lemma_distributive_right(coefficient(t, x), a, g(x));
            F::lemma_add_associative(s0, w, a.spec_mul(g(k)));
        } else {
            let extra = if front.contains(k) {
                a.spec_mul(g(k))
            } else {
                F::spec_zero()
            };
            assert(keys.contains(k) == front.contains(k)) by {
                if keys.contains(k) {
                    let i = choose|i: int| 0 <= i < keys.len() && keys[i] == k;
                    assert(front[i] == k);
                }
                if front.contains(k) {
                    let i = choose|i: int| 0 <= i < front.len() && front[i] == k;
                    assert(keys[i] == k);
                }
            }
            lemma_add_swap(s0, extra, w);
        }
    }
}

/// Summing over the terms is summing over the cells, once each.
pub proof fn lemma_pairing_is_keyed_sum<F: Ring>(
    keys: Seq<Seq<usize>>,
    t: Terms<F>,
    g: spec_fn(Seq<usize>) -> F,
)
    requires
        keys.no_duplicates(),
        forall|i: int| 0 <= i < t.len() ==> keys.contains((#[trigger] t[i]).0),
    ensures
        pairing(t, g) == keyed_sum(keys, t, g),
    decreases t.len(),
{
    if t.len() == 0 {
        assert(t =~= Terms::<F>::empty());
        lemma_keyed_sum_of_nothing(keys, g);
    } else {
        let front = t.drop_last();
        assert forall|i: int| 0 <= i < front.len() implies keys.contains((#[trigger] front[i]).0) by {
            assert(front[i] == t[i]);
        }
        lemma_pairing_is_keyed_sum(keys, front, g);
        assert(t =~= front.push((t.last().0, t.last().1)));
        lemma_keyed_sum_push(keys, front, g, t.last().0, t.last().1);
        assert(keys.contains(t[t.len() - 1].0));
    }
}

pub proof fn lemma_keyed_sum_congruent<F: Ring>(
    keys: Seq<Seq<usize>>,
    t: Terms<F>,
    u: Terms<F>,
    g: spec_fn(Seq<usize>) -> F,
)
    requires
        forall|c: Seq<usize>| coefficient(t, c) == coefficient(u, c),
    ensures
        keyed_sum(keys, t, g) == keyed_sum(keys, u, g),
    decreases keys.len(),
{
    if keys.len() > 0 {
        lemma_keyed_sum_congruent(keys.drop_last(), t, u, g);
    }
}

/// Formal sums with the same coefficients pair alike with every function.
pub proof fn lemma_pairing_congruent<F: Ring>(
    t: Terms<F>,
    u: Terms<F>,
    g: spec_fn(Seq<usize>) -> F,
)
    requires
        forall|c: Seq<usize>| coefficient(t, c) == coefficient(u, c),
    ensures
        pairing(t, g) == pairing(u, g),
{
    broadcast use vstd::seq_lib::group_seq_properties;

    let cells = t.map_values(|x: (Seq<usize>, F)| x.0) + u.map_values(|x: (Seq<usize>, F)| x.0);
    let keys = distinct(cells);
    lemma_distinct(cells);
    assert forall|i: int| 0 <= i < t.len() implies keys.contains((#[trigger] t[i]).0) by {
        assert(cells[i] == t[i].0);
        assert(cells.contains(t[i].0));
    }
    assert forall|i: int| 0 <= i < u.len() implies keys.contains((#[trigger] u[i]).0) by {
        assert(cells[t.len() + i] == u[i].0);
        assert(cells.contains(u[i].0));
    }
    lemma_pairing_is_keyed_sum(keys, t, g);
    lemma_pairing_is_keyed_sum(keys, u, g);
    lemma_keyed_sum_congruent(keys, t, u, g);
}

/// A value with a sign is the value times the unit with that sign.
pub proof fn lemma_signed_is_scaled<F: Ring>(sign: Sign, a: F)
    ensures
        signed(sign, a) == a.spec_mul(signed(sign, F::spec_one())),
{
    F::lemma_mul_one(a);
    lemma_mul_neg(a, F::spec_one());
}

/// The boundary of a multiple of a cell has the multiples of the
/// coefficients of the boundary of the cell.
pub proof fn lemma_face_terms_scale<F: Ring>(c: Seq<usize>, a: F, n: nat, rho: Seq<usize>)
    ensures
        coefficient(face_terms(c, a, n), rho) == a.spec_mul(
            coefficient(face_terms(c, F::spec_one(), n), rho),
        ),
    decreases n,
{
    if n == 0 {
        lemma_mul_zero(a);
    } else {
        lemma_face_terms_scale(c, a, (n - 1) as nat, rho);
        let x = coefficient(face_terms(c, F::spec_one(), (n - 1) as nat), rho);
        let with_a = face_terms(c, a, n);
        let with_one = face_terms(c, F::spec_one(), n);
        assert(with_a.drop_last() =~= face_terms(c, a, (n - 1) as nat));
        assert(with_one.drop_last() =~= face_terms(c, F::spec_one(), (n - 1) as nat));
        if c.remove(n - 1) == rho {
            lemma_signed_is_scaled(sign_at(n - 1), a);
            F::lemma_distributive(a, x, unit_at::<F>(n - 1));
        }
    }
}

/// The same for pairings.
pub proof fn lemma_face_terms_pairing_scale<F: Ring>(
    c: Seq<usize>,
    a: F,
    n: nat,
    g: spec_fn(Seq<usize>) -> F,
)
    ensures
        pairing(face_terms(c, a, n), g) == a.spec_mul(pairing(face_terms(c, F::spec_one(), n), g)),
    decreases n,
{
    if n == 0 {
        lemma_mul_zero(a);
    } else {
        lemma_face_terms_pairing_scale(c, a, (n - 1) as nat, g);
        let x = pairing(face_terms(c, F::spec_one(), (n - 1) as nat), g);
        let with_a = face_terms(c, a, n);
        let with_one = face_terms(c, F::spec_one(), n);
        assert(with_a.drop_last() =~= face_terms(c, a, (n - 1) as nat));
        assert(with_one.drop_last() =~= face_terms(c, F::spec_one(), (n - 1) as nat));
        let u = unit_at::<F>(n - 1);
        let v = g(c.remove(n - 1));
        lemma_signed_is_scaled(sign_at(n - 1), a);
        F::lemma_mul_associative(a, u, v);
        F::lemma_distributive(a, x, u.spec_mul(v));
    }
}

/// The coefficient of a cell in a boundary is the pairing with the incidence
/// numbers of that cell.
pub proof fn lemma_boundary_coefficient<F: Ring>(t: Terms<F>, rho: Seq<usize>)
    ensures
        coefficient(boundary_terms(t), rho) == pairing(t, incidence_to::<F>(rho)),
    decreases t.len(),
{
    if t.len() > 0 {
        let front = t.drop_last();
        let c = t.last().0;
        let a = t.last().1;
        lemma_boundary_coefficient(front, rho);
        lemma_coefficient_concat(boundary_terms(front), faces_of(c, a), rho);
        if c.len() >= 2 {
            lemma_face_terms_scale(c, a, c.len(), rho);
        } else {
            lemma_mul_zero(a);
        }
        assert(incidence_to::<F>(rho)(c) == incidence::<F>(c, rho));
    }
}

/// Pairing with a boundary is pairing with the function summed over faces.
pub proof fn lemma_boundary_pairing<F: Ring>(t: Terms<F>, g: spec_fn(Seq<usize>) -> F)
    ensures
        pairing(boundary_terms(t), g) == pairing(t, over_faces(g)),
    decreases t.len(),
{
    if t.len() > 0 {
        let front = t.drop_last();
        let c = t.last().0;
        let a = t.last().1;
        lemma_boundary_pairing(front, g);
        lemma_pairing_concat(boundary_terms(front), faces_of(c, a), g);
        if c.len() >= 2 {
            lemma_face_terms_pairing_scale(c, a, c.len(), g);
        } else {
            lemma_mul_zero(a);
        }
        assert(over_faces(g)(c) == pairing(faces_of(c, F::spec_one()), g));
    }
}

/// Units at neighbouring positions are opposite, so the two orders of
/// omitting two vertices cancel.
pub proof fn lemma_units_cancel<F: Ring>(p: int, q: int)
    requires
        0 <= p < q,
    ensures
        unit_at::<F>(p).spec_mul(unit_at::<F>(q - 1)).spec_add(
            unit_at::<F>(q).spec_mul(unit_at::<F>(p)),
        ) == F::spec_zero(),
{
    let sp = unit_at::<F>(p);
    let sq = unit_at::<F>(q);
    let sr = unit_at::<F>(q - 1);
    assert(sr == sq.spec_neg()) by {
        lemma_neg_neg(F::spec_one());
    }
    lemma_mul_neg(sp, sq);
    F::lemma_mul_commutative(sq, sp);
    lemma_neg_add(sp.spec_mul(sq));
}

/// A face of a face of a simplex lacks the two vertices that were omitted.
pub proof fn lemma_double_face_lacks(c: Seq<usize>, a: int, b: int, k: int)
    requires
        strictly_increasing(c),
        0 <= a < c.len(),
        0 <= b < c.len() - 1,
        0 <= k < c.len() - 2,
    ensures
        c.remove(a).remove(b)[k] != c[a],
        c.remove(a).remove(b)[k] != c[if b < a {
            b
        } else {
            b + 1
        }],
{
    let once = c.remove(a);
    let k1 = if k < b { k } else { k + 1 };
    let k2 = if k1 < a { k1 } else { k1 + 1 };
    assert(once.remove(b)[k] == once[k1]);
    assert(once[k1] == c[k2]);
    let b2 = if b < a { b } else { b + 1 };
    assert(k2 != a && k2 != b2);
    if k2 < a {
        assert(c[k2] < c[a]);
    } else {
        assert(c[a] < c[k2]);
    }
    if k2 < b2 {
        assert(c[k2] < c[b2]);
    } else {
        assert(c[b2] < c[k2]);
    }
}

/// A face of a face of a simplex keeps every vertex that was not omitted.
pub proof fn lemma_double_face_keeps(c: Seq<usize>, a: int, b: int, m: int) -> (k: int)
    requires
        0 <= a < c.len(),
        0 <= b < c.len() - 1,
        0 <= m < c.len(),
        m != a,
        m != if b < a {
            b
        } else {
            b + 1
        },
    ensures
        0 <= k < c.len() - 2,
        c.remove(a).remove(b)[k] == c[m],
{
    let m1 = if m < a { m } else { m - 1 };
    let k = if m1 < b { m1 } else { m1 - 1 };
    let once = c.remove(a);
    assert(once[m1] == c[m]);
    assert(once.remove(b)[k] == once[m1]);
    k
}

/// Two faces of faces of a simplex are equal only where the same two
/// vertices were omitted.
pub proof fn lemma_double_faces_equal(c: Seq<usize>, a: int, b: int, x: int, y: int)
    requires
        strictly_increasing(c),
        0 <= a < c.len(),
        0 <= b < c.len() - 1,
        0 <= x < c.len(),
        0 <= y < c.len() - 1,
        c.remove(a).remove(b) == c.remove(x).remove(y),
    ensures
        ({
            let b2 = if b < a { b } else { b + 1 };
            let y2 = if y < x { y } else { y + 1 };
            (a == x && b2 == y2) || (a == y2 && b2 == x)
        }),
{
    let b2 = if b < a { b } else { b + 1 };
    let y2 = if y < x { y } else { y + 1 };
    if x != a && x != b2 {
        let k = lemma_double_face_keeps(c, a, b, x);
        lemma_double_face_lacks(c, x, y, k);
    }
    if y2 != a && y2 != b2 {
        let k = lemma_double_face_keeps(c, a, b, y2);
        lemma_double_face_lacks(c, x, y, k);
    }
}

/// The incidence number of a face that omits one position.
pub proof fn lemma_incidence_of_face<F: Ring>(tau: Seq<usize>, j: int)
    requires
        strictly_increasing(tau),
        tau.len() >= 2,
        0 <= j < tau.len(),
    ensures
        incidence::<F>(tau, tau.remove(j)) == unit_at::<F>(j),
{
    let t = face_terms(tau, F::spec_one(), tau.len());
    lemma_face_terms_index(tau, F::spec_one(), tau.len());
    assert forall|a: int, b: int| 0 <= a < b < t.len() implies (#[trigger] t[a]).0 != (
    #[trigger] t[b]).0 by {
        lemma_faces_differ(tau, a, b);
    }
    lemma_coefficient_at(t, j);
}

/// The incidence number of a cell that is no face.
pub proof fn lemma_incidence_of_stranger<F: Ring>(tau: Seq<usize>, rho: Seq<usize>)
    requires
        forall|j: int| 0 <= j < tau.len() ==> #[trigger] tau.remove(j) != rho,
    ensures
        incidence::<F>(tau, rho) == F::spec_zero(),
{
    if tau.len() >= 2 {
        let t = face_terms(tau, F::spec_one(), tau.len());
        lemma_face_terms_index(tau, F::spec_one(), tau.len());
        assert forall|i: int| 0 <= i < t.len() implies (#[trigger] t[i]).0 != rho by {
            assert(tau.remove(i) != rho);
        }
        lemma_coefficient_absent(t, rho);
    }
}

/// The faces of a simplex pair to zero with the incidence numbers of the
/// cell that omits its positions `p` and `q`.
proof fn lemma_two_orders_cancel<F: Ring>(sigma: Seq<usize>, rho: Seq<usize>, p: int, q: int)
    requires
        strictly_increasing(sigma),
        sigma.len() >= 3,
        0 <= p < q < sigma.len(),
        sigma.remove(q).remove(p) == rho,
    ensures
        pairing(face_terms(sigma, F::spec_one(), sigma.len()), incidence_to::<F>(rho))
            == F::spec_zero(),
{
    let g = incidence_to::<F>(rho);
    let n = sigma.len();
    let t = face_terms(sigma, F::spec_one(), n);
    lemma_face_terms_index(sigma, F::spec_one(), n);
    assert(sigma.remove(p).remove(q - 1) =~= rho);
    assert forall|i: int| 0 <= i < t.len() && i != p && i != q implies g((#[trigger] t[i]).0)
        == F::spec_zero() by {
        lemma_face_is_stranger::<F>(sigma, rho, p, q, i);
    }
    lemma_pairing_two(t, g, p, q);
    lemma_remove_keeps_order(sigma, p);
    lemma_remove_keeps_order(sigma, q);
    lemma_incidence_of_face::<F>(sigma.remove(p), q - 1);
    lemma_incidence_of_face::<F>(sigma.remove(q), p);
    assert(g(t[p].0) == unit_at::<F>(q - 1));
    assert(g(t[q].0) == unit_at::<F>(p));
    F::lemma_mul_commutative(unit_at::<F>(q), unit_at::<F>(p));
    lemma_units_cancel::<F>(p, q);
    assert(t[p].1 == unit_at::<F>(p));
    assert(t[q].1 == unit_at::<F>(q));
}

/// The cell that omits the positions `p` and `q` of a simplex is no face of
/// the face that omits another position.
proof fn lemma_face_is_stranger<F: Ring>(
    sigma: Seq<usize>,
    rho: Seq<usize>,
    p: int,
    q: int,
    i: int,
)
    requires
        strictly_increasing(sigma),
        sigma.len() >= 3,
        0 <= p < q < sigma.len(),
        sigma.remove(q).remove(p) == rho,
        0 <= i < sigma.len(),
        i != p,
        i != q,
    ensures
        incidence::<F>(sigma.remove(i), rho) == F::spec_zero(),
{
    let tau = sigma.remove(i);
    assert forall|j: int| 0 <= j < tau.len() implies #[trigger] tau.remove(j) != rho by {
        if tau.remove(j) == rho {
            lemma_double_faces_equal(sigma, q, p, i, j);
        }
    }
    lemma_incidence_of_stranger::<F>(tau, rho);
}

/// For one simplex, the boundary of the boundary gives every cell the
/// coefficient zero.
pub proof fn lemma_simplex_boundary_squared<F: Ring>(sigma: Seq<usize>, rho: Seq<usize>)
    requires
        strictly_increasing(sigma),
    ensures
        over_faces(incidence_to::<F>(rho))(sigma) == F::spec_zero(),
{
    let g = incidence_to::<F>(rho);
    let n = sigma.len();
    if n >= 2 {
        let t = face_terms(sigma, F::spec_one(), n);
        lemma_face_terms_index(sigma, F::spec_one(), n);
        if n >= 3 && exists|a: int, b: int|
            0 <= a < n && 0 <= b < n - 1 && #[trigger] sigma.remove(a).remove(b) == rho {
            let (a, b) = choose|a: int, b: int|
                0 <= a < n && 0 <= b < n - 1 && #[trigger] sigma.remove(a).remove(b) == rho;
            let b2 = if b < a { b } else { b + 1 };
            let p = if a < b2 { a } else { b2 };
            let q = if a < b2 { b2 } else { a };
            assert(sigma.remove(q).remove(p) =~= sigma.remove(a).remove(b));
            lemma_two_orders_cancel::<F>(sigma, rho, p, q);
        } else {
            assert forall|i: int| 0 <= i < t.len() implies g((#[trigger] t[i]).0)
                == F::spec_zero() by {
                let tau = sigma.remove(i);
                if n >= 3 {
                    assert forall|j: int| 0 <= j < tau.len() implies #[trigger] tau.remove(j)
                        != rho by {
                        assert(sigma.remove(i).remove(j) != rho);
                    }
                    lemma_incidence_of_stranger::<F>(tau, rho);
                }
            }
            lemma_pairing_zero(t, g);
        }
    }
}

/// The boundary of the boundary of a formal sum of simplices gives every
/// cell the coefficient zero.
pub proof fn lemma_boundary_squared<F: Ring>(t: Terms<F>, rho: Seq<usize>)
    requires
        forall|i: int| 0 <= i < t.len() ==> strictly_increasing((#[trigger] t[i]).0),
    ensures
        coefficient(boundary_terms(boundary_terms(t)), rho) == F::spec_zero(),
{
    let g = incidence_to::<F>(rho);
    lemma_boundary_coefficient(boundary_terms(t), rho);
    lemma_boundary_pairing(t, g);
    assert forall|i: int| 0 <= i < t.len() implies over_faces(g)((#[trigger] t[i]).0)
        == F::spec_zero() by {
        lemma_simplex_boundary_squared::<F>(t[i].0, rho);
    }
    lemma_pairing_zero(t, over_faces(g));
}

/// The coefficients of a boundary depend on the coefficients of the formal
/// sum alone, not on how it is written as a list of terms.
pub proof fn lemma_boundary_congruent<F: Ring>(t: Terms<F>, u: Terms<F>, rho: Seq<usize>)
    requires
        forall|c: Seq<usize>| coefficient(t, c) == coefficient(u, c),
    ensures
        coefficient(boundary_terms(t), rho) == coefficient(boundary_terms(u), rho),
{
    lemma_boundary_coefficient(t, rho);
    lemma_boundary_coefficient(u, rho);
    lemma_pairing_congruent(t, u, incidence_to::<F>(rho));
}

/// The boundary of a boundary is zero: where `first` has the coefficients of
/// the boundary of a chain, and `second` is in normal form with the
/// coefficients of the boundary of `first`, then `second` gives every cell
/// the coefficient zero, and has no term at all.
pub proof fn lemma_boundary_of_boundary_is_zero<F: Ring>(
    chain: Terms<F>,
    first: Terms<F>,
    second: Terms<F>,
    d: nat,
)
    requires
        forall|i: int| 0 <= i < chain.len() ==> strictly_increasing((#[trigger] chain[i]).0),
        forall|c: Seq<usize>| coefficient(first, c) == coefficient(boundary_terms(chain), c),
        forall|c: Seq<usize>| coefficient(second, c) == coefficient(boundary_terms(first), c),
        terms_wf(second, d),
    ensures
        forall|c: Seq<usize>| coefficient(second, c) == F::spec_zero(),
        second.len() == 0,
{
    assert forall|c: Seq<usize>| coefficient(second, c) == F::spec_zero() by {
        lemma_boundary_congruent(first, boundary_terms(chain), c);
        lemma_boundary_squared(chain, c);
    }
    if second.len() > 0 {
        lemma_coefficient_at(second, 0);
    }
}

} // verus!
