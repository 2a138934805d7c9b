//! Faces of faces of a cube: each arises in exactly two ways, with opposite
//! signs.

use vstd::prelude::*;
use crate::chain::signed;
use crate::chain_laws::lemma_double_faces_equal;
use crate::cube::{face_of, face_sign, has_room, is_cube, lemma_face_is_cube, Shape};
use crate::rings::{lemma_mul_neg, lemma_neg_neg, Ring};

verus! {

broadcast use vstd::seq_lib::group_seq_properties;

/// The other way to the face that is the `m`-th face of the `n`-th face of
/// a cube: the axes are left in the other order.
pub open spec fn partner(n: int, m: int) -> (int, int) {
    if m / 2 < n / 2 {
        (m, n - 2)
    } else {
        (m + 2, n)
    }
}

/// The position, among the axes of the cube, of the axis that the `m`-th
/// face of the `n`-th face leaves second.
pub open spec fn second_axis(n: int, m: int) -> int {
    if m / 2 < n / 2 {
        m / 2
    } else {
        m / 2 + 1
    }
}

/// The unit with the sign of the `n`-th face of a cube.
pub open spec fn face_unit<F: Ring>(n: int) -> F {
    signed(face_sign(n), F::spec_one())
}

/// The `m`-th face of the `n`-th face of a cube: it lacks two axes, and its
/// corner has moved along each of them as the side of the face says, and
/// along no other axis.
pub proof fn lemma_double_face(c: Shape, n: int, m: int)
    requires
        is_cube(c),
        0 <= n < 2 * c.axes.len(),
        0 <= m < 2 * (c.axes.len() - 1),
    ensures
        ({
            let rho = face_of(face_of(c, n), m);
            let first = c.axes[n / 2] as int;
            let second = c.axes[second_axis(n, m)] as int;
            &&& rho.axes == c.axes.remove(n / 2).remove(m / 2)
            &&& rho.base.len() == c.base.len()
            &&& first != second
            &&& 0 <= first < c.base.len()
            &&& 0 <= second < c.base.len()
            &&& rho.base[first] == c.base[first] + n % 2
            &&& rho.base[second] == c.base[second] + m % 2
            &&& forall|x: int|
                0 <= x < c.base.len() && x != first && x != second ==> #[trigger] rho.base[x]
                    == c.base[x]
        }),
{
    let f = face_of(c, n);
    let s = second_axis(n, m);
    lemma_face_is_cube(c, n);
    assert(f.axes[m / 2] == c.axes[s]);
    if s < n / 2 {
        assert(c.axes[s] < c.axes[n / 2]);
    } else {
        assert(c.axes[n / 2] < c.axes[s]);
    }
    assert(has_room(c.base, c.axes[n / 2]));
    assert(has_room(c.base, c.axes[s]));
    assert(has_room(f.base, f.axes[m / 2]));
}

/// The two ways to a face of a face lead to the same cube, through
/// different faces.
pub proof fn lemma_double_faces_commute(c: Shape, n: int, m: int)
    requires
        is_cube(c),
        0 <= n < 2 * c.axes.len(),
        0 <= m < 2 * (c.axes.len() - 1),
    ensures
        ({
            let (n2, m2) = partner(n, m);
            &&& 0 <= n2 < 2 * c.axes.len()
            &&& 0 <= m2 < 2 * (c.axes.len() - 1)
            &&& n2 != n
            &&& face_of(face_of(c, n), m) == face_of(face_of(c, n2), m2)
        }),
{
    let (n2, m2) = partner(n, m);
    lemma_double_face(c, n, m);
    lemma_double_face(c, n2, m2);
    let one = face_of(face_of(c, n), m);
    let two = face_of(face_of(c, n2), m2);
    assert(n2 / 2 == second_axis(n, m));
    assert(second_axis(n2, m2) == n / 2);
    assert(one.axes =~= two.axes);
    assert(one.base =~= two.base);
}

/// A face of a face arises in no way but the two.
pub proof fn lemma_double_faces_meet(c: Shape, n: int, m: int, n2: int, m2: int)
    requires
        is_cube(c),
        0 <= n < 2 * c.axes.len(),
        0 <= m < 2 * (c.axes.len() - 1),
        0 <= n2 < 2 * c.axes.len(),
        0 <= m2 < 2 * (c.axes.len() - 1),
        face_of(face_of(c, n), m) == face_of(face_of(c, n2), m2),
    ensures
        (n2, m2) == (n, m) || (n2, m2) == partner(n, m),
{
    lemma_double_face(c, n, m);
    lemma_double_face(c, n2, m2);
    lemma_double_faces_equal(c.axes, n / 2, m / 2, n2 / 2, m2 / 2);
}

/// The signs of the faces on the same side of neighbouring positions are
/// opposite.
pub proof fn lemma_opposite_units<F: Ring>(n: int)
    requires
        0 <= n,
    ensures
        face_unit::<F>(n + 2) == face_unit::<F>(n).spec_neg(),
{
    lemma_neg_neg(F::spec_one());
}

/// The signs along the two ways to a face of a face cancel.
pub proof fn lemma_cube_signs_cancel<F: Ring>(n: int, m: int)
    requires
        0 <= n,
        0 <= m,
    ensures
        ({
            let (n2, m2) = partner(n, m);
            face_unit::<F>(m).spec_mul(face_unit::<F>(n)).spec_add(
                face_unit::<F>(m2).spec_mul(face_unit::<F>(n2)),
            ) == F::spec_zero()
        }),
{
    let x = face_unit::<F>(m);
    let y = face_unit::<F>(n);
    if m / 2 < n / 2 {
        lemma_opposite_units::<F>(n - 2);
        lemma_neg_neg(face_unit::<F>(n - 2));
        lemma_mul_neg(y, x);
        F::lemma_mul_commutative(x, y);
        F::lemma_add_neg(x.spec_mul(y));
    } else {
        lemma_opposite_units::<F>(m);
        lemma_mul_neg(y, x);
        F::lemma_mul_commutative(x, y);
        F::lemma_add_neg(x.spec_mul(y));
    }
}

} // verus!
