//! Homology of a complex over a field: boundary matrices and the Betti
//! numbers that their ranks give.

use vstd::prelude::*;
use crate::chain_laws::{
    incidence, incidence_to, keyed_sum, lemma_face_terms_index, lemma_faces_differ,
    lemma_incidence_of_face, lemma_incidence_of_stranger, lemma_pairing_is_keyed_sum,
    lemma_simplex_boundary_squared, unit_at,
};
use crate::chain::{coefficient, faces_of, signed, Terms};
use crate::complex::{level, table_wf, CellTable, SimplicialComplex};
use crate::cube::{face_of, face_sign, is_cube, lemma_cube_faces_differ, Shape};
use crate::cubical::{cubical_wf, CubeTable, CubicalComplex};
use crate::cubical_laws::{
    face_unit, lemma_cube_signs_cancel, lemma_double_faces_commute, lemma_double_faces_meet,
    partner,
};
use crate::matrix::{column, dot, lemma_rank_bounds, spec_rank, Matrix};
use crate::rank_laws::{annihilates, lemma_ranks_of_zero_product};
use crate::span::{lemma_dot_congruent, lemma_dot_two, lemma_dot_vanishes};
use crate::rings::{Field, Ring};
use crate::simplex::{sign_at, Sign};

verus! {

broadcast use vstd::seq_lib::group_seq_properties;

/// The number of rows of the boundary matrix of dimension `d`: the number
/// of cells one dimension down, none below dimension zero.
pub open spec fn boundary_height<C>(k: Seq<Seq<C>>, d: int) -> nat {
    if d <= 0 {
        0
    } else {
        level(k, d - 1).len()
    }
}

/// The boundary matrix of dimension `d`: one row for each cell of dimension
/// `d - 1`, one column for each cell of dimension `d`, and as entry the
/// incidence number of the row's cell in the column's cell.
pub open spec fn boundary_rows<F: Field>(k: CellTable, d: int) -> Seq<Seq<F>> {
    Seq::new(
        boundary_height(k, d),
        |i: int|
            Seq::new(
                level(k, d).len(),
                |j: int| incidence::<F>(level(k, d)[j], level(k, d - 1)[i]),
            ),
    )
}

/// The rank of the boundary matrix of dimension `d`.
pub open spec fn boundary_rank<F: Field>(k: CellTable, d: int) -> nat {
    spec_rank(boundary_rows::<F>(k, d), level(k, d).len())
}

/// The Betti number of dimension `d`: the number of cells of that dimension
/// less the ranks of the boundary matrices into and out of it.
pub open spec fn spec_betti<F: Field>(k: CellTable, d: int) -> int {
    level(k, d).len() - boundary_rank::<F>(k, d) - boundary_rank::<F>(k, d + 1)
}

/// The product of two vectors indexed by the listed cells, the first the
/// values of `g` and the second the coefficients in `t`, is the sum over
/// those cells of the coefficient times the value.
proof fn lemma_dot_is_keyed_sum<F: Ring>(
    keys: Seq<Seq<usize>>,
    t: Terms<F>,
    g: spec_fn(Seq<usize>) -> F,
    a: Seq<F>,
    x: Seq<F>,
)
    requires
        a.len() == keys.len(),
        x.len() == keys.len(),
        forall|h: int|
            0 <= h < keys.len() ==> a[h] == g(#[trigger] keys[h]) && x[h] == coefficient(
                t,
                keys[h],
            ),
    ensures
        dot(a, x) == keyed_sum(keys, t, g),
    decreases keys.len(),
{
    if keys.len() > 0 {
        let n = keys.len() - 1;
        assert forall|h: int| 0 <= h < keys.drop_last().len() implies a.drop_last()[h] == g(
            #[trigger] keys.drop_last()[h],
        ) && x.drop_last()[h] == coefficient(t, keys.drop_last()[h]) by {
            assert(keys.drop_last()[h] == keys[h]);
        }
        lemma_dot_is_keyed_sum(keys.drop_last(), t, g, a.drop_last(), x.drop_last());
        lemma_dot_congruent(a.drop_last(), x, x.drop_last());
        assert(keys.last() == keys[n]);
        F::lemma_mul_commutative(a[n], x[n]);
    }
}

/// The boundary of a boundary is zero, for matrices: every row of the
/// boundary matrix of dimension `d` annihilates the boundary matrix of
/// dimension `d + 1`.
pub proof fn lemma_boundary_matrices_multiply_to_zero<F: Field>(k: CellTable, d: int)
    requires
        table_wf(k),
        d >= 1,
    ensures
        forall|i: int|
            0 <= i < boundary_rows::<F>(k, d).len() ==> annihilates(
                #[trigger] boundary_rows::<F>(k, d)[i],
                boundary_rows::<F>(k, d + 1),
                level(k, d + 1).len(),
            ),
{
    let a = boundary_rows::<F>(k, d);
    let b = boundary_rows::<F>(k, d + 1);
    let w = level(k, d + 1).len();
    assert forall|i: int| 0 <= i < a.len() implies annihilates(#[trigger] a[i], b, w) by {
        assert forall|j: int| 0 <= j < w implies dot(a[i], #[trigger] column(b, j))
            == F::spec_zero() by {
            let rho = level(k, d - 1)[i];
            let tau = level(k, d + 1)[j];
            let keys = level(k, d);
            let t = faces_of(tau, F::spec_one());
            let g = incidence_to::<F>(rho);
            assert(tau == k[d + 1][j] && keys == k[d]);
            assert(crate::simplex::strictly_increasing(k[d + 1][j]) && tau.len() == d + 2);
            assert forall|h: int| 0 <= h < keys.len() implies a[i][h] == g(#[trigger] keys[h])
                && column(b, j)[h] == coefficient(t, keys[h]) by {
                assert(b[h][j] == incidence::<F>(tau, keys[h]));
            }
            lemma_dot_is_keyed_sum(keys, t, g, a[i], column(b, j));
            lemma_face_terms_index(tau, F::spec_one(), tau.len());
            assert forall|p: int| 0 <= p < t.len() implies keys.contains((#[trigger] t[p]).0) by {
                assert(k[d].contains(k[d + 1][j].remove(p)));
            }
            lemma_pairing_is_keyed_sum(keys, t, g);
            lemma_simplex_boundary_squared::<F>(tau, rho);
        }
    }
}

/// The ranks of the boundary matrices into and out of a dimension are
/// together at most the number of its cells: no Betti number is negative.
pub proof fn lemma_boundary_ranks_fit<F: Field>(k: CellTable, d: int)
    requires
        table_wf(k),
        d >= 0,
    ensures
        boundary_rank::<F>(k, d) + boundary_rank::<F>(k, d + 1) <= level(k, d).len(),
        spec_betti::<F>(k, d) >= 0,
{
    if d == 0 {
        lemma_rank_bounds(boundary_rows::<F>(k, 0), 0, level(k, 0).len());
        lemma_rank_bounds(boundary_rows::<F>(k, 1), 0, level(k, 1).len());
    } else {
        lemma_boundary_matrices_multiply_to_zero::<F>(k, d);
        lemma_ranks_of_zero_product(
            boundary_rows::<F>(k, d),
            boundary_rows::<F>(k, d + 1),
            level(k, d + 1).len(),
        );
    }
}

impl SimplicialComplex {
    /// The boundary matrix of the given dimension over the field `F`.
    pub fn boundary_matrix<F: Field>(&self, dimension: usize) -> (m: Matrix<F>)
        requires
            self.wf(),
        ensures
            m.wf(),
            m.spec_cols() == level(self@, dimension as int).len(),
            m.spec_rows() == boundary_height(self@, dimension as int),
            m@ == boundary_rows::<F>(self@, dimension as int),
    {
        let cols = self.count(dimension);
        let rows = if dimension == 0 {
            0
        } else {
            self.count(dimension - 1)
        };
        let mut m: Matrix<F> = Matrix::zeros(rows, cols);
        let ghost k = self@;
        let ghost d = dimension as int;
        let mut j: usize = 0;
        while j < cols
            invariant
                j <= cols,
                self.wf(),
                k == self@,
                d == dimension,
                cols == level(k, d).len(),
                rows == boundary_height(k, d),
                m.wf(),
                m.spec_rows() == rows,
                m.spec_cols() == cols,
                forall|i: int, b: int|
                    0 <= i < rows && 0 <= b < j ==> (#[trigger] m@[i][b]) == incidence::<F>(
                        level(k, d)[b],
                        level(k, d - 1)[i],
                    ),
                forall|i: int, b: int|
                    0 <= i < rows && j <= b < cols ==> (#[trigger] m@[i][b]) == F::spec_zero(),
            decreases cols - j,
        {
            if dimension > 0 {
                let faces = self.face_handles(dimension, j);
                let ghost sigma = level(k, d)[j as int];
                assert(sigma == k[d][j as int]);
                let ghost start = m@;
                let mut p: usize = 0;
                while p < faces.len()
                    invariant
                        p <= faces@.len(),
                        faces@.len() == dimension + 1,
                        dimension > 0,
                        d == dimension,
                        j < cols,
                        cols == level(k, d).len(),
                        rows == boundary_height(k, d),
                        table_wf(k),
                        sigma == k[d][j as int],
                        m.wf(),
                        m.spec_rows() == rows,
                        m.spec_cols() == cols,
                        forall|q: int|
                            0 <= q < faces@.len() ==> {
                                &&& (#[trigger] faces@[q]).0 < k[d - 1].len()
                                &&& k[d - 1][faces@[q].0 as int] == sigma.remove(q)
                                &&& faces@[q].1 == sign_at(q)
                            },
                        forall|i: int, b: int|
                            0 <= i < rows && 0 <= b < cols && b != j ==> (#[trigger] m@[i][b])
                                == start[i][b],
                        forall|q: int|
                            0 <= q < p ==> m@[(#[trigger] faces@[q]).0 as int][j as int]
                                == unit_at::<F>(q),
                        forall|i: int|
                            0 <= i < rows && (forall|q: int|
                                0 <= q < p ==> (#[trigger] faces@[q]).0 != i) ==> (
                            #[trigger] m@[i])[j as int] == F::spec_zero(),
                    decreases faces.len() - p,
                {
                    let (handle, sign) = faces[p];
                    let unit = match sign {
                        Sign::Positive => F::one(),
                        Sign::Negative => F::one().neg(),
                    };
                    let ghost before = m@;
                    m.set(handle, j, unit);
                    proof {
                        assert forall|q: int| 0 <= q < p + 1 implies m@[(
                        #[trigger] faces@[q]).0 as int][j as int] == unit_at::<F>(q) by {
                            if q < p {
                                if faces@[q].0 == handle {
                                    lemma_faces_differ(sigma, q, p as int);
                                }
                                assert(before[faces@[q].0 as int][j as int] == unit_at::<F>(q));
                            }
                        }
                        assert forall|i: int|
                            0 <= i < rows && (forall|q: int|
                                0 <= q < p + 1 ==> (#[trigger] faces@[q]).0 != i) implies (
                        #[trigger] m@[i])[j as int] == F::spec_zero() by {
                            assert(faces@[p as int].0 != i);
                            assert(m@[i] == before[i]);
                        }
                    }
                    p = p + 1;
                }
                proof {
                    assert(crate::simplex::strictly_increasing(k[d][j as int]));
                    assert forall|i: int| 0 <= i < rows implies (#[trigger] m@[i][j as int])
                        == incidence::<F>(sigma, level(k, d - 1)[i]) by {
                        let rho = k[d - 1][i];
                        if exists|q: int| 0 <= q < faces@.len() && (#[trigger] faces@[q]).0 == i {
                            let q = choose|q: int|
                                0 <= q < faces@.len() && (#[trigger] faces@[q]).0 == i;
                            lemma_incidence_of_face::<F>(sigma, q);
                        } else {
                            assert forall|q: int| 0 <= q < sigma.len() implies #[trigger] sigma.remove(
                                q,
                            ) != rho by {
                                if sigma.remove(q) == rho {
                                    let h = faces@[q].0 as int;
                                    assert(k[d - 1][h] == k[d - 1][i]);
                                    assert(h == i);
                                }
                            }
                            lemma_incidence_of_stranger::<F>(sigma, rho);
                            assert(m@[i][j as int] == F::spec_zero());
                        }
                    }
                }
            }
            j = j + 1;
        }
        assert(m@ =~= boundary_rows::<F>(k, d)) by {
            assert forall|i: int| 0 <= i < m@.len() implies m@[i] =~= boundary_rows::<F>(k, d)[i] by {
                assert forall|b: int| 0 <= b < cols implies m@[i][b] == boundary_rows::<F>(
                    k,
                    d,
                )[i][b] by {
                    assert(m@[i][b] == incidence::<F>(level(k, d)[b], level(k, d - 1)[i]));
                }
            }
        }
        m
    }

    /// The Betti number of the given dimension over the field `F`. A
    /// dimension without cells has Betti number zero.
    pub fn homology<F: Field>(&self, dimension: usize) -> (betti: usize)
        requires
            self.wf(),
        ensures
            betti == spec_betti::<F>(self@, dimension as int),
    {
        proof {
            lemma_boundary_ranks_fit::<F>(self@, dimension as int);
        }
        let cells = self.count(dimension);
        if cells == 0 {
            return 0;
        }
        let into = self.boundary_matrix::<F>(dimension).rank();
        let stored = self.levels();
        assert(dimension < stored);
        let out = self.boundary_matrix::<F>(dimension + 1).rank();
        cells - into - out
    }
}

/// The incidence number of the cube `rho` in the cube `sigma`: the unit with
/// the sign of the face of `sigma` that `rho` is, zero where it is none.
pub open spec fn cube_incidence<F: Ring>(sigma: Shape, rho: Shape) -> F {
    if exists|n: int| 0 <= n < 2 * sigma.axes.len() && face_of(sigma, n) == rho {
        let n = choose|n: int| 0 <= n < 2 * sigma.axes.len() && face_of(sigma, n) == rho;
        signed(face_sign(n), F::spec_one())
    } else {
        F::spec_zero()
    }
}

/// The boundary matrix of dimension `d` of a cubical complex: one row for
/// each cube of dimension `d - 1`, one column for each cube of dimension
/// `d`, and as entry the incidence number of the row's cube in the column's.
pub open spec fn cubical_boundary_rows<F: Field>(k: CubeTable, d: int) -> Seq<Seq<F>> {
    Seq::new(
        boundary_height(k, d),
        |i: int|
            Seq::new(
                level(k, d).len(),
                |j: int| cube_incidence::<F>(level(k, d)[j], level(k, d - 1)[i]),
            ),
    )
}

/// The rank of the boundary matrix of dimension `d` of a cubical complex.
pub open spec fn cubical_boundary_rank<F: Field>(k: CubeTable, d: int) -> nat {
    spec_rank(cubical_boundary_rows::<F>(k, d), level(k, d).len())
}

/// The Betti number of dimension `d` of a cubical complex: the number of
/// cubes of that dimension less the ranks of the boundary matrices into and
/// out of it.
pub open spec fn spec_cubical_betti<F: Field>(k: CubeTable, d: int) -> int {
    level(k, d).len() - cubical_boundary_rank::<F>(k, d) - cubical_boundary_rank::<F>(k, d + 1)
}

/// The incidence number of the `n`-th face of a cube is the unit with the
/// sign of that face.
pub proof fn lemma_cube_incidence_of_face<F: Ring>(sigma: Shape, n: int)
    requires
        is_cube(sigma),
        0 <= n < 2 * sigma.axes.len(),
    ensures
        cube_incidence::<F>(sigma, face_of(sigma, n)) == face_unit::<F>(n),
{
    let rho = face_of(sigma, n);
    let m = choose|m: int| 0 <= m < 2 * sigma.axes.len() && face_of(sigma, m) == rho;
    if m < n {
        lemma_cube_faces_differ(sigma, m, n);
    } else if n < m {
        lemma_cube_faces_differ(sigma, n, m);
    }
}

/// The incidence numbers of the cubes of a complex, through one cube of
/// the dimension between them: the product of the incidence number of `rho`
/// in that cube and of that cube in `tau`, over the cubes of dimension `d`,
/// adds up to zero.
proof fn lemma_cube_incidences_cancel<F: Field>(k: CubeTable, d: int, rho: Shape, tau: Shape)
    requires
        cubical_wf(k),
        1 <= d,
        d + 1 < k.len(),
        k[d + 1].contains(tau),
    ensures
        dot(
            Seq::new(k[d].len(), |h: int| cube_incidence::<F>(k[d][h], rho)),
            Seq::new(k[d].len(), |h: int| cube_incidence::<F>(tau, k[d][h])),
        ) == F::spec_zero(),
{
    let keys = k[d];
    let a = Seq::new(keys.len(), |h: int| cube_incidence::<F>(keys[h], rho));
    let x = Seq::new(keys.len(), |h: int| cube_incidence::<F>(tau, keys[h]));
    let above = k[d + 1];
    let at = choose|at: int| 0 <= at < above.len() && above[at] == tau;
    assert(is_cube(k[d + 1][at]) && tau.axes.len() == d + 1);
    let sides = 2 * tau.axes.len();
    if exists|n: int, m: int|
        0 <= n < sides && 0 <= m < sides - 2 && #[trigger] face_of(face_of(tau, n), m) == rho {
        let (n, m) = choose|n: int, m: int|
            0 <= n < sides && 0 <= m < sides - 2 && #[trigger] face_of(face_of(tau, n), m) == rho;
        let (n2, m2) = partner(n, m);
        lemma_double_faces_commute(tau, n, m);
        assert(keys.contains(face_of(k[d + 1][at], n)));
        assert(keys.contains(face_of(k[d + 1][at], n2)));
        let h1 = choose|h: int| 0 <= h < keys.len() && keys[h] == face_of(tau, n);
        let h2 = choose|h: int| 0 <= h < keys.len() && keys[h] == face_of(tau, n2);
        if n < n2 {
            lemma_cube_faces_differ(tau, n, n2);
        } else {
            lemma_cube_faces_differ(tau, n2, n);
        }
        assert(h1 != h2);
        assert(is_cube(keys[h1]) && is_cube(keys[h2]));
        lemma_cube_incidence_of_face::<F>(tau, n);
        lemma_cube_incidence_of_face::<F>(tau, n2);
        lemma_cube_incidence_of_face::<F>(keys[h1], m);
        lemma_cube_incidence_of_face::<F>(keys[h2], m2);
        assert(a[h1] == face_unit::<F>(m) && x[h1] == face_unit::<F>(n));
        assert(a[h2] == face_unit::<F>(m2) && x[h2] == face_unit::<F>(n2));
        assert forall|h: int| 0 <= h < a.len() && h != h1 && h != h2 implies a[h]
            == F::spec_zero() || x[h] == F::spec_zero() by {
            if a[h] != F::spec_zero() && x[h] != F::spec_zero() {
                assert(is_cube(keys[h]) && keys[h].axes.len() == d);
                let n3 = choose|n3: int| 0 <= n3 < sides && face_of(tau, n3) == keys[h];
                let m3 = choose|m3: int|
                    0 <= m3 < 2 * keys[h].axes.len() && face_of(keys[h], m3) == rho;
                lemma_double_faces_meet(tau, n, m, n3, m3);
            }
        }
        lemma_cube_signs_cancel::<F>(n, m);
        if h1 < h2 {
            lemma_dot_two(a, x, h1, h2);
        } else {
            lemma_dot_two(a, x, h2, h1);
            F::lemma_add_commutative(a[h2].spec_mul(x[h2]), a[h1].spec_mul(x[h1]));
        }
    } else {
        assert forall|h: int| 0 <= h < a.len() implies a[h] == F::spec_zero() || x[h]
            == F::spec_zero() by {
            if a[h] != F::spec_zero() && x[h] != F::spec_zero() {
                assert(is_cube(keys[h]) && keys[h].axes.len() == d);
                let n3 = choose|n3: int| 0 <= n3 < sides && face_of(tau, n3) == keys[h];
                let m3 = choose|m3: int|
                    0 <= m3 < 2 * keys[h].axes.len() && face_of(keys[h], m3) == rho;
                assert(face_of(face_of(tau, n3), m3) == rho);
            }
        }
        lemma_dot_vanishes(a, x);
    }
}

/// The boundary of a boundary is zero, for the matrices of a cubical
/// complex: every row of the boundary matrix of dimension `d` annihilates
/// the boundary matrix of dimension `d + 1`.
pub proof fn lemma_cubical_boundary_matrices_multiply_to_zero<F: Field>(k: CubeTable, d: int)
    requires
        cubical_wf(k),
        d >= 1,
    ensures
        forall|i: int|
            0 <= i < cubical_boundary_rows::<F>(k, d).len() ==> annihilates(
                #[trigger] cubical_boundary_rows::<F>(k, d)[i],
                cubical_boundary_rows::<F>(k, d + 1),
                level(k, d + 1).len(),
            ),
{
    let a = cubical_boundary_rows::<F>(k, d);
    let b = cubical_boundary_rows::<F>(k, d + 1);
    let w = level(k, d + 1).len();
    assert forall|i: int| 0 <= i < a.len() implies annihilates(#[trigger] a[i], b, w) by {
        assert forall|j: int| 0 <= j < w implies dot(a[i], #[trigger] column(b, j))
            == F::spec_zero() by {
            let rho = level(k, d - 1)[i];
            let tau = level(k, d + 1)[j];
            assert(tau == k[d + 1][j]);
            lemma_cube_incidences_cancel::<F>(k, d, rho, tau);
            assert(a[i] =~= Seq::new(k[d].len(), |h: int| cube_incidence::<F>(k[d][h], rho)));
            assert(column(b, j) =~= Seq::new(
                k[d].len(),
                |h: int| cube_incidence::<F>(tau, k[d][h]),
            ));
        }
    }
}

/// The ranks of the boundary matrices into and out of a dimension of a
/// cubical complex are together at most the number of its cubes: no Betti
/// number is negative.
pub proof fn lemma_cubical_boundary_ranks_fit<F: Field>(k: CubeTable, d: int)
    requires
        cubical_wf(k),
        d >= 0,
    ensures
        cubical_boundary_rank::<F>(k, d) + cubical_boundary_rank::<F>(k, d + 1) <= level(
            k,
            d,
        ).len(),
        spec_cubical_betti::<F>(k, d) >= 0,
{
    if d == 0 {
        lemma_rank_bounds(cubical_boundary_rows::<F>(k, 0), 0, level(k, 0).len());
        lemma_rank_bounds(cubical_boundary_rows::<F>(k, 1), 0, level(k, 1).len());
    } else {
        lemma_cubical_boundary_matrices_multiply_to_zero::<F>(k, d);
        lemma_ranks_of_zero_product(
            cubical_boundary_rows::<F>(k, d),
            cubical_boundary_rows::<F>(k, d + 1),
            level(k, d + 1).len(),
        );
    }
}

impl CubicalComplex {
    /// The boundary matrix of the given dimension over the field `F`.
    pub fn boundary_matrix<F: Field>(&self, dimension: usize) -> (m: Matrix<F>)
        requires
            self.wf(),
        ensures
            m.wf(),
            m.spec_cols() == level(self@, dimension as int).len(),
            m.spec_rows() == boundary_height(self@, dimension as int),
            m@ == cubical_boundary_rows::<F>(self@, dimension as int),
    {
        let cols = self.count(dimension);
        let rows = if dimension == 0 {
            0
        } else {
            self.count(dimension - 1)
        };
        let mut m: Matrix<F> = Matrix::zeros(rows, cols);
        let ghost k = self@;
        let ghost d = dimension as int;
        let mut j: usize = 0;
        while j < cols
            invariant
                j <= cols,
                self.wf(),
                k == self@,
                d == dimension,
                cols == level(k, d).len(),
                rows == boundary_height(k, d),
                m.wf(),
                m.spec_rows() == rows,
                m.spec_cols() == cols,
                forall|i: int, b: int|
                    0 <= i < rows && 0 <= b < j ==> (#[trigger] m@[i][b]) == cube_incidence::<F>(
                        level(k, d)[b],
                        level(k, d - 1)[i],
                    ),
                forall|i: int, b: int|
                    0 <= i < rows && j <= b < cols ==> (#[trigger] m@[i][b]) == F::spec_zero(),
            decreases cols - j,
        {
            if dimension > 0 {
                let faces = self.face_handles(dimension, j);
                let ghost sigma = level(k, d)[j as int];
                assert(sigma == k[d][j as int]);
                let ghost start = m@;
                let mut p: usize = 0;
                while p < faces.len()
                    invariant
                        p <= faces@.len(),
                        faces@.len() == 2 * dimension,
                        dimension > 0,
                        d == dimension,
                        j < cols,
                        cols == level(k, d).len(),
                        rows == boundary_height(k, d),
                        cubical_wf(k),
                        sigma == k[d][j as int],
                        m.wf(),
                        m.spec_rows() == rows,
                        m.spec_cols() == cols,
                        forall|q: int|
                            0 <= q < faces@.len() ==> {
                                &&& (#[trigger] faces@[q]).0 < k[d - 1].len()
                                &&& k[d - 1][faces@[q].0 as int] == face_of(sigma, q)
                                &&& faces@[q].1 == face_sign(q)
                            },
                        forall|i: int, b: int|
                            0 <= i < rows && 0 <= b < cols && b != j ==> (#[trigger] m@[i][b])
                                == start[i][b],
                        forall|q: int|
                            0 <= q < p ==> m@[(#[trigger] faces@[q]).0 as int][j as int] == signed(
                                face_sign(q),
                                F::spec_one(),
                            ),
                        forall|i: int|
                            0 <= i < rows && (forall|q: int|
                                0 <= q < p ==> (#[trigger] faces@[q]).0 != i) ==> (
                            #[trigger] m@[i])[j as int] == F::spec_zero(),
                    decreases faces.len() - p,
                {
                    let (handle, sign) = faces[p];
                    let unit = match sign {
                        Sign::Positive => F::one(),
                        Sign::Negative => F::one().neg(),
                    };
                    let ghost before = m@;
                    m.set(handle, j, unit);
                    proof {
                        assert forall|q: int| 0 <= q < p + 1 implies m@[(
                        #[trigger] faces@[q]).0 as int][j as int] == signed(
                            face_sign(q),
                            F::spec_one(),
                        ) by {
                            if q < p {
                                if faces@[q].0 == handle {
                                    lemma_cube_faces_differ(sigma, q, p as int);
                                }
                                assert(before[faces@[q].0 as int][j as int] == signed(
                                    face_sign(q),
                                    F::spec_one(),
                                ));
                            }
                        }
                        assert forall|i: int|
                            0 <= i < rows && (forall|q: int|
                                0 <= q < p + 1 ==> (#[trigger] faces@[q]).0 != i) implies (
                        #[trigger] m@[i])[j as int] == F::spec_zero() by {
                            assert(faces@[p as int].0 != i);
                            assert(m@[i] == before[i]);
                        }
                    }
                    p = p + 1;
                }
                proof {
                    assert(is_cube(k[d][j as int]));
                    assert forall|i: int| 0 <= i < rows implies (#[trigger] m@[i][j as int])
                        == cube_incidence::<F>(sigma, level(k, d - 1)[i]) by {
                        let rho = k[d - 1][i];
                        if exists|q: int| 0 <= q < faces@.len() && (#[trigger] faces@[q]).0 == i {
                            let q = choose|q: int|
                                0 <= q < faces@.len() && (#[trigger] faces@[q]).0 == i;
                            lemma_cube_incidence_of_face::<F>(sigma, q);
                        } else {
                            assert forall|q: int| 0 <= q < 2 * sigma.axes.len() implies face_of(
                                sigma,
                                q,
                            ) != rho by {
                                if face_of(sigma, q) == rho {
                                    let h = faces@[q].0 as int;
                                    assert(k[d - 1][h] == k[d - 1][i]);
                                    assert(h == i);
                                }
                            }
                            assert(m@[i][j as int] == F::spec_zero());
                        }
                    }
                }
            }
            j = j + 1;
        }
        assert(m@ =~= cubical_boundary_rows::<F>(k, d)) by {
            assert forall|i: int| 0 <= i < m@.len() implies m@[i] =~= cubical_boundary_rows::<F>(
                k,
                d,
            )[i] by {
                assert forall|b: int| 0 <= b < cols implies m@[i][b] == cubical_boundary_rows::<F>(
                    k,
                    d,
                )[i][b] by {
                    assert(m@[i][b] == cube_incidence::<F>(level(k, d)[b], level(k, d - 1)[i]));
                }
            }
        }
        m
    }

    /// The Betti number of the given dimension over the field `F`. A
    /// dimension without cubes has Betti number zero.
    pub fn homology<F: Field>(&self, dimension: usize) -> (betti: usize)
        requires
            self.wf(),
        ensures
            betti == spec_cubical_betti::<F>(self@, dimension as int),
    {
        proof {
            lemma_cubical_boundary_ranks_fit::<F>(self@, dimension as int);
        }
        let cells = self.count(dimension);
        if cells == 0 {
            return 0;
        }
        let into = self.boundary_matrix::<F>(dimension).rank();
        let stored = self.levels();
        assert(dimension < stored);
        let out = self.boundary_matrix::<F>(dimension + 1).rank();
        cells - into - out
    }
}

} // verus!
