//! Chains: formal sums of simplices of one dimension with coefficients in a
//! field, and the boundary operator on them.

use vstd::prelude::*;
use crate::error::TopologyError;
use crate::rings::{lemma_add_swap, lemma_zero_add, Field, Ring};
use crate::simplex::{sign_at, strictly_increasing, Sign, Simplex};

verus! {

/// A formal sum as plain data: each term is a cell, given by its vertices,
/// and the coefficient it carries. A cell may occur in several terms.
pub type Terms<F> = Seq<(Seq<usize>, F)>;

/// The coefficient of the cell `c` in the formal sum: the sum of the
/// coefficients of the terms on `c`.
pub open spec fn coefficient<F: Ring>(t: Terms<F>, c: Seq<usize>) -> F
    decreases t.len(),
{
    if t.len() == 0 {
        F::spec_zero()
    } else if t.last().0 == c {
        coefficient(t.drop_last(), c).spec_add(t.last().1)
    } else {
        coefficient(t.drop_last(), c)
    }
}

/// The value with the given orientation.
pub open spec fn signed<F: Ring>(sign: Sign, a: F) -> F {
    match sign {
        Sign::Positive => a,
        Sign::Negative => a.spec_neg(),
    }
}

/// The signed faces of `a` times the cell `c` that omit the positions below
/// `n`: the face that omits position `i` carries `a` with the sign of `i`.
pub open spec fn face_terms<F: Ring>(c: Seq<usize>, a: F, n: nat) -> Terms<F>
    decreases n,
{
    if n == 0 {
        Seq::empty()
    } else {
        face_terms(c, a, (n - 1) as nat).push((c.remove(n - 1), signed(sign_at(n - 1), a)))
    }
}

/// The boundary of `a` times the cell `c` as a formal sum. A vertex has an
/// empty boundary.
pub open spec fn faces_of<F: Ring>(c: Seq<usize>, a: F) -> Terms<F> {
    if c.len() >= 2 {
        face_terms(c, a, c.len())
    } else {
        Seq::empty()
    }
}

/// The boundary of a formal sum, term by term and without collecting equal
/// cells.
pub open spec fn boundary_terms<F: Ring>(t: Terms<F>) -> Terms<F>
    decreases t.len(),
{
    if t.len() == 0 {
        Seq::empty()
    } else {
        boundary_terms(t.drop_last()) + faces_of(t.last().0, t.last().1)
    }
}

/// Every term is on a simplex of dimension `d`, no two terms are on the same
/// simplex, and no coefficient is zero.
pub open spec fn terms_wf<F: Ring>(t: Terms<F>, d: nat) -> bool {
    &&& forall|i: int|
        0 <= i < t.len() ==> strictly_increasing((#[trigger] t[i]).0) && t[i].0.len() == d + 1
    &&& forall|i: int, j: int| 0 <= i < j < t.len() ==> (#[trigger] t[i]).0 != (#[trigger] t[j]).0
    &&& forall|i: int| 0 <= i < t.len() ==> (#[trigger] t[i]).1 != F::spec_zero()
}

/// The coefficient in a sum of two formal sums is the sum of the
/// coefficients.
pub proof fn lemma_coefficient_concat<F: Ring>(a: Terms<F>, b: Terms<F>, c: Seq<usize>)
    ensures
        coefficient(a + b, c) == coefficient(a, c).spec_add(coefficient(b, c)),
    decreases b.len(),
{
    if b.len() == 0 {
        assert(a + b =~= a);
        F::lemma_add_zero(coefficient(a, c));
    } else {
        assert((a + b).drop_last() =~= a + b.drop_last());
        lemma_coefficient_concat(a, b.drop_last(), c);
        if b.last().0 == c {
            F::lemma_add_associative(
                coefficient(a, c),
                coefficient(b.drop_last(), c),
                b.last().1,
            );
        }
    }
}

/// The coefficient in a formal sum of one term.
pub proof fn lemma_coefficient_single<F: Ring>(k: Seq<usize>, x: F, c: Seq<usize>)
    ensures
        coefficient(seq![(k, x)], c) == if k == c {
            x
        } else {
            F::spec_zero()
        },
{
    let t = seq![(k, x)];
    assert(t.drop_last() =~= Seq::empty());
    assert(coefficient(t.drop_last(), c) == F::spec_zero());
    lemma_zero_add(x);
}

/// A cell on which the formal sum has no term has coefficient zero.
pub proof fn lemma_coefficient_absent<F: Ring>(t: Terms<F>, c: Seq<usize>)
    requires
        forall|i: int| 0 <= i < t.len() ==> (#[trigger] t[i]).0 != c,
    ensures
        coefficient(t, c) == F::spec_zero(),
    decreases t.len(),
{
    if t.len() > 0 {
        lemma_coefficient_absent(t.drop_last(), c);
    }
}

/// Where no two terms share a cell, the coefficient of a cell is that of
/// its one term.
pub proof fn lemma_coefficient_at<F: Ring>(t: Terms<F>, i: int)
    requires
        0 <= i < t.len(),
        forall|a: int, b: int| 0 <= a < b < t.len() ==> (#[trigger] t[a]).0 != (#[trigger] t[b]).0,
    ensures
        coefficient(t, t[i].0) == t[i].1,
    decreases t.len(),
{
    let c = t[i].0;
    if i == t.len() - 1 {
        lemma_coefficient_absent(t.drop_last(), c);
        lemma_zero_add(t[i].1);
    } else {
        lemma_coefficient_at(t.drop_last(), i);
    }
}

/// The coefficient after one term of a formal sum has been replaced.
proof fn lemma_coefficient_replace<F: Ring>(t: Terms<F>, i: int, x: F, c: Seq<usize>)
    requires
        0 <= i < t.len(),
    ensures
        coefficient(t.update(i, (t[i].0, t[i].1.spec_add(x))), c) == coefficient(t, c).spec_add(
            if t[i].0 == c {
                x
            } else {
                F::spec_zero()
            },
        ),
        coefficient(t.remove(i), c).spec_add(
            if t[i].0 == c {
                t[i].1.spec_add(x)
            } else {
                F::spec_zero()
            },
        ) == coefficient(t, c).spec_add(
            if t[i].0 == c {
                x
            } else {
                F::spec_zero()
            },
        ),
{
    let head = t.subrange(0, i);
    let tail = t.subrange(i + 1, t.len() as int);
    let k = t[i].0;
    let old_mid = seq![(k, t[i].1)];
    let new_mid = seq![(k, t[i].1.spec_add(x))];
    assert(t =~= head + old_mid + tail);
    assert(t.update(i, (k, t[i].1.spec_add(x))) =~= head + new_mid + tail);
    assert(t.remove(i) =~= head + tail);
    let h = coefficient(head, c);
    let l = coefficient(tail, c);
    lemma_coefficient_concat(head, old_mid, c);
    lemma_coefficient_concat(head + old_mid, tail, c);
    lemma_coefficient_concat(head, new_mid, c);
    lemma_coefficient_concat(head + new_mid, tail, c);
    lemma_coefficient_concat(head, tail, c);
    lemma_coefficient_single(k, t[i].1, c);
    lemma_coefficient_single(k, t[i].1.spec_add(x), c);
    if k == c {
        // ((h + (y + x)) + l) == ((h + y) + l) + x
        let y = t[i].1;
        F::lemma_add_associative(h, y, x);
        lemma_add_swap(h.spec_add(y), x, l);
        // (h + l) + (y + x) == ((h + y) + l) + x
        lemma_add_swap(h, y.spec_add(x), l);
    } else {
        F::lemma_add_zero(h);
        F::lemma_add_zero(h.spec_add(l));
    }
}

/// The boundary of a formal sum whose cells are vertices is empty.
pub proof fn lemma_boundary_of_vertices<F: Ring>(t: Terms<F>)
    requires
        forall|i: int| 0 <= i < t.len() ==> (#[trigger] t[i]).0.len() <= 1,
    ensures
        boundary_terms(t) == Terms::<F>::empty(),
    decreases t.len(),
{
    if t.len() > 0 {
        lemma_boundary_of_vertices(t.drop_last());
        assert(boundary_terms(t) =~= Terms::<F>::empty());
    }
}

/// A chain: a formal sum of simplices of one dimension in which each simplex
/// occurs at most once and no coefficient is zero.
pub struct Chain<F: Field> {
    dimension: usize,
    cells: Vec<Simplex>,
    coefficients: Vec<F>,
}

impl<F: Field> View for Chain<F> {
    type V = Terms<F>;

    closed spec fn view(&self) -> Terms<F> {
        Seq::new(self.cells@.len(), |i: int| (self.cells@[i]@, self.coefficients@[i]))
    }
}

impl<F: Field> Chain<F> {
    /// The dimension of the cells of the chain.
    pub closed spec fn spec_dimension(&self) -> nat {
        self.dimension as nat
    }

    /// The stored simplices agree with the dimension of the chain.
    pub closed spec fn stored_wf(&self) -> bool {
        &&& self.cells@.len() == self.coefficients@.len()
        &&& forall|i: int|
            0 <= i < self.cells@.len() ==> (#[trigger] self.cells@[i]).wf()
                && self.cells@[i].spec_dimension() == self.dimension
    }

    /// The chain is in normal form.
    pub open spec fn wf(&self) -> bool {
        self.stored_wf() && terms_wf(self@, self.spec_dimension())
    }

    /// The chain without terms, in the given dimension.
    pub fn zero(dimension: usize) -> (chain: Self)
        ensures
            chain.wf(),
            chain.spec_dimension() == dimension,
            chain@ == Terms::<F>::empty(),
    {
        let chain = Chain { dimension, cells: Vec::new(), coefficients: Vec::new() };
        assert(chain@ =~= Terms::<F>::empty());
        chain
    }

    /// The dimension of the cells of the chain.
    pub fn dimension(&self) -> (d: usize)
        ensures
            d == self.spec_dimension(),
    {
        self.dimension
    }

    /// The number of cells with a coefficient other than zero.
    pub fn len(&self) -> (n: usize)
        ensures
            n == self@.len(),
    {
        self.cells.len()
    }

    /// Whether every coefficient of the chain is zero.
    pub fn is_zero(&self) -> (none: bool)
        requires
            self.wf(),
        ensures
            none == (forall|c: Seq<usize>| coefficient(self@, c) == F::spec_zero()),
            none == (self@.len() == 0),
    {
        proof {
            if self@.len() > 0 {
                lemma_coefficient_at(self@, 0);
            } else {
                assert forall|c: Seq<usize>| coefficient(self@, c) == F::spec_zero() by {
                    lemma_coefficient_absent(self@, c);
                }
            }
        }
        self.cells.len() == 0
    }

    /// The position of the term on `cell`, if the chain has one.
    fn position(&self, cell: &Simplex) -> (at: Option<usize>)
        requires
            self.stored_wf(),
        ensures
            match at {
                Some(i) => i < self@.len() && self@[i as int].0 == cell@,
                None => forall|i: int| 0 <= i < self@.len() ==> (#[trigger] self@[i]).0 != cell@,
            },
    {
        let mut i: usize = 0;
        while i < self.cells.len()
            invariant
                i <= self.cells@.len(),
                self.stored_wf(),
                forall|j: int| 0 <= j < i ==> (#[trigger] self@[j]).0 != cell@,
            decreases self.cells.len() - i,
        {
            if self.cells[i].same_as(cell) {
                return Some(i);
            }
            i = i + 1;
        }
        None
    }

    /// The coefficient that the chain gives to `cell`: zero where the chain
    /// has no term on it.
    pub fn coefficient(&self, cell: &Simplex) -> (a: F)
        requires
            self.wf(),
        ensures
            a == coefficient(self@, cell@),
    {
        match self.position(cell) {
            Some(i) => {
                proof {
                    lemma_coefficient_at(self@, i as int);
                }
                self.coefficients[i]
            },
            None => {
                proof {
                    lemma_coefficient_absent(self@, cell@);
                }
                F::zero()
            },
        }
    }

    /// Adds `a` times `cell` to the chain, which stays in normal form: a
    /// coefficient that becomes zero takes its term away.
    fn accumulate(&mut self, cell: Simplex, a: F)
        requires
            old(self).wf(),
            cell.wf(),
            cell.spec_dimension() == old(self).spec_dimension(),
        ensures
            final(self).wf(),
            final(self).spec_dimension() == old(self).spec_dimension(),
            forall|c: Seq<usize>|
                coefficient(final(self)@, c) == (#[trigger] coefficient(old(self)@, c)).spec_add(
                    if c == cell@ {
                        a
                    } else {
                        F::spec_zero()
                    },
                ),
    {
        let ghost before = self@;
        let ghost d = self.spec_dimension();
        match self.position(&cell) {
            Some(i) => {
                let sum = self.coefficients[i].add(a);
                if sum.is_zero() {
                    self.cells.remove(i);
                    self.coefficients.remove(i);
                    proof {
                        assert(self@ =~= before.remove(i as int));
                        assert forall|c: Seq<usize>|
                            coefficient(self@, c) == (#[trigger] coefficient(before, c)).spec_add(
                                if c == cell@ {
                                    a
                                } else {
                                    F::spec_zero()
                                },
                            ) by {
                            lemma_coefficient_replace(before, i as int, a, c);
                            F::lemma_add_zero(coefficient(self@, c));
                        }
                        assert forall|x: int, y: int| 0 <= x < y < self@.len() implies (
                        #[trigger] self@[x]).0 != (#[trigger] self@[y]).0 by {
                            let bx = if x < i { x } else { x + 1 };
                            let by = if y < i { y } else { y + 1 };
                            assert(before[bx].0 != before[by].0);
                        }
                    }
                } else {
                    self.coefficients.set(i, sum);
                    proof {
                        assert(self@ =~= before.update(i as int, (before[i as int].0, sum)));
                        assert forall|c: Seq<usize>|
                            coefficient(self@, c) == (#[trigger] coefficient(before, c)).spec_add(
                                if c == cell@ {
                                    a
                                } else {
                                    F::spec_zero()
                                },
                            ) by {
                            lemma_coefficient_replace(before, i as int, a, c);
                        }
                        assert forall|x: int, y: int| 0 <= x < y < self@.len() implies (
                        #[trigger] self@[x]).0 != (#[trigger] self@[y]).0 by {
                            assert(before[x].0 != before[y].0);
                        }
                    }
                }
            },
            None => {
                if !a.is_zero() {
                    self.cells.push(cell);
                    self.coefficients.push(a);
                    proof {
                        assert(self@ =~= before.push((cell@, a)));
                        assert(self@.drop_last() =~= before);
                        assert forall|c: Seq<usize>|
                            coefficient(self@, c) == (#[trigger] coefficient(before, c)).spec_add(
                                if c == cell@ {
                                    a
                                } else {
                                    F::spec_zero()
                                },
                            ) by {
                            F::lemma_add_zero(coefficient(before, c));
                        }
                    }
                } else {
                    proof {
                        assert forall|c: Seq<usize>|
                            coefficient(self@, c) == (#[trigger] coefficient(before, c)).spec_add(
                                if c == cell@ {
                                    a
                                } else {
                                    F::spec_zero()
                                },
                            ) by {
                            F::lemma_add_zero(coefficient(before, c));
                        }
                    }
                }
            },
        }
    }

    /// Adds `a` times `cell` to the chain. Fails, and leaves the chain as it
    /// was, where the cell is not of the dimension of the chain.
    pub fn insert(&mut self, cell: Simplex, a: F) -> (done: Result<(), TopologyError>)
        requires
            old(self).wf(),
            cell.wf(),
        ensures
            final(self).wf(),
            final(self).spec_dimension() == old(self).spec_dimension(),
            done is Ok <==> cell.spec_dimension() == old(self).spec_dimension(),
            done matches Err(e) ==> e == TopologyError::DimensionMismatch && final(self)@ == old(
                self,
            )@,
            done is Ok ==> forall|c: Seq<usize>|
                coefficient(final(self)@, c) == (#[trigger] coefficient(old(self)@, c)).spec_add(
                    if c == cell@ {
                        a
                    } else {
                        F::spec_zero()
                    },
                ),
    {
        if cell.dimension() != self.dimension {
            return Err(TopologyError::DimensionMismatch);
        }
        self.accumulate(cell, a);
        Ok(())
    }

    /// The sum of two chains of one dimension, coefficient by coefficient.
    /// Fails where the dimensions differ.
    pub fn add(&self, other: &Chain<F>) -> (sum: Result<Chain<F>, TopologyError>)
        requires
            self.wf(),
            other.wf(),
        ensures
            sum is Ok <==> self.spec_dimension() == other.spec_dimension(),
            sum matches Err(e) ==> e == TopologyError::DimensionMismatch,
            sum matches Ok(s) ==> s.wf() && s.spec_dimension() == self.spec_dimension()
                && forall|c: Seq<usize>|
                coefficient(s@, c) == (#[trigger] coefficient(self@, c)).spec_add(
                    coefficient(other@, c),
                ),
    {
        if self.dimension != other.dimension {
            return Err(TopologyError::DimensionMismatch);
        }
        let mut sum: Chain<F> = Chain::zero(self.dimension);
        let mut i: usize = 0;
        while i < self.cells.len()
            invariant
                i <= self.cells@.len(),
                self.wf(),
                sum.wf(),
                sum.spec_dimension() == self.spec_dimension(),
                forall|c: Seq<usize>|
                    coefficient(sum@, c) == #[trigger] coefficient(self@.take(i as int), c),
            decreases self.cells.len() - i,
        {
            let ghost before = sum@;
            sum.accumulate(self.cells[i].clone(), self.coefficients[i]);
            proof {
                assert(self@.take(i + 1).drop_last() =~= self@.take(i as int));
                assert forall|c: Seq<usize>|
                    coefficient(sum@, c) == #[trigger] coefficient(self@.take(i + 1), c) by {
                    assert(coefficient(sum@, c) == coefficient(before, c).spec_add(
                        if c == self@[i as int].0 {
                            self@[i as int].1
                        } else {
                            F::spec_zero()
                        },
                    ));
                    assert(coefficient(before, c) == coefficient(self@.take(i as int), c));
                    F::lemma_add_zero(coefficient(before, c));
                }
            }
            i = i + 1;
        }
        proof {
            assert(self@.take(self@.len() as int) =~= self@);
            assert(other@.take(0) =~= Terms::<F>::empty());
            assert forall|c: Seq<usize>|
                coefficient(sum@, c) == (#[trigger] coefficient(self@, c)).spec_add(
                    coefficient(other@.take(0), c),
                ) by {
                F::lemma_add_zero(coefficient(self@, c));
            }
        }
        let mut j: usize = 0;
        while j < other.cells.len()
            invariant
                j <= other.cells@.len(),
                other.wf(),
                sum.wf(),
                sum.spec_dimension() == self.spec_dimension(),
                other.spec_dimension() == self.spec_dimension(),
                forall|c: Seq<usize>|
                    coefficient(sum@, c) == (#[trigger] coefficient(self@, c)).spec_add(
                        coefficient(other@.take(j as int), c),
                    ),
            decreases other.cells.len() - j,
        {
            let ghost before = sum@;
            sum.accumulate(other.cells[j].clone(), other.coefficients[j]);
            proof {
                assert(other@.take(j + 1).drop_last() =~= other@.take(j as int));
                assert forall|c: Seq<usize>|
                    coefficient(sum@, c) == (#[trigger] coefficient(self@, c)).spec_add(
                        coefficient(other@.take(j + 1), c),
                    ) by {
                    assert(coefficient(sum@, c) == coefficient(before, c).spec_add(
                        if c == other@[j as int].0 {
                            other@[j as int].1
                        } else {
                            F::spec_zero()
                        },
                    ));
                    assert(coefficient(before, c) == coefficient(self@, c).spec_add(
                        coefficient(other@.take(j as int), c),
                    ));
                    F::lemma_add_zero(coefficient(before, c));
                    F::lemma_add_associative(
                        coefficient(self@, c),
                        coefficient(other@.take(j as int), c),
                        other@[j as int].1,
                    );
                }
            }
            j = j + 1;
        }
        assert(other@.take(other@.len() as int) =~= other@);
        Ok(sum)
    }

    /// The boundary of the chain, one dimension down: every term is replaced
    /// by its signed faces, and equal faces are collected, those that cancel
    /// leaving no term. The boundary of a chain of vertices is zero.
    pub fn boundary(&self) -> (b: Chain<F>)
        requires
            self.wf(),
        ensures
            b.wf(),
            b.spec_dimension() == if self.spec_dimension() == 0 {
                0
            } else {
                self.spec_dimension() - 1
            },
            forall|c: Seq<usize>|
                coefficient(b@, c) == #[trigger] coefficient(boundary_terms(self@), c),
    {
        if self.dimension == 0 {
            proof {
                lemma_boundary_of_vertices(self@);
            }
            return Chain::zero(0);
        }
        let mut b: Chain<F> = Chain::zero(self.dimension - 1);
        let mut k: usize = 0;
        while k < self.cells.len()
            invariant
                k <= self.cells@.len(),
                self.wf(),
                self.spec_dimension() >= 1,
                b.wf(),
                b.spec_dimension() == self.spec_dimension() - 1,
                forall|c: Seq<usize>|
                    coefficient(b@, c) == #[trigger] coefficient(
                        boundary_terms(self@.take(k as int)),
                        c,
                    ),
            decreases self.cells.len() - k,
        {
            let cell = &self.cells[k];
            let a = self.coefficients[k];
            let ghost done = boundary_terms(self@.take(k as int));
            let generators = cell.vertices().len();
            let mut p: usize = 0;
            while p < generators
                invariant
                    p <= generators,
                    generators == cell@.len(),
                    cell.wf(),
                    cell.spec_dimension() == self.spec_dimension(),
                    self.spec_dimension() >= 1,
                    b.wf(),
                    b.spec_dimension() == self.spec_dimension() - 1,
                    forall|c: Seq<usize>|
                        coefficient(b@, c) == #[trigger] coefficient(
                            done + face_terms(cell@, a, p as nat),
                            c,
                        ),
                decreases generators - p,
            {
                let face = cell.face(p);
                let value = if p % 2 == 0 {
                    a
                } else {
                    a.neg()
                };
                let ghost before = b@;
                let ghost so_far = done + face_terms(cell@, a, p as nat);
                b.accumulate(face, value);
                proof {
                    let next = done + face_terms(cell@, a, (p + 1) as nat);
                    assert(next =~= so_far.push((cell@.remove(p as int), value)));
                    assert(next.drop_last() =~= so_far);
                    assert forall|c: Seq<usize>|
                        coefficient(b@, c) == #[trigger] coefficient(next, c) by {
                        assert(coefficient(b@, c) == coefficient(before, c).spec_add(
                            if c == cell@.remove(p as int) {
                                value
                            } else {
                                F::spec_zero()
                            },
                        ));
                        assert(coefficient(before, c) == coefficient(so_far, c));
                        F::lemma_add_zero(coefficient(before, c));
                    }
                }
                p = p + 1;
            }
            proof {
                assert(self@.take(k + 1).drop_last() =~= self@.take(k as int));
                assert(self@.take(k + 1).last() == (cell@, a));
                assert(faces_of(cell@, a) == face_terms(cell@, a, cell@.len()));
            }
            k = k + 1;
        }
        assert(self@.take(self@.len() as int) =~= self@);
        b
    }
}

} // verus!
