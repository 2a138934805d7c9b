//! Simplices: cells spanned by a set of vertex labels.

use vstd::prelude::*;
use crate::error::TopologyError;

verus! {

broadcast use {vstd::seq_lib::group_seq_properties, vstd::set::group_set_axioms};

/// The orientation that a face inherits from the cell it bounds.
#[derive(Clone, Copy, Debug, PartialEq, Eq, Structural)]
pub enum Sign {
    Positive,
    Negative,
}

/// The sign of the face that omits the generator at `position`: positive at
/// even positions, negative at odd ones.
pub open spec fn sign_at(position: int) -> Sign {
    if position % 2 == 0 {
        Sign::Positive
    } else {
        Sign::Negative
    }
}

/// Each entry is smaller than every later one.
pub open spec fn strictly_increasing(s: Seq<usize>) -> bool {
    forall|i: int, j: int| 0 <= i < j < s.len() ==> s[i] < s[j]
}

/// A `k`-dimensional simplex: `k + 1` distinct vertex labels, kept in
/// increasing order so that two simplices on the same vertices are equal.
#[derive(Debug)]
pub struct Simplex {
    vertices: Vec<usize>,
    dimension: usize,
}

impl View for Simplex {
    type V = Seq<usize>;

    closed spec fn view(&self) -> Seq<usize> {
        self.vertices@
    }
}

impl Simplex {
    /// The dimension that the simplex was built with.
    pub closed spec fn spec_dimension(&self) -> nat {
        self.dimension as nat
    }

    /// The vertices are in strictly increasing order and there is one more of
    /// them than the dimension.
    pub open spec fn wf(&self) -> bool {
        &&& strictly_increasing(self@)
        &&& self@.len() == self.spec_dimension() + 1
    }

    /// Builds the simplex of the given dimension on the given vertices, in
    /// whatever order they come. Fails unless there are `dimension + 1` of
    /// them, all distinct.
    pub fn new(dimension: usize, vertices: Vec<usize>) -> (made: Result<Simplex, TopologyError>)
        ensures
            made is Ok <==> vertices@.len() == dimension + 1 && vertices@.no_duplicates(),
            made matches Ok(s) ==> s.wf() && s.spec_dimension() == dimension && s@.to_set()
                == vertices@.to_set(),
            made matches Err(e) ==> e == TopologyError::Construction,
    {
        if vertices.len() == 0 || vertices.len() - 1 != dimension {
            return Err(TopologyError::Construction);
        }
        match sorted_distinct(&vertices) {
            Some(sorted) => Ok(Simplex { vertices: sorted, dimension }),
            None => Err(TopologyError::Construction),
        }
    }

    /// The simplex of dimension zero on one vertex.
    pub fn vertex(label: usize) -> (point: Simplex)
        ensures
            point.wf(),
            point.spec_dimension() == 0,
            point@ == seq![label],
    {
        let mut vertices: Vec<usize> = Vec::new();
        vertices.push(label);
        assert(vertices@ =~= seq![label]);
        Simplex { vertices, dimension: 0 }
    }

    /// The simplex one dimension up that has `label` as a further vertex,
    /// where `label` is larger than every vertex of this one.
    pub fn extended(&self, label: usize) -> (cone: Simplex)
        requires
            self.wf(),
            self@.last() < label,
        ensures
            cone.wf(),
            cone.spec_dimension() == self.spec_dimension() + 1,
            cone@ == self@.push(label),
    {
        let mut vertices = copied(&self.vertices);
        let generators = vertices.len();
        vertices.push(label);
        proof {
            let old_v = self.vertices@;
            assert forall|a: int, b: int| 0 <= a < b < vertices@.len() implies vertices@[a]
                < vertices@[b] by {
                if b < old_v.len() {
                    assert(old_v[a] < old_v[b]);
                } else if a < old_v.len() - 1 {
                    assert(old_v[a] < old_v[old_v.len() - 1]);
                }
            }
        }
        Simplex { vertices, dimension: generators }
    }

    /// The dimension of the simplex: one less than the number of vertices.
    pub fn dimension(&self) -> (d: usize)
        ensures
            d == self.spec_dimension(),
    {
        self.dimension
    }

    /// The vertices in increasing order: the identity of the simplex.
    pub fn vertices(&self) -> (v: &Vec<usize>)
        ensures
            v@ == self@,
    {
        &self.vertices
    }

    /// Whether both simplices span the same vertices.
    pub fn same_as(&self, other: &Simplex) -> (same: bool)
        ensures
            same == (self@ == other@),
    {
        vertices_equal(&self.vertices, &other.vertices)
    }

    /// The face that omits the vertex at `position`.
    pub fn face(&self, position: usize) -> (f: Simplex)
        requires
            self.wf(),
            self.spec_dimension() >= 1,
            position <= self.spec_dimension(),
        ensures
            f.wf(),
            f.spec_dimension() == self.spec_dimension() - 1,
            f@ == self@.remove(position as int),
    {
        let rest = without(&self.vertices, position);
        proof {
            lemma_remove_keeps_order(self.vertices@, position as int);
        }
        Simplex { vertices: rest, dimension: self.dimension - 1 }
    }

    /// The faces one dimension down, each with the sign that its position
    /// induces. A vertex has none.
    pub fn faces(&self) -> (all: Vec<(Simplex, Sign)>)
        requires
            self.wf(),
        ensures
            all@.len() == if self.spec_dimension() == 0 {
                0
            } else {
                self.spec_dimension() + 1
            },
            forall|i: int|
                0 <= i < all@.len() ==> {
                    &&& (#[trigger] all@[i]).0.wf()
                    &&& all@[i].0.spec_dimension() == self.spec_dimension() - 1
                    &&& all@[i].0@ == self@.remove(i)
                    &&& all@[i].1 == sign_at(i)
                },
    {
        let mut all: Vec<(Simplex, Sign)> = Vec::new();
        if self.dimension == 0 {
            return all;
        }
        let mut i: usize = 0;
        while i < self.vertices.len()
            invariant
                self.wf(),
                self.spec_dimension() >= 1,
                i <= self.vertices@.len(),
                all@.len() == i,
                forall|k: int|
                    0 <= k < all@.len() ==> {
                        &&& (#[trigger] all@[k]).0.wf()
                        &&& all@[k].0.spec_dimension() == self.spec_dimension() - 1
                        &&& all@[k].0@ == self@.remove(k)
                        &&& all@[k].1 == sign_at(k)
                    },
            decreases self.vertices.len() - i,
        {
            let sign = if i % 2 == 0 {
                Sign::Positive
            } else {
                Sign::Negative
            };
            let f = self.face(i);
            all.push((f, sign));
            i = i + 1;
        }
        all
    }
}

impl Clone for Simplex {
    fn clone(&self) -> (copy: Self)
        ensures
            copy@ == self@,
            copy.spec_dimension() == self.spec_dimension(),
    {
        let vertices = copied(&self.vertices);
        Simplex { vertices, dimension: self.dimension }
    }
}

/// The labels in increasing order, or nothing where a label occurs twice.
pub fn sorted_distinct(labels: &Vec<usize>) -> (sorted: Option<Vec<usize>>)
    ensures
        sorted is Some <==> labels@.no_duplicates(),
        sorted matches Some(s) ==> strictly_increasing(s@) && s@.len() == labels@.len()
            && s@.to_set() == labels@.to_set(),
{
    let mut sorted: Vec<usize> = Vec::new();
    let mut i: usize = 0;
    while i < labels.len()
        invariant
            i <= labels.len(),
            sorted@.len() == i,
            strictly_increasing(sorted@),
            sorted@.to_set() == labels@.take(i as int).to_set(),
            labels@.take(i as int).no_duplicates(),
        decreases labels.len() - i,
    {
        let v = labels[i];
        let mut at: usize = 0;
        while at < sorted.len() && sorted[at] < v
            invariant
                at <= sorted.len(),
                strictly_increasing(sorted@),
                forall|k: int| 0 <= k < at ==> sorted@[k] < v,
            decreases sorted.len() - at,
        {
            at = at + 1;
        }
        let ghost prefix = labels@.take(i as int);
        assert(labels@.take(i + 1) == prefix.push(v));
        if at < sorted.len() && sorted[at] == v {
            proof {
                assert(sorted@.to_set().contains(sorted@[at as int]));
                assert(prefix.contains(v));
                let k = choose|k: int| 0 <= k < prefix.len() && prefix[k] == v;
                assert(labels@[k] == labels@[i as int] && k != i);
            }
            return None;
        }
        let ghost before = sorted@;
        sorted.insert(at, v);
        proof {
            assert forall|a: int, b: int| 0 <= a < b < sorted@.len() implies sorted@[a]
                < sorted@[b] by {
                if a < at && b > at {
                    assert(before[a] < v && v < before[b - 1]) by {
                        assert(before[at as int] <= before[b - 1]) by {
                            if at < b - 1 {
                                assert(before[at as int] < before[b - 1]);
                            }
                        }
                    }
                } else if a < at && b < at {
                    assert(before[a] < before[b]);
                } else if a > at {
                    assert(before[a - 1] < before[b - 1]);
                } else if a == at {
                    assert(before[at as int] <= before[b - 1]) by {
                        if at < b - 1 {
                            assert(before[at as int] < before[b - 1]);
                        }
                    }
                }
            }
            assert(sorted@.to_set() =~= prefix.push(v).to_set()) by {
                assert forall|x: usize| sorted@.to_set().contains(x) <==> prefix.push(
                    v,
                ).to_set().contains(x) by {
                    if sorted@.contains(x) {
                        let k = choose|k: int| 0 <= k < sorted@.len() && sorted@[k] == x;
                        if k < at {
                            assert(before[k] == x);
                            assert(before.to_set().contains(x));
                        } else if k > at {
                            assert(before[k - 1] == x);
                            assert(before.to_set().contains(x));
                        }
                    }
                    if prefix.push(v).contains(x) {
                        if x == v {
                            assert(sorted@[at as int] == x);
                        } else {
                            assert(prefix.to_set().contains(x));
                            assert(before.contains(x));
                            let k = choose|k: int| 0 <= k < before.len() && before[k] == x;
                            if k < at {
                                assert(sorted@[k] == x);
                            } else {
                                assert(sorted@[k + 1] == x);
                            }
                        }
                    }
                }
            }
            assert(prefix.push(v).no_duplicates()) by {
                if prefix.contains(v) {
                    assert(before.to_set().contains(v));
                    let k = choose|k: int| 0 <= k < before.len() && before[k] == v;
                    if k < at {
                    } else if k > at {
                        assert(before[at as int] < before[k]);
                    }
                }
            }
        }
        i = i + 1;
    }
    assert(labels@.take(labels@.len() as int) == labels@);
    Some(sorted)
}

/// A copy of the labels.
pub fn copied(labels: &Vec<usize>) -> (copy: Vec<usize>)
    ensures
        copy@ == labels@,
{
    let mut copy: Vec<usize> = Vec::new();
    let mut i: usize = 0;
    while i < labels.len()
        invariant
            i <= labels@.len(),
            copy@ == labels@.take(i as int),
        decreases labels.len() - i,
    {
        copy.push(labels[i]);
        assert(labels@.take(i + 1) == labels@.take(i as int).push(labels@[i as int]));
        i = i + 1;
    }
    assert(labels@.take(labels@.len() as int) == labels@);
    copy
}

/// The labels without the one at `position`.
pub fn without(labels: &Vec<usize>, position: usize) -> (rest: Vec<usize>)
    requires
        position < labels@.len(),
    ensures
        rest@ == labels@.remove(position as int),
{
    let mut rest: Vec<usize> = Vec::new();
    let mut i: usize = 0;
    while i < labels.len()
        invariant
            i <= labels@.len(),
            position < labels@.len(),
            rest@ == if i <= position {
                labels@.take(i as int)
            } else {
                labels@.remove(position as int).take(i - 1)
            },
        decreases labels.len() - i,
    {
        if i != position {
            rest.push(labels[i]);
        }
        proof {
            let whole = labels@;
            let cut = whole.remove(position as int);
            if i < position {
                assert(whole.take(i + 1) == whole.take(i as int).push(whole[i as int]));
            } else if i == position {
                assert(cut.take(i as int) == whole.take(i as int));
            } else {
                assert(cut.take(i as int) == cut.take(i - 1).push(whole[i as int]));
            }
        }
        i = i + 1;
    }
    proof {
        let cut = labels@.remove(position as int);
        assert(cut.take(cut.len() as int) == cut);
    }
    rest
}

/// Whether the two lists hold the same labels in the same order.
pub fn vertices_equal(a: &Vec<usize>, b: &Vec<usize>) -> (same: bool)
    ensures
        same == (a@ == b@),
{
    if a.len() != b.len() {
        return false;
    }
    let mut i: usize = 0;
    while i < a.len()
        invariant
            i <= a.len(),
            a@.len() == b@.len(),
            forall|k: int| 0 <= k < i ==> a@[k] == b@[k],
        decreases a.len() - i,
    {
        if a[i] != b[i] {
            return false;
        }
        i = i + 1;
    }
    assert(a@ =~= b@);
    true
}

/// Omitting one entry of an increasing sequence leaves it increasing.
pub proof fn lemma_remove_keeps_order(s: Seq<usize>, position: int)
    requires
        strictly_increasing(s),
        0 <= position < s.len(),
    ensures
        strictly_increasing(s.remove(position)),
{
    let cut = s.remove(position);
    assert forall|i: int, j: int| 0 <= i < j < cut.len() implies cut[i] < cut[j] by {
        let a = if i < position { i } else { i + 1 };
        let b = if j < position { j } else { j + 1 };
        assert(s[a] < s[b]);
    }
}

} // verus!
