//! Cubes: cells of an integer grid, spanned from a corner one step along
//! each of some axes.

use vstd::prelude::*;
use crate::error::TopologyError;
use crate::simplex::{
    copied, lemma_remove_keeps_order, sign_at, sorted_distinct, strictly_increasing,
    vertices_equal, without, Sign,
};

verus! {

broadcast use {vstd::seq_lib::group_seq_properties, vstd::set::group_set_axioms};

/// A cube as plain data: the grid coordinates of its lowest corner, and the
/// axes along which it reaches one step further, in increasing order.
pub ghost struct Shape {
    pub base: Seq<usize>,
    pub axes: Seq<usize>,
}

/// The axis is one of the corner's coordinates, and the corner has room for
/// one step along it.
pub open spec fn has_room(base: Seq<usize>, axis: usize) -> bool {
    axis < base.len() && base[axis as int] < usize::MAX
}

/// The axes are in strictly increasing order and the corner has room along
/// each of them.
pub open spec fn is_cube(c: Shape) -> bool {
    &&& strictly_increasing(c.axes)
    &&& forall|i: int| 0 <= i < c.axes.len() ==> has_room(c.base, #[trigger] c.axes[i])
}

/// The face on the near side of the axis at `position`: the same corner,
/// without that axis.
pub open spec fn lower_face(c: Shape, position: int) -> Shape {
    Shape { base: c.base, axes: c.axes.remove(position) }
}

/// The face on the far side of the axis at `position`: the corner one step
/// along that axis, without that axis.
pub open spec fn upper_face(c: Shape, position: int) -> Shape {
    let axis = c.axes[position] as int;
    Shape { base: c.base.update(axis, (c.base[axis] + 1) as usize), axes: c.axes.remove(position) }
}

/// The faces in the order in which a cube lists them: axis by axis, the near
/// side before the far side.
pub open spec fn face_of(c: Shape, n: int) -> Shape {
    if n % 2 == 0 {
        lower_face(c, n / 2)
    } else {
        upper_face(c, n / 2)
    }
}

/// The sign of the `n`-th face: the far side of the axis at a position has
/// the sign of that position, the near side the opposite sign.
pub open spec fn face_sign(n: int) -> Sign {
    if n % 2 == 0 {
        sign_at(n / 2 + 1)
    } else {
        sign_at(n / 2)
    }
}

/// Each face of a cube is a cube, of one axis less.
pub proof fn lemma_face_is_cube(c: Shape, n: int)
    requires
        is_cube(c),
        0 <= n < 2 * c.axes.len(),
    ensures
        is_cube(face_of(c, n)),
        face_of(c, n).axes.len() == c.axes.len() - 1,
        face_of(c, n).base.len() == c.base.len(),
{
    let position = n / 2;
    let f = face_of(c, n);
    lemma_remove_keeps_order(c.axes, position);
    assert forall|i: int| 0 <= i < f.axes.len() implies has_room(f.base, #[trigger] f.axes[i]) by {
        let from = if i < position {
            i
        } else {
            i + 1
        };
        assert(f.axes[i] == c.axes[from]);
        assert(has_room(c.base, c.axes[from]));
        if from < position {
            assert(c.axes[from] < c.axes[position]);
        } else {
            assert(c.axes[position] < c.axes[from]);
        }
    }
}

/// The faces of a cube differ from each other.
pub proof fn lemma_cube_faces_differ(c: Shape, m: int, n: int)
    requires
        is_cube(c),
        0 <= m < n < 2 * c.axes.len(),
    ensures
        face_of(c, m) != face_of(c, n),
{
    if m / 2 == n / 2 {
        let axis = c.axes[m / 2] as int;
        assert(has_room(c.base, c.axes[m / 2]));
        assert(face_of(c, m).base[axis] == c.base[axis]);
        assert(face_of(c, n).base[axis] == c.base[axis] + 1);
    } else {
        let i = m / 2;
        let j = n / 2;
        assert(c.axes.remove(i)[i] == c.axes[i + 1]);
        assert(c.axes.remove(j)[i] == c.axes[i]);
        assert(c.axes[i] < c.axes[i + 1]);
    }
}

/// A `k`-dimensional cube of the grid: a corner and `k` distinct axes, kept
/// in increasing order so that two cubes on the same axes are equal.
#[derive(Debug)]
pub struct Cube {
    base: Vec<usize>,
    axes: Vec<usize>,
}

impl View for Cube {
    type V = Shape;

    closed spec fn view(&self) -> Shape {
        Shape { base: self.base@, axes: self.axes@ }
    }
}

impl Cube {
    /// The number of axes along which the cube extends.
    pub open spec fn spec_dimension(&self) -> nat {
        self@.axes.len()
    }

    /// The axes are in increasing order and the corner has room along each.
    pub open spec fn wf(&self) -> bool {
        is_cube(self@)
    }

    /// Builds the cube of the given dimension from its lowest corner and the
    /// axes along which it extends, in whatever order they come. Fails unless
    /// there are `dimension` axes, all distinct, and the corner has room
    /// along each of them.
    pub fn new(dimension: usize, base: Vec<usize>, axes: Vec<usize>) -> (made: Result<
        Cube,
        TopologyError,
    >)
        ensures
            made is Ok <==> axes@.len() == dimension && axes@.no_duplicates() && forall|i: int|
                0 <= i < axes@.len() ==> has_room(base@, #[trigger] axes@[i]),
            made matches Ok(c) ==> c.wf() && c.spec_dimension() == dimension && c@.base == base@
                && c@.axes.to_set() == axes@.to_set(),
            made matches Err(e) ==> e == TopologyError::Construction,
    {
        if axes.len() != dimension {
            return Err(TopologyError::Construction);
        }
        let mut i: usize = 0;
        while i < axes.len()
            invariant
                i <= axes@.len(),
                forall|j: int| 0 <= j < i ==> has_room(base@, #[trigger] axes@[j]),
            decreases axes.len() - i,
        {
            let axis = axes[i];
            if axis >= base.len() || base[axis] == usize::MAX {
                return Err(TopologyError::Construction);
            }
            i = i + 1;
        }
        match sorted_distinct(&axes) {
            Some(sorted) => {
                proof {
                    assert forall|j: int| 0 <= j < sorted@.len() implies has_room(
                        base@,
                        #[trigger] sorted@[j],
                    ) by {
                        assert(sorted@.to_set().contains(sorted@[j]));
                        assert(axes@.contains(sorted@[j]));
                    }
                }
                Ok(Cube { base, axes: sorted })
            },
            None => Err(TopologyError::Construction),
        }
    }

    /// The cube of dimension zero at one grid point.
    pub fn point(base: Vec<usize>) -> (corner: Cube)
        ensures
            corner.wf(),
            corner.spec_dimension() == 0,
            corner@.base == base@,
    {
        Cube { base, axes: Vec::new() }
    }

    /// The dimension of the cube: the number of its axes.
    pub fn dimension(&self) -> (d: usize)
        ensures
            d == self.spec_dimension(),
    {
        self.axes.len()
    }

    /// The grid coordinates of the lowest corner.
    pub fn base(&self) -> (b: &Vec<usize>)
        ensures
            b@ == self@.base,
    {
        &self.base
    }

    /// The axes along which the cube extends, in increasing order.
    pub fn axes(&self) -> (a: &Vec<usize>)
        ensures
            a@ == self@.axes,
    {
        &self.axes
    }

    /// Whether both cubes have the same corner and the same axes.
    pub fn same_as(&self, other: &Cube) -> (same: bool)
        ensures
            same == (self@ == other@),
    {
        vertices_equal(&self.base, &other.base) && vertices_equal(&self.axes, &other.axes)
    }

    /// The face on the near side of the axis at `position`.
    pub fn lower(&self, position: usize) -> (f: Cube)
        requires
            self.wf(),
            position < self.spec_dimension(),
        ensures
            f.wf(),
            f@ == lower_face(self@, position as int),
    {
        proof {
            lemma_face_is_cube(self@, 2 * position);
        }
        Cube { base: copied(&self.base), axes: without(&self.axes, position) }
    }

    /// The face on the far side of the axis at `position`.
    pub fn upper(&self, position: usize) -> (f: Cube)
        requires
            self.wf(),
            position < self.spec_dimension(),
        ensures
            f.wf(),
            f@ == upper_face(self@, position as int),
    {
        proof {
            lemma_face_is_cube(self@, 2 * position + 1);
        }
        let axis = self.axes[position];
        assert(has_room(self@.base, self@.axes[position as int]));
        let mut base = copied(&self.base);
        let moved = base[axis] + 1;
        base.set(axis, moved);
        Cube { base, axes: without(&self.axes, position) }
    }

    /// The faces one dimension down, axis by axis, the near side before the
    /// far side, each with its sign. A point has none.
    pub fn faces(&self) -> (all: Vec<(Cube, Sign)>)
        requires
            self.wf(),
        ensures
            all@.len() == 2 * self.spec_dimension(),
            forall|n: int|
                0 <= n < all@.len() ==> {
                    &&& (#[trigger] all@[n]).0.wf()
                    &&& all@[n].0@ == face_of(self@, n)
                    &&& all@[n].1 == face_sign(n)
                },
    {
        let mut all: Vec<(Cube, Sign)> = Vec::new();
        let mut i: usize = 0;
        while i < self.axes.len()
            invariant
                self.wf(),
                i <= self.axes@.len(),
                self.axes@ == self@.axes,
                all@.len() == 2 * i,
                forall|n: int|
                    0 <= n < all@.len() ==> {
                        &&& (#[trigger] all@[n]).0.wf()
                        &&& all@[n].0@ == face_of(self@, n)
                        &&& all@[n].1 == face_sign(n)
                    },
            decreases self.axes.len() - i,
        {
            let (near, far) = if i % 2 == 0 {
                (Sign::Negative, Sign::Positive)
            } else {
                (Sign::Positive, Sign::Negative)
            };
            let low = self.lower(i);
            let high = self.upper(i);
            all.push((low, near));
            all.push((high, far));
            i = i + 1;
        }
        all
    }
}

impl Clone for Cube {
    fn clone(&self) -> (copy: Self)
        ensures
            copy@ == self@,
    {
        Cube { base: copied(&self.base), axes: copied(&self.axes) }
    }
}

} // verus!
