//! Cubical complexes: face-closed collections of grid cubes, each with a
//! stable handle within its dimension.

use vstd::prelude::*;
use crate::complex::{extends, lemma_extends_transitive, level, padded};
use crate::cube::{face_of, face_sign, is_cube, lemma_face_is_cube, Cube, Shape};
use crate::error::TopologyError;
use crate::simplex::Sign;

verus! {

broadcast use vstd::seq_lib::group_seq_properties;

/// The cubes of a complex as plain data: for each dimension, its cubes in
/// the order of their handles.
pub type CubeTable = Seq<Seq<Shape>>;

/// The table lists the cube `c`.
pub open spec fn lists(k: CubeTable, c: Shape) -> bool {
    level(k, c.axes.len() as int).contains(c)
}

/// Every listed cell is a cube of the dimension it is listed under, no cube
/// is listed twice, and every face of a listed cube is listed.
pub open spec fn cubical_wf(k: CubeTable) -> bool {
    &&& forall|d: int, i: int|
        0 <= d < k.len() && 0 <= i < k[d].len() ==> is_cube(#[trigger] k[d][i])
            && k[d][i].axes.len() == d
    &&& forall|d: int| 0 <= d < k.len() ==> (#[trigger] k[d]).no_duplicates()
    &&& forall|d: int, i: int, n: int|
        1 <= d < k.len() && 0 <= i < k[d].len() && 0 <= n < 2 * d ==> k[d - 1].contains(
            #[trigger] face_of(k[d][i], n),
        )
}

/// The table with `c` listed last in its dimension.
pub open spec fn append_cube(k: CubeTable, c: Shape) -> CubeTable {
    let d = c.axes.len() as int;
    let wide = padded(k, d);
    wide.update(d, wide[d].push(c))
}

/// The table after the first `n` faces of `c` have been joined, in the
/// order in which the cube lists them.
pub open spec fn join_cube_faces(k: CubeTable, c: Shape, n: nat) -> CubeTable
    decreases c.axes.len(), n,
{
    if n == 0 || n > 2 * c.axes.len() {
        k
    } else {
        spec_join_cube(join_cube_faces(k, c, (n - 1) as nat), face_of(c, n - 1))
    }
}

/// The table after `c` has been joined: unchanged where `c` is listed
/// already; else its missing faces are joined first, each recursively, and
/// `c` is listed after them.
pub open spec fn spec_join_cube(k: CubeTable, c: Shape) -> CubeTable
    decreases c.axes.len(), 2 * c.axes.len() + 1,
{
    if lists(k, c) {
        k
    } else {
        append_cube(join_cube_faces(k, c, 2 * c.axes.len()), c)
    }
}

/// Listing a new cube whose faces are all listed keeps the table well
/// formed and every handle in place.
pub proof fn lemma_append_cube(k: CubeTable, c: Shape)
    requires
        cubical_wf(k),
        is_cube(c),
        !lists(k, c),
        forall|n: int| 0 <= n < 2 * c.axes.len() ==> lists(k, #[trigger] face_of(c, n)),
    ensures
        cubical_wf(append_cube(k, c)),
        extends(k, append_cube(k, c)),
        lists(append_cube(k, c), c),
        forall|j: int| j != c.axes.len() ==> level(append_cube(k, c), j) == level(k, j),
        level(append_cube(k, c), c.axes.len() as int) == level(k, c.axes.len() as int).push(c),
{
    let d = c.axes.len() as int;
    let wide = padded(k, d);
    let r = append_cube(k, c);
    assert(forall|j: int| 0 <= j < k.len() ==> wide[j] == k[j]);
    assert(forall|j: int| k.len() <= j < wide.len() ==> wide[j] == Seq::<Shape>::empty());
    assert(forall|j: int| 0 <= j < r.len() && j != d ==> r[j] == wide[j]);
    assert(r[d] == wide[d].push(c));
    assert(wide[d] == level(k, d));
    assert(r[d][r[d].len() - 1] == c);
    assert forall|a: int, i: int| 0 <= a < r.len() && 0 <= i < r[a].len() implies is_cube(
        #[trigger] r[a][i],
    ) && r[a][i].axes.len() == a by {
        if a == d && i == r[d].len() - 1 {
        } else {
            assert(r[a][i] == k[a][i]);
        }
    }
    assert forall|a: int| 0 <= a < r.len() implies (#[trigger] r[a]).no_duplicates() by {
        if a == d {
            assert(!wide[d].contains(c));
        } else if a < k.len() {
            assert(r[a] == k[a]);
        }
    }
    assert forall|a: int, i: int, n: int|
        1 <= a < r.len() && 0 <= i < r[a].len() && 0 <= n < 2 * a implies r[a - 1].contains(
        #[trigger] face_of(r[a][i], n),
    ) by {
        if a == d && i == r[d].len() - 1 {
            lemma_face_is_cube(c, n);
            assert(lists(k, face_of(c, n)));
            assert(k[d - 1].contains(face_of(c, n)));
            assert(r[d - 1] == k[d - 1]);
        } else {
            assert(r[a][i] == k[a][i]);
            assert(k[a - 1].contains(face_of(k[a][i], n)));
            if a - 1 == d {
                let w = choose|w: int| 0 <= w < k[d].len() && k[d][w] == face_of(k[a][i], n);
                assert(r[d][w] == face_of(k[a][i], n));
            } else {
                assert(r[a - 1] == k[a - 1]);
            }
        }
    }
    assert forall|j: int| j != d implies level(r, j) == level(k, j) by {
        if 0 <= j < r.len() {
            if j < k.len() {
            } else {
                assert(r[j] =~= Seq::<Shape>::empty());
            }
        }
    }
}

/// Joining a cube keeps the table well formed and every handle in place,
/// lists the cube, and touches no higher dimension.
pub proof fn lemma_join_cube(k: CubeTable, c: Shape)
    requires
        cubical_wf(k),
        is_cube(c),
    ensures
        cubical_wf(spec_join_cube(k, c)),
        extends(k, spec_join_cube(k, c)),
        lists(spec_join_cube(k, c), c),
        forall|j: int| j > c.axes.len() ==> level(spec_join_cube(k, c), j) == level(k, j),
    decreases c.axes.len(), 2 * c.axes.len() + 1,
{
    if !lists(k, c) {
        let mid = join_cube_faces(k, c, 2 * c.axes.len());
        lemma_join_cube_faces(k, c, 2 * c.axes.len());
        assert(level(mid, c.axes.len() as int) == level(k, c.axes.len() as int));
        lemma_append_cube(mid, c);
        lemma_extends_transitive(k, mid, append_cube(mid, c));
    }
}

/// Joining the first `n` faces of a cube keeps the table well formed and
/// every handle in place, lists those faces, and touches no dimension from
/// that of the cube up.
pub proof fn lemma_join_cube_faces(k: CubeTable, c: Shape, n: nat)
    requires
        cubical_wf(k),
        is_cube(c),
        n <= 2 * c.axes.len(),
    ensures
        cubical_wf(join_cube_faces(k, c, n)),
        extends(k, join_cube_faces(k, c, n)),
        forall|m: int| 0 <= m < n ==> lists(join_cube_faces(k, c, n), #[trigger] face_of(c, m)),
        forall|j: int| j >= c.axes.len() ==> level(join_cube_faces(k, c, n), j) == level(k, j),
    decreases c.axes.len(), n,
{
    if n > 0 {
        let before = join_cube_faces(k, c, (n - 1) as nat);
        lemma_join_cube_faces(k, c, (n - 1) as nat);
        let f = face_of(c, n - 1);
        lemma_face_is_cube(c, n - 1);
        lemma_join_cube(before, f);
        let r = spec_join_cube(before, f);
        lemma_extends_transitive(k, before, r);
        assert forall|m: int| 0 <= m < n implies lists(r, #[trigger] face_of(c, m)) by {
            if m < n - 1 {
                lemma_face_is_cube(c, m);
                lemma_extends_lists(before, r, face_of(c, m));
            }
        }
    }
}

/// A cube stays listed when the table is extended.
pub proof fn lemma_extends_lists(k: CubeTable, r: CubeTable, c: Shape)
    requires
        extends(k, r),
        lists(k, c),
    ensures
        lists(r, c),
{
    let d = c.axes.len() as int;
    let i = choose|i: int| 0 <= i < k[d].len() && k[d][i] == c;
    assert(r[d][i] == c);
    assert(k[d].len() <= r[d].len());
}

/// Joining a cube a second time changes nothing.
pub proof fn lemma_join_cube_idempotent(k: CubeTable, c: Shape)
    requires
        cubical_wf(k),
        is_cube(c),
    ensures
        spec_join_cube(spec_join_cube(k, c), c) == spec_join_cube(k, c),
{
    lemma_join_cube(k, c);
}

/// The list names the faces of the cube under `handle` in dimension `d`, in
/// the order in which the cube lists them: each by its handle one dimension
/// down and with its sign. A point has none.
pub open spec fn lists_cube_faces(k: CubeTable, d: int, handle: int, list: Seq<(usize, Sign)>) -> bool {
    &&& list.len() == 2 * d
    &&& forall|n: int|
        0 <= n < list.len() ==> {
            &&& (#[trigger] list[n]).0 < k[d - 1].len()
            &&& k[d - 1][list[n].0 as int] == face_of(k[d][handle], n)
            &&& list[n].1 == face_sign(n)
        }
}

/// A cubical complex. The handle of a cube is its position among the cubes
/// of its dimension, in the order in which they were first joined.
pub struct CubicalComplex {
    cells: Vec<Vec<Cube>>,
}

impl View for CubicalComplex {
    type V = CubeTable;

    closed spec fn view(&self) -> CubeTable {
        Seq::new(
            self.cells@.len(),
            |d: int| Seq::new(self.cells@[d]@.len(), |i: int| self.cells@[d]@[i]@),
        )
    }
}

impl CubicalComplex {
    /// The complex is face-closed and lists no cube twice.
    pub open spec fn wf(&self) -> bool {
        cubical_wf(self@)
    }

    /// The complex without cells.
    pub fn new() -> (complex: Self)
        ensures
            complex.wf(),
            complex@ == CubeTable::empty(),
    {
        let complex = CubicalComplex { cells: Vec::new() };
        assert(complex@ =~= CubeTable::empty());
        complex
    }

    /// The number of dimensions that the complex has storage for: one more
    /// than the highest dimension that ever held a cube, zero when empty.
    pub fn levels(&self) -> (n: usize)
        ensures
            n == self@.len(),
    {
        self.cells.len()
    }

    /// The number of cubes of the given dimension.
    pub fn count(&self, dimension: usize) -> (n: usize)
        ensures
            n == level(self@, dimension as int).len(),
    {
        if dimension < self.cells.len() {
            self.cells[dimension].len()
        } else {
            0
        }
    }

    /// The handles of the cubes of the given dimension, in insertion order.
    pub fn cells(&self, dimension: usize) -> (handles: Vec<usize>)
        ensures
            handles@.len() == level(self@, dimension as int).len(),
            forall|i: int| 0 <= i < handles@.len() ==> handles@[i] == i,
    {
        let n = self.count(dimension);
        let mut handles: Vec<usize> = Vec::new();
        let mut i: usize = 0;
        while i < n
            invariant
                i <= n,
                handles@.len() == i,
                forall|j: int| 0 <= j < i ==> handles@[j] == j,
            decreases n - i,
        {
            handles.push(i);
            i = i + 1;
        }
        handles
    }

    /// The cube behind a handle, or a lookup failure where the complex has no
    /// such handle in that dimension.
    pub fn cell(&self, dimension: usize, handle: usize) -> (found: Result<&Cube, TopologyError>)
        requires
            self.wf(),
        ensures
            found is Ok <==> handle < level(self@, dimension as int).len(),
            found matches Ok(c) ==> c@ == self@[dimension as int][handle as int] && c.wf()
                && c.spec_dimension() == dimension,
            found matches Err(e) ==> e == TopologyError::Lookup,
    {
        if dimension < self.cells.len() && handle < self.cells[dimension].len() {
            let found = &self.cells[dimension][handle];
            assert(found@ == self@[dimension as int][handle as int]);
            Ok(found)
        } else {
            Err(TopologyError::Lookup)
        }
    }

    /// The handle under which the complex lists `cell`, if it does.
    pub fn handle_of(&self, cell: &Cube) -> (handle: Option<usize>)
        ensures
            handle is Some <==> lists(self@, cell@),
            handle matches Some(h) ==> h < level(self@, cell.spec_dimension() as int).len()
                && self@[cell.spec_dimension() as int][h as int] == cell@,
    {
        let d = cell.dimension();
        if d >= self.cells.len() {
            return None;
        }
        let row = &self.cells[d];
        let mut i: usize = 0;
        while i < row.len()
            invariant
                i <= row@.len(),
                d < self.cells@.len(),
                row == self.cells@[d as int],
                cell.spec_dimension() == d,
                forall|j: int| 0 <= j < i ==> self@[d as int][j] != cell@,
            decreases row.len() - i,
        {
            if row[i].same_as(cell) {
                assert(self@[d as int][i as int] == cell@);
                return Some(i);
            }
            i = i + 1;
        }
        None
    }

    /// Whether the complex lists `cell`.
    pub fn contains(&self, cell: &Cube) -> (listed: bool)
        ensures
            listed == lists(self@, cell@),
    {
        self.handle_of(cell).is_some()
    }

    /// Whether the complex has a cube of that dimension under that handle.
    pub fn contains_handle(&self, dimension: usize, handle: usize) -> (listed: bool)
        ensures
            listed == (handle < level(self@, dimension as int).len()),
    {
        handle < self.count(dimension)
    }

    /// Lists `cell` last in its dimension.
    fn append(&mut self, cell: Cube) -> (handle: usize)
        ensures
            final(self)@ == append_cube(old(self)@, cell@),
            handle == level(old(self)@, cell@.axes.len() as int).len(),
    {
        let d = cell.dimension();
        while self.cells.len() <= d
            invariant
                self@ == padded(old(self)@, self.cells@.len() - 1),
                old(self)@.len() <= self.cells@.len(),
                self.cells@.len() > old(self)@.len() ==> self.cells@.len() <= d + 1,
            decreases d + 1 - self.cells.len(),
        {
            let ghost before = self@;
            self.cells.push(Vec::new());
            assert(self@ =~= padded(old(self)@, self.cells@.len() - 1)) by {
                assert(self@.len() == before.len() + 1);
                assert forall|j: int| 0 <= j < self@.len() implies self@[j] == padded(
                    old(self)@,
                    self.cells@.len() - 1,
                )[j] by {
                    if j < before.len() {
                        assert(self@[j] =~= before[j]);
                    } else {
                        assert(self@[j] =~= Seq::<Shape>::empty());
                    }
                }
            }
        }
        assert(self@ == padded(old(self)@, d as int));
        let ghost wide = self@;
        let ghost stored = self.cells@;
        let handle = self.cells[d].len();
        self.cells[d].push(cell);
        proof {
            assert(self.cells@.len() == stored.len());
            assert(forall|j: int| 0 <= j < stored.len() && j != d ==> self.cells@[j] == stored[j]);
            assert(self.cells@[d as int]@ == stored[d as int]@.push(cell));
            assert(self@ =~= wide.update(d as int, wide[d as int].push(cell@))) by {
                assert forall|j: int| 0 <= j < self@.len() implies self@[j] == wide.update(
                    d as int,
                    wide[d as int].push(cell@),
                )[j] by {
                    if j == d {
                        assert(self@[j] =~= wide[d as int].push(cell@));
                    } else {
                        assert(self@[j] =~= wide[j]);
                    }
                }
            }
        }
        handle
    }

    /// Inserts the cube and, recursively, its missing faces, each under a
    /// new handle; a cube that is listed already keeps its handle and leaves
    /// the complex as it was. Returns the handle of the cube.
    pub fn join_element(&mut self, cell: Cube) -> (handle: usize)
        requires
            old(self).wf(),
            cell.wf(),
        ensures
            final(self).wf(),
            final(self)@ == spec_join_cube(old(self)@, cell@),
            handle < level(final(self)@, cell.spec_dimension() as int).len(),
            final(self)@[cell.spec_dimension() as int][handle as int] == cell@,
        decreases cell.spec_dimension(),
    {
        proof {
            lemma_join_cube(self@, cell@);
        }
        match self.handle_of(&cell) {
            Some(h) => {
                return h;
            },
            None => {},
        }
        let d = cell.dimension();
        let mut position: usize = 0;
        while position < d
            invariant
                position <= d,
                d == cell.spec_dimension(),
                cell.wf(),
                old(self).wf(),
                self.wf(),
                self@ == join_cube_faces(old(self)@, cell@, 2 * position as nat),
            decreases d - position,
        {
            let ghost n = 2 * position as nat;
            let near = cell.lower(position);
            proof {
                lemma_join_cube_faces(old(self)@, cell@, n);
                assert(near@ == face_of(cell@, n as int));
            }
            self.join_element(near);
            let far = cell.upper(position);
            proof {
                lemma_join_cube_faces(old(self)@, cell@, n + 1);
                assert(far@ == face_of(cell@, n as int + 1));
            }
            self.join_element(far);
            position = position + 1;
        }
        proof {
            lemma_join_cube_faces(old(self)@, cell@, 2 * cell@.axes.len());
            assert(level(self@, d as int) == level(old(self)@, d as int));
            lemma_append_cube(self@, cell@);
        }
        let handle = self.append(cell);
        handle
    }

    /// The faces of the cube behind a handle, each as its own handle one
    /// dimension down and its sign. A point has none. Fails where the
    /// complex has no such handle.
    pub fn boundary(&self, dimension: usize, handle: usize) -> (faces: Result<
        Vec<(usize, Sign)>,
        TopologyError,
    >)
        requires
            self.wf(),
        ensures
            faces is Ok <==> handle < level(self@, dimension as int).len(),
            faces matches Err(e) ==> e == TopologyError::Lookup,
            faces matches Ok(list) ==> lists_cube_faces(
                self@,
                dimension as int,
                handle as int,
                list@,
            ),
    {
        if dimension < self.cells.len() && handle < self.cells[dimension].len() {
            Ok(self.face_handles(dimension, handle))
        } else {
            Err(TopologyError::Lookup)
        }
    }

    /// The faces of the cube behind a handle that the complex has, each as
    /// its own handle one dimension down and its sign.
    pub fn face_handles(&self, dimension: usize, handle: usize) -> (list: Vec<(usize, Sign)>)
        requires
            self.wf(),
            handle < level(self@, dimension as int).len(),
        ensures
            lists_cube_faces(self@, dimension as int, handle as int, list@),
    {
        let cell = &self.cells[dimension][handle];
        assert(cell@ == self@[dimension as int][handle as int]);
        let parts = cell.faces();
        let mut list: Vec<(usize, Sign)> = Vec::new();
        let mut n: usize = 0;
        while n < parts.len()
            invariant
                self.wf(),
                n <= parts@.len(),
                dimension < self.cells@.len(),
                handle < self.cells@[dimension as int]@.len(),
                cell@ == self@[dimension as int][handle as int],
                parts@.len() == 2 * dimension,
                forall|m: int|
                    0 <= m < parts@.len() ==> {
                        &&& (#[trigger] parts@[m]).0@ == face_of(cell@, m)
                        &&& parts@[m].1 == face_sign(m)
                    },
                list@.len() == n,
                forall|m: int|
                    0 <= m < n ==> {
                        &&& (#[trigger] list@[m]).0 < self@[dimension - 1].len()
                        &&& self@[dimension - 1][list@[m].0 as int] == face_of(cell@, m)
                        &&& list@[m].1 == face_sign(m)
                    },
            decreases parts.len() - n,
        {
            let found = self.handle_of(&parts[n].0);
            proof {
                lemma_face_is_cube(cell@, n as int);
                assert(self@[dimension - 1].contains(
                    face_of(self@[dimension as int][handle as int], n as int),
                ));
            }
            list.push((found.unwrap(), parts[n].1));
            n = n + 1;
        }
        list
    }
}

} // verus!
