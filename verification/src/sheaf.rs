//! Cellular sheaves on a simplicial complex: a linear map for some of the
//! pairs of a cell and a cell that it is a face of. The stalk of a cell is
//! as wide as the maps out of it and as tall as the maps into it.

use vstd::prelude::*;
use crate::chain_laws::{incidence, lemma_incidence_of_face, lemma_incidence_of_stranger};
use crate::complex::{level, table_wf, SimplicialComplex};
use crate::error::TopologyError;
use crate::matrix::{dot, Matrix};
use crate::rings::{Field, Ring};
use crate::simplex::Sign;

verus! {

/// The restriction map from the cell `parent` of the given dimension to the
/// cell `child` one dimension up.
pub struct Restriction<F: Field> {
    pub dimension: usize,
    pub parent: usize,
    pub child: usize,
    pub map: Matrix<F>,
}

/// A vector for some of the cells of a complex: each entry names a cell by
/// its dimension and handle. Where a cell is named twice, the first entry
/// counts.
pub struct Assignment<F: Field> {
    pub entries: Vec<(usize, usize, Vec<F>)>,
}

/// A sheaf: a complex with restriction maps.
pub struct Sheaf<F: Field> {
    complex: SimplicialComplex,
    restrictions: Vec<Restriction<F>>,
}

/// The first entry from `from` on that names the cell, if there is one.
pub open spec fn entry_of<F: Field>(
    entries: Seq<(usize, usize, Vec<F>)>,
    dimension: usize,
    handle: usize,
    from: nat,
) -> Option<int>
    decreases entries.len() - from,
{
    if from >= entries.len() {
        None
    } else if entries[from as int].0 == dimension && entries[from as int].1 == handle {
        Some(from as int)
    } else {
        entry_of(entries, dimension, handle, from + 1)
    }
}

/// The vector that the assignment gives to the cell, if it gives one.
pub open spec fn assigned<F: Field>(
    entries: Seq<(usize, usize, Vec<F>)>,
    dimension: usize,
    handle: usize,
) -> Option<Seq<F>> {
    match entry_of(entries, dimension, handle, 0) {
        Some(i) => Some(entries[i].2@),
        None => None,
    }
}

/// The image of the vector under the matrix with the given rows.
pub open spec fn image<F: Field>(rows: Seq<Seq<F>>, v: Seq<F>) -> Seq<F> {
    Seq::new(rows.len(), |i: int| dot(rows[i], v))
}

/// The size of the stalk of a cell as the restrictions from `from` on give
/// it: the width of the first map out of the cell or the height of the first
/// map into it, zero where no map touches the cell.
pub open spec fn stalk_from<F: Field>(
    restrictions: Seq<Restriction<F>>,
    dimension: int,
    handle: usize,
    from: nat,
) -> nat
    decreases restrictions.len() - from,
{
    if from >= restrictions.len() {
        0
    } else {
        let r = restrictions[from as int];
        if r.dimension == dimension && r.parent == handle {
            r.map.spec_cols()
        } else if r.dimension + 1 == dimension && r.child == handle {
            r.map.spec_rows()
        } else {
            stalk_from(restrictions, dimension, handle, from + 1)
        }
    }
}

/// The size of the stalk of a cell.
pub open spec fn stalk<F: Field>(
    restrictions: Seq<Restriction<F>>,
    dimension: int,
    handle: usize,
) -> nat {
    stalk_from(restrictions, dimension, handle, 0)
}

/// The sum of the sizes.
pub open spec fn total(sizes: Seq<usize>) -> nat
    decreases sizes.len(),
{
    if sizes.len() == 0 {
        0
    } else {
        total(sizes.drop_last()) + sizes.last() as nat
    }
}

/// Where the index `i` falls when blocks of the given sizes are laid end to
/// end, counting blocks from `block` on: the block and the place within it.
pub open spec fn locate(sizes: Seq<usize>, i: int, block: nat) -> (int, int)
    decreases sizes.len() - block,
{
    if block >= sizes.len() || i < sizes[block as int] {
        (block as int, i)
    } else {
        locate(sizes, i - sizes[block as int], block + 1)
    }
}

/// The first restriction from `from` on that goes from the cell `parent` of
/// the given dimension to the cell `child`, if there is one.
pub open spec fn map_between<F: Field>(
    restrictions: Seq<Restriction<F>>,
    dimension: int,
    parent: int,
    child: int,
    from: nat,
) -> Option<int>
    decreases restrictions.len() - from,
{
    if from >= restrictions.len() {
        None
    } else {
        let r = restrictions[from as int];
        if r.dimension == dimension && r.parent == parent && r.child == child {
            Some(from as int)
        } else {
            map_between(restrictions, dimension, parent, child, from + 1)
        }
    }
}

/// The entry of the coboundary matrix of the given dimension at `row` and
/// `column`: the columns are the stalks of the cells of that dimension laid
/// end to end, the rows those of the cells one dimension up, and the block
/// of a pair of cells is their restriction map times their incidence
/// number, zero where the pair has no map.
pub open spec fn coboundary_entry<F: Field>(
    complex: SimplicialComplex,
    restrictions: Seq<Restriction<F>>,
    below: Seq<usize>,
    above: Seq<usize>,
    dimension: int,
    row: int,
    column: int,
) -> F {
    let (child, i) = locate(above, row, 0);
    let (parent, j) = locate(below, column, 0);
    match map_between(restrictions, dimension, parent, child, 0) {
        Some(x) => incidence::<F>(
            level(complex@, dimension + 1)[child],
            level(complex@, dimension)[parent],
        ).spec_mul(restrictions[x].map@[i][j]),
        None => F::spec_zero(),
    }
}

/// The sizes of the stalks of the cells of the given dimension, by handle.
pub open spec fn stalk_sizes<F: Field>(
    complex: SimplicialComplex,
    restrictions: Seq<Restriction<F>>,
    dimension: int,
) -> Seq<usize> {
    Seq::new(
        level(complex@, dimension).len(),
        |h: int| stalk(restrictions, dimension, h as usize) as usize,
    )
}

/// An index below the total falls into a block and within its size.
pub proof fn lemma_locate(sizes: Seq<usize>, i: int, block: nat)
    requires
        block <= sizes.len(),
        0 <= i < total(sizes.subrange(block as int, sizes.len() as int)),
    ensures
        block <= locate(sizes, i, block).0 < sizes.len(),
        0 <= locate(sizes, i, block).1 < sizes[locate(sizes, i, block).0],
    decreases sizes.len() - block,
{
    let rest = sizes.subrange(block as int, sizes.len() as int);
    if block >= sizes.len() {
        assert(rest.len() == 0);
    } else {
        lemma_total_front(rest);
        assert(rest.subrange(1, rest.len() as int) =~= sizes.subrange(
            block as int + 1,
            sizes.len() as int,
        ));
        if i >= sizes[block as int] {
            lemma_locate(sizes, i - sizes[block as int], block + 1);
        }
    }
}

/// The total is the first size plus the total of the rest.
pub proof fn lemma_total_front(sizes: Seq<usize>)
    requires
        sizes.len() > 0,
    ensures
        total(sizes) == sizes[0] + total(sizes.subrange(1, sizes.len() as int)),
    decreases sizes.len(),
{
    let rest = sizes.subrange(1, sizes.len() as int);
    if sizes.len() == 1 {
        assert(sizes.drop_last().len() == 0);
        assert(rest.len() == 0);
        assert(total(sizes.drop_last()) == 0);
        assert(total(rest) == 0);
        assert(sizes.last() == sizes[0]);
    } else {
        lemma_total_front(sizes.drop_last());
        assert(sizes.drop_last().subrange(1, sizes.len() - 1) =~= rest.drop_last());
        assert(rest.last() == sizes.last());
        assert(sizes.drop_last()[0] == sizes[0]);
        assert(total(rest) == total(rest.drop_last()) + rest.last());
        assert(total(sizes) == total(sizes.drop_last()) + sizes.last());
    }
}

/// What `map_between` finds is a restriction between the two cells.
pub proof fn lemma_map_between<F: Field>(
    restrictions: Seq<Restriction<F>>,
    dimension: int,
    parent: int,
    child: int,
    from: nat,
)
    ensures
        match map_between(restrictions, dimension, parent, child, from) {
            Some(x) => from <= x < restrictions.len() && restrictions[x].dimension == dimension
                && restrictions[x].parent == parent && restrictions[x].child == child,
            None => true,
        },
    decreases restrictions.len() - from,
{
    if from < restrictions.len() {
        lemma_map_between(restrictions, dimension, parent, child, from + 1);
    }
}

/// In a well-shaped family the stalks of the two cells of a restriction are
/// as wide and as tall as its map.
pub proof fn lemma_stalks_fit<F: Field>(
    complex: SimplicialComplex,
    restrictions: Seq<Restriction<F>>,
    x: int,
    from: nat,
)
    requires
        well_shaped(complex, restrictions),
        0 <= x < restrictions.len(),
        from <= x,
    ensures
        stalk_from(restrictions, restrictions[x].dimension as int, restrictions[x].parent, from)
            == restrictions[x].map.spec_cols(),
        stalk_from(restrictions, restrictions[x].dimension + 1, restrictions[x].child, from)
            == restrictions[x].map.spec_rows(),
    decreases x - from,
{
    let r = restrictions[x];
    if from < x {
        let y = restrictions[from as int];
        assert(compatible(y, r));
        lemma_stalks_fit(complex, restrictions, x, from + 1);
    }
}

/// Both cells of the restriction are cells of the complex.
pub open spec fn present<F: Field>(complex: SimplicialComplex, r: Restriction<F>) -> bool {
    &&& r.parent < level(complex@, r.dimension as int).len()
    &&& r.child < level(complex@, r.dimension + 1).len()
}

/// The parent of the restriction is a face of its child.
pub open spec fn joins_face<F: Field>(complex: SimplicialComplex, r: Restriction<F>) -> bool {
    exists|p: int|
        0 <= p <= r.dimension + 1 && #[trigger] level(complex@, r.dimension + 1)[r.child as int].remove(
            p,
        ) == level(complex@, r.dimension as int)[r.parent as int]
}

/// The two restrictions are not on the same pair of cells, and their maps
/// agree on the size of the stalk of every cell that they share.
pub open spec fn compatible<F: Field>(a: Restriction<F>, b: Restriction<F>) -> bool {
    &&& !(a.dimension == b.dimension && a.parent == b.parent && a.child == b.child)
    &&& a.dimension == b.dimension && a.parent == b.parent ==> a.map.spec_cols()
        == b.map.spec_cols()
    &&& a.dimension == b.dimension && a.child == b.child ==> a.map.spec_rows()
        == b.map.spec_rows()
    &&& a.dimension == b.dimension + 1 && a.parent == b.child ==> a.map.spec_cols()
        == b.map.spec_rows()
    &&& b.dimension == a.dimension + 1 && b.parent == a.child ==> b.map.spec_cols()
        == a.map.spec_rows()
}

/// Every restriction goes from a face to its coface, and the maps are
/// well-formed matrices of compatible shapes.
pub open spec fn well_shaped<F: Field>(
    complex: SimplicialComplex,
    restrictions: Seq<Restriction<F>>,
) -> bool {
    &&& forall|i: int|
        0 <= i < restrictions.len() ==> (#[trigger] restrictions[i]).map.wf() && joins_face(
            complex,
            restrictions[i],
        )
    &&& forall|i: int, j: int|
        0 <= i < j < restrictions.len() ==> compatible(
            #[trigger] restrictions[i],
            #[trigger] restrictions[j],
        )
}

/// The assignment satisfies the restriction: the map takes the vector of the
/// parent to the vector of the child.
pub open spec fn respects<F: Field>(
    entries: Seq<(usize, usize, Vec<F>)>,
    r: Restriction<F>,
) -> bool {
    let d = r.dimension;
    let up = (d + 1) as usize;
    assigned(entries, d, r.parent) is Some && assigned(entries, up, r.child) is Some && image(
        r.map@,
        assigned(entries, d, r.parent)->0,
    ) == assigned(entries, up, r.child)->0
}

/// The assignment has a vector for both cells of the restriction.
pub open spec fn covers<F: Field>(entries: Seq<(usize, usize, Vec<F>)>, r: Restriction<F>) -> bool {
    assigned(entries, r.dimension, r.parent) is Some && assigned(
        entries,
        (r.dimension + 1) as usize,
        r.child,
    ) is Some
}

/// The vectors of both cells of the restriction are as long as the map is
/// wide and tall.
pub open spec fn fits<F: Field>(entries: Seq<(usize, usize, Vec<F>)>, r: Restriction<F>) -> bool {
    assigned(entries, r.dimension, r.parent)->0.len() == r.map.spec_cols() && assigned(
        entries,
        (r.dimension + 1) as usize,
        r.child,
    )->0.len() == r.map.spec_rows()
}

/// The matrix is the coboundary matrix for stalks of the given sizes.
pub open spec fn is_coboundary<F: Field>(
    complex: SimplicialComplex,
    restrictions: Seq<Restriction<F>>,
    below: Seq<usize>,
    above: Seq<usize>,
    dimension: int,
    m: Matrix<F>,
) -> bool {
    &&& m.wf()
    &&& m.spec_rows() == total(above)
    &&& m.spec_cols() == total(below)
    &&& forall|a: int, b: int|
        0 <= a < m.spec_rows() && 0 <= b < m.spec_cols() ==> (#[trigger] m@[a][b])
            == coboundary_entry(complex, restrictions, below, above, dimension, a, b)
}

/// The stalks of one of the two dimensions are too large together for a
/// machine index.
pub open spec fn too_large(below: Seq<usize>, above: Seq<usize>) -> bool {
    total(below) > usize::MAX || total(above) > usize::MAX
}

/// The sum of the sizes, unless it exceeds the largest machine index.
pub fn sum_of(sizes: &Vec<usize>) -> (sum: Option<usize>)
    ensures
        match sum {
            Some(t) => t == total(sizes@),
            None => total(sizes@) > usize::MAX,
        },
{
    let mut sum: usize = 0;
    let mut i: usize = 0;
    while i < sizes.len()
        invariant
            i <= sizes@.len(),
            sum == total(sizes@.take(i as int)),
        decreases sizes.len() - i,
    {
        proof {
            assert(sizes@.take(i + 1).drop_last() =~= sizes@.take(i as int));
            lemma_total_grows(sizes@, (i + 1) as int);
        }
        if usize::MAX - sum < sizes[i] {
            return None;
        }
        sum = sum + sizes[i];
        i = i + 1;
    }
    assert(sizes@.take(sizes@.len() as int) =~= sizes@);
    Some(sum)
}

/// The total of a front part is at most the total.
pub proof fn lemma_total_grows(sizes: Seq<usize>, n: int)
    requires
        0 <= n <= sizes.len(),
    ensures
        total(sizes.take(n)) <= total(sizes),
    decreases sizes.len() - n,
{
    if n < sizes.len() {
        lemma_total_grows(sizes, n + 1);
        assert(sizes.take(n + 1).drop_last() =~= sizes.take(n));
    } else {
        assert(sizes.take(n) =~= sizes);
    }
}

/// The block that the index `i` falls into and its place within the block.
pub fn place(sizes: &Vec<usize>, i: usize) -> (at: (usize, usize))
    requires
        i < total(sizes@),
    ensures
        (at.0 as int, at.1 as int) == locate(sizes@, i as int, 0),
        at.0 < sizes@.len(),
        at.1 < sizes@[at.0 as int],
{
    proof {
        assert(sizes@.subrange(0, sizes@.len() as int) =~= sizes@);
        lemma_locate(sizes@, i as int, 0);
    }
    let mut block: usize = 0;
    let mut rest: usize = i;
    while block < sizes.len() && rest >= sizes[block]
        invariant
            block <= sizes@.len(),
            locate(sizes@, i as int, 0) == locate(sizes@, rest as int, block as nat),
            0 <= locate(sizes@, i as int, 0).0 < sizes@.len(),
        decreases sizes.len() - block,
    {
        rest = rest - sizes[block];
        block = block + 1;
    }
    (block, rest)
}

impl<F: Field> Assignment<F> {
    /// The position of the first entry for the cell, if there is one.
    pub fn find(&self, dimension: usize, handle: usize) -> (at: Option<usize>)
        ensures
            match at {
                Some(i) => entry_of(self.entries@, dimension, handle, 0) == Some(i as int) && i
                    < self.entries@.len(),
                None => entry_of(self.entries@, dimension, handle, 0) == None::<int>,
            },
    {
        let mut i: usize = 0;
        while i < self.entries.len()
            invariant
                i <= self.entries@.len(),
                entry_of(self.entries@, dimension, handle, 0) == entry_of(
                    self.entries@,
                    dimension,
                    handle,
                    i as nat,
                ),
            decreases self.entries.len() - i,
        {
            if self.entries[i].0 == dimension && self.entries[i].1 == handle {
                return Some(i);
            }
            i = i + 1;
        }
        None
    }
}

/// Whether the two vectors are equal, entry by entry.
pub fn vectors_equal<F: Field>(a: &Vec<F>, b: &Vec<F>) -> (same: bool)
    ensures
        same == (a@ == b@),
{
    if a.len() != b.len() {
        return false;
    }
    let mut i: usize = 0;
    while i < a.len()
        invariant
            i <= a@.len(),
            a@.len() == b@.len(),
            forall|k: int| 0 <= k < i ==> a@[k] == b@[k],
        decreases a.len() - i,
    {
        if !a[i].equals(b[i]) {
            return false;
        }
        i = i + 1;
    }
    assert(a@ =~= b@);
    true
}

impl<F: Field> Sheaf<F> {
    pub closed spec fn spec_complex(&self) -> SimplicialComplex {
        self.complex
    }

    pub closed spec fn spec_restrictions(&self) -> Seq<Restriction<F>> {
        self.restrictions@
    }

    /// The complex is well formed, every restriction is between cells of it,
    /// and the restrictions are well shaped.
    pub open spec fn wf(&self) -> bool {
        &&& self.spec_complex().wf()
        &&& forall|i: int|
            0 <= i < self.spec_restrictions().len() ==> present(
                self.spec_complex(),
                #[trigger] self.spec_restrictions()[i],
            )
        &&& well_shaped(self.spec_complex(), self.spec_restrictions())
    }

    /// Whether the two restrictions are compatible.
    fn check_pair(a: &Restriction<F>, b: &Restriction<F>) -> (ok: bool)
        requires
            a.dimension < usize::MAX,
            b.dimension < usize::MAX,
        ensures
            ok == compatible(*a, *b),
    {
        if a.dimension == b.dimension && a.parent == b.parent && a.child == b.child {
            return false;
        }
        if a.dimension == b.dimension && a.parent == b.parent && a.map.cols() != b.map.cols() {
            return false;
        }
        if a.dimension == b.dimension && a.child == b.child && a.map.rows() != b.map.rows() {
            return false;
        }
        if a.dimension == b.dimension + 1 && a.parent == b.child && a.map.cols() != b.map.rows() {
            return false;
        }
        if b.dimension == a.dimension + 1 && b.parent == a.child && b.map.cols() != a.map.rows() {
            return false;
        }
        true
    }

    /// Whether the parent of the restriction is a face of its child.
    fn check_face(complex: &SimplicialComplex, r: &Restriction<F>) -> (ok: bool)
        requires
            complex.wf(),
            present(*complex, *r),
            r.dimension < usize::MAX,
        ensures
            ok == joins_face(*complex, *r),
    {
        let faces = complex.face_handles(r.dimension + 1, r.child);
        let ghost k = complex@;
        let ghost d = r.dimension as int;
        let ghost cell = level(k, d + 1)[r.child as int];
        let mut p: usize = 0;
        while p < faces.len()
            invariant
                p <= faces@.len(),
                faces@.len() == d + 2,
                k == complex@,
                d == r.dimension,
                crate::complex::table_wf(k),
                present(*complex, *r),
                cell == k[d + 1][r.child as int],
                forall|q: int|
                    0 <= q < faces@.len() ==> (#[trigger] faces@[q]).0 < k[d].len() && k[d][faces@[q].0 as int]
                        == cell.remove(q),
                forall|q: int| 0 <= q < p ==> cell.remove(q) != k[d][r.parent as int],
            decreases faces.len() - p,
        {
            if faces[p].0 == r.parent {
                assert(level(k, d + 1)[r.child as int].remove(p as int) == level(k, d)[r.parent as int]);
                return true;
            }
            proof {
                // Different handles of one dimension name different cells.
                let h = faces@[p as int].0 as int;
                assert(k[d].no_duplicates());
                assert(k[d][h] != k[d][r.parent as int]);
            }
            p = p + 1;
        }
        false
    }

    /// The sheaf on `complex` with the given restriction maps. No map is
    /// asked for: a pair of a face and a coface may go without one. Fails
    /// with a lookup failure where a restriction names a cell that the
    /// complex does not have; else with a construction failure where a
    /// parent is no face of its child, where a pair has two maps, or where
    /// maps disagree on the size of a stalk.
    pub fn new(complex: SimplicialComplex, restrictions: Vec<Restriction<F>>) -> (made: Result<
        Sheaf<F>,
        TopologyError,
    >)
        requires
            complex.wf(),
            forall|i: int| 0 <= i < restrictions@.len() ==> (#[trigger] restrictions@[i]).map.wf(),
        ensures
            made is Ok <==> (forall|i: int|
                0 <= i < restrictions@.len() ==> present(complex, #[trigger] restrictions@[i]))
                && well_shaped(complex, restrictions@),
            made matches Err(e) ==> e == if forall|i: int|
                0 <= i < restrictions@.len() ==> present(complex, #[trigger] restrictions@[i]) {
                TopologyError::Construction
            } else {
                TopologyError::Lookup
            },
            made matches Ok(s) ==> s.wf() && s.spec_complex() == complex && s.spec_restrictions()
                == restrictions@,
    {
        let mut i: usize = 0;
        while i < restrictions.len()
            invariant
                i <= restrictions@.len(),
                forall|j: int| 0 <= j < i ==> present(complex, #[trigger] restrictions@[j]),
            decreases restrictions.len() - i,
        {
            let r = &restrictions[i];
            let stored = complex.levels();
            if r.dimension >= stored || r.parent >= complex.count(r.dimension) {
                assert(!present(complex, restrictions@[i as int]));
                return Err(TopologyError::Lookup);
            }
            if r.child >= complex.count(r.dimension + 1) {
                assert(!present(complex, restrictions@[i as int]));
                return Err(TopologyError::Lookup);
            }
            i = i + 1;
        }
        let stored = complex.levels();
        let mut i: usize = 0;
        while i < restrictions.len()
            invariant
                i <= restrictions@.len(),
                complex.wf(),
                stored == complex@.len(),
                forall|j: int| 0 <= j < restrictions@.len() ==> present(
                    complex,
                    #[trigger] restrictions@[j],
                ),
                forall|j: int| 0 <= j < restrictions@.len() ==> (#[trigger] restrictions@[j]).map.wf(),
                forall|j: int| 0 <= j < i ==> joins_face(complex, #[trigger] restrictions@[j]),
                forall|a: int, b: int|
                    0 <= a < b < i ==> compatible(
                        #[trigger] restrictions@[a],
                        #[trigger] restrictions@[b],
                    ),
            decreases restrictions.len() - i,
        {
            let r = &restrictions[i];
            assert(present(complex, restrictions@[i as int]));
            if !Self::check_face(&complex, r) {
                return Err(TopologyError::Construction);
            }
            let mut j: usize = 0;
            while j < i
                invariant
                    j <= i,
                    i < restrictions@.len(),
                    stored == complex@.len(),
                    r == restrictions@[i as int],
                    forall|a: int| 0 <= a < restrictions@.len() ==> present(
                        complex,
                        #[trigger] restrictions@[a],
                    ),
                    forall|a: int| 0 <= a < j ==> compatible(
                        #[trigger] restrictions@[a],
                        restrictions@[i as int],
                    ),
                decreases i - j,
            {
                assert(present(complex, restrictions@[j as int]));
                if !Self::check_pair(&restrictions[j], r) {
                    return Err(TopologyError::Construction);
                }
                j = j + 1;
            }
            i = i + 1;
        }
        Ok(Sheaf { complex, restrictions })
    }

    /// The size of the stalk of the cell: the width of the maps out of it,
    /// which is the height of the maps into it; zero where the sheaf has no
    /// map on the cell.
    pub fn stalk_dimension(&self, dimension: usize, handle: usize) -> (size: usize)
        requires
            self.wf(),
        ensures
            size == stalk(self.spec_restrictions(), dimension as int, handle),
    {
        let mut i: usize = 0;
        while i < self.restrictions.len()
            invariant
                i <= self.restrictions@.len(),
                self.wf(),
                stalk(self.restrictions@, dimension as int, handle) == stalk_from(
                    self.restrictions@,
                    dimension as int,
                    handle,
                    i as nat,
                ),
            decreases self.restrictions.len() - i,
        {
            let r = &self.restrictions[i];
            assert(present(self.spec_complex(), self.spec_restrictions()[i as int]));
            let stored = self.complex.levels();
            assert(r.dimension + 1 < stored);
            if r.dimension == dimension && r.parent == handle {
                return r.map.cols();
            }
            if r.dimension + 1 == dimension && r.child == handle {
                return r.map.rows();
            }
            i = i + 1;
        }
        0
    }

    /// The sizes of the stalks of the cells of the given dimension, by
    /// handle.
    pub fn stalk_dimensions(&self, dimension: usize) -> (sizes: Vec<usize>)
        requires
            self.wf(),
        ensures
            sizes@ == stalk_sizes(self.spec_complex(), self.spec_restrictions(), dimension as int),
    {
        let n = self.complex.count(dimension);
        let mut sizes: Vec<usize> = Vec::new();
        let mut h: usize = 0;
        while h < n
            invariant
                h <= n,
                self.wf(),
                n == level(self.spec_complex()@, dimension as int).len(),
                sizes@.len() == h,
                forall|a: int|
                    0 <= a < h ==> (#[trigger] sizes@[a]) == stalk(
                        self.spec_restrictions(),
                        dimension as int,
                        a as usize,
                    ),
            decreases n - h,
        {
            sizes.push(self.stalk_dimension(dimension, h));
            h = h + 1;
        }
        assert(sizes@ =~= stalk_sizes(
            self.spec_complex(),
            self.spec_restrictions(),
            dimension as int,
        ));
        sizes
    }

    /// The first restriction between the two cells, if there is one.
    fn find_map(&self, dimension: usize, parent: usize, child: usize) -> (at: Option<usize>)
        ensures
            match at {
                Some(x) => map_between(
                    self.spec_restrictions(),
                    dimension as int,
                    parent as int,
                    child as int,
                    0,
                ) == Some(x as int) && x < self.spec_restrictions().len(),
                None => map_between(
                    self.spec_restrictions(),
                    dimension as int,
                    parent as int,
                    child as int,
                    0,
                ) == None::<int>,
            },
    {
        let mut i: usize = 0;
        while i < self.restrictions.len()
            invariant
                i <= self.restrictions@.len(),
                map_between(self.restrictions@, dimension as int, parent as int, child as int, 0)
                    == map_between(
                    self.restrictions@,
                    dimension as int,
                    parent as int,
                    child as int,
                    i as nat,
                ),
            decreases self.restrictions.len() - i,
        {
            let r = &self.restrictions[i];
            if r.dimension == dimension && r.parent == parent && r.child == child {
                return Some(i);
            }
            i = i + 1;
        }
        None
    }

    /// The incidence number of the cell `parent` of the given dimension in
    /// the cell `child` one dimension up.
    fn orientation(&self, dimension: usize, parent: usize, child: usize) -> (unit: F)
        requires
            self.wf(),
            dimension < usize::MAX,
            parent < level(self.spec_complex()@, dimension as int).len(),
            child < level(self.spec_complex()@, dimension + 1).len(),
        ensures
            unit == incidence::<F>(
                level(self.spec_complex()@, dimension + 1)[child as int],
                level(self.spec_complex()@, dimension as int)[parent as int],
            ),
    {
        let faces = self.complex.face_handles(dimension + 1, child);
        let ghost k = self.spec_complex()@;
        let ghost d = dimension as int;
        let ghost cell = k[d + 1][child as int];
        let ghost face = k[d][parent as int];
        let mut p: usize = 0;
        while p < faces.len()
            invariant
                p <= faces@.len(),
                faces@.len() == d + 2,
                d == dimension,
                table_wf(k),
                k == self.spec_complex()@,
                parent < k[d].len(),
                d + 1 < k.len(),
                child < k[d + 1].len(),
                cell == k[d + 1][child as int],
                face == k[d][parent as int],
                forall|q: int|
                    0 <= q < faces@.len() ==> (#[trigger] faces@[q]).0 < k[d].len() && k[d][faces@[q].0 as int]
                        == cell.remove(q) && faces@[q].1 == crate::simplex::sign_at(q),
                forall|q: int| 0 <= q < p ==> cell.remove(q) != face,
            decreases faces.len() - p,
        {
            if faces[p].0 == parent {
                proof {
                    assert(crate::simplex::strictly_increasing(k[d + 1][child as int]));
                    lemma_incidence_of_face::<F>(cell, p as int);
                }
                return match faces[p].1 {
                    Sign::Positive => F::one(),
                    Sign::Negative => F::one().neg(),
                };
            }
            proof {
                let h = faces@[p as int].0 as int;
                assert(k[d].no_duplicates());
                assert(k[d][h] != k[d][parent as int]);
            }
            p = p + 1;
        }
        proof {
            assert(k[d + 1][child as int].len() == d + 2);
            lemma_incidence_of_stranger::<F>(cell, face);
        }
        F::zero()
    }

    /// The coboundary matrix of the given dimension: the columns are the
    /// stalks of the cells of that dimension, the rows the stalks of the
    /// cells one dimension up, and the block of a face and a coface is their
    /// restriction map with the sign of the face in the boundary of the
    /// coface, zero where they have no map. Fails with a shape mismatch
    /// where the stalks of one dimension are too large together to index.
    pub fn coboundary(&self, dimension: usize) -> (made: Result<Matrix<F>, TopologyError>)
        requires
            self.wf(),
        ensures
            made is Err <==> too_large(
                stalk_sizes(self.spec_complex(), self.spec_restrictions(), dimension as int),
                stalk_sizes(self.spec_complex(), self.spec_restrictions(), dimension + 1),
            ),
            made matches Err(e) ==> e == TopologyError::DimensionMismatch,
            made matches Ok(m) ==> is_coboundary(
                self.spec_complex(),
                self.spec_restrictions(),
                stalk_sizes(self.spec_complex(), self.spec_restrictions(), dimension as int),
                stalk_sizes(self.spec_complex(), self.spec_restrictions(), dimension + 1),
                dimension as int,
                m,
            ),
    {
        let below = self.stalk_dimensions(dimension);
        let above = if dimension < usize::MAX {
            self.stalk_dimensions(dimension + 1)
        } else {
            let stored = self.complex.levels();
            Vec::new()
        };
        let ghost k = self.spec_complex();
        let ghost rs = self.spec_restrictions();
        let ghost d = dimension as int;
        assert(above@ =~= stalk_sizes(k, rs, d + 1));
        let columns = match sum_of(&below) {
            Some(t) => t,
            None => {
                assert(too_large(below@, above@));
                return Err(TopologyError::DimensionMismatch);
            },
        };
        let rows = match sum_of(&above) {
            Some(t) => t,
            None => {
                assert(too_large(below@, above@));
                return Err(TopologyError::DimensionMismatch);
            },
        };
        assert(!too_large(below@, above@));
        let mut m: Matrix<F> = Matrix::zeros(rows, columns);
        let mut r: usize = 0;
        while r < rows
            invariant
                r <= rows,
                self.wf(),
                k == self.spec_complex(),
                rs == self.spec_restrictions(),
                d == dimension,
                below@ == stalk_sizes(k, rs, d),
                above@ == stalk_sizes(k, rs, d + 1),
                dimension == usize::MAX ==> above@.len() == 0,
                rows == total(above@),
                columns == total(below@),
                m.wf(),
                m.spec_rows() == rows,
                m.spec_cols() == columns,
                forall|a: int, b: int|
                    0 <= a < r && 0 <= b < columns ==> (#[trigger] m@[a][b]) == coboundary_entry(
                        k,
                        rs,
                        below@,
                        above@,
                        d,
                        a,
                        b,
                    ),
            decreases rows - r,
        {
            let (child, i) = place(&above, r);
            let mut c: usize = 0;
            while c < columns
                invariant
                    c <= columns,
                    r < rows,
                    self.wf(),
                    k == self.spec_complex(),
                    rs == self.spec_restrictions(),
                    d == dimension,
                    below@ == stalk_sizes(k, rs, d),
                    above@ == stalk_sizes(k, rs, d + 1),
                    dimension == usize::MAX ==> above@.len() == 0,
                    rows == total(above@),
                    columns == total(below@),
                    (child as int, i as int) == locate(above@, r as int, 0),
                    child < above@.len(),
                    i < above@[child as int],
                    m.wf(),
                    m.spec_rows() == rows,
                    m.spec_cols() == columns,
                    forall|a: int, b: int|
                        0 <= a < r && 0 <= b < columns ==> (#[trigger] m@[a][b])
                            == coboundary_entry(k, rs, below@, above@, d, a, b),
                    forall|b: int|
                        0 <= b < c ==> (#[trigger] m@[r as int][b]) == coboundary_entry(
                            k,
                            rs,
                            below@,
                            above@,
                            d,
                            r as int,
                            b,
                        ),
                decreases columns - c,
            {
                let (parent, j) = place(&below, c);
                let entry = match self.find_map(dimension, parent, child) {
                    Some(x) => {
                        proof {
                            lemma_map_between(rs, d, parent as int, child as int, 0);
                            lemma_stalks_fit(k, rs, x as int, 0);
                            assert(rs[x as int].map.wf());
                        }
                        assert(dimension < usize::MAX);
                        let unit = self.orientation(dimension, parent, child);
                        unit.mul(self.restrictions[x].map.get(i, j))
                    },
                    None => F::zero(),
                };
                let ghost before = m@;
                m.set(r, c, entry);
                proof {
                    assert forall|a: int, b: int|
                        0 <= a < r && 0 <= b < columns implies (#[trigger] m@[a][b])
                        == coboundary_entry(k, rs, below@, above@, d, a, b) by {
                        assert(m@[a] == before[a]);
                    }
                    assert forall|b: int| 0 <= b < c + 1 implies (#[trigger] m@[r as int][b])
                        == coboundary_entry(k, rs, below@, above@, d, r as int, b) by {
                        if b < c {
                            assert(m@[r as int][b] == before[r as int][b]);
                        }
                    }
                }
                c = c + 1;
            }
            r = r + 1;
        }
        assert(is_coboundary(k, rs, below@, above@, d, m));
        Ok(m)
    }

    /// The complex that the sheaf lives on.
    pub fn complex(&self) -> (c: &SimplicialComplex)
        ensures
            *c == self.spec_complex(),
    {
        &self.complex
    }

    /// The number of restriction maps.
    pub fn len(&self) -> (n: usize)
        ensures
            n == self.spec_restrictions().len(),
    {
        self.restrictions.len()
    }

    /// Whether the assignment is a global section: whether every restriction
    /// map takes the vector of its parent to the vector of its child,
    /// compared exactly. Fails with a lookup failure where the assignment
    /// has no vector for a cell of some restriction; else with a shape
    /// mismatch where a vector is not as long as the map asks.
    pub fn is_global_section(&self, assignment: &Assignment<F>) -> (verdict: Result<
        bool,
        TopologyError,
    >)
        requires
            self.wf(),
        ensures
            verdict is Ok <==> forall|i: int|
                0 <= i < self.spec_restrictions().len() ==> covers(
                    assignment.entries@,
                    #[trigger] self.spec_restrictions()[i],
                ) && fits(assignment.entries@, self.spec_restrictions()[i]),
            verdict matches Err(e) ==> e == if forall|i: int|
                0 <= i < self.spec_restrictions().len() ==> covers(
                    assignment.entries@,
                    #[trigger] self.spec_restrictions()[i],
                ) {
                TopologyError::DimensionMismatch
            } else {
                TopologyError::Lookup
            },
            verdict matches Ok(b) ==> b == forall|i: int|
                0 <= i < self.spec_restrictions().len() ==> respects(
                    assignment.entries@,
                    #[trigger] self.spec_restrictions()[i],
                ),
    {
        let ghost rs = self.restrictions@;
        let ghost es = assignment.entries@;
        let mut i: usize = 0;
        while i < self.restrictions.len()
            invariant
                i <= rs.len(),
                rs == self.restrictions@,
                es == assignment.entries@,
                self.wf(),
                forall|j: int| 0 <= j < i ==> covers(es, #[trigger] rs[j]),
            decreases self.restrictions.len() - i,
        {
            let r = &self.restrictions[i];
            assert(present(self.spec_complex(), rs[i as int]));
            let stored = self.complex.levels();
            assert(r.dimension + 1 < stored);
            if assignment.find(r.dimension, r.parent).is_none() || assignment.find(
                r.dimension + 1,
                r.child,
            ).is_none() {
                assert(!covers(es, rs[i as int]));
                return Err(TopologyError::Lookup);
            }
            i = i + 1;
        }
        let mut i: usize = 0;
        while i < self.restrictions.len()
            invariant
                i <= rs.len(),
                rs == self.restrictions@,
                es == assignment.entries@,
                self.wf(),
                forall|j: int| 0 <= j < rs.len() ==> covers(es, #[trigger] rs[j]),
                forall|j: int| 0 <= j < i ==> fits(es, #[trigger] rs[j]),
            decreases self.restrictions.len() - i,
        {
            let r = &self.restrictions[i];
            assert(present(self.spec_complex(), rs[i as int]));
            assert(covers(es, rs[i as int]));
            let stored = self.complex.levels();
            assert(r.dimension + 1 < stored);
            let at_parent = assignment.find(r.dimension, r.parent);
            let at_child = assignment.find(r.dimension + 1, r.child);
            match (at_parent, at_child) {
                (Some(a), Some(b)) => {
                    if assignment.entries[a].2.len() != r.map.cols() || assignment.entries[b].2.len()
                        != r.map.rows() {
                        assert(!fits(es, rs[i as int]));
                        return Err(TopologyError::DimensionMismatch);
                    }
                },
                _ => {},
            }
            i = i + 1;
        }
        let mut all = true;
        let mut i: usize = 0;
        while i < self.restrictions.len()
            invariant
                i <= rs.len(),
                rs == self.restrictions@,
                es == assignment.entries@,
                self.wf(),
                forall|j: int| 0 <= j < rs.len() ==> covers(es, #[trigger] rs[j]) && fits(
                    es,
                    rs[j],
                ),
                all == forall|j: int| 0 <= j < i ==> respects(es, #[trigger] rs[j]),
            decreases self.restrictions.len() - i,
        {
            let r = &self.restrictions[i];
            assert(present(self.spec_complex(), rs[i as int]));
            assert(covers(es, rs[i as int]) && fits(es, rs[i as int]));
            assert(rs[i as int].map.wf());
            let stored = self.complex.levels();
            assert(r.dimension + 1 < stored);
            let at_parent = assignment.find(r.dimension, r.parent);
            let at_child = assignment.find(r.dimension + 1, r.child);
            match (at_parent, at_child) {
                (Some(a), Some(b)) => {
                    match r.map.apply(&assignment.entries[a].2) {
                        Ok(w) => {
                            assert(w@ =~= image(r.map@, assignment.entries@[a as int].2@));
                            if !vectors_equal(&w, &assignment.entries[b].2) {
                                assert(!respects(es, rs[i as int]));
                                all = false;
                            } else {
                                assert(respects(es, rs[i as int]));
                            }
                        },
                        Err(_) => {},
                    }
                },
                _ => {},
            }
            i = i + 1;
        }
        Ok(all)
    }
}

} // verus!
