//! Simplicial complexes: face-closed collections of simplices, each with a
//! stable handle within its dimension.

use vstd::prelude::*;
use crate::error::TopologyError;
use crate::simplex::{lemma_remove_keeps_order, sign_at, strictly_increasing, Sign, Simplex};

verus! {

broadcast use vstd::seq_lib::group_seq_properties;

/// The cells of a complex as plain data: for each dimension, the vertex
/// sequences of its cells in the order of their handles.
pub type CellTable = Seq<Seq<Seq<usize>>>;

/// The cells of dimension `d`, none where the table does not reach.
pub open spec fn level<C>(k: Seq<Seq<C>>, d: int) -> Seq<C> {
    if 0 <= d < k.len() {
        k[d]
    } else {
        Seq::empty()
    }
}

/// The table lists the cell `c`.
pub open spec fn holds(k: CellTable, c: Seq<usize>) -> bool {
    c.len() >= 1 && level(k, c.len() - 1).contains(c)
}

/// Every listed cell is a simplex of the dimension it is listed under, no
/// cell is listed twice, and every face of a listed cell is listed.
pub open spec fn table_wf(k: CellTable) -> bool {
    &&& forall|d: int, i: int|
        0 <= d < k.len() && 0 <= i < k[d].len() ==> strictly_increasing(#[trigger] k[d][i])
            && k[d][i].len() == d + 1
    &&& forall|d: int| 0 <= d < k.len() ==> (#[trigger] k[d]).no_duplicates()
    &&& forall|d: int, i: int, p: int|
        1 <= d < k.len() && 0 <= i < k[d].len() && 0 <= p <= d ==> k[d - 1].contains(
            #[trigger] k[d][i].remove(p),
        )
}

/// Every cell of `k` is a cell of `r` under the same handle.
pub open spec fn extends<C>(k: Seq<Seq<C>>, r: Seq<Seq<C>>) -> bool {
    &&& k.len() <= r.len()
    &&& forall|d: int| 0 <= d < k.len() ==> k[d].len() <= (#[trigger] r[d]).len()
    &&& forall|d: int, i: int|
        0 <= d < k.len() && 0 <= i < k[d].len() ==> (#[trigger] r[d][i]) == k[d][i]
}

/// The table with empty levels added until it reaches dimension `d`.
pub open spec fn padded<C>(k: Seq<Seq<C>>, d: int) -> Seq<Seq<C>> {
    if d < k.len() {
        k
    } else {
        k + Seq::new((d + 1 - k.len()) as nat, |i: int| Seq::<C>::empty())
    }
}

/// The table with `c` listed last in its dimension.
pub open spec fn append_cell(k: CellTable, c: Seq<usize>) -> CellTable {
    let d = c.len() - 1;
    let wide = padded(k, d);
    wide.update(d, wide[d].push(c))
}

/// The table after the faces of `c` that omit the positions below `n` have
/// been joined, in the order of those positions.
pub open spec fn join_faces(k: CellTable, c: Seq<usize>, n: nat) -> CellTable
    decreases c.len(), n,
{
    if n == 0 || n > c.len() {
        k
    } else {
        spec_join(join_faces(k, c, (n - 1) as nat), c.remove(n - 1))
    }
}

/// The table after `c` has been joined: unchanged where `c` is listed
/// already; else its missing faces are joined first, each recursively, and
/// `c` is listed after them.
pub open spec fn spec_join(k: CellTable, c: Seq<usize>) -> CellTable
    decreases c.len(), c.len() + 1,
{
    if c.len() == 0 || holds(k, c) {
        k
    } else if c.len() == 1 {
        append_cell(k, c)
    } else {
        append_cell(join_faces(k, c, c.len()), c)
    }
}

/// Listing a new simplex whose faces are all listed keeps the table well
/// formed and every handle in place.
pub proof fn lemma_append_cell(k: CellTable, c: Seq<usize>)
    requires
        table_wf(k),
        strictly_increasing(c),
        c.len() >= 1,
        !holds(k, c),
        forall|p: int| 0 <= p < c.len() && c.len() >= 2 ==> holds(k, #[trigger] c.remove(p)),
    ensures
        table_wf(append_cell(k, c)),
        extends(k, append_cell(k, c)),
        holds(append_cell(k, c), c),
        forall|j: int| j != c.len() - 1 ==> level(append_cell(k, c), j) == level(k, j),
        level(append_cell(k, c), c.len() - 1) == level(k, c.len() - 1).push(c),
{
    let d = c.len() - 1;
    let wide = padded(k, d);
    let r = append_cell(k, c);
    assert(forall|j: int| 0 <= j < k.len() ==> wide[j] == k[j]);
    assert(forall|j: int| k.len() <= j < wide.len() ==> wide[j] == Seq::<Seq<usize>>::empty());
    assert(forall|j: int| 0 <= j < r.len() && j != d ==> r[j] == wide[j]);
    assert(r[d] == wide[d].push(c));
    assert(wide[d] == level(k, d));
    assert(r[d][r[d].len() - 1] == c);
    assert forall|a: int, i: int| 0 <= a < r.len() && 0 <= i < r[a].len() implies strictly_increasing(
        #[trigger] r[a][i],
    ) && r[a][i].len() == a + 1 by {
        if a == d && i == r[d].len() - 1 {
        } else {
            assert(r[a][i] == k[a][i]);
        }
    }
    assert forall|a: int| 0 <= a < r.len() implies (#[trigger] r[a]).no_duplicates() by {
        if a == d {
            assert(!wide[d].contains(c));
        } else if a < k.len() {
            assert(r[a] == k[a]);
        }
    }
    assert forall|a: int, i: int, p: int|
        1 <= a < r.len() && 0 <= i < r[a].len() && 0 <= p <= a implies r[a - 1].contains(
        #[trigger] r[a][i].remove(p),
    ) by {
        if a == d && i == r[d].len() - 1 {
            assert(holds(k, c.remove(p)));
            assert(c.remove(p).len() - 1 == d - 1);
            assert(k[d - 1].contains(c.remove(p)));
            assert(r[d - 1] == k[d - 1]);
        } else {
            assert(r[a][i] == k[a][i]);
            assert(k[a - 1].contains(k[a][i].remove(p)));
            if a - 1 == d {
                let w = choose|w: int| 0 <= w < k[d].len() && k[d][w] == k[a][i].remove(p);
                assert(r[d][w] == k[a][i].remove(p));
            } else {
                assert(r[a - 1] == k[a - 1]);
            }
        }
    }
    assert forall|j: int| j != c.len() - 1 implies level(r, j) == level(k, j) by {
        if 0 <= j < r.len() {
            if j < k.len() {
            } else {
                assert(r[j] =~= Seq::<Seq<usize>>::empty());
            }
        }
    }
}

/// Joining a simplex keeps the table well formed and every handle in
/// place, lists the simplex, and touches no higher dimension.
pub proof fn lemma_join(k: CellTable, c: Seq<usize>)
    requires
        table_wf(k),
        strictly_increasing(c),
        c.len() >= 1,
    ensures
        table_wf(spec_join(k, c)),
        extends(k, spec_join(k, c)),
        holds(spec_join(k, c), c),
        forall|j: int| j >= c.len() ==> level(spec_join(k, c), j) == level(k, j),
    decreases c.len(), c.len() + 1,
{
    if holds(k, c) {
    } else if c.len() == 1 {
        lemma_append_cell(k, c);
    } else {
        let mid = join_faces(k, c, c.len());
        lemma_join_faces(k, c, c.len());
        assert(level(mid, c.len() - 1) == level(k, c.len() - 1));
        lemma_append_cell(mid, c);
        let r = append_cell(mid, c);
        lemma_extends_transitive(k, mid, r);
    }
}

/// Joining the first `n` faces of a simplex keeps the table well formed and
/// every handle in place, lists those faces, and touches no dimension from
/// that of the simplex up.
pub proof fn lemma_join_faces(k: CellTable, c: Seq<usize>, n: nat)
    requires
        table_wf(k),
        strictly_increasing(c),
        c.len() >= 2,
        n <= c.len(),
    ensures
        table_wf(join_faces(k, c, n)),
        extends(k, join_faces(k, c, n)),
        forall|p: int| 0 <= p < n ==> holds(join_faces(k, c, n), #[trigger] c.remove(p)),
        forall|j: int| j >= c.len() - 1 ==> level(join_faces(k, c, n), j) == level(k, j),
    decreases c.len(), n,
{
    if n > 0 {
        let before = join_faces(k, c, (n - 1) as nat);
        lemma_join_faces(k, c, (n - 1) as nat);
        let f = c.remove(n - 1);
        lemma_remove_keeps_order(c, n - 1);
        lemma_join(before, f);
        let r = spec_join(before, f);
        lemma_extends_transitive(k, before, r);
        assert forall|p: int| 0 <= p < n implies holds(r, #[trigger] c.remove(p)) by {
            if p < n - 1 {
                lemma_extends_holds(before, r, c.remove(p));
            }
        }
    }
}

/// Handles that stay in place through two steps stay in place through both.
pub proof fn lemma_extends_transitive<C>(a: Seq<Seq<C>>, b: Seq<Seq<C>>, c: Seq<Seq<C>>)
    requires
        extends(a, b),
        extends(b, c),
    ensures
        extends(a, c),
{
    assert forall|d: int| 0 <= d < a.len() implies a[d].len() <= (#[trigger] c[d]).len() by {
        assert(a[d].len() <= b[d].len());
    }
    assert forall|d: int, i: int| 0 <= d < a.len() && 0 <= i < a[d].len() implies (
    #[trigger] c[d][i]) == a[d][i] by {
        assert(b[d][i] == a[d][i]);
        assert(a[d].len() <= b[d].len());
    }
}

/// A cell stays listed when the table is extended.
pub proof fn lemma_extends_holds(k: CellTable, r: CellTable, c: Seq<usize>)
    requires
        extends(k, r),
        holds(k, c),
    ensures
        holds(r, c),
{
    let d = c.len() - 1;
    let i = choose|i: int| 0 <= i < k[d].len() && k[d][i] == c;
    assert(r[d][i] == c);
    assert(k[d].len() <= r[d].len());
}

/// Joining a cell a second time changes nothing.
pub proof fn lemma_join_idempotent(k: CellTable, c: Seq<usize>)
    requires
        table_wf(k),
        strictly_increasing(c),
        c.len() >= 1,
    ensures
        spec_join(spec_join(k, c), c) == spec_join(k, c),
{
    lemma_join(k, c);
}

/// The vertex sequences of the given simplices, dimension by dimension.
pub open spec fn cell_views(cells: Seq<Vec<Simplex>>) -> CellTable {
    Seq::new(cells.len(), |d: int| Seq::new(cells[d]@.len(), |i: int| cells[d]@[i]@))
}

/// The list names the faces of the cell under `handle` in dimension `d`, in
/// the order of the omitted position: each by its handle one dimension down
/// and with the sign of its position. A vertex has none.
pub open spec fn lists_faces(k: CellTable, d: int, handle: int, list: Seq<(usize, Sign)>) -> bool {
    &&& list.len() == if d == 0 {
        0
    } else {
        d + 1
    }
    &&& forall|p: int|
        0 <= p < list.len() ==> {
            &&& (#[trigger] list[p]).0 < k[d - 1].len()
            &&& k[d - 1][list[p].0 as int] == k[d][handle].remove(p)
            &&& list[p].1 == sign_at(p)
        }
}

/// A simplicial complex. The handle of a cell is its position among the
/// cells of its dimension, in the order in which they were first joined.
pub struct SimplicialComplex {
    cells: Vec<Vec<Simplex>>,
}

impl View for SimplicialComplex {
    type V = CellTable;

    closed spec fn view(&self) -> CellTable {
        Seq::new(
            self.cells@.len(),
            |d: int| Seq::new(self.cells@[d]@.len(), |i: int| self.cells@[d]@[i]@),
        )
    }
}

impl SimplicialComplex {
    /// The stored simplices agree with the dimension they are stored under.
    pub closed spec fn stored_wf(&self) -> bool {
        forall|d: int, i: int|
            0 <= d < self.cells@.len() && 0 <= i < self.cells@[d]@.len() ==> (
            #[trigger] self.cells@[d]@[i]).wf() && self.cells@[d]@[i].spec_dimension() == d
    }

    /// The complex is face-closed and lists no cell twice.
    pub open spec fn wf(&self) -> bool {
        self.stored_wf() && table_wf(self@)
    }

    /// The complex without cells.
    pub fn new() -> (complex: Self)
        ensures
            complex.wf(),
            complex@ == CellTable::empty(),
    {
        let complex = SimplicialComplex { cells: Vec::new() };
        assert(complex@ =~= CellTable::empty());
        complex
    }

    /// The complex that lists the given simplices, dimension by dimension, in
    /// the order given.
    pub fn from_cells(cells: Vec<Vec<Simplex>>) -> (complex: Self)
        requires
            forall|d: int, i: int|
                0 <= d < cells@.len() && 0 <= i < cells@[d]@.len() ==> (#[trigger] cells@[d]@[i]).wf()
                    && cells@[d]@[i].spec_dimension() == d,
            table_wf(cell_views(cells@)),
        ensures
            complex.wf(),
            complex@ == cell_views(cells@),
    {
        let complex = SimplicialComplex { cells };
        assert(complex@ =~= cell_views(cells@));
        complex
    }

    /// The number of dimensions that the complex has storage for: one more
    /// than the highest dimension that ever held a cell, zero when empty.
    pub fn levels(&self) -> (n: usize)
        ensures
            n == self@.len(),
    {
        self.cells.len()
    }

    /// The number of cells of the given dimension.
    pub fn count(&self, dimension: usize) -> (n: usize)
        ensures
            n == level(self@, dimension as int).len(),
    {
        if dimension < self.cells.len() {
            self.cells[dimension].len()
        } else {
            0
        }
    }

    /// The handles of the cells of the given dimension, in insertion order.
    pub fn cells(&self, dimension: usize) -> (handles: Vec<usize>)
        ensures
            handles@.len() == level(self@, dimension as int).len(),
            forall|i: int| 0 <= i < handles@.len() ==> handles@[i] == i,
    {
        let n = self.count(dimension);
        let mut handles: Vec<usize> = Vec::new();
        let mut i: usize = 0;
        while i < n
            invariant
                i <= n,
                handles@.len() == i,
                forall|j: int| 0 <= j < i ==> handles@[j] == j,
            decreases n - i,
        {
            handles.push(i);
            i = i + 1;
        }
        handles
    }

    /// The cell behind a handle, or a lookup failure where the complex has no
    /// such handle in that dimension.
    pub fn cell(&self, dimension: usize, handle: usize) -> (found: Result<&Simplex, TopologyError>)
        requires
            self.wf(),
        ensures
            found is Ok <==> handle < level(self@, dimension as int).len(),
            found matches Ok(s) ==> s@ == self@[dimension as int][handle as int] && s.wf()
                && s.spec_dimension() == dimension,
            found matches Err(e) ==> e == TopologyError::Lookup,
    {
        if dimension < self.cells.len() && handle < self.cells[dimension].len() {
            Ok(&self.cells[dimension][handle])
        } else {
            Err(TopologyError::Lookup)
        }
    }

    /// The handle under which the complex lists `cell`, if it does.
    pub fn handle_of(&self, cell: &Simplex) -> (handle: Option<usize>)
        requires
            cell.wf(),
        ensures
            handle is Some <==> holds(self@, cell@),
            handle matches Some(h) ==> h < level(self@, cell.spec_dimension() as int).len()
                && self@[cell.spec_dimension() as int][h as int] == cell@,
    {
        let d = cell.dimension();
        if d >= self.cells.len() {
            return None;
        }
        let row = &self.cells[d];
        let mut i: usize = 0;
        while i < row.len()
            invariant
                i <= row@.len(),
                d < self.cells@.len(),
                row == self.cells@[d as int],
                cell.spec_dimension() == d,
                cell@.len() == d + 1,
                forall|j: int| 0 <= j < i ==> self@[d as int][j] != cell@,
            decreases row.len() - i,
        {
            if row[i].same_as(cell) {
                assert(self@[d as int][i as int] == cell@);
                return Some(i);
            }
            i = i + 1;
        }
        None
    }

    /// Whether the complex lists `cell`.
    pub fn contains(&self, cell: &Simplex) -> (listed: bool)
        requires
            cell.wf(),
        ensures
            listed == holds(self@, cell@),
    {
        self.handle_of(cell).is_some()
    }

    /// Whether the complex has a cell of that dimension under that handle.
    pub fn contains_handle(&self, dimension: usize, handle: usize) -> (listed: bool)
        ensures
            listed == (handle < level(self@, dimension as int).len()),
    {
        handle < self.count(dimension)
    }

    /// Lists `cell` last in its dimension.
    fn append(&mut self, cell: Simplex) -> (handle: usize)
        requires
            old(self).stored_wf(),
            cell.wf(),
        ensures
            final(self).stored_wf(),
            final(self)@ == append_cell(old(self)@, cell@),
            handle == level(old(self)@, cell@.len() - 1).len(),
    {
        let d = cell.dimension();
        while self.cells.len() <= d
            invariant
                self.stored_wf(),
                self@ == padded(old(self)@, self.cells@.len() - 1),
                old(self)@.len() <= self.cells@.len(),
                self.cells@.len() > old(self)@.len() ==> self.cells@.len() <= d + 1,
            decreases d + 1 - self.cells.len(),
        {
            let ghost before = self@;
            self.cells.push(Vec::new());
            assert(self@ =~= padded(old(self)@, self.cells@.len() - 1)) by {
                assert(self@.len() == before.len() + 1);
                assert forall|j: int| 0 <= j < self@.len() implies self@[j] == padded(
                    old(self)@,
                    self.cells@.len() - 1,
                )[j] by {
                    if j < before.len() {
                        assert(self@[j] =~= before[j]);
                    } else {
                        assert(self@[j] =~= Seq::<Seq<usize>>::empty());
                    }
                }
            }
        }
        assert(self@ == padded(old(self)@, d as int));
        let ghost wide = self@;
        let ghost stored = self.cells@;
        let handle = self.cells[d].len();
        self.cells[d].push(cell);
        proof {
            assert(self.cells@.len() == stored.len());
            assert(forall|j: int| 0 <= j < stored.len() && j != d ==> self.cells@[j] == stored[j]);
            assert(self.cells@[d as int]@ == stored[d as int]@.push(cell));
            assert(self@ =~= wide.update(d as int, wide[d as int].push(cell@))) by {
                assert forall|j: int| 0 <= j < self@.len() implies self@[j] == wide.update(
                    d as int,
                    wide[d as int].push(cell@),
                )[j] by {
                    if j == d {
                        assert(self@[j] =~= wide[d as int].push(cell@));
                    } else {
                        assert(self@[j] =~= wide[j]);
                    }
                }
            }
        }
        handle
    }

    /// Inserts the cell and, recursively, its missing faces, each under a
    /// new handle; a cell that is listed already keeps its handle and leaves
    /// the complex as it was. Returns the handle of the cell.
    pub fn join_element(&mut self, cell: Simplex) -> (handle: usize)
        requires
            old(self).wf(),
            cell.wf(),
        ensures
            final(self).wf(),
            final(self)@ == spec_join(old(self)@, cell@),
            handle < level(final(self)@, cell.spec_dimension() as int).len(),
            final(self)@[cell.spec_dimension() as int][handle as int] == cell@,
        decreases cell.spec_dimension(),
    {
        proof {
            lemma_join(self@, cell@);
        }
        match self.handle_of(&cell) {
            Some(h) => {
                return h;
            },
            None => {},
        }
        let d = cell.dimension();
        if d > 0 {
            let mut p: usize = 0;
            let generators = cell.vertices().len();
            assert(generators == d + 1);
            while p <= d
                invariant
                    p <= d + 1,
                    d < usize::MAX,
                    d == cell.spec_dimension(),
                    d > 0,
                    cell.wf(),
                    old(self).wf(),
                    self.wf(),
                    self@ == join_faces(old(self)@, cell@, p as nat),
                decreases d + 1 - p,
            {
                let f = cell.face(p);
                proof {
                    lemma_join_faces(old(self)@, cell@, p as nat);
                }
                self.join_element(f);
                p = p + 1;
            }
            proof {
                lemma_join_faces(old(self)@, cell@, cell@.len());
                assert(level(self@, d as int) == level(old(self)@, d as int));
            }
        }
        proof {
            lemma_append_cell(self@, cell@);
        }
        let handle = self.append(cell);
        handle
    }

    /// The faces of the cell behind a handle, each as its own handle one
    /// dimension down and the sign of its position. A vertex has none. Fails
    /// where the complex has no such handle.
    pub fn boundary(&self, dimension: usize, handle: usize) -> (faces: Result<
        Vec<(usize, Sign)>,
        TopologyError,
    >)
        requires
            self.wf(),
        ensures
            faces is Ok <==> handle < level(self@, dimension as int).len(),
            faces matches Err(e) ==> e == TopologyError::Lookup,
            faces matches Ok(list) ==> lists_faces(self@, dimension as int, handle as int, list@),
    {
        if dimension < self.cells.len() && handle < self.cells[dimension].len() {
            Ok(self.face_handles(dimension, handle))
        } else {
            Err(TopologyError::Lookup)
        }
    }

    /// The faces of the cell behind a handle that the complex has, each as
    /// its own handle one dimension down and the sign of its position.
    pub fn face_handles(&self, dimension: usize, handle: usize) -> (list: Vec<(usize, Sign)>)
        requires
            self.wf(),
            handle < level(self@, dimension as int).len(),
        ensures
            lists_faces(self@, dimension as int, handle as int, list@),
    {
        let cell = &self.cells[dimension][handle];
        assert(cell@ == self@[dimension as int][handle as int]);
        let parts = cell.faces();
        let mut list: Vec<(usize, Sign)> = Vec::new();
        let mut p: usize = 0;
        while p < parts.len()
            invariant
                self.wf(),
                p <= parts@.len(),
                dimension < self.cells@.len(),
                handle < self.cells@[dimension as int]@.len(),
                cell@ == self@[dimension as int][handle as int],
                parts@.len() == if dimension == 0 {
                    0
                } else {
                    dimension + 1
                },
                forall|i: int|
                    0 <= i < parts@.len() ==> {
                        &&& (#[trigger] parts@[i]).0.wf()
                        &&& parts@[i].0.spec_dimension() == dimension - 1
                        &&& parts@[i].0@ == cell@.remove(i)
                        &&& parts@[i].1 == sign_at(i)
                    },
                list@.len() == p,
                forall|i: int|
                    0 <= i < p ==> {
                        &&& (#[trigger] list@[i]).0 < self@[dimension - 1].len()
                        &&& self@[dimension - 1][list@[i].0 as int] == cell@.remove(i)
                        &&& list@[i].1 == sign_at(i)
                    },
            decreases parts.len() - p,
        {
            let found = self.handle_of(&parts[p].0);
            assert(self@[dimension - 1].contains(self@[dimension as int][handle as int].remove(
                p as int,
            )));
            list.push((found.unwrap(), parts[p].1));
            p = p + 1;
        }
        list
    }
}

} // verus!
