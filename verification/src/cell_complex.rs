//! What simplicial and cubical complexes have in common: cells are joined
//! with their faces, listed by handle, and asked for their boundary.

use vstd::prelude::*;
use crate::complex::{holds, level, lists_faces, spec_join, CellTable, SimplicialComplex};
use crate::cube::{Cube, Shape};
use crate::cubical::{lists, lists_cube_faces, spec_join_cube, CubeTable, CubicalComplex};
use crate::error::TopologyError;
use crate::simplex::{Sign, Simplex};

verus! {

/// A face-closed collection of cells of one kind, each with a stable handle
/// within its dimension.
pub trait CellComplex: Sized {
    /// The kind of cell that the complex holds.
    type Cell;

    /// A cell as plain data.
    type Plain;

    /// The cells as plain data: for each dimension, in the order of their
    /// handles.
    spec fn table(&self) -> Seq<Seq<Self::Plain>>;

    /// The complex is face-closed and lists no cell twice.
    spec fn closed(&self) -> bool;

    /// The cell as plain data.
    spec fn plain(cell: &Self::Cell) -> Self::Plain;

    /// The cell is well formed.
    spec fn sound(cell: &Self::Cell) -> bool;

    /// The dimension of the cell.
    spec fn height(cell: &Self::Cell) -> nat;

    /// The table after a cell has been joined with its missing faces.
    spec fn joined(table: Seq<Seq<Self::Plain>>, cell: Self::Plain) -> Seq<Seq<Self::Plain>>;

    /// The list names the faces of the cell under `handle` in dimension
    /// `d`, each by its handle and with its sign.
    spec fn names_faces(
        table: Seq<Seq<Self::Plain>>,
        d: int,
        handle: int,
        list: Seq<(usize, Sign)>,
    ) -> bool;

    /// Inserts the cell and, recursively, its missing faces; a cell that is
    /// listed already keeps its handle. Returns the handle of the cell.
    fn join_element(&mut self, cell: Self::Cell) -> (handle: usize)
        requires
            old(self).closed(),
            Self::sound(&cell),
        ensures
            final(self).closed(),
            final(self).table() == Self::joined(old(self).table(), Self::plain(&cell)),
            handle < level(final(self).table(), Self::height(&cell) as int).len(),
            final(self).table()[Self::height(&cell) as int][handle as int] == Self::plain(&cell),
    ;

    /// The handles of the cells of the given dimension, in insertion order.
    fn cells(&self, dimension: usize) -> (handles: Vec<usize>)
        ensures
            handles@.len() == level(self.table(), dimension as int).len(),
            forall|i: int| 0 <= i < handles@.len() ==> handles@[i] == i,
    ;

    /// The faces of the cell behind a handle, each as its own handle one
    /// dimension down and its sign. Fails where the complex has no such
    /// handle.
    fn boundary(&self, dimension: usize, handle: usize) -> (faces: Result<
        Vec<(usize, Sign)>,
        TopologyError,
    >)
        requires
            self.closed(),
        ensures
            faces is Ok <==> handle < level(self.table(), dimension as int).len(),
            faces matches Err(e) ==> e == TopologyError::Lookup,
            faces matches Ok(list) ==> Self::names_faces(
                self.table(),
                dimension as int,
                handle as int,
                list@,
            ),
    ;

    /// Whether the complex lists the cell.
    fn contains(&self, cell: &Self::Cell) -> (listed: bool)
        requires
            Self::sound(cell),
        ensures
            listed == level(self.table(), Self::height(cell) as int).contains(Self::plain(cell)),
    ;
}

impl CellComplex for SimplicialComplex {
    type Cell = Simplex;

    type Plain = Seq<usize>;

    open spec fn table(&self) -> CellTable {
        self@
    }

    open spec fn closed(&self) -> bool {
        self.wf()
    }

    open spec fn plain(cell: &Simplex) -> Seq<usize> {
        cell@
    }

    open spec fn sound(cell: &Simplex) -> bool {
        cell.wf()
    }

    open spec fn height(cell: &Simplex) -> nat {
        cell.spec_dimension()
    }

    open spec fn joined(table: CellTable, cell: Seq<usize>) -> CellTable {
        spec_join(table, cell)
    }

    open spec fn names_faces(table: CellTable, d: int, handle: int, list: Seq<(usize, Sign)>) -> bool {
        lists_faces(table, d, handle, list)
    }

    fn join_element(&mut self, cell: Simplex) -> (handle: usize) {
        SimplicialComplex::join_element(self, cell)
    }

    fn cells(&self, dimension: usize) -> (handles: Vec<usize>) {
        SimplicialComplex::cells(self, dimension)
    }

    fn boundary(&self, dimension: usize, handle: usize) -> (faces: Result<
        Vec<(usize, Sign)>,
        TopologyError,
    >) {
        SimplicialComplex::boundary(self, dimension, handle)
    }

    fn contains(&self, cell: &Simplex) -> (listed: bool) {
        assert(holds(self@, cell@) == level(self@, cell.spec_dimension() as int).contains(cell@));
        SimplicialComplex::contains(self, cell)
    }
}

impl CellComplex for CubicalComplex {
    type Cell = Cube;

    type Plain = Shape;

    open spec fn table(&self) -> CubeTable {
        self@
    }

    open spec fn closed(&self) -> bool {
        self.wf()
    }

    open spec fn plain(cell: &Cube) -> Shape {
        cell@
    }

    open spec fn sound(cell: &Cube) -> bool {
        cell.wf()
    }

    open spec fn height(cell: &Cube) -> nat {
        cell.spec_dimension()
    }

    open spec fn joined(table: CubeTable, cell: Shape) -> CubeTable {
        spec_join_cube(table, cell)
    }

    open spec fn names_faces(table: CubeTable, d: int, handle: int, list: Seq<(usize, Sign)>) -> bool {
        lists_cube_faces(table, d, handle, list)
    }

    fn join_element(&mut self, cell: Cube) -> (handle: usize) {
        CubicalComplex::join_element(self, cell)
    }

    fn cells(&self, dimension: usize) -> (handles: Vec<usize>) {
        CubicalComplex::cells(self, dimension)
    }

    fn boundary(&self, dimension: usize, handle: usize) -> (faces: Result<
        Vec<(usize, Sign)>,
        TopologyError,
    >) {
        CubicalComplex::boundary(self, dimension, handle)
    }

    fn contains(&self, cell: &Cube) -> (listed: bool) {
        assert(lists(self@, cell@) == level(self@, cell.spec_dimension() as int).contains(cell@));
        CubicalComplex::contains(self, cell)
    }
}

/// Joins the cells in the order given and returns the handle of each.
pub fn join_all<C: CellComplex>(complex: &mut C, cells: Vec<C::Cell>) -> (handles: Vec<usize>)
    requires
        old(complex).closed(),
        forall|i: int| 0 <= i < cells@.len() ==> C::sound(#[trigger] &cells@[i]),
    ensures
        final(complex).closed(),
        final(complex).table() == joined_all::<C>(old(complex).table(), cells@, cells@.len()),
        handles@.len() == cells@.len(),
        forall|i: int|
            0 <= i < cells@.len() ==> handles@[i] < level(
                joined_all::<C>(old(complex).table(), cells@, (i + 1) as nat),
                C::height(&cells@[i]) as int,
            ).len() && joined_all::<C>(old(complex).table(), cells@, (i + 1) as nat)[C::height(
                &cells@[i],
            ) as int][#[trigger] handles@[i] as int] == C::plain(&cells@[i]),
{
    let mut handles: Vec<usize> = Vec::new();
    let mut rest = cells;
    let ghost all = rest@;
    let ghost start = complex.table();
    let mut done: usize = 0;
    let total = rest.len();
    while done < total
        invariant
            done <= total,
            total == all.len(),
            complex.closed(),
            complex.table() == joined_all::<C>(start, all, done as nat),
            rest@ == all.skip(done as int),
            forall|i: int| 0 <= i < all.len() ==> C::sound(#[trigger] &all[i]),
            handles@.len() == done,
            forall|i: int|
                0 <= i < done ==> handles@[i] < level(
                    joined_all::<C>(start, all, (i + 1) as nat),
                    C::height(&all[i]) as int,
                ).len() && joined_all::<C>(start, all, (i + 1) as nat)[C::height(
                    &all[i],
                ) as int][#[trigger] handles@[i] as int] == C::plain(&all[i]),
        decreases total - done,
    {
        let cell = rest.remove(0);
        assert(cell == all[done as int]);
        assert(rest@ =~= all.skip(done + 1));
        assert(C::sound(&all[done as int]));
        let handle = complex.join_element(cell);
        handles.push(handle);
        done = done + 1;
    }
    handles
}

/// The table after the first `n` of the cells have been joined, in order.
pub open spec fn joined_all<C: CellComplex>(
    table: Seq<Seq<C::Plain>>,
    cells: Seq<C::Cell>,
    n: nat,
) -> Seq<Seq<C::Plain>>
    decreases n,
{
    if n == 0 || n > cells.len() {
        table
    } else {
        C::joined(joined_all::<C>(table, cells, (n - 1) as nat), C::plain(&cells[n - 1]))
    }
}

} // verus!
