//! Vietoris-Rips filtrations: for each threshold, the flag complex of the
//! graph that joins two points when they are no farther apart than the
//! threshold.
//!
//! Distances enter as a table of keys: unsigned integers that are ordered as
//! the distances are. Points are numbered from zero in the order of the
//! cloud, and only the key of a pair with the smaller point first is read.
//! Cells are generated in a fixed order: within each dimension, by their
//! largest vertex first, then by the cell that the other vertices span.

use vstd::prelude::*;
use crate::complex::{cell_views, holds, level, table_wf, CellTable, SimplicialComplex};
use crate::error::TopologyError;
use crate::simplex::{lemma_remove_keeps_order, strictly_increasing, Simplex};

verus! {

broadcast use vstd::seq_lib::group_seq_properties;

/// A table of distance keys: the entry in row `i` and column `j` stands for
/// the distance from point `i` to point `j`.
pub type Distances = Seq<Seq<u64>>;

/// The table has as many columns in each row as it has rows.
pub open spec fn square(t: Distances) -> bool {
    forall|i: int| 0 <= i < t.len() ==> (#[trigger] t[i]).len() == t.len()
}

/// Every vertex of `s` is within `r` of the point `v`.
pub open spec fn close_to_all(t: Distances, r: u64, s: Seq<usize>, v: int) -> bool {
    forall|i: int| 0 <= i < s.len() ==> t[(#[trigger] s[i]) as int][v] <= r
}

/// The points of `s` are points of the table, listed in increasing order,
/// and any two of them are within `r` of each other.
pub open spec fn is_clique(t: Distances, r: u64, s: Seq<usize>) -> bool {
    &&& s.len() >= 1
    &&& strictly_increasing(s)
    &&& forall|i: int| 0 <= i < s.len() ==> (#[trigger] s[i]) < t.len()
    &&& forall|i: int, j: int|
        0 <= i < j < s.len() ==> t[(#[trigger] s[i]) as int][(#[trigger] s[j]) as int] <= r
}

/// The cells of `list` that are close to `v`, each with `v` as a further
/// vertex, in the order of the list.
pub open spec fn extend(list: Seq<Seq<usize>>, t: Distances, r: u64, v: usize) -> Seq<Seq<usize>>
    decreases list.len(),
{
    if list.len() == 0 {
        Seq::empty()
    } else if close_to_all(t, r, list.last(), v as int) {
        extend(list.drop_last(), t, r, v).push(list.last().push(v))
    } else {
        extend(list.drop_last(), t, r, v)
    }
}

/// The cliques of `k` points among the first `m` points, in the order in
/// which the filtration generates them.
pub open spec fn cliques(t: Distances, r: u64, m: nat, k: nat) -> Seq<Seq<usize>>
    decreases m,
{
    if m == 0 || k == 0 {
        Seq::empty()
    } else if k == 1 {
        cliques(t, r, (m - 1) as nat, 1).push(seq![(m - 1) as usize])
    } else {
        cliques(t, r, (m - 1) as nat, k) + extend(
            cliques(t, r, (m - 1) as nat, (k - 1) as nat),
            t,
            r,
            (m - 1) as usize,
        )
    }
}

/// The table of cells is that of the Vietoris-Rips complex at threshold
/// `r`: each dimension lists the cliques of its size in generation order,
/// and no dimension without cells is stored.
pub open spec fn is_rips(c: CellTable, t: Distances, r: u64) -> bool {
    &&& forall|d: int| 0 <= d ==> #[trigger] level(c, d) == cliques(t, r, t.len(), (d + 1) as nat)
    &&& forall|d: int| 0 <= d < c.len() ==> (#[trigger] c[d]).len() > 0
}

/// The vertex sequences of the given simplices.
pub open spec fn views(list: Seq<Simplex>) -> Seq<Seq<usize>> {
    Seq::new(list.len(), |i: int| list[i]@)
}

/// The distance keys of a cloud of points, one row for each point.
pub struct DistanceTable {
    keys: Vec<Vec<u64>>,
}

impl View for DistanceTable {
    type V = Distances;

    closed spec fn view(&self) -> Distances {
        Seq::new(self.keys@.len(), |i: int| self.keys@[i]@)
    }
}

/// The configuration of a filtration. It is reserved and holds nothing.
pub struct Reserved {}

/// One unit of work of a run over several thresholds: the threshold and its
/// place in the request.
pub struct Task {
    pub index: usize,
    pub threshold: u64,
}

/// What a task gave: the complex, tagged with the place of its threshold in
/// the request.
pub struct Outcome {
    pub index: usize,
    pub threshold: u64,
    pub complex: SimplicialComplex,
}

impl DistanceTable {
    /// The table is square.
    pub open spec fn wf(&self) -> bool {
        square(self@)
    }

    /// The table with the given rows. Fails unless every row has as many
    /// entries as there are rows.
    pub fn new(keys: Vec<Vec<u64>>) -> (made: Result<DistanceTable, TopologyError>)
        ensures
            made is Ok <==> forall|i: int|
                0 <= i < keys@.len() ==> (#[trigger] keys@[i])@.len() == keys@.len(),
            made matches Err(e) ==> e == TopologyError::DimensionMismatch,
            made matches Ok(t) ==> t.wf() && t@.len() == keys@.len() && forall|i: int|
                0 <= i < keys@.len() ==> (#[trigger] t@[i]) == keys@[i]@,
    {
        let n = keys.len();
        let mut i: usize = 0;
        while i < n
            invariant
                i <= n,
                n == keys@.len(),
                forall|j: int| 0 <= j < i ==> (#[trigger] keys@[j])@.len() == n,
            decreases n - i,
        {
            if keys[i].len() != n {
                return Err(TopologyError::DimensionMismatch);
            }
            i = i + 1;
        }
        let table = DistanceTable { keys };
        assert forall|j: int| 0 <= j < table@.len() implies (#[trigger] table@[j]).len()
            == table@.len() by {
            assert(keys@[j]@.len() == n);
        }
        Ok(table)
    }

    /// The number of points.
    pub fn len(&self) -> (n: usize)
        ensures
            n == self@.len(),
    {
        self.keys.len()
    }

    /// The key of the distance from point `i` to point `j`.
    pub fn key(&self, i: usize, j: usize) -> (k: u64)
        requires
            self.wf(),
            i < self@.len(),
            j < self@.len(),
        ensures
            k == self@[i as int][j as int],
    {
        assert(self@[i as int].len() == self@.len());
        self.keys[i][j]
    }

    /// Whether every vertex of `cell` is within `threshold` of the point `v`.
    fn reaches(&self, threshold: u64, cell: &Simplex, v: usize) -> (close: bool)
        requires
            self.wf(),
            v < self@.len(),
            forall|i: int| 0 <= i < cell@.len() ==> (#[trigger] cell@[i]) < self@.len(),
        ensures
            close == close_to_all(self@, threshold, cell@, v as int),
    {
        let vertices = cell.vertices();
        let mut i: usize = 0;
        while i < vertices.len()
            invariant
                i <= vertices@.len(),
                vertices@ == cell@,
                self.wf(),
                v < self@.len(),
                forall|j: int| 0 <= j < cell@.len() ==> (#[trigger] cell@[j]) < self@.len(),
                forall|j: int| 0 <= j < i ==> self@[(#[trigger] cell@[j]) as int][v as int]
                    <= threshold,
            decreases vertices.len() - i,
        {
            assert(cell@[i as int] < self@.len());
            if self.key(vertices[i], v) > threshold {
                return false;
            }
            i = i + 1;
        }
        true
    }

    /// The cells of `list` that are close to the point `v`, each with `v` as
    /// a further vertex.
    fn extensions(&self, threshold: u64, list: &Vec<Simplex>, v: usize) -> (added: Vec<Simplex>)
        requires
            self.wf(),
            v < self@.len(),
            forall|i: int|
                0 <= i < list@.len() ==> (#[trigger] list@[i]).wf() && is_clique(
                    self@,
                    threshold,
                    list@[i]@,
                ) && list@[i]@.last() < v,
        ensures
            views(added@) == extend(views(list@), self@, threshold, v),
            forall|i: int|
                0 <= i < added@.len() ==> (#[trigger] added@[i]).wf() && exists|j: int|
                    0 <= j < list@.len() && added@[i].spec_dimension() == (
                    #[trigger] list@[j]).spec_dimension() + 1,
    {
        let mut added: Vec<Simplex> = Vec::new();
        let mut i: usize = 0;
        while i < list.len()
            invariant
                i <= list@.len(),
                self.wf(),
                v < self@.len(),
                forall|a: int|
                    0 <= a < list@.len() ==> (#[trigger] list@[a]).wf() && is_clique(
                        self@,
                        threshold,
                        list@[a]@,
                    ) && list@[a]@.last() < v,
                views(added@) == extend(views(list@).take(i as int), self@, threshold, v),
                forall|a: int|
                    0 <= a < added@.len() ==> (#[trigger] added@[a]).wf() && exists|j: int|
                        0 <= j < list@.len() && added@[a].spec_dimension() == (
                        #[trigger] list@[j]).spec_dimension() + 1,
            decreases list.len() - i,
        {
            let cell = &list[i];
            assert(list@[i as int].wf());
            let ghost before = views(added@);
            let ghost old_added = added@;
            proof {
                assert(views(list@).take(i + 1).drop_last() =~= views(list@).take(i as int));
                assert(views(list@).take(i + 1).last() == cell@);
            }
            if self.reaches(threshold, cell, v) {
                let cone = cell.extended(v);
                added.push(cone);
                assert(views(added@) =~= before.push(cell@.push(v)));
                assert forall|a: int| 0 <= a < added@.len() implies (#[trigger] added@[a]).wf()
                    && exists|j: int|
                    0 <= j < list@.len() && added@[a].spec_dimension() == (
                    #[trigger] list@[j]).spec_dimension() + 1 by {
                    if a < old_added.len() {
                        assert(added@[a] == old_added[a]);
                    } else {
                        assert(added@[a].spec_dimension() == list@[i as int].spec_dimension() + 1);
                    }
                }
            }
            i = i + 1;
        }
        assert(views(list@).take(list@.len() as int) =~= views(list@));
        added
    }
}

/// Vietoris-Rips complexes of a cloud of points.
pub struct VietorisRips {}

impl VietorisRips {
    /// The Vietoris-Rips complex of the cloud at the given threshold: the
    /// points are its vertices, and a set of points spans a simplex exactly
    /// when any two of them are within the threshold of each other.
    pub fn build(table: &DistanceTable, threshold: u64, config: &Reserved) -> (complex:
        SimplicialComplex)
        requires
            table.wf(),
        ensures
            complex.wf(),
            is_rips(complex@, table@, threshold),
    {
        let n = table.len();
        let ghost t = table@;
        let r = threshold;
        let mut levels: Vec<Vec<Simplex>> = Vec::new();
        let mut m: usize = 0;
        while m < n
            invariant
                m <= n,
                n == t.len(),
                t == table@,
                table.wf(),
                forall|d: int|
                    0 <= d < levels@.len() ==> views((#[trigger] levels@[d])@) == cliques(
                        t,
                        r,
                        m as nat,
                        (d + 1) as nat,
                    ) && levels@[d]@.len() > 0,
                forall|k: nat| k > levels@.len() ==> (#[trigger] cliques(t, r, m as nat, k)).len() == 0,
                forall|d: int, i: int|
                    0 <= d < levels@.len() && 0 <= i < levels@[d]@.len() ==> (
                    #[trigger] levels@[d]@[i]).wf() && levels@[d]@[i].spec_dimension() == d,
            decreases n - m,
        {
            let top = levels.len();
            let ghost start = levels@;
            let mut fresh: Vec<Simplex> = Vec::new();
            if top >= 1 {
                proof {
                    lemma_level_is_cliques(t, r, m as nat, top as nat, levels@[top - 1]@);
                }
                fresh = table.extensions(r, &levels[top - 1], m);
                assert(views(fresh@) == extend(
                    cliques(t, r, m as nat, top as nat),
                    t,
                    r,
                    m,
                ));
            }
            let mut d: usize = if top >= 1 {
                top - 1
            } else {
                0
            };
            while d >= 1
                invariant
                    d < top || (top == 0 && d == 0),
                    top == start.len(),
                    levels@.len() == top,
                    m < n,
                    n == t.len(),
                    t == table@,
                    table.wf(),
                    forall|e: int|
                        0 <= e <= d && e < top ==> views((#[trigger] levels@[e])@) == cliques(
                            t,
                            r,
                            m as nat,
                            (e + 1) as nat,
                        ),
                    forall|e: int|
                        d < e < top ==> views((#[trigger] levels@[e])@) == cliques(
                            t,
                            r,
                            (m + 1) as nat,
                            (e + 1) as nat,
                        ),
                    forall|e: int| 0 <= e < top ==> (#[trigger] levels@[e])@.len() > 0,
                    forall|e: int, i: int|
                        0 <= e < levels@.len() && 0 <= i < levels@[e]@.len() ==> (
                        #[trigger] levels@[e]@[i]).wf() && levels@[e]@[i].spec_dimension() == e,
                decreases d,
            {
                proof {
                    lemma_level_is_cliques(t, r, m as nat, d as nat, levels@[d - 1]@);
                }
                let mut added = table.extensions(r, &levels[d - 1], m);
                let ghost before = levels@;
                let ghost added_cells = added@;
                levels[d].append(&mut added);
                proof {
                    assert(levels@.len() == before.len());
                    assert(forall|e: int| 0 <= e < top && e != d ==> levels@[e] == before[e]);
                    assert(levels@[d as int]@ == before[d as int]@ + added_cells);
                    assert(views(levels@[d as int]@) =~= views(before[d as int]@) + views(
                        added_cells,
                    ));
                    assert(views(added_cells) == extend(
                        cliques(t, r, m as nat, d as nat),
                        t,
                        r,
                        m,
                    ));
                    assert(views(levels@[d as int]@) == cliques(
                        t,
                        r,
                        (m + 1) as nat,
                        (d + 1) as nat,
                    ));
                    assert forall|e: int, i: int|
                        0 <= e < levels@.len() && 0 <= i < levels@[e]@.len() implies (
                    #[trigger] levels@[e]@[i]).wf() && levels@[e]@[i].spec_dimension() == e by {
                        if e == d {
                            if i < before[d as int]@.len() {
                                assert(levels@[e]@[i] == before[e]@[i]);
                            } else {
                                let a = i - before[d as int]@.len();
                                assert(levels@[e]@[i] == added_cells[a]);
                                assert(added_cells[a].wf());
                                let j = choose|j: int|
                                    0 <= j < before[d - 1]@.len() && added_cells[a].spec_dimension()
                                        == (#[trigger] before[d - 1]@[j]).spec_dimension() + 1;
                                assert(before[d - 1]@[j].spec_dimension() == d - 1);
                            }
                        } else {
                            assert(levels@[e]@[i] == before[e]@[i]);
                        }
                    }
                }
                d = d - 1;
            }
            let point = Simplex::vertex(m);
            if top >= 1 {
                let ghost before = levels@;
                levels[0].push(point);
                proof {
                    assert(forall|e: int| 1 <= e < top ==> levels@[e] == before[e]);
                    assert(levels@[0]@ == before[0]@.push(point));
                    assert(views(levels@[0]@) =~= views(before[0]@).push(seq![m]));
                    assert(views(levels@[0]@) == cliques(t, r, (m + 1) as nat, 1));
                    assert forall|e: int, i: int|
                        0 <= e < levels@.len() && 0 <= i < levels@[e]@.len() implies (
                    #[trigger] levels@[e]@[i]).wf() && levels@[e]@[i].spec_dimension() == e by {
                        if e == 0 {
                            if i < before[0]@.len() {
                                assert(levels@[e]@[i] == before[e]@[i]);
                            }
                        } else {
                            assert(levels@[e]@[i] == before[e]@[i]);
                        }
                    }
                }
            } else {
                let mut ground: Vec<Simplex> = Vec::new();
                ground.push(point);
                levels.push(ground);
                proof {
                    assert(views(levels@[0]@) =~= Seq::<Seq<usize>>::empty().push(seq![m]));
                    assert(cliques(t, r, m as nat, 1).len() == 0);
                    assert(cliques(t, r, m as nat, 1) =~= Seq::<Seq<usize>>::empty());
                    assert(views(levels@[0]@) == cliques(t, r, (m + 1) as nat, 1));
                }
            }
            let ghost grown = fresh@.len() > 0;
            let ghost fresh_cells = fresh@;
            if fresh.len() > 0 {
                let ghost before = levels@;
                levels.push(fresh);
                proof {
                    assert(forall|e: int| 0 <= e < top ==> levels@[e] == before[e]);
                    assert(levels@[top as int] == fresh);
                    assert forall|e: int, i: int|
                        0 <= e < levels@.len() && 0 <= i < levels@[e]@.len() implies (
                    #[trigger] levels@[e]@[i]).wf() && levels@[e]@[i].spec_dimension() == e by {
                        if e == top {
                            assert(fresh_cells[i].wf());
                            let j = choose|j: int|
                                0 <= j < start[top - 1]@.len() && fresh_cells[i].spec_dimension()
                                    == (#[trigger] start[top - 1]@[j]).spec_dimension() + 1;
                            assert(start[top - 1]@[j].spec_dimension() == top - 1);
                        } else {
                            assert(levels@[e]@[i] == before[e]@[i]);
                        }
                    }
                }
            }
            proof {
                assert forall|k: nat| k > levels@.len() implies (#[trigger] cliques(
                    t,
                    r,
                    (m + 1) as nat,
                    k,
                )).len() == 0 by {
                    assert(cliques(t, r, m as nat, k).len() == 0);
                    let lower = cliques(t, r, m as nat, (k - 1) as nat);
                    if k - 1 > top {
                        assert(lower.len() == 0);
                    } else {
                        assert(!grown);
                        assert(top >= 1);
                        assert(views(fresh_cells).len() == 0);
                    }
                    assert(extend(lower, t, r, m).len() == 0);
                    assert(cliques(t, r, (m + 1) as nat, k) =~= cliques(t, r, m as nat, k)
                        + extend(lower, t, r, m));
                }
                if top >= 1 && grown {
                    assert(cliques(t, r, m as nat, (top + 1) as nat).len() == 0);
                    assert(views(levels@[top as int]@) =~= cliques(
                        t,
                        r,
                        (m + 1) as nat,
                        (top + 1) as nat,
                    ));
                }
            }
            m = m + 1;
        }
        proof {
            let c = cell_views(levels@);
            assert forall|d: int| 0 <= d implies #[trigger] level(c, d) == cliques(
                t,
                r,
                t.len(),
                (d + 1) as nat,
            ) by {
                if d < levels@.len() {
                    assert(c[d] =~= views(levels@[d]@));
                } else {
                    assert(cliques(t, r, n as nat, (d + 1) as nat).len() == 0);
                    assert(level(c, d) =~= cliques(t, r, t.len(), (d + 1) as nat));
                }
            }
            assert forall|d: int| 0 <= d < c.len() implies (#[trigger] c[d]).len() > 0 by {
                assert(levels@[d]@.len() > 0);
            }
            lemma_rips_wf(c, t, r);
        }
        SimplicialComplex::from_cells(levels)
    }

    /// One complex for each threshold, in the order of the thresholds, each
    /// built on its own.
    pub fn build_serial(table: &DistanceTable, thresholds: &Vec<u64>, config: &Reserved) -> (out:
        Vec<(u64, SimplicialComplex)>)
        requires
            table.wf(),
        ensures
            out@.len() == thresholds@.len(),
            forall|i: int|
                0 <= i < out@.len() ==> {
                    &&& (#[trigger] out@[i]).0 == thresholds@[i]
                    &&& out@[i].1.wf()
                    &&& is_rips(out@[i].1@, table@, thresholds@[i])
                },
    {
        let mut out: Vec<(u64, SimplicialComplex)> = Vec::new();
        let mut i: usize = 0;
        while i < thresholds.len()
            invariant
                i <= thresholds@.len(),
                table.wf(),
                out@.len() == i,
                forall|j: int|
                    0 <= j < i ==> {
                        &&& (#[trigger] out@[j]).0 == thresholds@[j]
                        &&& out@[j].1.wf()
                        &&& is_rips(out@[j].1@, table@, thresholds@[j])
                    },
            decreases thresholds.len() - i,
        {
            let complex = Self::build(table, thresholds[i], config);
            out.push((thresholds[i], complex));
            i = i + 1;
        }
        out
    }

    /// The tasks of a run over the given thresholds: one for each threshold,
    /// tagged with its place in the request.
    pub fn schedule(thresholds: &Vec<u64>) -> (tasks: Vec<Task>)
        ensures
            tasks@.len() == thresholds@.len(),
            forall|i: int|
                0 <= i < tasks@.len() ==> (#[trigger] tasks@[i]).index == i && tasks@[i].threshold
                    == thresholds@[i],
    {
        let mut tasks: Vec<Task> = Vec::new();
        let mut i: usize = 0;
        while i < thresholds.len()
            invariant
                i <= thresholds@.len(),
                tasks@.len() == i,
                forall|j: int|
                    0 <= j < i ==> (#[trigger] tasks@[j]).index == j && tasks@[j].threshold
                        == thresholds@[j],
            decreases thresholds.len() - i,
        {
            tasks.push(Task { index: i, threshold: thresholds[i] });
            i = i + 1;
        }
        tasks
    }

    /// Carries out one task: builds the complex at its threshold and tags it
    /// as the task is tagged. Tasks share nothing but the table, which they
    /// only read.
    pub fn run(table: &DistanceTable, task: &Task, config: &Reserved) -> (outcome: Outcome)
        requires
            table.wf(),
        ensures
            outcome.index == task.index,
            outcome.threshold == task.threshold,
            outcome.complex.wf(),
            is_rips(outcome.complex@, table@, task.threshold),
    {
        let complex = Self::build(table, task.threshold, config);
        Outcome { index: task.index, threshold: task.threshold, complex }
    }

    /// Puts the outcomes of `count` tasks back into request order, in
    /// whatever order they arrive. Fails with a shape mismatch unless there
    /// are `count` outcomes, and with a lookup failure where no outcome
    /// carries some tag below `count`.
    pub fn gather(outcomes: Vec<Outcome>, count: usize) -> (out: Result<
        Vec<(u64, SimplicialComplex)>,
        TopologyError,
    >)
        ensures
            out is Ok <==> outcomes@.len() == count && forall|i: int|
                0 <= i < count ==> #[trigger] tagged(outcomes@, i),
            out matches Err(e) ==> e == if outcomes@.len() != count {
                TopologyError::DimensionMismatch
            } else {
                TopologyError::Lookup
            },
            out matches Ok(list) ==> list@.len() == count && forall|i: int|
                0 <= i < count ==> answers(outcomes@, i, #[trigger] list@[i]),
    {
        if outcomes.len() != count {
            return Err(TopologyError::DimensionMismatch);
        }
        let mut waiting = outcomes;
        let mut list: Vec<(u64, SimplicialComplex)> = Vec::new();
        let mut i: usize = 0;
        while i < count
            invariant
                i <= count,
                outcomes@.len() == count,
                list@.len() == i,
                forall|j: int|
                    0 <= j < outcomes@.len() ==> (#[trigger] outcomes@[j]).index < i
                        || waiting@.contains(outcomes@[j]),
                forall|a: int|
                    0 <= a < waiting@.len() ==> outcomes@.contains(#[trigger] waiting@[a]),
                forall|b: int| 0 <= b < i ==> answers(outcomes@, b, #[trigger] list@[b]),
            decreases count - i,
        {
            let mut at: usize = 0;
            let mut found = false;
            while at < waiting.len()
                invariant_except_break
                    !found,
                invariant
                    at <= waiting@.len(),
                    forall|a: int| 0 <= a < at ==> (#[trigger] waiting@[a]).index != i,
                ensures
                    found ==> at < waiting@.len() && waiting@[at as int].index == i,
                    !found ==> forall|a: int|
                        0 <= a < waiting@.len() ==> (#[trigger] waiting@[a]).index != i,
                decreases waiting.len() - at,
            {
                if waiting[at].index == i {
                    found = true;
                    break ;
                }
                at = at + 1;
            }
            if !found {
                proof {
                    assert forall|j: int| 0 <= j < outcomes@.len() implies (
                    #[trigger] outcomes@[j]).index != i by {
                        if outcomes@[j].index == i {
                            assert(waiting@.contains(outcomes@[j]));
                            let a = choose|a: int|
                                0 <= a < waiting@.len() && waiting@[a] == outcomes@[j];
                            assert(waiting@[a].index != i);
                        }
                    }
                    assert(!tagged(outcomes@, i as int));
                }
                return Err(TopologyError::Lookup);
            }
            let ghost before = waiting@;
            let ghost done = list@;
            let taken = waiting.swap_remove(at);
            proof {
                assert(taken == before[at as int]);
                assert(outcomes@.contains(taken));
                assert forall|a: int| 0 <= a < waiting@.len() implies outcomes@.contains(
                    #[trigger] waiting@[a],
                ) by {
                    if a == at {
                        assert(waiting@[a] == before[before.len() - 1]);
                    } else {
                        assert(waiting@[a] == before[a]);
                    }
                }
                assert forall|j: int| 0 <= j < outcomes@.len() implies (
                #[trigger] outcomes@[j]).index < i + 1 || waiting@.contains(outcomes@[j]) by {
                    if outcomes@[j].index >= i + 1 {
                        assert(before.contains(outcomes@[j]));
                        let a = choose|a: int| 0 <= a < before.len() && before[a] == outcomes@[j];
                        assert(a != at);
                        if a == before.len() - 1 {
                            assert(waiting@[at as int] == outcomes@[j]);
                        } else {
                            assert(waiting@[a] == outcomes@[j]);
                        }
                    }
                }
            }
            let Outcome { index, threshold, complex } = taken;
            list.push((threshold, complex));
            proof {
                let j0 = choose|j: int| 0 <= j < outcomes@.len() && outcomes@[j] == taken;
                assert forall|b: int| 0 <= b < i + 1 implies answers(
                    outcomes@,
                    b,
                    #[trigger] list@[b],
                ) by {
                    if b < i {
                        assert(list@[b] == done[b]);
                    } else {
                        assert(outcomes@[j0].index == b && outcomes@[j0].threshold == list@[b].0
                            && outcomes@[j0].complex == list@[b].1);
                    }
                }
            }
            i = i + 1;
        }
        proof {
            assert forall|b: int| 0 <= b < count implies #[trigger] tagged(outcomes@, b) by {
                assert(answers(outcomes@, b, list@[b]));
            }
        }
        Ok(list)
    }
}

/// Some outcome carries the tag `i`.
pub open spec fn tagged(outcomes: Seq<Outcome>, i: int) -> bool {
    exists|j: int| 0 <= j < outcomes.len() && (#[trigger] outcomes[j]).index == i
}

/// The item is what an outcome with the tag `i` gave.
pub open spec fn answers(outcomes: Seq<Outcome>, i: int, item: (u64, SimplicialComplex)) -> bool {
    exists|j: int|
        0 <= j < outcomes.len() && (#[trigger] outcomes[j]).index == i && outcomes[j].threshold
            == item.0 && outcomes[j].complex == item.1
}

/// Every cell of a generated list is a clique whose points come before `m`.
pub proof fn lemma_level_is_cliques(t: Distances, r: u64, m: nat, k: nat, list: Seq<Simplex>)
    requires
        m <= t.len(),
        m <= usize::MAX,
        k >= 1,
        views(list) == cliques(t, r, m, k),
    ensures
        forall|i: int|
            0 <= i < list.len() ==> is_clique(t, r, (#[trigger] list[i])@) && list[i]@.last() < m,
{
    assert forall|i: int| 0 <= i < list.len() implies is_clique(t, r, (#[trigger] list[i])@)
        && list[i]@.last() < m by {
        assert(views(list)[i] == list[i]@);
        assert(cliques(t, r, m, k).contains(list[i]@));
        lemma_clique_members(t, r, m, k, list[i]@);
    }
}

/// The members of an extended list.
pub proof fn lemma_extend_members(
    list: Seq<Seq<usize>>,
    t: Distances,
    r: u64,
    v: usize,
    x: Seq<usize>,
)
    ensures
        extend(list, t, r, v).contains(x) <==> exists|i: int|
            0 <= i < list.len() && close_to_all(t, r, #[trigger] list[i], v as int) && x
                == list[i].push(v),
    decreases list.len(),
{
    if list.len() > 0 {
        let front = list.drop_last();
        lemma_extend_members(front, t, r, v, x);
        if extend(list, t, r, v).contains(x) {
            if extend(front, t, r, v).contains(x) {
                let i = choose|i: int|
                    0 <= i < front.len() && close_to_all(t, r, #[trigger] front[i], v as int) && x
                        == front[i].push(v);
                assert(list[i] == front[i]);
            } else {
                assert(x == list[list.len() - 1].push(v));
            }
        }
        if exists|i: int|
            0 <= i < list.len() && close_to_all(t, r, #[trigger] list[i], v as int) && x
                == list[i].push(v) {
            let i = choose|i: int|
                0 <= i < list.len() && close_to_all(t, r, #[trigger] list[i], v as int) && x
                    == list[i].push(v);
            if i < list.len() - 1 {
                assert(front[i] == list[i]);
                assert(extend(front, t, r, v).contains(x));
            } else {
                let e = extend(list, t, r, v);
                assert(e[e.len() - 1] == x);
            }
        }
    }
}

/// Extending a list without repetitions gives one without repetitions.
pub proof fn lemma_extend_distinct(list: Seq<Seq<usize>>, t: Distances, r: u64, v: usize)
    requires
        list.no_duplicates(),
    ensures
        extend(list, t, r, v).no_duplicates(),
    decreases list.len(),
{
    if list.len() > 0 {
        let front = list.drop_last();
        lemma_extend_distinct(front, t, r, v);
        if close_to_all(t, r, list.last(), v as int) {
            let x = list.last().push(v);
            lemma_extend_members(front, t, r, v, x);
            if extend(front, t, r, v).contains(x) {
                let i = choose|i: int|
                    0 <= i < front.len() && close_to_all(t, r, #[trigger] front[i], v as int) && x
                        == front[i].push(v);
                assert(front[i].push(v).drop_last() =~= front[i]);
                assert(list.last().push(v).drop_last() =~= list.last());
                assert(list[i] == list[list.len() - 1]);
            }
        }
    }
}

/// The generated list of a size holds exactly the cliques of that size.
pub proof fn lemma_clique_members(t: Distances, r: u64, m: nat, k: nat, s: Seq<usize>)
    requires
        m <= t.len(),
        m <= usize::MAX,
        k >= 1,
    ensures
        cliques(t, r, m, k).contains(s) <==> is_clique(t, r, s) && s.len() == k && s.last() < m,
    decreases m,
{
    if m > 0 {
        let v = (m - 1) as usize;
        let before = cliques(t, r, (m - 1) as nat, k);
        lemma_clique_members(t, r, (m - 1) as nat, k, s);
        if k == 1 {
            let all = cliques(t, r, m, 1);
            if all.contains(s) && !before.contains(s) {
                assert(s == seq![v]);
            }
            if is_clique(t, r, s) && s.len() == 1 && s.last() < m {
                if s[0] == v {
                    assert(s =~= seq![v]);
                    assert(all[all.len() - 1] == s);
                }
            }
        } else {
            let smaller = cliques(t, r, (m - 1) as nat, (k - 1) as nat);
            let added = extend(smaller, t, r, v);
            lemma_extend_members(smaller, t, r, v, s);
            if added.contains(s) {
                let i = choose|i: int|
                    0 <= i < smaller.len() && close_to_all(t, r, #[trigger] smaller[i], v as int)
                        && s == smaller[i].push(v);
                let sigma = smaller[i];
                lemma_clique_members(t, r, (m - 1) as nat, (k - 1) as nat, sigma);
                assert(smaller.contains(sigma));
                assert forall|a: int, b: int| 0 <= a < b < s.len() implies s[a] < s[b] by {
                    if b < sigma.len() {
                        assert(sigma[a] < sigma[b]);
                    } else if a < sigma.len() - 1 {
                        assert(sigma[a] < sigma[sigma.len() - 1]);
                    }
                }
                assert forall|a: int, b: int| 0 <= a < b < s.len() implies t[(
                #[trigger] s[a]) as int][(#[trigger] s[b]) as int] <= r by {
                    if b < sigma.len() {
                        assert(t[sigma[a] as int][sigma[b] as int] <= r);
                    } else {
                        assert(t[sigma[a] as int][v as int] <= r);
                    }
                }
                assert forall|a: int| 0 <= a < s.len() implies (#[trigger] s[a]) < t.len() by {
                    if a < sigma.len() {
                        assert(sigma[a] < t.len());
                    }
                }
            }
            if is_clique(t, r, s) && s.len() == k && s.last() < m && s.last() == v {
                let sigma = s.drop_last();
                assert(s =~= sigma.push(v));
                assert forall|a: int, b: int| 0 <= a < b < sigma.len() implies t[(
                #[trigger] sigma[a]) as int][(#[trigger] sigma[b]) as int] <= r by {
                    assert(t[s[a] as int][s[b] as int] <= r);
                }
                assert forall|a: int| 0 <= a < sigma.len() implies (#[trigger] sigma[a])
                    < t.len() by {
                    assert(s[a] < t.len());
                }
                assert(strictly_increasing(sigma)) by {
                    assert forall|a: int, b: int| 0 <= a < b < sigma.len() implies sigma[a]
                        < sigma[b] by {
                        assert(s[a] < s[b]);
                    }
                }
                assert(sigma.last() < v) by {
                    assert(s[sigma.len() - 1] < s[s.len() - 1]);
                }
                lemma_clique_members(t, r, (m - 1) as nat, (k - 1) as nat, sigma);
                assert(close_to_all(t, r, sigma, v as int)) by {
                    assert forall|a: int| 0 <= a < sigma.len() implies t[(
                    #[trigger] sigma[a]) as int][v as int] <= r by {
                        assert(t[s[a] as int][s[s.len() - 1] as int] <= r);
                    }
                }
                let i = choose|i: int| 0 <= i < smaller.len() && smaller[i] == sigma;
                assert(close_to_all(t, r, smaller[i], v as int) && s == smaller[i].push(v));
            }
        }
    }
}

/// No clique is generated twice.
pub proof fn lemma_cliques_distinct(t: Distances, r: u64, m: nat, k: nat)
    requires
        m <= t.len(),
        m <= usize::MAX,
    ensures
        cliques(t, r, m, k).no_duplicates(),
    decreases m,
{
    if m > 0 && k > 0 {
        let v = (m - 1) as usize;
        let before = cliques(t, r, (m - 1) as nat, k);
        lemma_cliques_distinct(t, r, (m - 1) as nat, k);
        if k == 1 {
            lemma_clique_members(t, r, (m - 1) as nat, 1, seq![v]);
        } else {
            let smaller = cliques(t, r, (m - 1) as nat, (k - 1) as nat);
            let added = extend(smaller, t, r, v);
            lemma_cliques_distinct(t, r, (m - 1) as nat, (k - 1) as nat);
            lemma_extend_distinct(smaller, t, r, v);
            assert forall|i: int, j: int|
                0 <= i < before.len() && 0 <= j < added.len() implies before[i] != added[j] by {
                lemma_clique_members(t, r, (m - 1) as nat, k, before[i]);
                lemma_extend_members(smaller, t, r, v, added[j]);
                assert(before.contains(before[i]));
                assert(added.contains(added[j]));
            }
            vstd::seq_lib::lemma_no_dup_in_concat(before, added);
        }
    }
}

/// A face of a clique of two points or more is a clique.
pub proof fn lemma_face_of_clique(t: Distances, r: u64, s: Seq<usize>, p: int)
    requires
        is_clique(t, r, s),
        s.len() >= 2,
        0 <= p < s.len(),
    ensures
        is_clique(t, r, s.remove(p)),
{
    let f = s.remove(p);
    lemma_remove_keeps_order(s, p);
    assert forall|i: int| 0 <= i < f.len() implies (#[trigger] f[i]) < t.len() by {
        let a = if i < p { i } else { i + 1 };
        assert(s[a] < t.len());
    }
    assert forall|i: int, j: int| 0 <= i < j < f.len() implies t[(#[trigger] f[i]) as int][(
    #[trigger] f[j]) as int] <= r by {
        let a = if i < p { i } else { i + 1 };
        let b = if j < p { j } else { j + 1 };
        assert(t[s[a] as int][s[b] as int] <= r);
    }
}

/// The table of a Vietoris-Rips complex is a well-formed table of cells.
pub proof fn lemma_rips_wf(c: CellTable, t: Distances, r: u64)
    requires
        is_rips(c, t, r),
        t.len() <= usize::MAX,
    ensures
        table_wf(c),
{
    let n = t.len();
    assert forall|d: int, i: int| 0 <= d < c.len() && 0 <= i < c[d].len() implies strictly_increasing(
        #[trigger] c[d][i],
    ) && c[d][i].len() == d + 1 by {
        assert(level(c, d) == cliques(t, r, n, (d + 1) as nat));
        assert(c[d].contains(c[d][i]));
        lemma_clique_members(t, r, n, (d + 1) as nat, c[d][i]);
    }
    assert forall|d: int| 0 <= d < c.len() implies (#[trigger] c[d]).no_duplicates() by {
        assert(level(c, d) == cliques(t, r, n, (d + 1) as nat));
        lemma_cliques_distinct(t, r, n, (d + 1) as nat);
    }
    assert forall|d: int, i: int, p: int|
        1 <= d < c.len() && 0 <= i < c[d].len() && 0 <= p <= d implies c[d - 1].contains(
        #[trigger] c[d][i].remove(p),
    ) by {
        let s = c[d][i];
        assert(level(c, d) == cliques(t, r, n, (d + 1) as nat));
        assert(level(c, d - 1) == cliques(t, r, n, d as nat));
        assert(c[d].contains(s));
        lemma_clique_members(t, r, n, (d + 1) as nat, s);
        lemma_face_of_clique(t, r, s, p);
        let f = s.remove(p);
        assert(f.last() < n) by {
            assert(f[f.len() - 1] < t.len());
        }
        lemma_clique_members(t, r, n, d as nat, f);
    }
}

/// The cells of a Vietoris-Rips complex are exactly the cliques of the
/// threshold graph: a simplex is listed exactly when all its vertices are
/// points of the cloud and any two of them are within the threshold.
pub proof fn lemma_rips_cells(c: CellTable, t: Distances, r: u64, s: Seq<usize>)
    requires
        is_rips(c, t, r),
        t.len() <= usize::MAX,
    ensures
        holds(c, s) <==> is_clique(t, r, s),
{
    if s.len() >= 1 {
        assert(level(c, s.len() - 1) == cliques(t, r, t.len(), s.len()));
        lemma_clique_members(t, r, t.len(), s.len(), s);
        if is_clique(t, r, s) {
            assert(s[s.len() - 1] < t.len());
        }
    }
}

/// Identical cloud and threshold give a structurally identical complex:
/// the same cells under the same handles.
pub proof fn lemma_rips_unique(a: CellTable, b: CellTable, t: Distances, r: u64)
    requires
        is_rips(a, t, r),
        is_rips(b, t, r),
    ensures
        a == b,
{
    if a.len() < b.len() {
        assert(level(a, a.len() as int) == level(b, a.len() as int));
        assert(b[a.len() as int].len() > 0);
    }
    if b.len() < a.len() {
        assert(level(a, b.len() as int) == level(b, b.len() as int));
        assert(a[b.len() as int].len() > 0);
    }
    assert forall|d: int| 0 <= d < a.len() implies a[d] == b[d] by {
        assert(level(a, d) == level(b, d));
    }
    assert(a =~= b);
}

/// The filtration is monotone: every cell of the complex at a threshold is
/// a cell of the complex at any larger threshold.
pub proof fn lemma_filtration_monotone(
    a: CellTable,
    b: CellTable,
    t: Distances,
    r1: u64,
    r2: u64,
    s: Seq<usize>,
)
    requires
        is_rips(a, t, r1),
        is_rips(b, t, r2),
        t.len() <= usize::MAX,
        r1 <= r2,
        holds(a, s),
    ensures
        holds(b, s),
{
    lemma_rips_cells(a, t, r1, s);
    lemma_rips_cells(b, t, r2, s);
}

/// The results of a run over several thresholds are determined by the cloud
/// and the thresholds: two runs that each give, for every threshold in
/// request order, the Vietoris-Rips complex at that threshold give the same
/// sequence, whatever order the complexes were computed in.
pub proof fn lemma_runs_agree(
    t: Distances,
    thresholds: Seq<u64>,
    first: Seq<(u64, CellTable)>,
    second: Seq<(u64, CellTable)>,
)
    requires
        first.len() == thresholds.len(),
        second.len() == thresholds.len(),
        forall|i: int|
            0 <= i < thresholds.len() ==> (#[trigger] first[i]).0 == thresholds[i] && is_rips(
                first[i].1,
                t,
                thresholds[i],
            ),
        forall|i: int|
            0 <= i < thresholds.len() ==> (#[trigger] second[i]).0 == thresholds[i] && is_rips(
                second[i].1,
                t,
                thresholds[i],
            ),
    ensures
        first == second,
{
    assert forall|i: int| 0 <= i < thresholds.len() implies first[i] == second[i] by {
        lemma_rips_unique(first[i].1, second[i].1, t, thresholds[i]);
    }
    assert(first =~= second);
}

} // verus!
