//! Undirected graphs on `usize` vertices, seen as topological and metric
//! spaces: the neighbourhood of a point is the set of its neighbours, and the
//! distance between two points is the least number of edges that joins them.

use std::collections::HashSet;
use vstd::prelude::*;
use vstd::std_specs::iter::IteratorSpec;

verus! {

broadcast use {
    vstd::std_specs::hash::group_hash_axioms,
    vstd::seq_lib::group_seq_properties,
    vstd::set::group_set_axioms,
};

/// What a membership query on a graph can ask about.
#[derive(Clone, Copy, Debug, PartialEq, Eq, Structural)]
pub enum VertexOrEdge {
    Vertex(usize),
    Edge(usize, usize),
}

/// A graph whose edges have no direction. Each edge is stored once, with its
/// smaller endpoint first.
pub struct UndirectedGraph {
    pub vertices: HashSet<usize>,
    pub edges: Vec<(usize, usize)>,
}

/// The pair with its smaller component first.
pub open spec fn canonical(e: (usize, usize)) -> (usize, usize) {
    if e.0 <= e.1 {
        e
    } else {
        (e.1, e.0)
    }
}

/// The pairs as a graph stores them: each with its smaller component
/// first, once, in the order in which they first occur.
pub open spec fn stored(pairs: Seq<(usize, usize)>) -> Seq<(usize, usize)>
    decreases pairs.len(),
{
    if pairs.len() == 0 {
        Seq::empty()
    } else {
        let front = stored(pairs.drop_last());
        let e = canonical(pairs.last());
        if front.contains(e) {
            front
        } else {
            front.push(e)
        }
    }
}

/// The stored pairs hold no pair twice, and hold a pair exactly when it is
/// the canonical form of one of the given pairs.
pub proof fn lemma_stored(pairs: Seq<(usize, usize)>)
    ensures
        stored(pairs).no_duplicates(),
        forall|e: (usize, usize)|
            stored(pairs).contains(e) <==> exists|i: int|
                0 <= i < pairs.len() && e == canonical(#[trigger] pairs[i]),
    decreases pairs.len(),
{
    if pairs.len() > 0 {
        let rest = pairs.drop_last();
        let front = stored(rest);
        let last = canonical(pairs.last());
        lemma_stored(rest);
        assert forall|e: (usize, usize)| stored(pairs).contains(e) <==> exists|i: int|
            0 <= i < pairs.len() && e == canonical(#[trigger] pairs[i]) by {
            if stored(pairs).contains(e) {
                if front.contains(e) {
                    let i = choose|i: int| 0 <= i < rest.len() && e == canonical(#[trigger] rest[i]);
                    assert(rest[i] == pairs[i]);
                } else {
                    assert(e == last);
                    assert(e == canonical(pairs[pairs.len() - 1]));
                }
            }
            if exists|i: int| 0 <= i < pairs.len() && e == canonical(#[trigger] pairs[i]) {
                let i = choose|i: int| 0 <= i < pairs.len() && e == canonical(#[trigger] pairs[i]);
                if i < rest.len() {
                    assert(rest[i] == pairs[i]);
                    assert(front.contains(e));
                    let j = choose|j: int| 0 <= j < front.len() && front[j] == e;
                    assert(stored(pairs)[j] == e);
                } else {
                    if !front.contains(e) {
                        assert(stored(pairs)[front.len() as int] == e);
                    }
                }
            }
        }
    }
}

impl UndirectedGraph {
    /// Every edge is stored in canonical order, joins two vertices of the
    /// graph, and occurs once.
    pub open spec fn wf(&self) -> bool {
        &&& forall|i: int|
            0 <= i < self.edges@.len() ==> {
                &&& (#[trigger] self.edges@[i]).0 <= self.edges@[i].1
                &&& self.vertices@.contains(self.edges@[i].0)
                &&& self.vertices@.contains(self.edges@[i].1)
            }
        &&& self.edges@.no_duplicates()
    }

    /// An edge joins `u` and `v`, in either direction.
    pub open spec fn adjacent(&self, u: usize, v: usize) -> bool {
        self.edges@.contains((u, v)) || self.edges@.contains((v, u))
    }

    /// Consecutive entries of `p` are adjacent, and `p` is not empty.
    pub open spec fn is_walk(&self, p: Seq<usize>) -> bool {
        &&& p.len() > 0
        &&& forall|i: int| 0 <= i < p.len() - 1 ==> self.adjacent(#[trigger] p[i], p[i + 1])
    }

    /// Some walk with exactly `n` edges leads from `a` to `b`.
    pub open spec fn joins(&self, a: usize, b: usize, n: nat) -> bool {
        exists|p: Seq<usize>|
            #[trigger] self.is_walk(p) && p.len() == n + 1 && p[0] == a && p[n as int] == b
    }

    /// The points that `a` reaches along walks of at most `n` edges.
    pub open spec fn ball(&self, a: usize, n: nat) -> Set<usize>
        decreases n,
    {
        if n == 0 {
            set![a]
        } else {
            let inner = self.ball(a, (n - 1) as nat);
            inner.union(
                Set::new(|v: usize| exists|u: usize| inner.contains(u) && self.adjacent(u, v)),
            )
        }
    }

    /// The endpoints of all edges, as a sequence.
    pub open spec fn endpoints(&self) -> Seq<usize> {
        self.edges@.map_values(|e: (usize, usize)| e.0) + self.edges@.map_values(
            |e: (usize, usize)| e.1,
        )
    }

    /// Builds the graph on `vertices` whose edges are the pairs of `edges`,
    /// taken without direction and without repetition: each is stored with
    /// its smaller endpoint first, in the order in which the pairs first
    /// occur.
    pub fn new(vertices: HashSet<usize>, edges: Vec<(usize, usize)>) -> (graph: Self)
        requires
            forall|i: int|
                0 <= i < edges@.len() ==> vertices@.contains((#[trigger] edges@[i]).0)
                    && vertices@.contains(edges@[i].1),
        ensures
            graph.wf(),
            graph.vertices@ == vertices@,
            graph.edges@ == stored(edges@),
            forall|e: (usize, usize)|
                graph.edges@.contains(e) <==> exists|i: int|
                    0 <= i < edges@.len() && e == canonical(#[trigger] edges@[i]),
    {
        let mut kept: Vec<(usize, usize)> = Vec::new();
        let mut i: usize = 0;
        while i < edges.len()
            invariant
                i <= edges.len(),
                forall|k: int|
                    0 <= k < edges@.len() ==> vertices@.contains((#[trigger] edges@[k]).0)
                        && vertices@.contains(edges@[k].1),
                forall|k: int|
                    0 <= k < kept@.len() ==> {
                        &&& (#[trigger] kept@[k]).0 <= kept@[k].1
                        &&& vertices@.contains(kept@[k].0)
                        &&& vertices@.contains(kept@[k].1)
                    },
                kept@.no_duplicates(),
                kept@ == stored(edges@.take(i as int)),
                forall|e: (usize, usize)|
                    kept@.contains(e) <==> exists|k: int|
                        0 <= k < i && e == canonical(#[trigger] edges@[k]),
            decreases edges.len() - i,
        {
            let (a, b) = edges[i];
            let e = if a <= b {
                (a, b)
            } else {
                (b, a)
            };
            assert(e == canonical(edges@[i as int]));
            assert(edges@.take(i + 1).drop_last() == edges@.take(i as int));
            assert(edges@.take(i + 1).last() == edges@[i as int]);
            let present = pair_position(&kept, e).is_some();
            if !present {
                let ghost before = kept@;
                kept.push(e);
                assert forall|x: (usize, usize)| kept@.contains(x) <==> exists|k: int|
                    0 <= k < i + 1 && x == canonical(#[trigger] edges@[k]) by {
                    if kept@.contains(x) {
                        if before.contains(x) {
                            let k = choose|k: int| 0 <= k < i && x == canonical(#[trigger] edges@[k]);
                            assert(0 <= k < i + 1 && x == canonical(edges@[k]));
                        } else {
                            assert(x == e);
                            assert(0 <= i < i + 1 && x == canonical(edges@[i as int]));
                        }
                    }
                    if exists|k: int| 0 <= k < i + 1 && x == canonical(#[trigger] edges@[k]) {
                        let k = choose|k: int| 0 <= k < i + 1 && x == canonical(#[trigger] edges@[k]);
                        if k < i {
                            assert(before.contains(x));
                            let j = choose|j: int| 0 <= j < before.len() && before[j] == x;
                            assert(kept@[j] == x);
                        } else {
                            assert(kept@[kept@.len() - 1] == x);
                        }
                    }
                }
            } else {
                assert forall|x: (usize, usize)| kept@.contains(x) <==> exists|k: int|
                    0 <= k < i + 1 && x == canonical(#[trigger] edges@[k]) by {
                    if kept@.contains(x) {
                        let k = choose|k: int| 0 <= k < i && x == canonical(#[trigger] edges@[k]);
                        assert(0 <= k < i + 1 && x == canonical(edges@[k]));
                    }
                    if exists|k: int| 0 <= k < i + 1 && x == canonical(#[trigger] edges@[k]) {
                        let k = choose|k: int| 0 <= k < i + 1 && x == canonical(#[trigger] edges@[k]);
                        if k < i {
                        } else {
                            assert(x == e);
                        }
                    }
                }
            }
            i = i + 1;
        }
        assert(edges@.take(edges@.len() as int) == edges@);
        UndirectedGraph { vertices, edges: kept }
    }

    /// Whether the graph holds the given vertex, or an edge between the two
    /// given endpoints in either order.
    pub fn contains(&self, item: VertexOrEdge) -> (found: bool)
        ensures
            found == match item {
                VertexOrEdge::Vertex(v) => self.vertices@.contains(v),
                VertexOrEdge::Edge(a, b) => self.adjacent(a, b),
            },
    {
        match item {
            VertexOrEdge::Vertex(v) => self.vertices.contains(&v),
            VertexOrEdge::Edge(a, b) => {
                pair_position(&self.edges, (a, b)).is_some() || pair_position(
                    &self.edges,
                    (b, a),
                ).is_some()
            },
        }
    }

    /// The points of the space: the vertices of the graph.
    pub fn points(&self) -> (all: HashSet<usize>)
        ensures
            all@ == self.vertices@,
    {
        let mut all: HashSet<usize> = HashSet::new();
        for v in it: self.vertices.iter()
            invariant
                it.seq().unref().to_set() == self.vertices@,
                all@ == it.seq().unref().take(it.index() as int).to_set(),
                it.index() == it.seq().len() ==> it.seq().unref().take(it.index() as int)
                    == it.seq().unref(),
        {
            all.insert(*v);
            assert(it.seq().unref().take(it.index() + 1) == it.seq().unref().take(
                it.index() as int,
            ).push(*v));
        }
        all
    }

    /// The smallest open set around `point`: the vertices that share an edge
    /// with it.
    pub fn neighborhood(&self, point: usize) -> (around: HashSet<usize>)
        ensures
            forall|v: usize| around@.contains(v) <==> self.adjacent(point, v),
    {
        let mut around: HashSet<usize> = HashSet::new();
        let mut i: usize = 0;
        while i < self.edges.len()
            invariant
                i <= self.edges.len(),
                forall|v: usize|
                    around@.contains(v) <==> exists|k: int|
                        0 <= k < i && (#[trigger] self.edges@[k] == (point, v) || self.edges@[k]
                            == (v, point)),
            decreases self.edges.len() - i,
        {
            let (a, b) = self.edges[i];
            let ghost before = around@;
            if a == point {
                around.insert(b);
            } else if b == point {
                around.insert(a);
            }
            assert forall|v: usize| around@.contains(v) <==> exists|k: int|
                0 <= k < i + 1 && (#[trigger] self.edges@[k] == (point, v) || self.edges@[k] == (
                    v,
                    point,
                )) by {
                if around@.contains(v) {
                    if before.contains(v) {
                        let k = choose|k: int|
                            0 <= k < i && (#[trigger] self.edges@[k] == (point, v)
                                || self.edges@[k] == (v, point));
                        assert(0 <= k < i + 1 && (self.edges@[k] == (point, v) || self.edges@[k]
                            == (v, point)));
                    } else {
                        assert(self.edges@[i as int] == (point, v) || self.edges@[i as int] == (
                            v,
                            point,
                        ));
                    }
                }
                if exists|k: int|
                    0 <= k < i + 1 && (#[trigger] self.edges@[k] == (point, v) || self.edges@[k]
                        == (v, point)) {
                    let k = choose|k: int|
                        0 <= k < i + 1 && (#[trigger] self.edges@[k] == (point, v)
                            || self.edges@[k] == (v, point));
                    if k < i {
                        assert(before.contains(v));
                    }
                }
            }
            i = i + 1;
        }
        assert forall|v: usize| around@.contains(v) <==> self.adjacent(point, v) by {
            if around@.contains(v) {
                let k = choose|k: int|
                    0 <= k < i && (#[trigger] self.edges@[k] == (point, v) || self.edges@[k] == (
                        v,
                        point,
                    ));
                assert(self.edges@.contains(self.edges@[k]));
            }
            if self.edges@.contains((point, v)) {
                let k = choose|k: int| 0 <= k < self.edges@.len() && self.edges@[k] == (point, v);
                assert(self.edges@[k] == (point, v) || self.edges@[k] == (v, point));
            }
            if self.edges@.contains((v, point)) {
                let k = choose|k: int| 0 <= k < self.edges@.len() && self.edges@[k] == (v, point);
                assert(self.edges@[k] == (point, v) || self.edges@[k] == (v, point));
            }
        }
        around
    }

    /// The vertices outside `reached` that share an edge with a member of it.
    fn frontier(&self, reached: &HashSet<usize>) -> (added: Vec<usize>)
        ensures
            forall|v: usize|
                added@.contains(v) <==> !reached@.contains(v) && exists|u: usize|
                    reached@.contains(u) && self.adjacent(u, v),
    {
        let mut added: Vec<usize> = Vec::new();
        let mut i: usize = 0;
        while i < self.edges.len()
            invariant
                i <= self.edges.len(),
                forall|v: usize|
                    added@.contains(v) ==> !reached@.contains(v) && exists|u: usize|
                        reached@.contains(u) && self.adjacent(u, v),
                forall|k: int|
                    0 <= k < i ==> {
                        &&& reached@.contains((#[trigger] self.edges@[k]).0) ==> reached@.contains(
                            self.edges@[k].1,
                        ) || added@.contains(self.edges@[k].1)
                        &&& reached@.contains(self.edges@[k].1) ==> reached@.contains(
                            self.edges@[k].0,
                        ) || added@.contains(self.edges@[k].0)
                    },
            decreases self.edges.len() - i,
        {
            let (a, b) = self.edges[i];
            assert(self.edges@.contains(self.edges@[i as int]));
            let has_a = reached.contains(&a);
            let has_b = reached.contains(&b);
            if has_a && !has_b {
                assert(self.adjacent(a, b));
                added.push(b);
            } else if has_b && !has_a {
                assert(self.adjacent(b, a));
                added.push(a);
            }
            i = i + 1;
        }
        assert forall|v: usize|
            !reached@.contains(v) && (exists|u: usize|
                reached@.contains(u) && self.adjacent(u, v)) implies added@.contains(v) by {
            let u = choose|u: usize| reached@.contains(u) && self.adjacent(u, v);
            if self.edges@.contains((u, v)) {
                let k = choose|k: int| 0 <= k < self.edges@.len() && self.edges@[k] == (u, v);
                assert(self.edges@[k].0 == u);
            } else {
                let k = choose|k: int| 0 <= k < self.edges@.len() && self.edges@[k] == (v, u);
                assert(self.edges@[k].1 == u);
            }
        }
        added
    }

    /// The least number of edges on a walk from `point_a` to `point_b`, or
    /// `None` when no walk joins them.
    #[verifier::rlimit(50)]
    pub fn distance(&self, point_a: usize, point_b: usize) -> (d: Option<usize>)
        ensures
            match d {
                Some(n) => self.joins(point_a, point_b, n as nat) && forall|m: nat|
                    m < n ==> !self.joins(point_a, point_b, m),
                None => forall|m: nat| !self.joins(point_a, point_b, m),
            },
    {
        if point_a == point_b {
            proof {
                self.lemma_ball_is_walks(point_a, point_b, 0);
            }
            return Some(0);
        }
        let mut reached: HashSet<usize> = HashSet::new();
        reached.insert(point_a);
        let mut steps: usize = 0;
        proof {
            self.lemma_ball_is_spanned(point_a, 0);
            assert(reached@ =~= self.ball(point_a, 0));
        }
        loop
            invariant
                reached@ == self.ball(point_a, steps as nat),
                !reached@.contains(point_b),
                reached@.finite(),
                steps < reached@.len(),
                reached@.len() <= 2 * self.edges@.len() + 1,
            decreases 2 * self.edges@.len() + 1 - reached@.len(),
        {
            let added = self.frontier(&reached);
            let ghost inner = reached@;
            let ghost next = self.ball(point_a, (steps + 1) as nat);
            assert(next =~= inner.union(added@.to_set())) by {
                assert forall|v: usize| next.contains(v) <==> inner.contains(v)
                    || added@.contains(v) by {
                    if next.contains(v) && !inner.contains(v) {
                        assert(exists|u: usize| inner.contains(u) && self.adjacent(u, v));
                    }
                }
            }
            if added.len() == 0 {
                proof {
                    assert(next =~= inner);
                    assert forall|m: nat| !self.joins(point_a, point_b, m) by {
                        self.lemma_ball_is_walks(point_a, point_b, m);
                        if m <= steps {
                            self.lemma_ball_grows(point_a, m, steps as nat);
                        } else {
                            self.lemma_ball_stable(point_a, steps as nat, m);
                        }
                    }
                }
                return None;
            }
            proof {
                self.lemma_ball_is_spanned(point_a, (steps + 1) as nat);
                assert(added@.contains(added@[0]));
                assert(next.contains(added@[0]) && !inner.contains(added@[0]));
                assert(inner.subset_of(next.remove(added@[0])));
                vstd::set_lib::lemma_len_subset(inner, next.remove(added@[0]));
            }
            let mut i: usize = 0;
            while i < added.len()
                invariant
                    i <= added.len(),
                    reached@ == inner.union(added@.take(i as int).to_set()),
                decreases added.len() - i,
            {
                reached.insert(added[i]);
                assert(added@.take(i + 1) == added@.take(i as int).push(added@[i as int]));
                assert(reached@ =~= inner.union(added@.take(i + 1).to_set()));
                i = i + 1;
            }
            assert(added@.take(added@.len() as int) == added@);
            assert(reached@.len() == reached.len());
            steps = steps + 1;
            if reached.contains(&point_b) {
                proof {
                    assert forall|m: nat| m < steps implies !self.joins(point_a, point_b, m) by {
                        self.lemma_ball_is_walks(point_a, point_b, m);
                        self.lemma_ball_grows(point_a, m, (steps - 1) as nat);
                    }
                    self.lemma_ball_is_walks(point_a, point_b, steps as nat);
                    self.lemma_ball_is_walks(point_a, point_b, (steps - 1) as nat);
                }
                return Some(steps);
            }
        }
    }

    /// A ball contains every ball of a smaller radius around the same point.
    pub proof fn lemma_ball_grows(&self, a: usize, m: nat, n: nat)
        requires
            m <= n,
        ensures
            self.ball(a, m).subset_of(self.ball(a, n)),
        decreases n,
    {
        if m < n {
            self.lemma_ball_grows(a, m, (n - 1) as nat);
        }
    }

    /// Once a ball stops growing it has taken in everything within reach.
    pub proof fn lemma_ball_stable(&self, a: usize, n: nat, k: nat)
        requires
            self.ball(a, n + 1) == self.ball(a, n),
        ensures
            k >= n ==> self.ball(a, k) == self.ball(a, n),
        decreases k,
    {
        if k > n {
            self.lemma_ball_stable(a, n, (k - 1) as nat);
            assert(self.ball(a, k) =~= self.ball(a, n + 1));
        }
    }

    /// A ball holds its centre and endpoints of edges, nothing else; so it is
    /// finite and bounded in size by the number of edges.
    pub proof fn lemma_ball_is_spanned(&self, a: usize, n: nat)
        ensures
            self.ball(a, n).subset_of(self.endpoints().push(a).to_set()),
            self.ball(a, n).finite(),
            self.ball(a, n).len() <= 2 * self.edges@.len() + 1,
        decreases n,
    {
        let span = self.endpoints().push(a);
        assert(span[span.len() - 1] == a);
        if n > 0 {
            self.lemma_ball_is_spanned(a, (n - 1) as nat);
            let inner = self.ball(a, (n - 1) as nat);
            assert forall|v: usize| self.ball(a, n).contains(v) implies span.to_set().contains(
                v,
            ) by {
                if !inner.contains(v) {
                    let u = choose|u: usize| inner.contains(u) && self.adjacent(u, v);
                    if self.edges@.contains((u, v)) {
                        let k = choose|k: int|
                            0 <= k < self.edges@.len() && self.edges@[k] == (u, v);
                        assert(span[self.edges@.len() + k] == v);
                    } else {
                        let k = choose|k: int|
                            0 <= k < self.edges@.len() && self.edges@[k] == (v, u);
                        assert(span[k] == v);
                    }
                }
            }
        }
        span.lemma_cardinality_of_set();
        vstd::set_lib::lemma_len_subset(self.ball(a, n), span.to_set());
    }

    /// A point lies in the ball of radius `n` exactly when a walk of at most
    /// `n` edges reaches it from the centre.
    pub proof fn lemma_ball_is_walks(&self, a: usize, b: usize, n: nat)
        ensures
            self.ball(a, n).contains(b) <==> exists|m: nat| m <= n && self.joins(a, b, m),
        decreases n,
    {
        if self.ball(a, n).contains(b) {
            if n == 0 {
                let p = seq![a];
                assert(self.is_walk(p) && p.len() == 0 + 1 && p[0] == a && p[0] == b);
                assert(self.joins(a, b, 0));
            } else {
                let inner = self.ball(a, (n - 1) as nat);
                if inner.contains(b) {
                    self.lemma_ball_is_walks(a, b, (n - 1) as nat);
                    let m = choose|m: nat| m <= n - 1 && self.joins(a, b, m);
                    assert(m <= n && self.joins(a, b, m));
                } else {
                    let u = choose|u: usize| inner.contains(u) && self.adjacent(u, b);
                    self.lemma_ball_is_walks(a, u, (n - 1) as nat);
                    let m = choose|m: nat| m <= n - 1 && self.joins(a, u, m);
                    let p = choose|p: Seq<usize>|
                        #[trigger] self.is_walk(p) && p.len() == m + 1 && p[0] == a && p[m as int]
                            == u;
                    let q = p.push(b);
                    assert forall|i: int| 0 <= i < q.len() - 1 implies self.adjacent(
                        #[trigger] q[i],
                        q[i + 1],
                    ) by {
                        if i < p.len() - 1 {
                            assert(self.adjacent(p[i], p[i + 1]));
                        }
                    }
                    assert(self.is_walk(q) && q.len() == (m + 1) + 1 && q[0] == a && q[(m
                        + 1) as int] == b);
                    assert(self.joins(a, b, m + 1));
                    assert(m + 1 <= n && self.joins(a, b, m + 1));
                }
            }
        }
        if exists|m: nat| m <= n && self.joins(a, b, m) {
            let m = choose|m: nat| m <= n && self.joins(a, b, m);
            let p = choose|p: Seq<usize>|
                #[trigger] self.is_walk(p) && p.len() == m + 1 && p[0] == a && p[m as int] == b;
            if m == 0 {
                self.lemma_ball_grows(a, 0, n);
            } else {
                let q = p.drop_last();
                assert forall|i: int| 0 <= i < q.len() - 1 implies self.adjacent(
                    #[trigger] q[i],
                    q[i + 1],
                ) by {
                    assert(self.adjacent(p[i], p[i + 1]));
                }
                let u = p[m - 1];
                assert(self.is_walk(q) && q.len() == (m - 1) + 1 && q[0] == a && q[(m - 1) as int]
                    == u);
                assert(self.joins(a, u, (m - 1) as nat));
                self.lemma_ball_is_walks(a, u, (n - 1) as nat);
                assert(self.adjacent(p[m - 1], p[m - 1 + 1]));
                assert(self.ball(a, (n - 1) as nat).contains(u));
            }
        }
    }

    /// Every set of vertices is open: the topology of a graph is discrete on
    /// its neighbourhoods.
    pub fn is_open(&self, _set: HashSet<usize>) -> (open: bool)
        ensures
            open,
    {
        true
    }
}

/// An edge joins two vertices in both directions, so membership of an edge
/// does not depend on the order of its endpoints.
pub proof fn lemma_edge_membership_is_symmetric(graph: UndirectedGraph, a: usize, b: usize)
    ensures
        graph.adjacent(a, b) == graph.adjacent(b, a),
{
}

/// A graph built from a list of edges has an edge between two vertices, in
/// either order, exactly when the list has the pair in one order or the
/// other.
pub proof fn lemma_built_graph_has_its_edges(
    graph: UndirectedGraph,
    edges: Seq<(usize, usize)>,
    a: usize,
    b: usize,
)
    requires
        forall|e: (usize, usize)|
            graph.edges@.contains(e) <==> exists|i: int|
                0 <= i < edges.len() && e == canonical(#[trigger] edges[i]),
    ensures
        graph.adjacent(a, b) <==> edges.contains((a, b)) || edges.contains((b, a)),
{
    if graph.adjacent(a, b) {
        let e = if graph.edges@.contains((a, b)) {
            (a, b)
        } else {
            (b, a)
        };
        let i = choose|i: int| 0 <= i < edges.len() && e == canonical(#[trigger] edges[i]);
        assert(edges[i] == (a, b) || edges[i] == (b, a));
    }
    if edges.contains((a, b)) {
        let i = choose|i: int| 0 <= i < edges.len() && edges[i] == (a, b);
        assert(graph.edges@.contains(canonical(edges[i])));
    }
    if edges.contains((b, a)) {
        let i = choose|i: int| 0 <= i < edges.len() && edges[i] == (b, a);
        assert(graph.edges@.contains(canonical(edges[i])));
    }
}

/// Graphs built from the same set of vertices and the same set of pairs
/// have the same vertices and the same edges, whatever the order in which
/// the pairs were given; only the order in which the edges are stored
/// follows that of the pairs.
pub proof fn lemma_graph_depends_on_sets_only(
    one: UndirectedGraph,
    vertices_one: Set<usize>,
    pairs_one: Seq<(usize, usize)>,
    other: UndirectedGraph,
    vertices_other: Set<usize>,
    pairs_other: Seq<(usize, usize)>,
)
    requires
        one.vertices@ == vertices_one,
        one.edges@ == stored(pairs_one),
        other.vertices@ == vertices_other,
        other.edges@ == stored(pairs_other),
        vertices_one == vertices_other,
        pairs_one.to_set() == pairs_other.to_set(),
    ensures
        one.vertices@ == other.vertices@,
        one.edges@.to_set() == other.edges@.to_set(),
        one.edges@.len() == other.edges@.len(),
        forall|a: usize, b: usize| one.adjacent(a, b) == other.adjacent(a, b),
{
    lemma_stored(pairs_one);
    lemma_stored(pairs_other);
    assert forall|e: (usize, usize)| one.edges@.contains(e) == other.edges@.contains(e) by {
        if one.edges@.contains(e) {
            let i = choose|i: int|
                0 <= i < pairs_one.len() && e == canonical(#[trigger] pairs_one[i]);
            assert(pairs_one.to_set().contains(pairs_one[i]));
            assert(pairs_other.contains(pairs_one[i]));
            let j = choose|j: int| 0 <= j < pairs_other.len() && pairs_other[j] == pairs_one[i];
            assert(e == canonical(pairs_other[j]));
        }
        if other.edges@.contains(e) {
            let i = choose|i: int|
                0 <= i < pairs_other.len() && e == canonical(#[trigger] pairs_other[i]);
            assert(pairs_other.to_set().contains(pairs_other[i]));
            assert(pairs_one.contains(pairs_other[i]));
            let j = choose|j: int| 0 <= j < pairs_one.len() && pairs_one[j] == pairs_other[i];
            assert(e == canonical(pairs_one[j]));
        }
    }
    assert(one.edges@.to_set() =~= other.edges@.to_set());
    one.edges@.unique_seq_to_set();
    other.edges@.unique_seq_to_set();
}

/// Sets of points that can be intersected and united.
pub trait PointSet: Sized {
    /// The points of the set.
    spec fn members(&self) -> Set<usize>;

    /// The points that lie in both sets.
    fn intersect(&self, other: Self) -> (both: Self)
        ensures
            both.members() == self.members().intersect(other.members()),
    ;

    /// The points that lie in either set.
    fn union(&self, other: Self) -> (either: Self)
        ensures
            either.members() == self.members().union(other.members()),
    ;
}

impl PointSet for HashSet<usize> {
    open spec fn members(&self) -> Set<usize> {
        self@
    }

    fn intersect(&self, other: Self) -> (both: Self) {
        let mut both: HashSet<usize> = HashSet::new();
        for v in it: self.iter()
            invariant
                it.seq().unref().to_set() == self@,
                forall|x: usize|
                    both@.contains(x) <==> other@.contains(x) && it.seq().unref().take(
                        it.index() as int,
                    ).contains(x),
                it.index() == it.seq().len() ==> it.seq().unref().take(it.index() as int)
                    == it.seq().unref(),
        {
            let ghost seen = it.seq().unref().take(it.index() as int);
            assert(it.seq().unref().take(it.index() + 1) == seen.push(*v));
            if other.contains(v) {
                both.insert(*v);
            }
        }
        assert(both@ =~= self@.intersect(other@));
        both
    }

    fn union(&self, other: Self) -> (either: Self) {
        let mut either: HashSet<usize> = other;
        for v in it: self.iter()
            invariant
                it.seq().unref().to_set() == self@,
                forall|x: usize|
                    either@.contains(x) <==> other@.contains(x) || it.seq().unref().take(
                        it.index() as int,
                    ).contains(x),
                it.index() == it.seq().len() ==> it.seq().unref().take(it.index() as int)
                    == it.seq().unref(),
        {
            let ghost seen = it.seq().unref().take(it.index() as int);
            assert(it.seq().unref().take(it.index() + 1) == seen.push(*v));
            either.insert(*v);
        }
        assert(either@ =~= self@.union(other@));
        either
    }
}

/// The first position of `e` in `list`, if it occurs there.
pub fn pair_position(list: &Vec<(usize, usize)>, e: (usize, usize)) -> (at: Option<usize>)
    ensures
        match at {
            Some(k) => k < list@.len() && list@[k as int] == e && forall|j: int|
                0 <= j < k ==> list@[j] != e,
            None => !list@.contains(e),
        },
{
    let mut i: usize = 0;
    while i < list.len()
        invariant
            i <= list.len(),
            forall|j: int| 0 <= j < i ==> list@[j] != e,
        decreases list.len() - i,
    {
        let (a, b) = list[i];
        if a == e.0 && b == e.1 {
            return Some(i);
        }
        i = i + 1;
    }
    None
}

} // verus!
