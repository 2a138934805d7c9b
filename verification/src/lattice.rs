//! Partial orders given by direct relations. Only the relations that were
//! added are stored; whether one element lies below another is found by a
//! search along them, each time it is asked.

use std::collections::HashSet;
use vstd::prelude::*;

verus! {

broadcast use {
    vstd::std_specs::hash::group_hash_axioms,
    vstd::seq_lib::group_seq_properties,
    vstd::set::group_set_axioms,
};

/// A set of elements with direct relations `a <= b` between some of them.
pub struct Lattice {
    elements: Vec<usize>,
    relations: Vec<(usize, usize)>,
}

/// The relation `(a, b)` is among `relations`.
pub open spec fn covers(relations: Seq<(usize, usize)>, a: usize, b: usize) -> bool {
    relations.contains((a, b))
}

/// Each entry of `p` is directly related to the next, and `p` is not empty.
pub open spec fn is_chain(relations: Seq<(usize, usize)>, p: Seq<usize>) -> bool {
    &&& p.len() > 0
    &&& forall|i: int| 0 <= i < p.len() - 1 ==> covers(relations, #[trigger] p[i], p[i + 1])
}

/// Some chain of exactly `n` direct relations leads from `a` up to `b`.
pub open spec fn links(relations: Seq<(usize, usize)>, a: usize, b: usize, n: nat) -> bool {
    exists|p: Seq<usize>|
        #[trigger] is_chain(relations, p) && p.len() == n + 1 && p[0] == a && p[n as int] == b
}

/// `a` lies below `b` in the order that the relations generate: some chain
/// of direct relations, possibly of none, leads from `a` up to `b`.
pub open spec fn below(relations: Seq<(usize, usize)>, a: usize, b: usize) -> bool {
    exists|n: nat| links(relations, a, b, n)
}

/// The elements that chains of at most `n` direct relations reach from `a`.
pub open spec fn up_set(relations: Seq<(usize, usize)>, a: usize, n: nat) -> Set<usize>
    decreases n,
{
    if n == 0 {
        set![a]
    } else {
        let inner = up_set(relations, a, (n - 1) as nat);
        inner.union(
            Set::new(|v: usize| exists|u: usize| inner.contains(u) && covers(relations, u, v)),
        )
    }
}

/// The upper ends of all relations, as a sequence.
pub open spec fn upper_ends(relations: Seq<(usize, usize)>) -> Seq<usize> {
    relations.map_values(|e: (usize, usize)| e.1)
}

pub proof fn lemma_up_set_grows(relations: Seq<(usize, usize)>, a: usize, m: nat, n: nat)
    requires
        m <= n,
    ensures
        up_set(relations, a, m).subset_of(up_set(relations, a, n)),
    decreases n,
{
    if m < n {
        lemma_up_set_grows(relations, a, m, (n - 1) as nat);
    }
}

pub proof fn lemma_up_set_stable(relations: Seq<(usize, usize)>, a: usize, n: nat, k: nat)
    requires
        up_set(relations, a, n + 1) == up_set(relations, a, n),
    ensures
        k >= n ==> up_set(relations, a, k) == up_set(relations, a, n),
    decreases k,
{
    if k > n {
        lemma_up_set_stable(relations, a, n, (k - 1) as nat);
        assert(up_set(relations, a, k) =~= up_set(relations, a, n + 1));
    }
}

/// An up-set holds its start and upper ends of relations, nothing else.
pub proof fn lemma_up_set_is_spanned(relations: Seq<(usize, usize)>, a: usize, n: nat)
    ensures
        up_set(relations, a, n).subset_of(upper_ends(relations).push(a).to_set()),
        up_set(relations, a, n).finite(),
        up_set(relations, a, n).len() <= relations.len() + 1,
    decreases n,
{
    let span = upper_ends(relations).push(a);
    assert(span[span.len() - 1] == a);
    if n > 0 {
        lemma_up_set_is_spanned(relations, a, (n - 1) as nat);
        let inner = up_set(relations, a, (n - 1) as nat);
        assert forall|v: usize| up_set(relations, a, n).contains(v) implies span.to_set().contains(
            v,
        ) by {
            if !inner.contains(v) {
                let u = choose|u: usize| inner.contains(u) && covers(relations, u, v);
                let k = choose|k: int| 0 <= k < relations.len() && relations[k] == (u, v);
                assert(span[k] == v);
            }
        }
    }
    span.lemma_cardinality_of_set();
    vstd::set_lib::lemma_len_subset(up_set(relations, a, n), span.to_set());
}

/// An element is in the up-set of height `n` exactly when a chain of at most
/// `n` direct relations reaches it.
pub proof fn lemma_up_set_is_chains(relations: Seq<(usize, usize)>, a: usize, b: usize, n: nat)
    ensures
        up_set(relations, a, n).contains(b) <==> exists|m: nat|
            m <= n && links(relations, a, b, m),
    decreases n,
{
    if up_set(relations, a, n).contains(b) {
        if n == 0 {
            let p = seq![a];
            assert(is_chain(relations, p) && p.len() == 0 + 1 && p[0] == a && p[0] == b);
            assert(links(relations, a, b, 0));
        } else {
            let inner = up_set(relations, a, (n - 1) as nat);
            if inner.contains(b) {
                lemma_up_set_is_chains(relations, a, b, (n - 1) as nat);
                let m = choose|m: nat| m <= n - 1 && links(relations, a, b, m);
                assert(m <= n && links(relations, a, b, m));
            } else {
                let u = choose|u: usize| inner.contains(u) && covers(relations, u, b);
                lemma_up_set_is_chains(relations, a, u, (n - 1) as nat);
                let m = choose|m: nat| m <= n - 1 && links(relations, a, u, m);
                let p = choose|p: Seq<usize>|
                    #[trigger] is_chain(relations, p) && p.len() == m + 1 && p[0] == a && p[m as int]
                        == u;
                let q = p.push(b);
                assert forall|i: int| 0 <= i < q.len() - 1 implies covers(
                    relations,
                    #[trigger] q[i],
                    q[i + 1],
                ) by {
                    if i < p.len() - 1 {
                        assert(covers(relations, p[i], p[i + 1]));
                    }
                }
                assert(is_chain(relations, q) && q.len() == (m + 1) + 1 && q[0] == a && q[(m
                    + 1) as int] == b);
                assert(links(relations, a, b, m + 1));
                assert(m + 1 <= n && links(relations, a, b, m + 1));
            }
        }
    }
    if exists|m: nat| m <= n && links(relations, a, b, m) {
        let m = choose|m: nat| m <= n && links(relations, a, b, m);
        let p = choose|p: Seq<usize>|
            #[trigger] is_chain(relations, p) && p.len() == m + 1 && p[0] == a && p[m as int] == b;
        if m == 0 {
            lemma_up_set_grows(relations, a, 0, n);
        } else {
            let q = p.drop_last();
            assert forall|i: int| 0 <= i < q.len() - 1 implies covers(
                relations,
                #[trigger] q[i],
                q[i + 1],
            ) by {
                assert(covers(relations, p[i], p[i + 1]));
            }
            let u = p[m - 1];
            assert(is_chain(relations, q) && q.len() == (m - 1) + 1 && q[0] == a && q[(m
                - 1) as int] == u);
            assert(links(relations, a, u, (m - 1) as nat));
            lemma_up_set_is_chains(relations, a, u, (n - 1) as nat);
            assert(covers(relations, p[m - 1], p[m - 1 + 1]));
            assert(up_set(relations, a, (n - 1) as nat).contains(u));
        }
    }
}

/// Every element lies below itself.
pub proof fn lemma_below_reflexive(relations: Seq<(usize, usize)>, a: usize)
    ensures
        below(relations, a, a),
{
    let p = seq![a];
    assert(is_chain(relations, p) && p.len() == 0 + 1 && p[0] == a && p[0] == a);
    assert(links(relations, a, a, 0));
}

/// A direct relation puts its lower end below its upper end.
pub proof fn lemma_relation_is_below(relations: Seq<(usize, usize)>, a: usize, b: usize)
    requires
        covers(relations, a, b),
    ensures
        below(relations, a, b),
{
    let p = seq![a, b];
    assert(is_chain(relations, p) && p.len() == 1 + 1 && p[0] == a && p[1] == b);
    assert(links(relations, a, b, 1));
}

/// What lies below an element lies below everything above that element.
pub proof fn lemma_below_transitive(relations: Seq<(usize, usize)>, a: usize, b: usize, c: usize)
    requires
        below(relations, a, b),
        below(relations, b, c),
    ensures
        below(relations, a, c),
{
    let n = choose|n: nat| links(relations, a, b, n);
    let m = choose|m: nat| links(relations, b, c, m);
    let p = choose|p: Seq<usize>|
        #[trigger] is_chain(relations, p) && p.len() == n + 1 && p[0] == a && p[n as int] == b;
    let q = choose|q: Seq<usize>|
        #[trigger] is_chain(relations, q) && q.len() == m + 1 && q[0] == b && q[m as int] == c;
    let r = p + q.subrange(1, q.len() as int);
    assert forall|i: int| 0 <= i < r.len() - 1 implies covers(relations, #[trigger] r[i], r[i + 1]) by {
        if i < n {
            if i + 1 < p.len() {
                assert(covers(relations, p[i], p[i + 1]));
            }
            if i == n - 1 {
                assert(r[i + 1] == p[n as int]);
            }
        } else {
            let j = i - n;
            assert(covers(relations, q[j], q[j + 1]));
            if j == 0 {
                assert(r[i] == p[n as int]);
            } else {
                assert(r[i] == q[j]);
            }
            assert(r[i + 1] == q[j + 1]);
        }
    }
    assert(is_chain(relations, r) && r.len() == (n + m) + 1 && r[0] == a && r[(n + m) as int] == c) by {
        if m == 0 {
            assert(r[(n + m) as int] == p[n as int]);
        } else {
            assert(r[(n + m) as int] == q[m as int]);
        }
    }
    assert(links(relations, a, c, n + m));
}

impl Lattice {
    /// The elements, in the order in which relations first named them.
    pub closed spec fn spec_elements(&self) -> Seq<usize> {
        self.elements@
    }

    /// The direct relations, in the order in which they were added.
    pub closed spec fn spec_relations(&self) -> Seq<(usize, usize)> {
        self.relations@
    }

    /// The order without elements.
    pub fn new() -> (order: Self)
        ensures
            order.spec_elements() == Seq::<usize>::empty(),
            order.spec_relations() == Seq::<(usize, usize)>::empty(),
    {
        Lattice { elements: Vec::new(), relations: Vec::new() }
    }

    /// Whether `list` holds `x`.
    fn has(list: &Vec<usize>, x: usize) -> (found: bool)
        ensures
            found == list@.contains(x),
    {
        let mut i: usize = 0;
        while i < list.len()
            invariant
                i <= list@.len(),
                forall|j: int| 0 <= j < i ==> list@[j] != x,
            decreases list.len() - i,
        {
            if list[i] == x {
                return true;
            }
            i = i + 1;
        }
        false
    }

    /// Whether `a` is an element of the order.
    pub fn contains(&self, a: usize) -> (found: bool)
        ensures
            found == self.spec_elements().contains(a),
    {
        Self::has(&self.elements, a)
    }

    /// Adds `a` as an element, unless it is one already.
    pub fn add_element(&mut self, a: usize)
        ensures
            final(self).spec_relations() == old(self).spec_relations(),
            final(self).spec_elements() == if old(self).spec_elements().contains(a) {
                old(self).spec_elements()
            } else {
                old(self).spec_elements().push(a)
            },
    {
        if !Self::has(&self.elements, a) {
            self.elements.push(a);
        }
    }

    /// Records the direct relation `a <= b`, and `a` and `b` as elements.
    /// Nothing that follows from it is worked out or stored.
    pub fn add_relation(&mut self, a: usize, b: usize)
        ensures
            final(self).spec_relations() == old(self).spec_relations().push((a, b)),
            final(self).spec_elements().contains(a),
            final(self).spec_elements().contains(b),
            forall|x: usize|
                final(self).spec_elements().contains(x) <==> old(self).spec_elements().contains(x)
                    || x == a || x == b,
    {
        let ghost before = self.elements@;
        self.add_element(a);
        let ghost between = self.elements@;
        self.add_element(b);
        self.relations.push((a, b));
        proof {
            assert forall|x: usize|
                self.elements@.contains(x) <==> before.contains(x) || x == a || x == b by {
                assert(between.contains(x) <==> before.contains(x) || x == a);
                assert(self.elements@.contains(x) <==> between.contains(x) || x == b);
            }
        }
    }

    /// The elements outside `reached` that a direct relation puts above a
    /// member of it.
    fn frontier(&self, reached: &HashSet<usize>) -> (added: Vec<usize>)
        ensures
            forall|v: usize|
                added@.contains(v) <==> !reached@.contains(v) && exists|u: usize|
                    reached@.contains(u) && covers(self.spec_relations(), u, v),
    {
        let mut added: Vec<usize> = Vec::new();
        let mut i: usize = 0;
        while i < self.relations.len()
            invariant
                i <= self.relations.len(),
                forall|v: usize|
                    added@.contains(v) ==> !reached@.contains(v) && exists|u: usize|
                        reached@.contains(u) && covers(self.relations@, u, v),
                forall|k: int|
                    0 <= k < i ==> (reached@.contains((#[trigger] self.relations@[k]).0)
                        ==> reached@.contains(self.relations@[k].1) || added@.contains(
                        self.relations@[k].1,
                    )),
            decreases self.relations.len() - i,
        {
            let (a, b) = self.relations[i];
            assert(self.relations@.contains(self.relations@[i as int]));
            if reached.contains(&a) && !reached.contains(&b) {
                assert(covers(self.relations@, a, b));
                added.push(b);
            }
            i = i + 1;
        }
        assert forall|v: usize|
            !reached@.contains(v) && (exists|u: usize|
                reached@.contains(u) && covers(self.relations@, u, v)) implies added@.contains(
            v,
        ) by {
            let u = choose|u: usize| reached@.contains(u) && covers(self.relations@, u, v);
            let k = choose|k: int| 0 <= k < self.relations@.len() && self.relations@[k] == (u, v);
            assert(self.relations@[k].0 == u);
        }
        added
    }

    /// Whether `a` lies below `b`: whether a chain of direct relations leads
    /// from `a` up to `b`. Every element lies below itself.
    pub fn leq(&self, a: usize, b: usize) -> (holds: bool)
        ensures
            holds == below(self.spec_relations(), a, b),
    {
        let ghost relations = self.relations@;
        if a == b {
            proof {
                lemma_below_reflexive(relations, a);
            }
            return true;
        }
        let mut reached: HashSet<usize> = HashSet::new();
        reached.insert(a);
        let ghost mut steps: nat = 0;
        proof {
            lemma_up_set_is_spanned(relations, a, 0);
            assert(reached@ =~= up_set(relations, a, 0));
        }
        loop
            invariant
                relations == self.relations@,
                reached@ == up_set(relations, a, steps),
                !reached@.contains(b),
                reached@.finite(),
                reached@.len() <= relations.len() + 1,
            decreases relations.len() + 1 - reached@.len(),
        {
            let added = self.frontier(&reached);
            let ghost inner = reached@;
            let ghost next = up_set(relations, a, steps + 1);
            assert(next =~= inner.union(added@.to_set())) by {
                assert forall|v: usize| next.contains(v) <==> inner.contains(v)
                    || added@.contains(v) by {
                    if next.contains(v) && !inner.contains(v) {
                        assert(exists|u: usize| inner.contains(u) && covers(relations, u, v));
                    }
                }
            }
            if added.len() == 0 {
                proof {
                    assert(next =~= inner);
                    assert forall|m: nat| !links(relations, a, b, m) by {
                        lemma_up_set_is_chains(relations, a, b, m);
                        if m <= steps {
                            lemma_up_set_grows(relations, a, m, steps);
                        } else {
                            lemma_up_set_stable(relations, a, steps, m);
                        }
                    }
                }
                return false;
            }
            proof {
                lemma_up_set_is_spanned(relations, a, steps + 1);
                assert(added@.contains(added@[0]));
                assert(next.contains(added@[0]) && !inner.contains(added@[0]));
                assert(inner.subset_of(next.remove(added@[0])));
                vstd::set_lib::lemma_len_subset(inner, next.remove(added@[0]));
            }
            let mut i: usize = 0;
            while i < added.len()
                invariant
                    i <= added.len(),
                    reached@ == inner.union(added@.take(i as int).to_set()),
                decreases added.len() - i,
            {
                reached.insert(added[i]);
                assert(added@.take(i + 1) == added@.take(i as int).push(added@[i as int]));
                assert(reached@ =~= inner.union(added@.take(i + 1).to_set()));
                i = i + 1;
            }
            assert(added@.take(added@.len() as int) == added@);
            proof {
                steps = steps + 1;
            }
            if reached.contains(&b) {
                proof {
                    lemma_up_set_is_chains(relations, a, b, steps);
                    let m = choose|m: nat| m <= steps && links(relations, a, b, m);
                    assert(links(relations, a, b, m));
                }
                return true;
            }
        }
    }
}

} // verus!
