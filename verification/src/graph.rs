//! A directed graph over names, with a topological sort that finds a cycle when
//! there is no order.
use vstd::prelude::*;
use crate::wires::str_eq;
use crate::refs::names_of;

verus! {

/// The graph has an edge from node `a` to node `b`.
pub open spec fn has_edge(edges: Seq<(usize, usize)>, a: int, b: int) -> bool {
    exists|k: int| 0 <= k < edges.len() && edges[k].0 == a && edges[k].1 == b
}

/// `ord` lists each of the `n` nodes once, and each edge goes from an earlier node
/// to a later one.
pub open spec fn is_topological_order(ord: Seq<usize>, n: nat, edges: Seq<(usize, usize)>) -> bool {
    &&& forall|i: int| 0 <= i < ord.len() ==> (#[trigger] ord[i]) < n
    &&& forall|i: int, j: int| 0 <= i < j < ord.len() ==> ord[i] != ord[j]
    &&& forall|v: usize| v < n ==> ord.contains(v)
    &&& forall|k: int, i: int, j: int|
        #![trigger edges[k], ord[i], ord[j]]
        0 <= k < edges.len() && 0 <= i < ord.len() && 0 <= j < ord.len() && edges[k] == (ord[i], ord[j]) ==> i < j
}

/// `cyc` is a nonempty list of nodes with an edge from each to the next, and from
/// the last to the first.
pub open spec fn is_cycle(cyc: Seq<usize>, n: nat, edges: Seq<(usize, usize)>) -> bool {
    &&& cyc.len() >= 1
    &&& forall|i: int| 0 <= i < cyc.len() ==> (#[trigger] cyc[i]) < n
    &&& forall|i: int|
        0 <= i < cyc.len() ==> has_edge(edges, #[trigger] cyc[i] as int, cyc[(i + 1) % (cyc.len() as int)] as int)
}

/// The number of `false` entries.
pub open spec fn count_false(s: Seq<bool>) -> nat
    decreases s.len(),
{
    if s.len() == 0 {
        0
    } else {
        count_false(s.drop_last()) + if s.last() {
            0nat
        } else {
            1nat
        }
    }
}

proof fn lemma_count_false_update(s: Seq<bool>, i: int)
    requires
        0 <= i < s.len(),
        !s[i],
    ensures
        count_false(s.update(i, true)) + 1 == count_false(s),
    decreases s.len(),
{
    let t = s.update(i, true);
    if i == s.len() - 1 {
        assert(t.drop_last() =~= s.drop_last());
    } else {
        assert(t.drop_last() =~= s.drop_last().update(i, true));
        lemma_count_false_update(s.drop_last(), i);
    }
}

/// A directed graph whose nodes are names, each occurring once.
pub struct Graph {
    names: Vec<String>,
    edges: Vec<(usize, usize)>,
}

impl Graph {
    #[verifier::type_invariant]
    pub closed spec fn wf(self) -> bool {
        &&& self.nodes().no_duplicates()
        &&& forall|k: int|
            0 <= k < self.edges@.len() ==> (#[trigger] self.edges@[k]).0 < self.names@.len()
                && self.edges@[k].1 < self.names@.len()
    }

    /// The names of the nodes, in the order they were added.
    pub closed spec fn nodes(self) -> Seq<Seq<char>> {
        self.names@.map_values(|s: String| s@)
    }

    /// The edges, as pairs of positions in `nodes()`.
    pub closed spec fn edge_list(self) -> Seq<(usize, usize)> {
        self.edges@
    }

    /// The graph has an edge from the node named `a` to the node named `b`.
    pub open spec fn has_named_edge(self, a: Seq<char>, b: Seq<char>) -> bool {
        exists|k: int|
            0 <= k < self.edge_list().len() && self.nodes()[#[trigger] self.edge_list()[k].0 as int] == a
                && self.nodes()[self.edge_list()[k].1 as int] == b
    }

    /// Each edge between two names of `s` goes from the earlier one to the later one.
    pub open spec fn respects_edges(self, s: Seq<Seq<char>>) -> bool {
        forall|p: int, q: int|
            #![trigger self.has_named_edge(s[p], s[q])]
            0 <= p < s.len() && 0 <= q < s.len() && self.has_named_edge(s[p], s[q]) ==> p < q
    }

    /// Every edge joins two nodes of the graph.
    pub open spec fn edges_in_range(self) -> bool {
        forall|k: int|
            0 <= k < self.edge_list().len() ==> (#[trigger] self.edge_list()[k]).0 < self.nodes().len()
                && self.edge_list()[k].1 < self.nodes().len()
    }

    /// The graph holds the nodes and the edges of `old`, in the same places.
    pub open spec fn extends(self, old: Graph) -> bool {
        &&& old.nodes().len() <= self.nodes().len()
        &&& forall|i: int| 0 <= i < old.nodes().len() ==> #[trigger] self.nodes()[i] == old.nodes()[i]
        &&& old.edge_list().len() <= self.edge_list().len()
        &&& forall|k: int| 0 <= k < old.edge_list().len() ==> #[trigger] self.edge_list()[k] == old.edge_list()[k]
    }

    /// A graph that extends another has its edges.
    pub proof fn lemma_extends_edge(self, old: Graph, a: Seq<char>, b: Seq<char>)
        requires
            self.extends(old),
            old.edges_in_range(),
            old.has_named_edge(a, b),
        ensures
            self.has_named_edge(a, b),
    {
        let k = choose|k: int|
            0 <= k < old.edge_list().len() && old.nodes()[#[trigger] old.edge_list()[k].0 as int] == a
                && old.nodes()[old.edge_list()[k].1 as int] == b;
        assert(self.edge_list()[k] == old.edge_list()[k]);
        assert(self.nodes()[old.edge_list()[k].0 as int] == old.nodes()[old.edge_list()[k].0 as int]);
        assert(self.nodes()[old.edge_list()[k].1 as int] == old.nodes()[old.edge_list()[k].1 as int]);
    }

    /// A graph that extends another has all its edges.
    pub proof fn lemma_extends_edges(self, old: Graph)
        requires
            self.extends(old),
            old.edges_in_range(),
        ensures
            forall|a: Seq<char>, b: Seq<char>|
                #![trigger self.has_named_edge(a, b)]
                old.has_named_edge(a, b) ==> self.has_named_edge(a, b),
    {
        assert forall|a: Seq<char>, b: Seq<char>| old.has_named_edge(a, b) implies self.has_named_edge(a, b) by {
            self.lemma_extends_edge(old, a, b);
        }
    }

    /// A graph that extends another has all its nodes.
    pub proof fn lemma_extends_nodes(self, old: Graph)
        requires
            self.extends(old),
        ensures
            forall|v: Seq<char>| #[trigger] old.nodes().contains(v) ==> self.nodes().contains(v),
    {
        assert forall|v: Seq<char>| #[trigger] old.nodes().contains(v) implies self.nodes().contains(v) by {
            let i = old.nodes().index_of(v);
            assert(self.nodes()[i] == v);
        }
    }

    pub fn new() -> (r: Graph)
        ensures
            r.nodes() == Seq::<Seq<char>>::empty(),
            r.edge_list() == Seq::<(usize, usize)>::empty(),
            r.edges_in_range(),
    {
        let r = Graph { names: Vec::new(), edges: Vec::new() };
        assert(r.nodes() =~= Seq::<Seq<char>>::empty());
        r
    }

    /// The position of the node with a name, if there is one.
    pub fn index_of(&self, name: &str) -> (r: Option<usize>)
        ensures
            match r {
                Some(i) => i < self.nodes().len() && self.nodes()[i as int] == name@,
                None => !self.nodes().contains(name@),
            },
    {
        let mut i: usize = 0;
        while i < self.names.len()
            invariant
                i <= self.names@.len(),
                self.nodes().len() == self.names@.len(),
                forall|j: int| 0 <= j < i ==> self.nodes()[j] != name@,
            decreases self.names@.len() - i,
        {
            if str_eq(self.names[i].as_str(), name) {
                return Some(i);
            }
            i = i + 1;
        }
        None
    }

    pub fn contains_node(&self, name: &str) -> (r: bool)
        ensures
            r == self.nodes().contains(name@),
    {
        self.index_of(name).is_some()
    }

    /// Adds a node with a name unless there is one; gives its position.
    pub fn add_node(&mut self, name: &str) -> (r: usize)
        ensures
            final(self).edge_list() == old(self).edge_list(),
            old(self).nodes().contains(name@) ==> final(self).nodes() == old(self).nodes(),
            !old(self).nodes().contains(name@) ==> final(self).nodes() == old(self).nodes().push(name@),
            r < final(self).nodes().len(),
            final(self).nodes()[r as int] == name@,
            final(self).extends(*old(self)),
            final(self).edges_in_range(),
            final(self).nodes().contains(name@),
    {
        proof {
            use_type_invariant(&*self);
        }
        let r = match self.index_of(name) {
            Some(i) => i,
            None => {
                let ghost old_nodes = self.nodes();
                let mut tmp = Graph::new();
                std::mem::swap(&mut tmp, self);
                let Graph { names: mut names, edges } = tmp;
                let i = names.len();
                names.push(String::from_str(name));
                let ghost new_nodes = names@.map_values(|s: String| s@);
                assert(new_nodes =~= old_nodes.push(name@));
                proof {
                    assert forall|a: int, b: int| 0 <= a < b < new_nodes.len() implies new_nodes[a] != new_nodes[b] by {
                        if b == old_nodes.len() {
                            assert(old_nodes.contains(new_nodes[a]));
                        }
                    }
                }
                *self = Graph { names, edges };
                i
            },
        };
        assert(self.nodes()[r as int] == name@);
        r
    }

    /// Adds an edge from the node named `from` to the node named `to`, adding the
    /// nodes that are missing.
    pub fn insert(&mut self, from: &str, to: &str)
        ensures
            forall|v: Seq<char>| #[trigger]
                final(self).nodes().contains(v) <==> (old(self).nodes().contains(v) || v == from@ || v == to@),
            forall|i: int| 0 <= i < old(self).nodes().len() ==> final(self).nodes()[i] == old(self).nodes()[i],
            final(self).edge_list().len() == old(self).edge_list().len() + 1,
            forall|k: int|
                0 <= k < old(self).edge_list().len() ==> final(self).edge_list()[k] == old(self).edge_list()[k],
            final(self).nodes()[final(self).edge_list().last().0 as int] == from@,
            final(self).nodes()[final(self).edge_list().last().1 as int] == to@,
            final(self).extends(*old(self)),
            final(self).edges_in_range(),
            final(self).has_named_edge(from@, to@),
    {
        let ghost n0 = self.nodes();
        let a = self.add_node(from);
        let ghost n1 = self.nodes();
        let b = self.add_node(to);
        proof {
            use_type_invariant(&*self);
            assert forall|v: Seq<char>| #[trigger]
                self.nodes().contains(v) <==> (n0.contains(v) || v == from@ || v == to@) by {
                if self.nodes().contains(v) {
                    let j = self.nodes().index_of(v);
                    if !n1.contains(to@) && j == n1.len() {
                    } else {
                        assert(n1[j] == v);
                        if !n0.contains(from@) && j == n0.len() {
                        } else {
                            assert(n0[j] == v);
                        }
                    }
                }
                if n0.contains(v) {
                    let j = n0.index_of(v);
                    assert(n1[j] == v);
                    assert(self.nodes()[j] == v);
                }
                if v == from@ {
                    assert(n1[a as int] == v);
                    assert(self.nodes()[a as int] == v);
                }
                if v == to@ {
                    assert(self.nodes()[b as int] == v);
                }
            }
        }
        let mut tmp = Graph::new();
        std::mem::swap(&mut tmp, self);
        let Graph { names, edges: mut edges } = tmp;
        edges.push((a, b));
        *self = Graph { names, edges };
        proof {
            let k = self.edge_list().len() - 1;
            assert(self.edge_list()[k] == (a, b));
            assert(self.nodes()[self.edge_list()[k].0 as int] == from@);
            assert(self.nodes()[self.edge_list()[k].1 as int] == to@);
        }
    }

    /// The names of the nodes that edges from the node named `from` go to.
    pub fn out_edges(&self, from: &str) -> (r: Vec<String>)
        ensures
            forall|t: Seq<char>| #[trigger] names_of(r@).contains(t) <==> self.has_named_edge(from@, t),
    {
        proof {
            use_type_invariant(self);
        }
        let mut r: Vec<String> = Vec::new();
        let src = self.index_of(from);
        match src {
            None => {
                proof {
                    assert forall|t: Seq<char>| !self.has_named_edge(from@, t) by {
                        if self.has_named_edge(from@, t) {
                            let k = choose|k: int|
                                0 <= k < self.edge_list().len() && self.nodes()[#[trigger] self.edge_list()[k].0 as int]
                                    == from@ && self.nodes()[self.edge_list()[k].1 as int] == t;
                            assert(self.nodes().contains(self.nodes()[self.edges@[k].0 as int]));
                        }
                    }
                    assert(names_of(r@) =~= Seq::<Seq<char>>::empty());
                }
                r
            },
            Some(a) => {
                let mut k: usize = 0;
                while k < self.edges.len()
                    invariant
                        a < self.nodes().len(),
                        self.nodes()[a as int] == from@,
                        self.nodes().no_duplicates(),
                        self.nodes().len() == self.names@.len(),
                        k <= self.edges@.len(),
                        forall|j: int|
                            0 <= j < self.edges@.len() ==> (#[trigger] self.edges@[j]).0 < self.names@.len()
                                && self.edges@[j].1 < self.names@.len(),
                        forall|t: Seq<char>| #[trigger]
                            names_of(r@).contains(t) <==> exists|j: int|
                                0 <= j < k && self.edges@[j].0 == a && self.nodes()[#[trigger] self.edges@[j].1 as int] == t,
                    decreases self.edges@.len() - k,
                {
                    let (s, t) = self.edges[k];
                    let ghost before = names_of(r@);
                    if s == a {
                        r.push(self.names[t].clone());
                        assert(names_of(r@) =~= before.push(self.nodes()[t as int]));
                        proof {
                            assert forall|u: Seq<char>| #[trigger]
                                names_of(r@).contains(u) <==> exists|j: int|
                                    0 <= j < k + 1 && self.edges@[j].0 == a && self.nodes()[#[trigger] self.edges@[j].1 as int]
                                        == u by {
                                if names_of(r@).contains(u) {
                                    let i = names_of(r@).index_of(u);
                                    if i == before.len() {
                                        assert(self.edges@[k as int].1 == t);
                                    } else {
                                        assert(before[i] == u);
                                        assert(before.contains(u));
                                    }
                                }
                                if exists|j: int|
                                    0 <= j < k + 1 && self.edges@[j].0 == a && self.nodes()[#[trigger] self.edges@[j].1 as int]
                                        == u {
                                    let j = choose|j: int|
                                        0 <= j < k + 1 && self.edges@[j].0 == a && self.nodes()[#[trigger] self.edges@[j].1 as int]
                                            == u;
                                    if j == k {
                                        assert(names_of(r@)[before.len() as int] == u);
                                    } else {
                                        assert(before.contains(u));
                                        let i = before.index_of(u);
                                        assert(names_of(r@)[i] == u);
                                    }
                                }
                            }
                        }
                    } else {
                        proof {
                            assert forall|u: Seq<char>| #[trigger]
                                names_of(r@).contains(u) <==> exists|j: int|
                                    0 <= j < k + 1 && self.edges@[j].0 == a && self.nodes()[#[trigger] self.edges@[j].1 as int]
                                        == u by {
                                if exists|j: int|
                                    0 <= j < k + 1 && self.edges@[j].0 == a && self.nodes()[#[trigger] self.edges@[j].1 as int]
                                        == u {
                                    let j = choose|j: int|
                                        0 <= j < k + 1 && self.edges@[j].0 == a && self.nodes()[#[trigger] self.edges@[j].1 as int]
                                            == u;
                                    assert(j != k);
                                }
                            }
                        }
                    }
                    k = k + 1;
                }
                proof {
                    assert forall|t: Seq<char>| #[trigger]
                        names_of(r@).contains(t) <==> self.has_named_edge(from@, t) by {
                        if self.has_named_edge(from@, t) {
                            let j = choose|j: int|
                                0 <= j < self.edge_list().len() && self.nodes()[#[trigger] self.edge_list()[j].0 as int]
                                    == from@ && self.nodes()[self.edge_list()[j].1 as int] == t;
                            assert(self.edges@[j].0 == a);
                        }
                        if names_of(r@).contains(t) {
                            let j = choose|j: int|
                                0 <= j < k && self.edges@[j].0 == a && self.nodes()[#[trigger] self.edges@[j].1 as int] == t;
                            assert(self.edge_list()[j].0 == a);
                        }
                    }
                }
                r
            },
        }
    }

    /// Whether every edge into node `v` comes from a node marked done.
    fn all_preds_done(&self, v: usize, done: &Vec<bool>) -> (r: bool)
        requires
            done@.len() == self.nodes().len(),
        ensures
            r == forall|k: int|
                0 <= k < self.edges@.len() && (#[trigger] self.edges@[k]).1 == v ==> done@[self.edges@[k].0 as int],
    {
        proof {
            use_type_invariant(self);
        }
        let mut k: usize = 0;
        while k < self.edges.len()
            invariant
                done@.len() == self.names@.len(),
                self.nodes().len() == self.names@.len(),
                k <= self.edges@.len(),
                forall|j: int|
                    0 <= j < self.edges@.len() ==> (#[trigger] self.edges@[j]).0 < self.names@.len()
                        && self.edges@[j].1 < self.names@.len(),
                forall|j: int| 0 <= j < k && (#[trigger] self.edges@[j]).1 == v ==> done@[self.edges@[j].0 as int],
            decreases self.edges@.len() - k,
        {
            let (a, b) = self.edges[k];
            if b == v && !done[a] {
                return false;
            }
            k = k + 1;
        }
        true
    }

    /// A node that is not done and has an edge into `v`.
    fn undone_pred(&self, v: usize, done: &Vec<bool>) -> (r: usize)
        requires
            done@.len() == self.nodes().len(),
            exists|k: int|
                0 <= k < self.edges@.len() && (#[trigger] self.edges@[k]).1 == v && !done@[self.edges@[k].0 as int],
        ensures
            r < self.nodes().len(),
            !done@[r as int],
            has_edge(self.edges@, r as int, v as int),
    {
        proof {
            use_type_invariant(self);
        }
        let mut k: usize = 0;
        while k < self.edges.len()
            invariant
                done@.len() == self.names@.len(),
                self.nodes().len() == self.names@.len(),
                k <= self.edges@.len(),
                forall|j: int|
                    0 <= j < self.edges@.len() ==> (#[trigger] self.edges@[j]).0 < self.names@.len()
                        && self.edges@[j].1 < self.names@.len(),
                forall|j: int| 0 <= j < k && (#[trigger] self.edges@[j]).1 == v ==> done@[self.edges@[j].0 as int],
            decreases self.edges@.len() - k,
        {
            let (a, b) = self.edges[k];
            if b == v && !done[a] {
                assert(self.edges@[k as int] == (a, b));
                return a;
            }
            k = k + 1;
        }
        proof {
            let k = choose|k: int|
                0 <= k < self.edges@.len() && (#[trigger] self.edges@[k]).1 == v && !done@[self.edges@[k].0 as int];
            assert(false);
        }
        0
    }

    /// A cycle among the nodes that are not done, starting from one of them; every
    /// node that is not done has an edge into it from another such node.
    fn find_cycle(&self, done: &Vec<bool>, start: usize) -> (r: Vec<usize>)
        requires
            done@.len() == self.nodes().len(),
            start < self.nodes().len(),
            !done@[start as int],
            forall|u: int|
                0 <= u < self.nodes().len() && !done@[u] ==> exists|k: int|
                    0 <= k < self.edges@.len() && (#[trigger] self.edges@[k]).1 == u && !done@[self.edges@[k].0 as int],
        ensures
            is_cycle(r@, self.nodes().len(), self.edges@),
    {
        proof {
            use_type_invariant(self);
        }
        let n = self.names.len();
        let mut in_walk: Vec<bool> = Vec::new();
        let mut pos_in_walk: Vec<usize> = Vec::new();
        let mut i: usize = 0;
        while i < n
            invariant
                n == self.names@.len(),
                i <= n,
                in_walk@.len() == i,
                pos_in_walk@.len() == i,
                forall|j: int| 0 <= j < i ==> !in_walk@[j],
            decreases n - i,
        {
            in_walk.push(false);
            pos_in_walk.push(0);
            i = i + 1;
        }
        let mut walk: Vec<usize> = Vec::new();
        walk.push(start);
        proof {
            lemma_count_false_update(in_walk@, start as int);
        }
        in_walk.set(start, true);
        pos_in_walk.set(start, 0);
        loop
            invariant
                n == self.names@.len(),
                n == self.nodes().len(),
                done@.len() == n,
                in_walk@.len() == n,
                pos_in_walk@.len() == n,
                forall|u: int|
                    0 <= u < n && !done@[u] ==> exists|k: int|
                        0 <= k < self.edges@.len() && (#[trigger] self.edges@[k]).1 == u && !done@[self.edges@[k].0 as int],
                walk@.len() >= 1,
                forall|j: int|
                    0 <= j < walk@.len() ==> (#[trigger] walk@[j]) < n && !done@[walk@[j] as int]
                        && in_walk@[walk@[j] as int] && pos_in_walk@[walk@[j] as int] == j,
                forall|u: int| 0 <= u < n && #[trigger] in_walk@[u] ==> pos_in_walk@[u] < walk@.len() && walk@[pos_in_walk@[u] as int] == u,
                forall|j: int|
                    0 <= j < walk@.len() - 1 ==> has_edge(self.edges@, #[trigger] walk@[j + 1] as int, walk@[j] as int),
            decreases count_false(in_walk@),
        {
            let last = walk[walk.len() - 1];
            let u = self.undone_pred(last, done);
            if in_walk[u] {
                let j = pos_in_walk[u];
                let mut cycle: Vec<usize> = Vec::new();
                let mut m: usize = walk.len();
                while m > j
                    invariant
                        j < walk@.len(),
                        j <= m <= walk@.len(),
                        cycle@.len() == walk@.len() - m,
                        forall|x: int| 0 <= x < cycle@.len() ==> cycle@[x] == walk@[walk@.len() - 1 - x],
                    decreases m,
                {
                    m = m - 1;
                    cycle.push(walk[m]);
                }
                proof {
                    let c = cycle@;
                    let w = walk@;
                    assert(c.len() == w.len() - j);
                    assert forall|x: int| 0 <= x < c.len() implies has_edge(
                        self.edges@,
                        #[trigger] c[x] as int,
                        c[(x + 1) % (c.len() as int)] as int,
                    ) by {
                        if x + 1 < c.len() {
                            vstd::arithmetic::div_mod::lemma_small_mod((x + 1) as nat, c.len());
                            let y = w.len() - 2 - x;
                            assert(has_edge(self.edges@, w[y + 1] as int, w[y] as int));
                        } else {
                            vstd::arithmetic::div_mod::lemma_mod_self_0(c.len() as int);
                            assert(c[x] == w[j as int]);
                            assert(w[j as int] == u);
                        }
                    }
                }
                return cycle;
            }
            proof {
                lemma_count_false_update(in_walk@, u as int);
            }
            let len = walk.len();
            walk.push(u);
            in_walk.set(u, true);
            pos_in_walk.set(u, len);
        }
    }

    /// The positions of the nodes in an order where each edge goes from an earlier
    /// node to a later one; or, if there is no such order, a cycle.
    pub fn topological_order(&self) -> (r: Result<Vec<usize>, Vec<usize>>)
        ensures
            match r {
                Ok(ord) => is_topological_order(ord@, self.nodes().len(), self.edge_list()),
                Err(cyc) => is_cycle(cyc@, self.nodes().len(), self.edge_list()),
            },
    {
        proof {
            use_type_invariant(self);
        }
        let n = self.names.len();
        let mut done: Vec<bool> = Vec::new();
        let mut pos_of: Vec<usize> = Vec::new();
        let mut i: usize = 0;
        while i < n
            invariant
                n == self.names@.len(),
                i <= n,
                done@.len() == i,
                pos_of@.len() == i,
                forall|j: int| 0 <= j < i ==> !done@[j],
            decreases n - i,
        {
            done.push(false);
            pos_of.push(0);
            i = i + 1;
        }
        let mut ord: Vec<usize> = Vec::new();
        loop
            invariant
                n == self.names@.len(),
                n == self.nodes().len(),
                done@.len() == n,
                pos_of@.len() == n,
                forall|k: int|
                    0 <= k < self.edges@.len() ==> (#[trigger] self.edges@[k]).0 < n && self.edges@[k].1 < n,
                forall|j: int|
                    0 <= j < ord@.len() ==> (#[trigger] ord@[j]) < n && done@[ord@[j] as int] && pos_of@[ord@[j] as int] == j,
                forall|v: int| 0 <= v < n && #[trigger] done@[v] ==> pos_of@[v] < ord@.len() && ord@[pos_of@[v] as int] == v,
                forall|k: int|
                    0 <= k < self.edges@.len() && done@[(#[trigger] self.edges@[k]).1 as int] ==> done@[self.edges@[k].0 as int]
                        && pos_of@[self.edges@[k].0 as int] < pos_of@[self.edges@[k].1 as int],
            decreases count_false(done@),
        {
            let mut v: usize = 0;
            let mut any_undone = false;
            let mut some_undone: usize = 0;
            let mut found = false;
            while v < n && !found
                invariant
                    n == self.names@.len(),
                    done@.len() == n,
                    v <= n,
                    any_undone ==> some_undone < n && !done@[some_undone as int],
                    !any_undone ==> forall|u: int| 0 <= u < v ==> done@[u],
                    found ==> v < n && !done@[v as int] && forall|k: int|
                        0 <= k < self.edges@.len() && (#[trigger] self.edges@[k]).1 == v ==> done@[self.edges@[k].0 as int],
                    !found ==> forall|u: int|
                        0 <= u < v && !done@[u] ==> exists|k: int|
                            0 <= k < self.edges@.len() && (#[trigger] self.edges@[k]).1 == u && !done@[self.edges@[k].0 as int],
                decreases n - v, if found { 0int } else { 1int },
            {
                if !done[v] {
                    any_undone = true;
                    some_undone = v;
                    if self.all_preds_done(v, &done) {
                        found = true;
                    } else {
                        v = v + 1;
                    }
                } else {
                    v = v + 1;
                }
            }
            if !found {
                if !any_undone {
                    proof {
                        assert forall|u: usize| u < n implies ord@.contains(u) by {
                            assert(done@[u as int]);
                            assert(ord@[pos_of@[u as int] as int] == u);
                        }
                        assert forall|a: int, b: int| 0 <= a < b < ord@.len() implies ord@[a] != ord@[b] by {
                            if ord@[a] == ord@[b] {
                                assert(pos_of@[ord@[a] as int] == a);
                            }
                        }
                        assert forall|k: int, a: int, b: int|
                            #![trigger self.edges@[k], ord@[a], ord@[b]]
                            0 <= k < self.edges@.len() && 0 <= a < ord@.len() && 0 <= b < ord@.len()
                                && self.edges@[k] == (ord@[a], ord@[b]) implies a < b by {
                            assert(done@[self.edges@[k].1 as int]);
                        }
                    }
                    return Ok(ord);
                }
                let cycle = self.find_cycle(&done, some_undone);
                return Err(cycle);
            }
            proof {
                lemma_count_false_update(done@, v as int);
                assert forall|k: int|
                    0 <= k < self.edges@.len() && (#[trigger] self.edges@[k]).1 != v && self.edges@[k].0 == v
                        implies !done@[self.edges@[k].1 as int] by {
                    if done@[self.edges@[k].1 as int] {
                        assert(done@[self.edges@[k].0 as int]);
                    }
                }
            }
            let len = ord.len();
            ord.push(v);
            done.set(v, true);
            pos_of.set(v, len);
        }
    }

    /// The names of the nodes in an order where each edge goes from an earlier node
    /// to a later one; or, if there is no such order, the names along a cycle.
    pub fn topological_sort(&self) -> (r: Result<Vec<String>, Vec<String>>)
        ensures
            self.nodes().no_duplicates(),
            match r {
                Ok(names) => exists|ord: Seq<usize>|
                    is_topological_order(ord, self.nodes().len(), self.edge_list()) && names@.len() == ord.len()
                        && forall|i: int| 0 <= i < ord.len() ==> (#[trigger] names@[i])@ == self.nodes()[ord[i] as int],
                Err(names) => exists|cyc: Seq<usize>|
                    is_cycle(cyc, self.nodes().len(), self.edge_list()) && names@.len() == cyc.len()
                        && forall|i: int| 0 <= i < cyc.len() ==> (#[trigger] names@[i])@ == self.nodes()[cyc[i] as int],
            },
            r matches Ok(names) ==> {
                &&& names_of(names@).no_duplicates()
                &&& forall|v: Seq<char>| #[trigger] names_of(names@).contains(v) <==> self.nodes().contains(v)
                &&& self.respects_edges(names_of(names@))
            },
    {
        proof {
            use_type_invariant(self);
        }
        match self.topological_order() {
            Ok(ord) => {
                let names = self.names_of(&ord);
                proof {
                    let s = names_of(names@);
                    let nodes = self.nodes();
                    let o = ord@;
                    assert forall|p: int| 0 <= p < s.len() implies #[trigger] s[p] == nodes[o[p] as int] by {
                        assert(names@[p]@ == nodes[o[p] as int]);
                    }
                    assert forall|p: int, q: int| 0 <= p < q < s.len() implies s[p] != s[q] by {
                        assert(s[p] == nodes[o[p] as int]);
                        assert(s[q] == nodes[o[q] as int]);
                        assert(o[p] != o[q]);
                    }
                    assert forall|v: Seq<char>| #[trigger] s.contains(v) <==> nodes.contains(v) by {
                        if s.contains(v) {
                            let p = s.index_of(v);
                            assert(s[p] == nodes[o[p] as int]);
                        }
                        if nodes.contains(v) {
                            let x = nodes.index_of(v);
                            assert(nodes[x] == v);
                            assert(nodes.len() == self.names@.len());
                            assert(x < self.names.len());
                            assert(o.contains(x as usize));
                            let p = o.index_of(x as usize);
                            assert(o[p] == x as usize);
                            assert(s[p] == nodes[o[p] as int]);
                            assert(s[p] == v);
                        }
                    }
                    assert forall|p: int, q: int|
                        #![trigger self.has_named_edge(s[p], s[q])]
                        0 <= p < s.len() && 0 <= q < s.len() && self.has_named_edge(s[p], s[q]) implies p < q by {
                        let k = choose|k: int|
                            0 <= k < self.edge_list().len() && nodes[#[trigger] self.edge_list()[k].0 as int] == s[p]
                                && nodes[self.edge_list()[k].1 as int] == s[q];
                        let e = self.edge_list()[k];
                        assert(s[p] == nodes[o[p] as int]);
                        assert(s[q] == nodes[o[q] as int]);
                        assert(e.0 == o[p]);
                        assert(e.1 == o[q]);
                        assert(self.edges@[k] == (o[p], o[q]));
                    }
                }
                Ok(names)
            },
            Err(cyc) => {
                let names = self.names_of(&cyc);
                Err(names)
            },
        }
    }

    fn names_of(&self, positions: &Vec<usize>) -> (r: Vec<String>)
        requires
            forall|i: int| 0 <= i < positions@.len() ==> (#[trigger] positions@[i]) < self.nodes().len(),
        ensures
            r@.len() == positions@.len(),
            forall|i: int| 0 <= i < positions@.len() ==> (#[trigger] r@[i])@ == self.nodes()[positions@[i] as int],
    {
        let mut r: Vec<String> = Vec::new();
        let mut i: usize = 0;
        while i < positions.len()
            invariant
                i <= positions@.len(),
                self.nodes().len() == self.names@.len(),
                forall|j: int| 0 <= j < positions@.len() ==> (#[trigger] positions@[j]) < self.nodes().len(),
                r@.len() == i,
                forall|j: int| 0 <= j < i ==> (#[trigger] r@[j])@ == self.nodes()[positions@[j] as int],
            decreases positions@.len() - i,
        {
            r.push(self.names[positions[i]].clone());
            i = i + 1;
        }
        r
    }
}

} // verus!
