//! An adjacency-list graph over named vertices. The graph is viewed as a
//! finite map from a vertex name to the set of names adjacent to it; only set
//! membership carries meaning, never insertion order.

use std::collections::VecDeque;
use vstd::prelude::*;

use crate::vertex::Vertex;

verus! {

/// One adjacency record: a key vertex and the vertices reachable from it.
struct AdjacencyRecord {
    key: Vertex,
    neighbours: Vec<Vertex>,
}

/// A graph stored as an adjacency list. A vertex has a record exactly when
/// some edge leaves it; a vertex without a record simply has no neighbours.
pub struct Graph {
    adj: Vec<AdjacencyRecord>,
}

/// The set of names occurring in a list of vertices.
pub open spec fn vertex_names(vs: Seq<Vertex>) -> Set<Seq<u8>> {
    Set::new(|b: Seq<u8>| exists|j: int| 0 <= j < vs.len() && vs[j]@ == b)
}

/// No two vertices of the list share a name.
pub open spec fn distinct_names(vs: Seq<Vertex>) -> bool {
    forall|j1: int, j2: int| 0 <= j1 < j2 < vs.len() ==> vs[j1]@ != vs[j2]@
}

/// The adjacency map records an edge from `a` to `b`.
pub open spec fn map_has_edge(m: Map<Seq<u8>, Set<Seq<u8>>>, a: Seq<u8>, b: Seq<u8>) -> bool {
    m.dom().contains(a) && m[a].contains(b)
}

/// The adjacency map after recording a directed edge from `a` to `b`.
pub open spec fn spec_add_directed(
    m: Map<Seq<u8>, Set<Seq<u8>>>,
    a: Seq<u8>,
    b: Seq<u8>,
) -> Map<Seq<u8>, Set<Seq<u8>>> {
    if m.dom().contains(a) {
        m.insert(a, m[a].insert(b))
    } else {
        m.insert(a, Set::empty().insert(b))
    }
}

/// The adjacency map after recording an undirected edge between `a` and `b`:
/// both directed edges, as one logical operation.
pub open spec fn spec_add_undirected(
    m: Map<Seq<u8>, Set<Seq<u8>>>,
    a: Seq<u8>,
    b: Seq<u8>,
) -> Map<Seq<u8>, Set<Seq<u8>>> {
    spec_add_directed(spec_add_directed(m, a, b), b, a)
}

/// Adding a directed edge a second time changes nothing: the neighbour sets
/// after the repeated insert equal those after the first.
pub proof fn lemma_add_directed_idempotent(m: Map<Seq<u8>, Set<Seq<u8>>>, a: Seq<u8>, b: Seq<u8>)
    ensures
        spec_add_directed(spec_add_directed(m, a, b), a, b) == spec_add_directed(m, a, b),
{
    let m1 = spec_add_directed(m, a, b);
    assert(m1[a].contains(b));
    assert(m1[a].insert(b) =~= m1[a]);
    assert(spec_add_directed(m1, a, b) =~= m1);
}

/// Adding an undirected edge a second time changes nothing.
pub proof fn lemma_add_undirected_idempotent(m: Map<Seq<u8>, Set<Seq<u8>>>, a: Seq<u8>, b: Seq<u8>)
    ensures
        spec_add_undirected(spec_add_undirected(m, a, b), a, b) == spec_add_undirected(m, a, b),
{
    let m2 = spec_add_undirected(m, a, b);
    assert(m2.dom().contains(a) && m2[a].contains(b)) by {
        let m1 = spec_add_directed(m, a, b);
        assert(m1[a].contains(b));
        if a == b {
            assert(m2[a].contains(b));
        } else {
            assert(m2[a] == m1[a]);
        }
    }
    let m3 = spec_add_directed(m2, a, b);
    assert(m2[a].insert(b) =~= m2[a]);
    assert(m3 =~= m2);
    assert(m3.dom().contains(b) && m3[b].contains(a)) by {
        assert(m2[b].contains(a));
    }
    assert(m3[b].insert(a) =~= m3[b]);
    assert(spec_add_directed(m3, b, a) =~= m3);
}

/// After an undirected edge between `a` and `b` is added, `b` is among the
/// neighbours of `a` and `a` is among the neighbours of `b`.
pub proof fn lemma_add_undirected_symmetric(m: Map<Seq<u8>, Set<Seq<u8>>>, a: Seq<u8>, b: Seq<u8>)
    ensures
        map_has_edge(spec_add_undirected(m, a, b), a, b),
        map_has_edge(spec_add_undirected(m, a, b), b, a),
{
    let m1 = spec_add_directed(m, a, b);
    let m2 = spec_add_directed(m1, b, a);
    assert(m1[a].contains(b));
    assert(m2[b].contains(a));
    if a == b {
        assert(m2[a].contains(a));
        assert(m2[a].contains(b)) by {
            assert(m1[b].contains(b));
        }
    } else {
        assert(m2[a] == m1[a]);
    }
}

/// A chain of edges through the adjacency map: each name of `w` after the
/// first is adjacent to the name before it.
pub open spec fn edge_chain(m: Map<Seq<u8>, Set<Seq<u8>>>, w: Seq<Seq<u8>>) -> bool {
    forall|i: int| 1 <= i < w.len() ==> map_has_edge(m, w[i - 1], #[trigger] w[i])
}

/// A finished walk misses nothing: a visit order that begins a chain of
/// edges and whose visited vertices have every neighbour visited — as
/// `depth_first_order` and `breadth_first_order` guarantee when they finish —
/// covers every vertex the chain passes through.
pub proof fn lemma_saturated_walk_covers_chain(
    m: Map<Seq<u8>, Set<Seq<u8>>>,
    order: Seq<Vertex>,
    w: Seq<Seq<u8>>,
)
    requires
        w.len() >= 1,
        edge_chain(m, w),
        vertex_names(order).contains(w[0]),
        forall|k: int, b: Seq<u8>|
            0 <= k < order.len() && #[trigger] map_has_edge(m, order[k]@, b) ==> vertex_names(
                order,
            ).contains(b),
    ensures
        forall|i: int| 0 <= i < w.len() ==> vertex_names(order).contains(#[trigger] w[i]),
    decreases w.len(),
{
    if w.len() > 1 {
        let front = w.drop_last();
        assert(edge_chain(m, front)) by {
            assert forall|i: int| 1 <= i < front.len() implies map_has_edge(
                m,
                front[i - 1],
                #[trigger] front[i],
            ) by {
                assert(front[i - 1] == w[i - 1]);
                assert(front[i] == w[i]);
            }
        }
        lemma_saturated_walk_covers_chain(m, order, front);
        assert forall|i: int| 0 <= i < w.len() implies vertex_names(order).contains(
            #[trigger] w[i],
        ) by {
            if i < w.len() - 1 {
                assert(front[i] == w[i]);
            } else {
                assert(front[i - 1] == w[i - 1]);
                assert(vertex_names(order).contains(front[i - 1]));
                let k = choose|k: int| 0 <= k < order.len() && order[k]@ == w[i - 1];
                assert(map_has_edge(m, order[k]@, w[i]));
            }
        }
    }
}

/// Pushing a vertex onto a list adds exactly its name to the name set.
proof fn lemma_vertex_names_push(vs: Seq<Vertex>, v: Vertex)
    ensures
        vertex_names(vs.push(v)) == vertex_names(vs).insert(v@),
{
    let lhs = vertex_names(vs.push(v));
    let rhs = vertex_names(vs).insert(v@);
    assert forall|b: Seq<u8>| lhs.contains(b) implies rhs.contains(b) by {
        let j = choose|j: int| 0 <= j < vs.push(v).len() && vs.push(v)[j]@ == b;
        if j < vs.len() {
            assert(vs[j]@ == b);
        }
    }
    assert forall|b: Seq<u8>| rhs.contains(b) implies lhs.contains(b) by {
        if b == v@ {
            assert(vs.push(v)[vs.len() as int]@ == b);
        } else {
            let j = choose|j: int| 0 <= j < vs.len() && vs[j]@ == b;
            assert(vs.push(v)[j]@ == b);
        }
    }
    assert(lhs =~= rhs);
}

/// Copy a list of vertices, name for name.
pub(crate) fn clone_vertices(vs: &Vec<Vertex>) -> (r: Vec<Vertex>)
    ensures
        r@.len() == vs@.len(),
        forall|j: int| 0 <= j < vs@.len() ==> r@[j]@ == vs@[j]@,
{
    let mut r: Vec<Vertex> = Vec::new();
    let n = vs.len();
    for i in 0..n
        invariant
            n == vs@.len(),
            r@.len() == i,
            forall|j: int| 0 <= j < i ==> r@[j]@ == vs@[j]@,
    {
        r.push(vs[i].clone());
    }
    r
}

/// Whether some vertex of the list carries this name.
fn contains_name(vs: &Vec<Vertex>, v: &Vertex) -> (r: bool)
    ensures
        r == vertex_names(vs@).contains(v@),
{
    let n = vs.len();
    for i in 0..n
        invariant
            n == vs@.len(),
            forall|j: int| 0 <= j < i ==> vs@[j]@ != v@,
    {
        if vs[i].equals(v) {
            return true;
        }
    }
    false
}

impl View for Graph {
    type V = Map<Seq<u8>, Set<Seq<u8>>>;

    /// The graph as a map from a vertex name to the set of adjacent names.
    closed spec fn view(&self) -> Map<Seq<u8>, Set<Seq<u8>>> {
        Map::new(
            |k: Seq<u8>| self.has_key(k),
            |k: Seq<u8>| vertex_names(self.adj@[self.key_at(k)].neighbours@),
        )
    }
}

impl Graph {
    spec fn has_key(&self, k: Seq<u8>) -> bool {
        exists|i: int| 0 <= i < self.adj@.len() && self.adj@[i].key@ == k
    }

    spec fn key_at(&self, k: Seq<u8>) -> int {
        choose|i: int| 0 <= i < self.adj@.len() && self.adj@[i].key@ == k
    }

    /// Well-formedness: records have pairwise distinct keys, and each
    /// neighbour list holds pairwise distinct names (set semantics).
    pub closed spec fn wf(&self) -> bool {
        &&& forall|i: int, j: int|
            0 <= i < j < self.adj@.len() ==> self.adj@[i].key@ != self.adj@[j].key@
        &&& forall|i: int| 0 <= i < self.adj@.len() ==> distinct_names(#[trigger] self.adj@[i].neighbours@)
    }

    /// The record index of a present key is the unique one carrying it.
    proof fn lemma_key_at(&self, k: Seq<u8>, i: int)
        requires
            self.wf(),
            0 <= i < self.adj@.len(),
            self.adj@[i].key@ == k,
        ensures
            self.has_key(k),
            self.key_at(k) == i,
            self@.dom().contains(k),
            self@[k] == vertex_names(self.adj@[i].neighbours@),
    {
        assert(self.has_key(k));
        let j = self.key_at(k);
        assert(0 <= j < self.adj@.len() && self.adj@[j].key@ == k);
        if i < j {
            assert(self.adj@[i].key@ != self.adj@[j].key@);
        } else if j < i {
            assert(self.adj@[j].key@ != self.adj@[i].key@);
        }
    }

    pub fn new() -> (g: Graph)
        ensures
            g.wf(),
            g@ == Map::<Seq<u8>, Set<Seq<u8>>>::empty(),
    {
        let g = Graph { adj: Vec::new() };
        proof {
            assert(g@ =~= Map::<Seq<u8>, Set<Seq<u8>>>::empty());
        }
        g
    }

    /// Find the record index for a vertex name, if one exists.
    fn find_key(&self, v: &Vertex) -> (r: Option<usize>)
        ensures
            match r {
                Some(i) => i < self.adj@.len() && self.adj@[i as int].key@ == v@,
                None => !self.has_key(v@),
            },
    {
        let n = self.adj.len();
        for i in 0..n
            invariant
                n == self.adj@.len(),
                forall|j: int| 0 <= j < i ==> self.adj@[j].key@ != v@,
        {
            if self.adj[i].key.equals(v) {
                return Some(i);
            }
        }
        None
    }

    /// Record a directed edge: afterwards `from_vertex` has an adjacency
    /// record containing `to_vertex`; nothing else changes. Idempotent.
    pub fn add_directed_edge(&mut self, from_vertex: Vertex, to_vertex: Vertex)
        requires
            old(self).wf(),
        ensures
            final(self).wf(),
            final(self)@ == spec_add_directed(old(self)@, from_vertex@, to_vertex@),
    {
        let ghost m = old(self)@;
        let ghost f = from_vertex@;
        let ghost t = to_vertex@;
        match self.find_key(&from_vertex) {
            Some(i) => {
                proof {
                    old(self).lemma_key_at(f, i as int);
                }
                if !contains_name(&self.adj[i].neighbours, &to_vertex) {
                    let record = &mut self.adj[i];
                    record.neighbours.push(to_vertex);
                    proof {
                        lemma_vertex_names_push(old(self).adj@[i as int].neighbours@, to_vertex);
                        self.lemma_view_after_record_update(*old(self), i as int, t);
                    }
                } else {
                    proof {
                        assert(m[f].insert(t) =~= m[f]);
                        assert(self@ =~= spec_add_directed(m, f, t));
                    }
                }
            }
            None => {
                let mut ns: Vec<Vertex> = Vec::new();
                ns.push(to_vertex);
                self.adj.push(AdjacencyRecord { key: from_vertex, neighbours: ns });
                proof {
                    self.lemma_view_after_record_push(*old(self), f, t);
                }
            }
        }
    }

    /// After a record's neighbour list was extended by one name, the view is
    /// the old view with that name inserted into the record key's set.
    proof fn lemma_view_after_record_update(&self, prev: Graph, i: int, t: Seq<u8>)
        requires
            prev.wf(),
            0 <= i < prev.adj@.len(),
            self.adj@.len() == prev.adj@.len(),
            forall|j: int| 0 <= j < prev.adj@.len() && j != i ==> self.adj@[j] == prev.adj@[j],
            self.adj@[i].key@ == prev.adj@[i].key@,
            vertex_names(self.adj@[i].neighbours@) == vertex_names(prev.adj@[i].neighbours@).insert(t),
            distinct_names(self.adj@[i].neighbours@),
        ensures
            self.wf(),
            self@ == spec_add_directed(prev@, prev.adj@[i].key@, t),
    {
        let f = prev.adj@[i].key@;
        assert forall|i1: int, j1: int| 0 <= i1 < j1 < self.adj@.len() implies self.adj@[i1].key@
            != self.adj@[j1].key@ by {
            assert(self.adj@[i1].key@ == prev.adj@[i1].key@);
            assert(self.adj@[j1].key@ == prev.adj@[j1].key@);
        }
        assert forall|j: int| 0 <= j < self.adj@.len() implies distinct_names(
            #[trigger] self.adj@[j].neighbours@,
        ) by {
            if j != i {
                assert(self.adj@[j] == prev.adj@[j]);
            }
        }
        prev.lemma_key_at(f, i);
        self.lemma_key_at(f, i);
        assert forall|k: Seq<u8>| self.has_key(k) implies prev.has_key(k) by {
            let j = choose|j: int| 0 <= j < self.adj@.len() && self.adj@[j].key@ == k;
            assert(prev.adj@[j].key@ == k);
        }
        assert forall|k: Seq<u8>| prev.has_key(k) implies self.has_key(k) by {
            let j = choose|j: int| 0 <= j < prev.adj@.len() && prev.adj@[j].key@ == k;
            assert(self.adj@[j].key@ == k);
        }
        assert forall|k: Seq<u8>| #[trigger] prev.has_key(k) && k != f implies self@[k]
            == prev@[k] by {
            let j = choose|j: int| 0 <= j < prev.adj@.len() && prev.adj@[j].key@ == k;
            assert(j != i);
            prev.lemma_key_at(k, j);
            self.lemma_key_at(k, j);
        }
        assert(self@ =~= spec_add_directed(prev@, f, t));
    }

    /// After a fresh record `(f, [t])` was appended, the view is the old view
    /// with `f` now mapping to the singleton set of `t`.
    proof fn lemma_view_after_record_push(&self, prev: Graph, f: Seq<u8>, t: Seq<u8>)
        requires
            prev.wf(),
            !prev.has_key(f),
            self.adj@.len() == prev.adj@.len() + 1,
            forall|j: int| 0 <= j < prev.adj@.len() ==> self.adj@[j] == prev.adj@[j],
            self.adj@[prev.adj@.len() as int].key@ == f,
            self.adj@[prev.adj@.len() as int].neighbours@.len() == 1,
            self.adj@[prev.adj@.len() as int].neighbours@[0]@ == t,
        ensures
            self.wf(),
            self@ == spec_add_directed(prev@, f, t),
    {
        let n = prev.adj@.len() as int;
        assert forall|i1: int, j1: int| 0 <= i1 < j1 < self.adj@.len() implies self.adj@[i1].key@
            != self.adj@[j1].key@ by {
            if j1 < n {
                assert(self.adj@[i1] == prev.adj@[i1]);
                assert(self.adj@[j1] == prev.adj@[j1]);
            } else {
                assert(self.adj@[i1] == prev.adj@[i1]);
                assert(prev.has_key(prev.adj@[i1].key@));
            }
        }
        assert forall|j: int| 0 <= j < self.adj@.len() implies distinct_names(
            #[trigger] self.adj@[j].neighbours@,
        ) by {
            if j < n {
                assert(self.adj@[j] == prev.adj@[j]);
            }
        }
        self.lemma_key_at(f, n);
        assert(vertex_names(self.adj@[n].neighbours@) =~= Set::empty().insert(t)) by {
            assert forall|b: Seq<u8>| vertex_names(self.adj@[n].neighbours@).contains(b) implies b
                == t by {
                let j = choose|j: int|
                    0 <= j < self.adj@[n].neighbours@.len() && self.adj@[n].neighbours@[j]@ == b;
                assert(j == 0);
            }
            assert(self.adj@[n].neighbours@[0]@ == t);
        }
        assert forall|k: Seq<u8>| #[trigger] self.has_key(k) implies prev.has_key(k) || k == f by {
            let j = choose|j: int| 0 <= j < self.adj@.len() && self.adj@[j].key@ == k;
            if j < n {
                assert(prev.adj@[j].key@ == k);
            }
        }
        assert forall|k: Seq<u8>| #[trigger] prev.has_key(k) implies self.has_key(k) by {
            let j = choose|j: int| 0 <= j < prev.adj@.len() && prev.adj@[j].key@ == k;
            assert(self.adj@[j].key@ == k);
        }
        assert forall|k: Seq<u8>| #[trigger] prev.has_key(k) implies self@[k] == prev@[k] by {
            let j = choose|j: int| 0 <= j < prev.adj@.len() && prev.adj@[j].key@ == k;
            assert(k != f);
            prev.lemma_key_at(k, j);
            self.lemma_key_at(k, j);
        }
        assert(self@ =~= spec_add_directed(prev@, f, t));
    }

    /// Record an undirected edge: both directed edges, as one logical
    /// operation. Idempotent.
    pub fn add_undirected_edge(&mut self, from_vertex: Vertex, to_vertex: Vertex)
        requires
            old(self).wf(),
        ensures
            final(self).wf(),
            final(self)@ == spec_add_undirected(old(self)@, from_vertex@, to_vertex@),
    {
        let back_to = from_vertex.clone();
        let back_from = to_vertex.clone();
        self.add_directed_edge(from_vertex, to_vertex);
        self.add_directed_edge(back_from, back_to);
    }

    /// The neighbours of a vertex, as an unordered collection of distinct
    /// vertices; `None` exactly when the vertex has no adjacency record.
    pub fn get_neighbours(&self, vertex: &Vertex) -> (r: Option<Vec<Vertex>>)
        requires
            self.wf(),
        ensures
            r.is_some() == self@.dom().contains(vertex@),
            match r {
                Some(ns) => vertex_names(ns@) == self@[vertex@] && distinct_names(ns@),
                None => true,
            },
    {
        match self.find_key(vertex) {
            Some(i) => {
                let ns = clone_vertices(&self.adj[i].neighbours);
                proof {
                    self.lemma_key_at(vertex@, i as int);
                    assert(vertex_names(ns@) =~= vertex_names(self.adj@[i as int].neighbours@)) by {
                        let orig = self.adj@[i as int].neighbours@;
                        assert forall|b: Seq<u8>| vertex_names(ns@).contains(b) implies vertex_names(
                            orig,
                        ).contains(b) by {
                            let j = choose|j: int| 0 <= j < ns@.len() && ns@[j]@ == b;
                            assert(orig[j]@ == b);
                        }
                        assert forall|b: Seq<u8>| vertex_names(orig).contains(b)
                            implies vertex_names(ns@).contains(b) by {
                            let j = choose|j: int| 0 <= j < orig.len() && orig[j]@ == b;
                            assert(ns@[j]@ == b);
                        }
                    }
                }
                Some(ns)
            }
            None => {
                proof {
                    if self@.dom().contains(vertex@) {
                        assert(self.has_key(vertex@));
                    }
                }
                None
            }
        }
    }

    /// Visit vertices from `starting_vertex` in depth-first order: pop the
    /// most recently pushed vertex, visit it, push all its neighbours. The
    /// walk deliberately performs no deduplication, so a vertex reachable
    /// along several routes is visited several times and a cycle can feed the
    /// stack forever; `max_visits` bounds the walk. The second component is
    /// true when the stack ran empty within the budget; the walk is then
    /// saturated — every neighbour of a visited vertex was itself visited.
    #[verifier::rlimit(60)]
    pub fn depth_first_order(&self, starting_vertex: &Vertex, max_visits: usize) -> (r: (
        Vec<Vertex>,
        bool,
    ))
        requires
            self.wf(),
        ensures
            r.0@.len() <= max_visits,
            max_visits > 0 ==> r.0@.len() > 0 && r.0@[0]@ == starting_vertex@,
            forall|k: int|
                0 <= k < r.0@.len() ==> r.0@[k]@ == starting_vertex@ || exists|l: int|
                    0 <= l < k && map_has_edge(self@, r.0@[l]@, #[trigger] r.0@[k]@),
            !r.1 ==> r.0@.len() == max_visits,
            r.1 ==> forall|k: int, b: Seq<u8>|
                0 <= k < r.0@.len() && #[trigger] map_has_edge(self@, r.0@[k]@, b)
                    ==> vertex_names(r.0@).contains(b),
    {
        let mut order: Vec<Vertex> = Vec::new();
        let mut stack: Vec<Vertex> = Vec::new();
        stack.push(starting_vertex.clone());
        while stack.len() > 0 && order.len() < max_visits
            invariant
                self.wf(),
                order@.len() <= max_visits,
                order@.len() == 0 ==> stack@.len() > 0,
                order@.len() > 0 ==> order@[0]@ == starting_vertex@,
                forall|s: int|
                    0 <= s < stack@.len() ==> stack@[s]@ == starting_vertex@ || exists|l: int|
                        0 <= l < order@.len() && map_has_edge(self@, order@[l]@, #[trigger] stack@[s]@),
                forall|k: int|
                    0 <= k < order@.len() ==> order@[k]@ == starting_vertex@ || exists|l: int|
                        0 <= l < k && map_has_edge(self@, order@[l]@, #[trigger] order@[k]@),
                forall|k: int, b: Seq<u8>|
                    0 <= k < order@.len() && #[trigger] map_has_edge(self@, order@[k]@, b)
                        ==> vertex_names(order@).contains(b) || vertex_names(stack@).contains(b),
            decreases max_visits - order@.len(),
        {
            let ghost stack0 = stack@;
            let ghost order0 = order@;
            let current = stack.pop().unwrap();
            order.push(current);
            let ghost c = order@.len() - 1;
            proof {
                assert(order@[c] == stack0[stack0.len() - 1]);
                assert forall|s: int|
                    0 <= s < stack@.len() implies stack@[s]@ == starting_vertex@ || exists|l: int|
                    0 <= l < order@.len() && map_has_edge(self@, order@[l]@, #[trigger] stack@[s]@) by {
                    assert(stack@[s] == stack0[s]);
                    if stack0[s]@ != starting_vertex@ {
                        let l = choose|l: int|
                            0 <= l < order0.len() && map_has_edge(self@, order0[l]@, stack0[s]@);
                        assert(order@[l]@ == order0[l]@);
                        assert(map_has_edge(self@, order@[l]@, stack@[s]@));
                    }
                }
                if order0.len() == 0 {
                    assert(stack0[stack0.len() - 1]@ == starting_vertex@);
                }
                assert forall|k: int|
                    0 <= k < order@.len() implies order@[k]@ == starting_vertex@ || exists|l: int|
                    0 <= l < k && map_has_edge(self@, order@[l]@, #[trigger] order@[k]@) by {
                    if k < order0.len() {
                        assert(order@[k] == order0[k]);
                        if order0[k]@ != starting_vertex@ {
                            let l = choose|l: int|
                                0 <= l < k && map_has_edge(self@, order0[l]@, order0[k]@);
                            assert(order@[l]@ == order0[l]@);
                            assert(map_has_edge(self@, order@[l]@, order@[k]@));
                        }
                    } else {
                        if order@[k]@ != starting_vertex@ {
                            let l = choose|l: int|
                                0 <= l < order0.len() && map_has_edge(
                                    self@,
                                    order0[l]@,
                                    stack0[stack0.len() - 1]@,
                                );
                            assert(order@[l]@ == order0[l]@);
                            assert(map_has_edge(self@, order@[l]@, order@[k]@));
                        }
                    }
                }
                assert forall|k: int, b: Seq<u8>|
                    0 <= k < c && #[trigger] map_has_edge(self@, order@[k]@, b) implies vertex_names(
                    order@,
                ).contains(b) || vertex_names(stack@).contains(b) by {
                    assert(order@[k] == order0[k]);
                    assert(map_has_edge(self@, order0[k]@, b));
                    if vertex_names(order0).contains(b) {
                        let l = choose|l: int| 0 <= l < order0.len() && order0[l]@ == b;
                        assert(order@[l]@ == b);
                        assert(vertex_names(order@).contains(b));
                    } else {
                        let s2 = choose|s2: int| 0 <= s2 < stack0.len() && stack0[s2]@ == b;
                        if s2 < stack0.len() - 1 {
                            assert(stack@[s2]@ == b);
                            assert(vertex_names(stack@).contains(b));
                        } else {
                            assert(order@[c]@ == b);
                            assert(vertex_names(order@).contains(b));
                        }
                    }
                }
            }
            if let Some(neighbours) = self.get_neighbours(&order[order.len() - 1]) {
                let n = neighbours.len();
                for i in 0..n
                    invariant
                        self.wf(),
                        n == neighbours@.len(),
                        0 <= c < order@.len(),
                        vertex_names(neighbours@) == self@[order@[c]@],
                        self@.dom().contains(order@[c]@),
                        forall|s: int|
                            0 <= s < stack@.len() ==> stack@[s]@ == starting_vertex@ || exists|l: int|
                                0 <= l < order@.len() && map_has_edge(
                                    self@,
                                    order@[l]@,
                                    #[trigger] stack@[s]@,
                                ),
                        forall|k: int, b: Seq<u8>|
                            0 <= k < c && #[trigger] map_has_edge(self@, order@[k]@, b)
                                ==> vertex_names(order@).contains(b) || vertex_names(
                                stack@,
                            ).contains(b),
                        forall|b: Seq<u8>|
                            #[trigger] self@[order@[c]@].contains(b) ==> vertex_names(
                                order@,
                            ).contains(b) || vertex_names(stack@).contains(b) || (exists|j: int|
                                i <= j < n && neighbours@[j]@ == b),
                {
                    proof {
                        assert(vertex_names(neighbours@).contains(neighbours@[i as int]@));
                        assert(map_has_edge(self@, order@[c]@, neighbours@[i as int]@));
                    }
                    let ghost stack1 = stack@;
                    stack.push(neighbours[i].clone());
                    proof {
                        assert(stack@[stack@.len() - 1]@ == neighbours@[i as int]@);
                        assert forall|k: int, b: Seq<u8>|
                            0 <= k < c && #[trigger] map_has_edge(self@, order@[k]@, b) implies
                            vertex_names(order@).contains(b) || vertex_names(stack@).contains(
                            b,
                        ) by {
                            if !vertex_names(order@).contains(b) {
                                let s2 = choose|s2: int| 0 <= s2 < stack1.len() && stack1[s2]@ == b;
                                assert(stack@[s2]@ == b);
                            }
                        }
                        assert forall|b: Seq<u8>|
                            #[trigger] self@[order@[c]@].contains(b) implies vertex_names(
                            order@,
                        ).contains(b) || vertex_names(stack@).contains(b) || (exists|j: int|
                            i + 1 <= j < n && neighbours@[j]@ == b) by {
                            if !vertex_names(order@).contains(b) && !vertex_names(stack1).contains(
                                b,
                            ) {
                                let j = choose|j: int| i <= j < n && neighbours@[j]@ == b;
                                if j == i {
                                    assert(stack@[stack@.len() - 1]@ == b);
                                    assert(vertex_names(stack@).contains(b));
                                }
                            } else if vertex_names(stack1).contains(b) {
                                let s2 = choose|s2: int| 0 <= s2 < stack1.len() && stack1[s2]@ == b;
                                assert(stack@[s2]@ == b);
                            }
                        }
                    }
                }
                proof {
                    assert forall|k: int, b: Seq<u8>|
                        0 <= k < order@.len() && #[trigger] map_has_edge(
                            self@,
                            order@[k]@,
                            b,
                        ) implies vertex_names(order@).contains(b) || vertex_names(
                        stack@,
                    ).contains(b) by {
                        if k == c {
                            assert(self@[order@[c]@].contains(b));
                        }
                    }
                }
            }
        }
        let finished = stack.len() == 0;
        (order, finished)
    }

    /// Visit vertices from `starting_vertex` in breadth-first order: the same
    /// walk as `depth_first_order`, driven by a first-in-first-out queue
    /// instead of a stack, with the same no-deduplication behaviour, the same
    /// visit budget, and the same saturation guarantee on a finished walk.
    #[verifier::rlimit(60)]
    pub fn breadth_first_order(&self, starting_vertex: &Vertex, max_visits: usize) -> (r: (
        Vec<Vertex>,
        bool,
    ))
        requires
            self.wf(),
        ensures
            r.0@.len() <= max_visits,
            max_visits > 0 ==> r.0@.len() > 0 && r.0@[0]@ == starting_vertex@,
            forall|k: int|
                0 <= k < r.0@.len() ==> r.0@[k]@ == starting_vertex@ || exists|l: int|
                    0 <= l < k && map_has_edge(self@, r.0@[l]@, #[trigger] r.0@[k]@),
            !r.1 ==> r.0@.len() == max_visits,
            r.1 ==> forall|k: int, b: Seq<u8>|
                0 <= k < r.0@.len() && #[trigger] map_has_edge(self@, r.0@[k]@, b)
                    ==> vertex_names(r.0@).contains(b),
    {
        let mut order: Vec<Vertex> = Vec::new();
        let mut queue: VecDeque<Vertex> = VecDeque::new();
        queue.push_back(starting_vertex.clone());
        while queue.len() > 0 && order.len() < max_visits
            invariant
                self.wf(),
                order@.len() <= max_visits,
                order@.len() == 0 ==> queue@.len() > 0,
                order@.len() > 0 ==> order@[0]@ == starting_vertex@,
                forall|s: int|
                    0 <= s < queue@.len() ==> queue@[s]@ == starting_vertex@ || exists|l: int|
                        0 <= l < order@.len() && map_has_edge(self@, order@[l]@, #[trigger] queue@[s]@),
                forall|k: int|
                    0 <= k < order@.len() ==> order@[k]@ == starting_vertex@ || exists|l: int|
                        0 <= l < k && map_has_edge(self@, order@[l]@, #[trigger] order@[k]@),
                forall|k: int, b: Seq<u8>|
                    0 <= k < order@.len() && #[trigger] map_has_edge(self@, order@[k]@, b)
                        ==> vertex_names(order@).contains(b) || vertex_names(queue@).contains(b),
            decreases max_visits - order@.len(),
        {
            let ghost queue0 = queue@;
            let ghost order0 = order@;
            let current = queue.pop_front().unwrap();
            order.push(current);
            let ghost c = order@.len() - 1;
            proof {
                assert(order@[c] == queue0[0]);
                assert forall|s: int|
                    0 <= s < queue@.len() implies queue@[s]@ == starting_vertex@ || exists|l: int|
                    0 <= l < order@.len() && map_has_edge(self@, order@[l]@, #[trigger] queue@[s]@) by {
                    assert(queue@[s] == queue0[s + 1]);
                    if queue0[s + 1]@ != starting_vertex@ {
                        let l = choose|l: int|
                            0 <= l < order0.len() && map_has_edge(self@, order0[l]@, queue0[s + 1]@);
                        assert(order@[l]@ == order0[l]@);
                        assert(map_has_edge(self@, order@[l]@, queue@[s]@));
                    }
                }
                if order0.len() == 0 {
                    assert(queue0[0]@ == starting_vertex@);
                }
                assert forall|k: int|
                    0 <= k < order@.len() implies order@[k]@ == starting_vertex@ || exists|l: int|
                    0 <= l < k && map_has_edge(self@, order@[l]@, #[trigger] order@[k]@) by {
                    if k < order0.len() {
                        assert(order@[k] == order0[k]);
                        if order0[k]@ != starting_vertex@ {
                            let l = choose|l: int|
                                0 <= l < k && map_has_edge(self@, order0[l]@, order0[k]@);
                            assert(order@[l]@ == order0[l]@);
                            assert(map_has_edge(self@, order@[l]@, order@[k]@));
                        }
                    } else {
                        if order@[k]@ != starting_vertex@ {
                            let l = choose|l: int|
                                0 <= l < order0.len() && map_has_edge(self@, order0[l]@, queue0[0]@);
                            assert(order@[l]@ == order0[l]@);
                            assert(map_has_edge(self@, order@[l]@, order@[k]@));
                        }
                    }
                }
                assert forall|k: int, b: Seq<u8>|
                    0 <= k < c && #[trigger] map_has_edge(self@, order@[k]@, b) implies vertex_names(
                    order@,
                ).contains(b) || vertex_names(queue@).contains(b) by {
                    assert(order@[k] == order0[k]);
                    assert(map_has_edge(self@, order0[k]@, b));
                    if vertex_names(order0).contains(b) {
                        let l = choose|l: int| 0 <= l < order0.len() && order0[l]@ == b;
                        assert(order@[l]@ == b);
                        assert(vertex_names(order@).contains(b));
                    } else {
                        let s2 = choose|s2: int| 0 <= s2 < queue0.len() && queue0[s2]@ == b;
                        if s2 == 0 {
                            assert(order@[c]@ == b);
                            assert(vertex_names(order@).contains(b));
                        } else {
                            assert(queue@[s2 - 1]@ == b);
                            assert(vertex_names(queue@).contains(b));
                        }
                    }
                }
            }
            if let Some(neighbours) = self.get_neighbours(&order[order.len() - 1]) {
                let n = neighbours.len();
                for i in 0..n
                    invariant
                        self.wf(),
                        n == neighbours@.len(),
                        0 <= c < order@.len(),
                        vertex_names(neighbours@) == self@[order@[c]@],
                        self@.dom().contains(order@[c]@),
                        forall|s: int|
                            0 <= s < queue@.len() ==> queue@[s]@ == starting_vertex@ || exists|l: int|
                                0 <= l < order@.len() && map_has_edge(
                                    self@,
                                    order@[l]@,
                                    #[trigger] queue@[s]@,
                                ),
                        forall|k: int, b: Seq<u8>|
                            0 <= k < c && #[trigger] map_has_edge(self@, order@[k]@, b)
                                ==> vertex_names(order@).contains(b) || vertex_names(
                                queue@,
                            ).contains(b),
                        forall|b: Seq<u8>|
                            #[trigger] self@[order@[c]@].contains(b) ==> vertex_names(
                                order@,
                            ).contains(b) || vertex_names(queue@).contains(b) || (exists|j: int|
                                i <= j < n && neighbours@[j]@ == b),
                {
                    proof {
                        assert(vertex_names(neighbours@).contains(neighbours@[i as int]@));
                        assert(map_has_edge(self@, order@[c]@, neighbours@[i as int]@));
                    }
                    let ghost queue1 = queue@;
                    queue.push_back(neighbours[i].clone());
                    proof {
                        assert(queue@[queue@.len() - 1]@ == neighbours@[i as int]@);
                        assert forall|k: int, b: Seq<u8>|
                            0 <= k < c && #[trigger] map_has_edge(self@, order@[k]@, b) implies
                            vertex_names(order@).contains(b) || vertex_names(queue@).contains(
                            b,
                        ) by {
                            if !vertex_names(order@).contains(b) {
                                let s2 = choose|s2: int| 0 <= s2 < queue1.len() && queue1[s2]@ == b;
                                assert(queue@[s2]@ == b);
                            }
                        }
                        assert forall|b: Seq<u8>|
                            #[trigger] self@[order@[c]@].contains(b) implies vertex_names(
                            order@,
                        ).contains(b) || vertex_names(queue@).contains(b) || (exists|j: int|
                            i + 1 <= j < n && neighbours@[j]@ == b) by {
                            if !vertex_names(order@).contains(b) && !vertex_names(queue1).contains(
                                b,
                            ) {
                                let j = choose|j: int| i <= j < n && neighbours@[j]@ == b;
                                if j == i {
                                    assert(queue@[queue@.len() - 1]@ == b);
                                    assert(vertex_names(queue@).contains(b));
                                }
                            } else if vertex_names(queue1).contains(b) {
                                let s2 = choose|s2: int| 0 <= s2 < queue1.len() && queue1[s2]@ == b;
                                assert(queue@[s2]@ == b);
                            }
                        }
                    }
                }
                proof {
                    assert forall|k: int, b: Seq<u8>|
                        0 <= k < order@.len() && #[trigger] map_has_edge(
                            self@,
                            order@[k]@,
                            b,
                        ) implies vertex_names(order@).contains(b) || vertex_names(
                        queue@,
                    ).contains(b) by {
                        if k == c {
                            assert(self@[order@[c]@].contains(b));
                        }
                    }
                }
            }
        }
        let finished = queue.len() == 0;
        (order, finished)
    }
}

} // verus!
