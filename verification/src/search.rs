//! Exhaustive enumeration of the paths between two vertices, by recursive
//! backtracking, under the revisit rule: a neighbour may be entered if it is
//! not the start vertex and is either a big cave or not yet on the
//! path-so-far. The start vertex is never re-enterable, as an explicit part
//! of the rule; the destination is a terminal, never a pass-through.

use vstd::prelude::*;

use crate::graph::clone_vertices;
use crate::graph::map_has_edge;
use crate::graph::vertex_names;
use crate::graph::Graph;
use crate::vertex::spec_is_big;
use crate::vertex::Vertex;

verus! {

/// The names of the vertices of a path, in order.
pub open spec fn names_of(p: Seq<Vertex>) -> Seq<Seq<u8>> {
    Seq::new(p.len(), |i: int| p[i]@)
}

/// How many times a name occurs in a sequence of names.
pub open spec fn occurrences(p: Seq<Seq<u8>>, x: Seq<u8>) -> nat
    decreases p.len(),
{
    if p.len() == 0 {
        0
    } else {
        occurrences(p.drop_last(), x) + if p.last() == x {
            1nat
        } else {
            0nat
        }
    }
}

proof fn lemma_occurrences_push(p: Seq<Seq<u8>>, v: Seq<u8>, x: Seq<u8>)
    ensures
        occurrences(p.push(v), x) == occurrences(p, x) + if v == x {
            1nat
        } else {
            0nat
        },
{
    assert(p.push(v).drop_last() =~= p);
}

proof fn lemma_occurrences_le_len(p: Seq<Seq<u8>>, x: Seq<u8>)
    ensures
        occurrences(p, x) <= p.len(),
    decreases p.len(),
{
    if p.len() > 0 {
        lemma_occurrences_le_len(p.drop_last(), x);
    }
}

/// Legality of the step onto `p[i]`, for `i >= 1`: an edge leads there from
/// `p[i - 1]`, and the revisit rule admits it — `p[i]` is not the start
/// vertex `p[0]`, and is a big cave or absent from the path walked so far.
pub open spec fn extension_ok(m: Map<Seq<u8>, Set<Seq<u8>>>, p: Seq<Seq<u8>>, i: int) -> bool {
    &&& map_has_edge(m, p[i - 1], p[i])
    &&& p[i] != p[0]
    &&& spec_is_big(p[i]) || occurrences(p.take(i), p[i]) == 0
}

/// A viable prefix: a walk the search may hold as its path-so-far. It begins
/// at `start`, every step is legal, and `end` occurs nowhere but possibly at
/// the final position, since reaching `end` completes a path.
pub open spec fn viable_prefix(
    m: Map<Seq<u8>, Set<Seq<u8>>>,
    start: Seq<u8>,
    end: Seq<u8>,
    p: Seq<Seq<u8>>,
) -> bool {
    &&& p.len() >= 1
    &&& p[0] == start
    &&& forall|i: int| 1 <= i < p.len() ==> #[trigger] extension_ok(m, p, i)
    &&& forall|i: int| 0 <= i < p.len() - 1 ==> #[trigger] p[i] != end
}

/// A completed path from `start` to `end`: a viable prefix whose final
/// vertex is `end`.
pub open spec fn valid_path(
    m: Map<Seq<u8>, Set<Seq<u8>>>,
    start: Seq<u8>,
    end: Seq<u8>,
    p: Seq<Seq<u8>>,
) -> bool {
    viable_prefix(m, start, end, p) && p.last() == end
}

/// A viable prefix stays viable when extended by a legal, rule-admitted step
/// that does not leave the destination behind in its interior.
proof fn lemma_viable_push(
    m: Map<Seq<u8>, Set<Seq<u8>>>,
    start: Seq<u8>,
    end: Seq<u8>,
    p: Seq<Seq<u8>>,
    v: Seq<u8>,
)
    requires
        viable_prefix(m, start, end, p),
        map_has_edge(m, p.last(), v),
        v != start,
        spec_is_big(v) || occurrences(p, v) == 0,
        p.last() != end,
    ensures
        viable_prefix(m, start, end, p.push(v)),
{
    let q = p.push(v);
    assert forall|i: int| 1 <= i < q.len() implies #[trigger] extension_ok(m, q, i) by {
        if i < p.len() {
            assert(extension_ok(m, p, i));
            assert(q[i - 1] == p[i - 1]);
            assert(q[i] == p[i]);
            assert(q.take(i) =~= p.take(i));
        } else {
            assert(q[i - 1] == p.last());
            assert(q[i] == v);
            assert(q.take(i) =~= p);
        }
    }
    assert forall|i: int| 0 <= i < q.len() - 1 implies #[trigger] q[i] != end by {
        if i < p.len() - 1 {
            assert(q[i] == p[i]);
        } else {
            assert(q[i] == p.last());
        }
    }
}

/// The traversal state of one enumeration: the path-so-far, and a visit
/// count for each vertex currently on it. Both are restored by backtracking,
/// so that the state ends a search exactly as it began it.
pub struct TraversalState {
    pub path: Vec<Vertex>,
    pub visit_counts: Vec<(Vertex, usize)>,
}

impl TraversalState {
    /// The path-so-far, as names.
    pub open spec fn path_names(&self) -> Seq<Seq<u8>> {
        names_of(self.path@)
    }

    /// Well-formedness: the visit counts carry pairwise distinct names,
    /// exactly the names on the path-so-far, each with its number of
    /// occurrences there.
    pub open spec fn wf(&self) -> bool {
        &&& forall|i: int, j: int|
            0 <= i < j < self.visit_counts@.len() ==> self.visit_counts@[i].0@
                != self.visit_counts@[j].0@
        &&& forall|i: int|
            0 <= i < self.visit_counts@.len() ==> (#[trigger] self.visit_counts@[i]).1
                == occurrences(self.path_names(), self.visit_counts@[i].0@)
        &&& forall|i: int|
            0 <= i < self.visit_counts@.len() ==> (#[trigger] self.visit_counts@[i]).1 >= 1
        &&& forall|x: Seq<u8>|
            #[trigger] occurrences(self.path_names(), x) >= 1 ==> exists|i: int|
                0 <= i < self.visit_counts@.len() && (#[trigger] self.visit_counts@[i]).0@ == x
    }

    pub fn new() -> (st: TraversalState)
        ensures
            st.wf(),
            st.path_names() == Seq::<Seq<u8>>::empty(),
            st.visit_counts@.len() == 0,
    {
        let st = TraversalState { path: Vec::new(), visit_counts: Vec::new() };
        proof {
            assert(st.path_names() =~= Seq::<Seq<u8>>::empty());
        }
        st
    }

    /// Find the visit-count entry for a vertex name, if one exists.
    fn find_count(&self, v: &Vertex) -> (r: Option<usize>)
        ensures
            match r {
                Some(i) => i < self.visit_counts@.len() && self.visit_counts@[i as int].0@ == v@,
                None => forall|i: int|
                    0 <= i < self.visit_counts@.len() ==> (#[trigger] self.visit_counts@[i]).0@
                        != v@,
            },
    {
        let n = self.visit_counts.len();
        for i in 0..n
            invariant
                n == self.visit_counts@.len(),
                forall|j: int| 0 <= j < i ==> (#[trigger] self.visit_counts@[j]).0@ != v@,
        {
            if self.visit_counts[i].0.equals(v) {
                return Some(i);
            }
        }
        None
    }

    /// How many times the vertex currently stands on the path-so-far.
    pub fn count_of(&self, v: &Vertex) -> (r: usize)
        requires
            self.wf(),
        ensures
            r == occurrences(self.path_names(), v@),
    {
        match self.find_count(v) {
            Some(i) => self.visit_counts[i].1,
            None => {
                proof {
                    if occurrences(self.path_names(), v@) >= 1 {
                        let i = choose|i: int|
                            0 <= i < self.visit_counts@.len() && (#[trigger] self.visit_counts@[i]).0@
                                == v@;
                        assert(false);
                    }
                }
                0
            },
        }
    }

    /// Mark a vertex visited: append it to the path-so-far and raise its
    /// visit count by one.
    pub fn record_visit(&mut self, v: &Vertex)
        requires
            old(self).wf(),
            old(self).path@.len() < usize::MAX,
        ensures
            final(self).wf(),
            final(self).path_names() == old(self).path_names().push(v@),
    {
        let ghost names0 = self.path_names();
        let idx = self.find_count(v);
        self.path.push(v.clone());
        proof {
            assert(self.path_names() =~= names0.push(v@));
            lemma_occurrences_le_len(names0, v@);
        }
        match idx {
            Some(i) => {
                let c = self.visit_counts[i].1;
                proof {
                    assert(c == occurrences(names0, v@));
                }
                let entry = &mut self.visit_counts[i];
                entry.1 = c + 1;
                proof {
                    self.lemma_wf_after_count_update(*old(self), names0, v@, i as int);
                }
            },
            None => {
                proof {
                    if occurrences(names0, v@) >= 1 {
                        let i = choose|i: int|
                            0 <= i < old(self).visit_counts@.len() && (#[trigger] old(
                                self,
                            ).visit_counts@[i]).0@ == v@;
                        assert(false);
                    }
                }
                self.visit_counts.push((v.clone(), 1));
                proof {
                    self.lemma_wf_after_count_push(*old(self), names0, v@);
                }
            },
        }
    }

    /// Well-formedness after a push onto the path whose name already had a
    /// visit-count entry, now raised by one.
    proof fn lemma_wf_after_count_update(&self, prev: TraversalState, names0: Seq<Seq<u8>>, v: Seq<u8>, i: int)
        requires
            prev.wf(),
            names0 == prev.path_names(),
            0 <= i < prev.visit_counts@.len(),
            prev.visit_counts@[i].0@ == v,
            occurrences(names0, v) + 1 <= usize::MAX,
            self.path_names() == names0.push(v),
            self.visit_counts@.len() == prev.visit_counts@.len(),
            forall|j: int|
                0 <= j < prev.visit_counts@.len() && j != i ==> self.visit_counts@[j]
                    == prev.visit_counts@[j],
            self.visit_counts@[i].0 == prev.visit_counts@[i].0,
            self.visit_counts@[i].1 == occurrences(names0, v) + 1,
        ensures
            self.wf(),
    {
        assert forall|j: int|
            0 <= j < self.visit_counts@.len() implies (#[trigger] self.visit_counts@[j]).1
            == occurrences(self.path_names(), self.visit_counts@[j].0@) && self.visit_counts@[j].1
            >= 1 by {
            lemma_occurrences_push(names0, v, self.visit_counts@[j].0@);
            if j != i {
                assert(self.visit_counts@[j] == prev.visit_counts@[j]);
                if j < i {
                    assert(prev.visit_counts@[j].0@ != prev.visit_counts@[i].0@);
                } else {
                    assert(prev.visit_counts@[i].0@ != prev.visit_counts@[j].0@);
                }
            }
        }
        assert forall|x: Seq<u8>|
            #[trigger] occurrences(self.path_names(), x) >= 1 implies exists|j: int|
            0 <= j < self.visit_counts@.len() && (#[trigger] self.visit_counts@[j]).0@ == x by {
            lemma_occurrences_push(names0, v, x);
            if x == v {
                assert(self.visit_counts@[i].0@ == x);
            } else {
                assert(occurrences(names0, x) >= 1);
                let j = choose|j: int|
                    0 <= j < prev.visit_counts@.len() && (#[trigger] prev.visit_counts@[j]).0@ == x;
                assert(self.visit_counts@[j].0@ == x);
            }
        }
        assert forall|j1: int, j2: int|
            0 <= j1 < j2 < self.visit_counts@.len() implies self.visit_counts@[j1].0@
            != self.visit_counts@[j2].0@ by {
            assert(self.visit_counts@[j1].0 == prev.visit_counts@[j1].0);
            assert(self.visit_counts@[j2].0 == prev.visit_counts@[j2].0);
        }
    }

    /// Well-formedness after a push onto the path whose name had no
    /// visit-count entry yet; a fresh entry with count one was appended.
    proof fn lemma_wf_after_count_push(&self, prev: TraversalState, names0: Seq<Seq<u8>>, v: Seq<u8>)
        requires
            prev.wf(),
            names0 == prev.path_names(),
            occurrences(names0, v) == 0,
            self.path_names() == names0.push(v),
            self.visit_counts@.len() == prev.visit_counts@.len() + 1,
            forall|j: int|
                0 <= j < prev.visit_counts@.len() ==> self.visit_counts@[j]
                    == prev.visit_counts@[j],
            self.visit_counts@[prev.visit_counts@.len() as int].0@ == v,
            self.visit_counts@[prev.visit_counts@.len() as int].1 == 1,
            forall|j: int|
                0 <= j < prev.visit_counts@.len() ==> (#[trigger] prev.visit_counts@[j]).0@ != v,
        ensures
            self.wf(),
    {
        let n = prev.visit_counts@.len() as int;
        assert forall|j: int|
            0 <= j < self.visit_counts@.len() implies (#[trigger] self.visit_counts@[j]).1
            == occurrences(self.path_names(), self.visit_counts@[j].0@) && self.visit_counts@[j].1
            >= 1 by {
            lemma_occurrences_push(names0, v, self.visit_counts@[j].0@);
            if j < n {
                assert(self.visit_counts@[j] == prev.visit_counts@[j]);
                assert(prev.visit_counts@[j].0@ != v);
            }
        }
        assert forall|x: Seq<u8>|
            #[trigger] occurrences(self.path_names(), x) >= 1 implies exists|j: int|
            0 <= j < self.visit_counts@.len() && (#[trigger] self.visit_counts@[j]).0@ == x by {
            lemma_occurrences_push(names0, v, x);
            if x == v {
                assert(self.visit_counts@[n].0@ == x);
            } else {
                assert(occurrences(names0, x) >= 1);
                let j = choose|j: int|
                    0 <= j < prev.visit_counts@.len() && (#[trigger] prev.visit_counts@[j]).0@ == x;
                assert(self.visit_counts@[j].0@ == x);
            }
        }
        assert forall|j1: int, j2: int|
            0 <= j1 < j2 < self.visit_counts@.len() implies self.visit_counts@[j1].0@
            != self.visit_counts@[j2].0@ by {
            assert(self.visit_counts@[j1] == prev.visit_counts@[j1]);
            if j2 < n {
                assert(self.visit_counts@[j2] == prev.visit_counts@[j2]);
            }
        }
    }

    /// Backtrack: remove the final vertex of the path-so-far and lower its
    /// visit count by one, dropping the entry when it reaches zero.
    pub fn unrecord_visit(&mut self, v: &Vertex)
        requires
            old(self).wf(),
            old(self).path@.len() > 0,
            old(self).path_names().last() == v@,
        ensures
            final(self).wf(),
            final(self).path_names() == old(self).path_names().drop_last(),
    {
        let ghost names0 = self.path_names();
        let ghost names1 = names0.drop_last();
        let idx = self.find_count(v);
        self.path.pop();
        proof {
            assert(self.path_names() =~= names1);
            assert(occurrences(names0, v@) == occurrences(names1, v@) + 1);
        }
        match idx {
            Some(i) => {
                let c = self.visit_counts[i].1;
                proof {
                    assert(c == occurrences(names0, v@));
                }
                if c == 1 {
                    self.visit_counts.remove(i);
                    proof {
                        self.lemma_wf_after_count_remove(*old(self), names0, v@, i as int);
                    }
                } else {
                    let entry = &mut self.visit_counts[i];
                    entry.1 = c - 1;
                    proof {
                        self.lemma_wf_after_count_decrement(*old(self), names0, v@, i as int);
                    }
                }
            },
            None => {
                proof {
                    assert(occurrences(names0, v@) >= 1);
                    let i = choose|i: int|
                        0 <= i < old(self).visit_counts@.len() && (#[trigger] old(
                            self,
                        ).visit_counts@[i]).0@ == v@;
                    assert(false);
                }
            },
        }
    }

    /// Well-formedness after the path lost its final vertex and that name's
    /// entry, whose count was one, was removed.
    proof fn lemma_wf_after_count_remove(&self, prev: TraversalState, names0: Seq<Seq<u8>>, v: Seq<u8>, i: int)
        requires
            prev.wf(),
            names0 == prev.path_names(),
            names0.len() > 0,
            names0.last() == v,
            0 <= i < prev.visit_counts@.len(),
            prev.visit_counts@[i].0@ == v,
            prev.visit_counts@[i].1 == 1,
            self.path_names() == names0.drop_last(),
            self.visit_counts@ == prev.visit_counts@.remove(i),
        ensures
            self.wf(),
    {
        let names1 = names0.drop_last();
        assert forall|x: Seq<u8>| true implies occurrences(names0, x) == occurrences(names1, x) + if x
            == v {
            1int
        } else {
            0int
        } by {}
        assert forall|j: int|
            0 <= j < self.visit_counts@.len() implies (#[trigger] self.visit_counts@[j]).1
            == occurrences(self.path_names(), self.visit_counts@[j].0@) && self.visit_counts@[j].1
            >= 1 by {
            let j0 = if j < i {
                j
            } else {
                j + 1
            };
            assert(self.visit_counts@[j] == prev.visit_counts@[j0]);
            if j0 < i {
                assert(prev.visit_counts@[j0].0@ != prev.visit_counts@[i].0@);
            } else if j0 > i {
                assert(prev.visit_counts@[i].0@ != prev.visit_counts@[j0].0@);
            }
        }
        assert forall|x: Seq<u8>|
            #[trigger] occurrences(self.path_names(), x) >= 1 implies exists|j: int|
            0 <= j < self.visit_counts@.len() && (#[trigger] self.visit_counts@[j]).0@ == x by {
            assert(occurrences(names0, x) >= 1);
            let j0 = choose|j0: int|
                0 <= j0 < prev.visit_counts@.len() && (#[trigger] prev.visit_counts@[j0]).0@ == x;
            if x == v {
                assert(j0 == i) by {
                    if j0 < i {
                        assert(prev.visit_counts@[j0].0@ != prev.visit_counts@[i].0@);
                    } else if j0 > i {
                        assert(prev.visit_counts@[i].0@ != prev.visit_counts@[j0].0@);
                    }
                }
                assert(occurrences(names1, x) == 0);
                assert(false);
            } else {
                if j0 < i {
                    assert(self.visit_counts@[j0].0@ == x);
                } else {
                    assert(self.visit_counts@[j0 - 1].0@ == x);
                }
            }
        }
        assert forall|j1: int, j2: int|
            0 <= j1 < j2 < self.visit_counts@.len() implies self.visit_counts@[j1].0@
            != self.visit_counts@[j2].0@ by {
            let k1 = if j1 < i {
                j1
            } else {
                j1 + 1
            };
            let k2 = if j2 < i {
                j2
            } else {
                j2 + 1
            };
            assert(self.visit_counts@[j1] == prev.visit_counts@[k1]);
            assert(self.visit_counts@[j2] == prev.visit_counts@[k2]);
        }
    }

    /// Well-formedness after the path lost its final vertex and that name's
    /// entry, whose count exceeded one, was lowered by one.
    proof fn lemma_wf_after_count_decrement(&self, prev: TraversalState, names0: Seq<Seq<u8>>, v: Seq<u8>, i: int)
        requires
            prev.wf(),
            names0 == prev.path_names(),
            names0.len() > 0,
            names0.last() == v,
            0 <= i < prev.visit_counts@.len(),
            prev.visit_counts@[i].0@ == v,
            prev.visit_counts@[i].1 >= 2,
            self.path_names() == names0.drop_last(),
            self.visit_counts@.len() == prev.visit_counts@.len(),
            forall|j: int|
                0 <= j < prev.visit_counts@.len() && j != i ==> self.visit_counts@[j]
                    == prev.visit_counts@[j],
            self.visit_counts@[i].0 == prev.visit_counts@[i].0,
            self.visit_counts@[i].1 == prev.visit_counts@[i].1 - 1,
        ensures
            self.wf(),
    {
        let names1 = names0.drop_last();
        assert forall|j: int|
            0 <= j < self.visit_counts@.len() implies (#[trigger] self.visit_counts@[j]).1
            == occurrences(self.path_names(), self.visit_counts@[j].0@) && self.visit_counts@[j].1
            >= 1 by {
            if j != i {
                assert(self.visit_counts@[j] == prev.visit_counts@[j]);
                if j < i {
                    assert(prev.visit_counts@[j].0@ != prev.visit_counts@[i].0@);
                } else {
                    assert(prev.visit_counts@[i].0@ != prev.visit_counts@[j].0@);
                }
            }
        }
        assert forall|x: Seq<u8>|
            #[trigger] occurrences(self.path_names(), x) >= 1 implies exists|j: int|
            0 <= j < self.visit_counts@.len() && (#[trigger] self.visit_counts@[j]).0@ == x by {
            assert(occurrences(names0, x) >= 1);
            let j = choose|j: int|
                0 <= j < prev.visit_counts@.len() && (#[trigger] prev.visit_counts@[j]).0@ == x;
            assert(self.visit_counts@[j].0@ == x);
        }
        assert forall|j1: int, j2: int|
            0 <= j1 < j2 < self.visit_counts@.len() implies self.visit_counts@[j1].0@
            != self.visit_counts@[j2].0@ by {
            assert(self.visit_counts@[j1].0 == prev.visit_counts@[j1].0);
            assert(self.visit_counts@[j2].0 == prev.visit_counts@[j2].0);
        }
    }
}

/// `q` carries `p` as its opening segment.
pub open spec fn extends_prefix(q: Seq<Seq<u8>>, p: Seq<Seq<u8>>) -> bool {
    q.len() >= p.len() && q.take(p.len() as int) == p
}

/// Copy a path, name for name.
fn clone_path(p: &Vec<Vertex>) -> (r: Vec<Vertex>)
    ensures
        names_of(r@) == names_of(p@),
{
    let r = clone_vertices(p);
    proof {
        assert(names_of(r@) =~= names_of(p@));
    }
    r
}

impl Graph {
    /// Continue the search at `current_vertex`: mark it visited, record a
    /// completed path when it is the destination, otherwise recurse into
    /// every neighbour the revisit rule admits, and backtrack the traversal
    /// state unconditionally before returning. `fuel` bounds the recursion
    /// depth; the result is false when the bound cut the search short, and
    /// every recorded path is sound either way.
    #[verifier::loop_isolation(false)]
    #[verifier::rlimit(60)]
    pub fn search_paths(
        &self,
        current_vertex: &Vertex,
        destination_vertex: &Vertex,
        start_vertex: &Vertex,
        state: &mut TraversalState,
        found: &mut Vec<Vec<Vertex>>,
        fuel: usize,
    ) -> (completed: bool)
        requires
            self.wf(),
            old(state).wf(),
            old(state).path@.len() + fuel <= usize::MAX,
            viable_prefix(
                self@,
                start_vertex@,
                destination_vertex@,
                old(state).path_names().push(current_vertex@),
            ),
        ensures
            final(state).wf(),
            final(state).path_names() == old(state).path_names(),
            final(found)@.len() >= old(found)@.len(),
            forall|k: int| 0 <= k < old(found)@.len() ==> final(found)@[k] == old(found)@[k],
            forall|k: int|
                old(found)@.len() <= k < final(found)@.len() ==> valid_path(
                    self@,
                    start_vertex@,
                    destination_vertex@,
                    names_of((#[trigger] final(found)@[k])@),
                ) && extends_prefix(
                    names_of(final(found)@[k]@),
                    old(state).path_names().push(current_vertex@),
                ),
            forall|k1: int, k2: int|
                old(found)@.len() <= k1 < k2 < final(found)@.len() ==> names_of(final(found)@[k1]@)
                    != names_of(final(found)@[k2]@),
            completed ==> forall|q: Seq<Seq<u8>>|
                #[trigger] valid_path(self@, start_vertex@, destination_vertex@, q)
                    && extends_prefix(q, old(state).path_names().push(current_vertex@))
                    ==> exists|k: int|
                    old(found)@.len() <= k < final(found)@.len() && names_of(
                        (#[trigger] final(found)@[k])@,
                    ) == q,
            completed ==> forall|q: Seq<Seq<u8>>|
                #[trigger] viable_prefix(self@, start_vertex@, destination_vertex@, q)
                    && extends_prefix(q, old(state).path_names().push(current_vertex@)) ==> q.len()
                    < old(state).path_names().len() + 1 + fuel,
            !completed ==> exists|q: Seq<Seq<u8>>|
                viable_prefix(self@, start_vertex@, destination_vertex@, q) && extends_prefix(
                    q,
                    old(state).path_names().push(current_vertex@),
                ) && q.len() == old(state).path_names().len() + 1 + fuel,
        decreases fuel,
    {
        let ghost m = self@;
        let ghost s = start_vertex@;
        let ghost e = destination_vertex@;
        let ghost p0 = old(state).path_names();
        let ghost pfx = p0.push(current_vertex@);

        if fuel == 0 {
            proof {
                assert(pfx.take(pfx.len() as int) =~= pfx);
                assert(viable_prefix(m, s, e, pfx) && extends_prefix(pfx, pfx) && pfx.len()
                    == p0.len() + 1 + fuel);
            }
            return false;
        }
        state.record_visit(current_vertex);
        proof {
            assert(state.path_names() == pfx);
        }
        let ghost found0 = found@;
        let mut completed: bool = true;

        if current_vertex.equals(destination_vertex) {
            let snapshot = clone_path(&state.path);
            found.push(snapshot);
            proof {
                assert(pfx.take(pfx.len() as int) =~= pfx);
                assert(names_of(found@[found0.len() as int]@) == pfx);
                assert(valid_path(m, s, e, pfx));
                assert forall|q: Seq<Seq<u8>>|
                    viable_prefix(m, s, e, q) && extends_prefix(q, pfx) && q.len()
                        > pfx.len() implies false by {
                    assert(q[pfx.len() - 1] == q.take(pfx.len() as int)[pfx.len() - 1]);
                    assert(q[pfx.len() - 1] == e);
                    assert(q[pfx.len() - 1] != e);
                }
                assert forall|q: Seq<Seq<u8>>|
                    #[trigger] valid_path(m, s, e, q) && extends_prefix(q, pfx) implies exists|k: int|
                    found0.len() <= k < found@.len() && names_of((#[trigger] found@[k])@) == q by {
                    assert(q.len() == pfx.len());
                    assert(q =~= q.take(pfx.len() as int));
                    assert(names_of(found@[found0.len() as int]@) == q);
                }
            }
        } else {
            match self.get_neighbours(current_vertex) {
                Some(neighbours) => {
                    let n = neighbours.len();
                    for idx in 0..n
                        invariant
                            state.wf(),
                            state.path_names() == pfx,
                            found@.len() >= found0.len(),
                            forall|k: int| 0 <= k < found0.len() ==> found@[k] == found0[k],
                            forall|k: int|
                                found0.len() <= k < found@.len() ==> valid_path(
                                    m,
                                    s,
                                    e,
                                    names_of((#[trigger] found@[k])@),
                                ) && extends_prefix(names_of(found@[k]@), pfx) && names_of(
                                    found@[k]@,
                                ).len() > pfx.len() && exists|j: int|
                                    0 <= j < idx && names_of(found@[k]@)[pfx.len() as int]
                                        == neighbours@[j]@,
                            forall|k1: int, k2: int|
                                found0.len() <= k1 < k2 < found@.len() ==> names_of(found@[k1]@)
                                    != names_of(found@[k2]@),
                            completed ==> forall|q: Seq<Seq<u8>>|
                                #[trigger] valid_path(m, s, e, q) && extends_prefix(q, pfx)
                                    && q.len() > pfx.len() && (exists|j: int|
                                    0 <= j < idx && q[pfx.len() as int] == neighbours@[j]@)
                                    ==> exists|k: int|
                                    found0.len() <= k < found@.len() && names_of(
                                        (#[trigger] found@[k])@,
                                    ) == q,
                            completed ==> forall|q: Seq<Seq<u8>>|
                                #[trigger] viable_prefix(m, s, e, q) && extends_prefix(q, pfx)
                                    && q.len() > pfx.len() && (exists|j: int|
                                    0 <= j < idx && q[pfx.len() as int] == neighbours@[j]@)
                                    ==> q.len() < pfx.len() + fuel,
                            !completed ==> exists|q: Seq<Seq<u8>>|
                                viable_prefix(m, s, e, q) && extends_prefix(q, pfx) && q.len()
                                    == pfx.len() + fuel,
                    {
                        let nb = &neighbours[idx];
                        proof {
                            assert(vertex_names(neighbours@).contains(neighbours@[idx as int]@));
                            assert(map_has_edge(m, current_vertex@, nb@));
                        }
                        let cnt = state.count_of(nb);
                        let allowed = !nb.equals(start_vertex) && (cnt == 0 || nb.is_big_cave());
                        if allowed {
                            proof {
                                lemma_viable_push(m, s, e, pfx, nb@);
                            }
                            let ghost found_before = found@;
                            let sub = self.search_paths(
                                nb,
                                destination_vertex,
                                start_vertex,
                                state,
                                found,
                                fuel - 1,
                            );
                            proof {
                                let sp = pfx.push(nb@);
                                assert(sp.take(pfx.len() as int) =~= pfx);
                                assert forall|k: int|
                                    found0.len() <= k < found@.len() implies valid_path(
                                    m,
                                    s,
                                    e,
                                    names_of((#[trigger] found@[k])@),
                                ) && extends_prefix(names_of(found@[k]@), pfx) && names_of(
                                    found@[k]@,
                                ).len() > pfx.len() && exists|j: int|
                                    0 <= j < idx + 1 && names_of(found@[k]@)[pfx.len() as int]
                                        == neighbours@[j]@ by {
                                    if k < found_before.len() {
                                        assert(found@[k] == found_before[k]);
                                        let j = choose|j: int|
                                            0 <= j < idx && names_of(found@[k]@)[pfx.len() as int]
                                                == neighbours@[j]@;
                                        assert(names_of(found@[k]@)[pfx.len() as int]
                                            == neighbours@[j]@);
                                    } else {
                                        let q = names_of(found@[k]@);
                                        assert(extends_prefix(q, sp));
                                        assert(q.take(pfx.len() as int) =~= q.take(
                                            sp.len() as int,
                                        ).take(pfx.len() as int));
                                        assert(q[pfx.len() as int] == sp[pfx.len() as int]);
                                        assert(q[pfx.len() as int] == neighbours@[idx as int]@);
                                    }
                                }
                                assert forall|k: int|
                                    found_before.len() <= k < found@.len() implies names_of(
                                    (#[trigger] found@[k])@,
                                )[pfx.len() as int] == neighbours@[idx as int]@ by {
                                    let q = names_of(found@[k]@);
                                    assert(extends_prefix(q, sp));
                                    assert(q[pfx.len() as int] == q.take(
                                        sp.len() as int,
                                    )[pfx.len() as int]);
                                    assert(q[pfx.len() as int] == sp[pfx.len() as int]);
                                }
                                assert forall|k1: int, k2: int|
                                    found0.len() <= k1 < k2 < found@.len() implies names_of(
                                    found@[k1]@,
                                ) != names_of(found@[k2]@) by {
                                    if k1 < found_before.len() && k2 >= found_before.len() {
                                        let j = choose|j: int|
                                            0 <= j < idx && names_of(found@[k1]@)[pfx.len() as int]
                                                == neighbours@[j]@;
                                        assert(names_of(found@[k1]@)[pfx.len() as int]
                                            == neighbours@[j]@);
                                        assert(names_of(found@[k2]@)[pfx.len() as int]
                                            == neighbours@[idx as int]@);
                                        assert(neighbours@[j]@ != neighbours@[idx as int]@);
                                    }
                                }
                                if !sub {
                                    let q = choose|q: Seq<Seq<u8>>|
                                        viable_prefix(m, s, e, q) && extends_prefix(q, sp)
                                            && q.len() == pfx.len() + 1 + (fuel - 1);
                                    assert(q.take(pfx.len() as int) =~= q.take(sp.len() as int).take(
                                        pfx.len() as int,
                                    ));
                                    assert(extends_prefix(q, pfx));
                                    assert(q.len() == pfx.len() + fuel);
                                }
                                if sub && completed {
                                    assert forall|q: Seq<Seq<u8>>|
                                        #[trigger] valid_path(m, s, e, q) && extends_prefix(q, pfx)
                                            && q.len() > pfx.len() && (exists|j: int|
                                            0 <= j < idx + 1 && q[pfx.len() as int]
                                                == neighbours@[j]@) implies exists|k: int|
                                        found0.len() <= k < found@.len() && names_of(
                                            (#[trigger] found@[k])@,
                                        ) == q by {
                                        let j = choose|j: int|
                                            0 <= j < idx + 1 && q[pfx.len() as int]
                                                == neighbours@[j]@;
                                        if j < idx {
                                            let k = choose|k: int|
                                                found0.len() <= k < found_before.len() && names_of(
                                                    (#[trigger] found_before[k])@,
                                                ) == q;
                                            assert(found@[k] == found_before[k]);
                                            assert(names_of(found@[k]@) == q);
                                        } else {
                                            assert(q.take(sp.len() as int) =~= sp);
                                            assert(extends_prefix(q, sp));
                                            let k = choose|k: int|
                                                found_before.len() <= k < found@.len() && names_of(
                                                    (#[trigger] found@[k])@,
                                                ) == q;
                                            assert(names_of(found@[k]@) == q);
                                        }
                                    }
                                    assert forall|q: Seq<Seq<u8>>|
                                        #[trigger] viable_prefix(m, s, e, q) && extends_prefix(
                                            q,
                                            pfx,
                                        ) && q.len() > pfx.len() && (exists|j: int|
                                            0 <= j < idx + 1 && q[pfx.len() as int]
                                                == neighbours@[j]@) implies q.len() < pfx.len()
                                        + fuel by {
                                        let j = choose|j: int|
                                            0 <= j < idx + 1 && q[pfx.len() as int]
                                                == neighbours@[j]@;
                                        if j == idx {
                                            assert(q.take(sp.len() as int) =~= sp);
                                            assert(extends_prefix(q, sp));
                                            assert(q.len() < pfx.len() + 1 + (fuel - 1));
                                        }
                                    }
                                }
                            }
                            if !sub {
                                completed = false;
                            }
                        } else {
                            proof {
                                assert forall|q: Seq<Seq<u8>>|
                                    viable_prefix(m, s, e, q) && extends_prefix(q, pfx) && q.len()
                                        > pfx.len() && q[pfx.len() as int]
                                        == neighbours@[idx as int]@ implies false by {
                                    let i = pfx.len() as int;
                                    assert(extension_ok(m, q, i));
                                    assert(q[0] == q.take(i)[0]);
                                    assert(q[0] == s);
                                    assert(q.take(i) == pfx);
                                    assert(q[i] != q[0]);
                                    assert(spec_is_big(q[i]) || occurrences(pfx, q[i]) == 0);
                                    assert(cnt == occurrences(pfx, nb@));
                                }
                            }
                        }
                    }
                    proof {
                        assert(pfx.take(pfx.len() as int) =~= pfx);
                        assert forall|q: Seq<Seq<u8>>|
                            viable_prefix(m, s, e, q) && extends_prefix(q, pfx) && q.len()
                                > pfx.len() implies exists|j: int|
                            0 <= j < n && q[pfx.len() as int] == neighbours@[j]@ by {
                            let i = pfx.len() as int;
                            assert(extension_ok(m, q, i));
                            assert(q[i - 1] == q.take(i)[i - 1]);
                            assert(q[i - 1] == current_vertex@);
                            assert(map_has_edge(m, current_vertex@, q[i]));
                            assert(vertex_names(neighbours@).contains(q[i]));
                        }
                        if completed {
                            assert forall|q: Seq<Seq<u8>>|
                                #[trigger] valid_path(m, s, e, q) && extends_prefix(
                                    q,
                                    pfx,
                                ) implies exists|k: int|
                                found0.len() <= k < found@.len() && names_of(
                                    (#[trigger] found@[k])@,
                                ) == q by {
                                if q.len() == pfx.len() {
                                    assert(q =~= q.take(pfx.len() as int));
                                    assert(q.last() == e);
                                    assert(pfx.last() == current_vertex@);
                                    assert(false);
                                }
                            }
                            assert forall|q: Seq<Seq<u8>>|
                                #[trigger] viable_prefix(m, s, e, q) && extends_prefix(
                                    q,
                                    pfx,
                                ) implies q.len() < pfx.len() + fuel by {
                                if q.len() == pfx.len() {
                                } else {
                                    assert(q.len() > pfx.len());
                                }
                            }
                        }
                    }
                },
                None => {
                    proof {
                        assert(pfx.take(pfx.len() as int) =~= pfx);
                        assert(!m.dom().contains(current_vertex@));
                        assert forall|q: Seq<Seq<u8>>|
                            viable_prefix(m, s, e, q) && extends_prefix(q, pfx) && q.len()
                                > pfx.len() implies false by {
                            let i = pfx.len() as int;
                            assert(extension_ok(m, q, i));
                            assert(q[i - 1] == q.take(i)[i - 1]);
                            assert(q[i - 1] == current_vertex@);
                            assert(map_has_edge(m, current_vertex@, q[i]));
                        }
                        assert forall|q: Seq<Seq<u8>>|
                            #[trigger] valid_path(m, s, e, q) && extends_prefix(q, pfx) implies exists|
                            k: int,
                        |
                            found0.len() <= k < found@.len() && names_of((#[trigger] found@[k])@)
                                == q by {
                            if q.len() == pfx.len() {
                                assert(q =~= q.take(pfx.len() as int));
                                assert(q.last() == e);
                                assert(pfx.last() == current_vertex@);
                            }
                            assert(false);
                        }
                    }
                },
            }
        }
        state.unrecord_visit(current_vertex);
        proof {
            assert(state.path_names() =~= p0);
        }
        completed
    }

    /// Enumerate every path from `start_vertex` to `end_vertex` that the
    /// revisit rule admits, reporting the count of completed paths and each
    /// path's full vertex sequence. A start or end vertex absent from the
    /// graph is no error: the search simply finds no path. `depth_limit` is a
    /// safety valve against the one latent failure mode, unbounded growth
    /// through cycles of big caves: the search aborts with `None` exactly
    /// when some admissible walk would outgrow `depth_limit` vertices, and is
    /// otherwise exhaustive and exact.
    pub fn enumerate(&self, start_vertex: &Vertex, end_vertex: &Vertex, depth_limit: usize) -> (r:
        Option<(usize, Vec<Vec<Vertex>>)>)
        requires
            self.wf(),
        ensures
            r.is_some() <==> (forall|q: Seq<Seq<u8>>|
                #[trigger] viable_prefix(self@, start_vertex@, end_vertex@, q) ==> q.len()
                    <= depth_limit),
            match r {
                Some((count, paths)) => {
                    &&& count == paths@.len()
                    &&& forall|k: int|
                        0 <= k < paths@.len() ==> valid_path(
                            self@,
                            start_vertex@,
                            end_vertex@,
                            names_of((#[trigger] paths@[k])@),
                        )
                    &&& forall|k1: int, k2: int|
                        0 <= k1 < k2 < paths@.len() ==> names_of(paths@[k1]@) != names_of(
                            paths@[k2]@,
                        )
                    &&& forall|q: Seq<Seq<u8>>|
                        #[trigger] valid_path(self@, start_vertex@, end_vertex@, q) ==> exists|k: int|
                            0 <= k < paths@.len() && names_of((#[trigger] paths@[k])@) == q
                },
                None => true,
            },
    {
        let mut state = TraversalState::new();
        let mut found: Vec<Vec<Vertex>> = Vec::new();
        let ghost pfx = state.path_names().push(start_vertex@);
        proof {
            assert(viable_prefix(self@, start_vertex@, end_vertex@, pfx));
        }
        let completed = self.search_paths(
            start_vertex,
            end_vertex,
            start_vertex,
            &mut state,
            &mut found,
            depth_limit,
        );
        proof {
            assert forall|q: Seq<Seq<u8>>|
                #[trigger] viable_prefix(self@, start_vertex@, end_vertex@, q) implies extends_prefix(
                q,
                pfx,
            ) by {
                assert(q.take(1) =~= pfx);
            }
        }
        if completed {
            let count = found.len();
            Some((count, found))
        } else {
            proof {
                let q = choose|q: Seq<Seq<u8>>|
                    viable_prefix(self@, start_vertex@, end_vertex@, q) && extends_prefix(q, pfx)
                        && q.len() == pfx.len() + depth_limit;
                assert(q.len() > depth_limit);
            }
            None
        }
    }
}

/// After an enumeration the traversal state is fully unwound: a well-formed
/// state whose path-so-far is empty holds no visit-count entry at all.
pub proof fn lemma_state_fully_unwound(st: TraversalState)
    requires
        st.wf(),
        st.path_names().len() == 0,
    ensures
        st.visit_counts@.len() == 0,
{
    if st.visit_counts@.len() > 0 {
        assert(st.visit_counts@[0].1 >= 1);
        assert(st.visit_counts@[0].1 == occurrences(st.path_names(), st.visit_counts@[0].0@));
    }
}

} // verus!
