//! The graph container: vertex payloads and labelled directed edges, stored
//! as two association lists keyed by vertex identifier, with verified
//! breadth-first and depth-first traversals.

use std::collections::VecDeque;

use vstd::prelude::*;

use crate::assoc::{
    assoc_map, id_keys, keys_distinct, lemma_assoc_map_dom, lemma_assoc_map_get,
    lemma_assoc_map_update,
};
use crate::traversal::{
    adj_of, bfs_rec, bfs_seq, dfs_rec, dfs_seq, fresh_ids, keep_unseen, lemma_adj_in_targets,
    lemma_fresh_ids, lemma_fresh_ids_snoc, lemma_keep_unseen, lemma_pending_le, lemma_pending_lt,
    lemma_targets_empty, lemma_targets_insert_finite, lemma_to_set_add, lemma_to_set_drop_first,
    lemma_to_set_drop_last, lemma_traversals_visit_reachable, pending, pushed_edge, reach_set,
    reachable, targets,
};
use crate::vid::{EdgeLabel, VertexId};

verus! {

/// Whether some identifier in `s` carries the key of `v`.
fn contains_vid<Vid: VertexId>(s: &Vec<Vid>, v: &Vid) -> (r: bool)
    ensures
        r == id_keys(s@).to_set().contains(v.key()),
{
    let n = s.len();
    let mut i: usize = 0;
    while i < n
        invariant
            i <= n,
            n == s@.len(),
            forall|j: int| 0 <= j < i ==> s@[j].key() != v.key(),
        decreases n - i,
    {
        if s[i].same(v) {
            proof {
                assert(id_keys(s@)[i as int] == v.key());
                assert(id_keys(s@).contains(v.key()));
            }
            return true;
        }
        i = i + 1;
    }
    proof {
        if id_keys(s@).to_set().contains(v.key()) {
            let j = choose|j: int| 0 <= j < id_keys(s@).len() && id_keys(s@)[j] == v.key();
            assert(s@[j].key() == v.key());
        }
    }
    false
}

/// The targets of the adjacency mapping read off an association list are
/// finite: there are only as many as the list stores.
proof fn lemma_nbr_targets_finite<Vid: VertexId, E>(rows: Seq<(Vid, Vec<(Vid, E)>)>)
    ensures
        targets(
            assoc_map(rows, |r: Vec<(Vid, E)>| r@.map_values(|p: (Vid, E)| p.0.key())),
        ).finite(),
    decreases rows.len(),
{
    let f = |r: Vec<(Vid, E)>| r@.map_values(|p: (Vid, E)| p.0.key());
    if rows.len() == 0 {
        lemma_targets_empty::<<Vid as VertexId>::Key>();
        assert(assoc_map(rows, f) == Map::<<Vid as VertexId>::Key, Seq<<Vid as VertexId>::Key>>::empty());
    } else {
        lemma_nbr_targets_finite::<Vid, E>(rows.drop_last());
        lemma_targets_insert_finite(
            assoc_map(rows.drop_last(), f),
            rows.last().0.key(),
            f(rows.last().1),
        );
    }
}

/// A directed graph, generic over the vertex-identifier type `Vid`, the
/// edge-label type `E` and the vertex-payload type `V`. Vertex payloads and
/// adjacency are stored independently: an edge may name identifiers that
/// were never registered as vertices, and a registered vertex need not have
/// an adjacency entry.
pub struct Graph<Vid, E = (), V = ()> {
    vertices: Vec<(Vid, V)>,
    adjacency: Vec<(Vid, Vec<(Vid, E)>)>,
}

impl<Vid: VertexId, E, V> Graph<Vid, E, V> {
    /// Well-formed: each of the two stores holds at most one row per key.
    pub closed spec fn wf(self) -> bool {
        keys_distinct(self.vertices@) && keys_distinct(self.adjacency@)
    }

    /// The vertex-payload mapping this graph holds.
    pub closed spec fn vertex_map(self) -> Map<Vid::Key, V> {
        assoc_map(self.vertices@, |v: V| v)
    }

    /// The adjacency mapping this graph holds: for each key, the ordered
    /// sequence of (neighbour key, edge label) pairs.
    pub closed spec fn adj_map(self) -> Map<Vid::Key, Seq<(Vid::Key, E)>> {
        assoc_map(
            self.adjacency@,
            |r: Vec<(Vid, E)>| r@.map_values(|p: (Vid, E)| (p.0.key(), p.1)),
        )
    }

    /// The adjacency mapping reduced to neighbour keys, in the same order.
    pub closed spec fn nbr_map(self) -> Map<Vid::Key, Seq<Vid::Key>> {
        assoc_map(self.adjacency@, |r: Vec<(Vid, E)>| r@.map_values(|p: (Vid, E)| p.0.key()))
    }

    /// Create an empty graph.
    pub fn new() -> (g: Graph<Vid, E, V>)
        ensures
            g.wf(),
            g.vertex_map() == Map::<Vid::Key, V>::empty(),
            g.adj_map() == Map::<Vid::Key, Seq<(Vid::Key, E)>>::empty(),
            g.nbr_map() == Map::<Vid::Key, Seq<Vid::Key>>::empty(),
    {
        Graph { vertices: Vec::new(), adjacency: Vec::new() }
    }

    /// The index of the adjacency row for `vid`, if that row exists.
    fn adj_index(&self, vid: &Vid) -> (r: Option<usize>)
        ensures
            r matches Some(i) ==> i < self.adjacency@.len()
                && self.adjacency@[i as int].0.key() == vid.key(),
            r is None ==> forall|j: int|
                0 <= j < self.adjacency@.len() ==> self.adjacency@[j].0.key() != vid.key(),
    {
        let n = self.adjacency.len();
        let mut i: usize = 0;
        while i < n
            invariant
                n == self.adjacency@.len(),
                i <= n,
                forall|j: int| 0 <= j < i ==> self.adjacency@[j].0.key() != vid.key(),
            decreases n - i,
        {
            if self.adjacency[i].0.same(vid) {
                return Some(i);
            }
            i = i + 1;
        }
        None
    }

    /// Register `vid` with payload `vertex`, silently overwriting any
    /// payload registered for the same key before. The adjacency mapping is
    /// untouched.
    #[verifier::loop_isolation(false)]
    pub fn push_vertex(&mut self, vid: Vid, vertex: V)
        requires
            old(self).wf(),
        ensures
            final(self).wf(),
            final(self).vertex_map() == old(self).vertex_map().insert(vid.key(), vertex),
            final(self).adj_map() == old(self).adj_map(),
            final(self).nbr_map() == old(self).nbr_map(),
    {
        let ghost rows = self.vertices@;
        let n = self.vertices.len();
        let mut i: usize = 0;
        while i < n
            invariant
                i <= n,
                self.vertices@ == rows,
                self.adjacency@ == old(self).adjacency@,
                forall|j: int| 0 <= j < i ==> rows[j].0.key() != vid.key(),
            decreases n - i,
        {
            if self.vertices[i].0.same(&vid) {
                self.vertices[i].1 = vertex;
                proof {
                    assert(self.vertices@ =~= rows.update(i as int, (rows[i as int].0, vertex)));
                    assert(keys_distinct::<Vid, V>(self.vertices@)) by {
                        assert forall|a: int, b: int|
                            0 <= a < b < self.vertices@.len() implies self.vertices@[a].0.key()
                            != self.vertices@[b].0.key() by {
                            assert(self.vertices@[a].0.key() == rows[a].0.key());
                            assert(self.vertices@[b].0.key() == rows[b].0.key());
                        }
                    }
                    lemma_assoc_map_update(rows, |v: V| v, i as int, vertex);
                }
                return ;
            }
            i = i + 1;
        }
        self.vertices.push((vid, vertex));
        proof {
            assert(self.vertices@.drop_last() =~= rows);
            lemma_assoc_map_dom(rows, |v: V| v);
            assert(self.vertex_map() == old(self).vertex_map().insert(vid.key(), vertex));
            assert(keys_distinct::<Vid, V>(self.vertices@)) by {
                assert forall|a: int, b: int|
                    0 <= a < b < self.vertices@.len() implies self.vertices@[a].0.key()
                    != self.vertices@[b].0.key() by {
                    if b < self.vertices@.len() - 1 {
                        assert(self.vertices@[a].0.key() == rows[a].0.key());
                        assert(self.vertices@[b].0.key() == rows[b].0.key());
                    } else {
                        assert(self.vertices@[a].0.key() == rows[a].0.key());
                    }
                }
            }
        }
    }

    /// Append `(to, edge)` to the adjacency row of `from`, creating that row
    /// if it was absent. Neither endpoint needs to be a registered vertex.
    pub fn push_edge(&mut self, from: Vid, to: Vid, edge: E)
        requires
            old(self).wf(),
        ensures
            final(self).wf(),
            final(self).vertex_map() == old(self).vertex_map(),
            final(self).adj_map() == pushed_edge(old(self).adj_map(), from.key(), (to.key(), edge)),
            final(self).nbr_map() == pushed_edge(old(self).nbr_map(), from.key(), to.key()),
    {
        let ghost rows = self.adjacency@;
        let ghost f_adj = |r: Vec<(Vid, E)>| r@.map_values(|p: (Vid, E)| (p.0.key(), p.1));
        let ghost f_nbr = |r: Vec<(Vid, E)>| r@.map_values(|p: (Vid, E)| p.0.key());
        match self.adj_index(&from) {
            Some(i) => {
                self.adjacency[i].1.push((to, edge));
                proof {
                    let new_row = self.adjacency@[i as int];
                    assert(new_row.0 == rows[i as int].0);
                    assert(new_row.1@ == rows[i as int].1@.push((to, edge)));
                    assert(self.adjacency@ =~= rows.update(i as int, (rows[i as int].0, new_row.1)));
                    assert(keys_distinct::<Vid, Vec<(Vid, E)>>(self.adjacency@)) by {
                        assert forall|a: int, b: int|
                            0 <= a < b < self.adjacency@.len() implies self.adjacency@[a].0.key()
                            != self.adjacency@[b].0.key() by {
                            assert(self.adjacency@[a].0.key() == rows[a].0.key());
                            assert(self.adjacency@[b].0.key() == rows[b].0.key());
                        }
                    }
                    lemma_assoc_map_get(rows, f_adj, i as int);
                    lemma_assoc_map_get(rows, f_nbr, i as int);
                    lemma_assoc_map_update(rows, f_adj, i as int, new_row.1);
                    lemma_assoc_map_update(rows, f_nbr, i as int, new_row.1);
                    assert(f_adj(new_row.1) =~= f_adj(rows[i as int].1).push((to.key(), edge)));
                    assert(f_nbr(new_row.1) =~= f_nbr(rows[i as int].1).push(to.key()));
                    assert(self.adj_map() == pushed_edge(
                        old(self).adj_map(),
                        from.key(),
                        (to.key(), edge),
                    ));
                    assert(self.nbr_map() == pushed_edge(old(self).nbr_map(), from.key(), to.key()));
                }
            }
            None => {
                let mut row: Vec<(Vid, E)> = Vec::new();
                row.push((to, edge));
                self.adjacency.push((from, row));
                proof {
                    assert(self.adjacency@.drop_last() =~= rows);
                    lemma_assoc_map_dom(rows, f_adj);
                    lemma_assoc_map_dom(rows, f_nbr);
                    assert(!old(self).adj_map().dom().contains(from.key()));
                    assert(!old(self).nbr_map().dom().contains(from.key()));
                    assert(f_adj(self.adjacency@.last().1) =~= seq![(to.key(), edge)]);
                    assert(f_nbr(self.adjacency@.last().1) =~= seq![to.key()]);
                    assert(adj_of(old(self).adj_map(), from.key()).push((to.key(), edge)) =~= seq![
                        (to.key(), edge),
                    ]);
                    assert(adj_of(old(self).nbr_map(), from.key()).push(to.key()) =~= seq![
                        to.key(),
                    ]);
                    assert(keys_distinct::<Vid, Vec<(Vid, E)>>(self.adjacency@)) by {
                        assert forall|a: int, b: int|
                            0 <= a < b < self.adjacency@.len() implies self.adjacency@[a].0.key()
                            != self.adjacency@[b].0.key() by {
                            if b < self.adjacency@.len() - 1 {
                                assert(self.adjacency@[a].0.key() == rows[a].0.key());
                                assert(self.adjacency@[b].0.key() == rows[b].0.key());
                            } else {
                                assert(self.adjacency@[a].0.key() == rows[a].0.key());
                            }
                        }
                    }
                }
            }
        }
    }
}

impl<Vid: VertexId, E, V> Graph<Vid, E, V> {
    /// A graph stores finitely many adjacency rows, so its target set is
    /// finite.
    pub proof fn lemma_targets_finite(self)
        ensures
            targets(self.nbr_map()).finite(),
    {
        lemma_nbr_targets_finite::<Vid, E>(self.adjacency@);
    }

    /// Visit, breadth first, every vertex reachable from `start` along
    /// directed edges: each reachable identifier appears exactly once, in
    /// breadth-first order with ties broken by edge-insertion order, and the
    /// key sequence of the result is a function of the adjacency mapping and
    /// the start key alone.
    #[verifier::loop_isolation(false)]
    pub fn bfs(&self, start: Vid) -> (r: Vec<Vid>)
        requires
            self.wf(),
        ensures
            id_keys(r@) == bfs_seq(self.nbr_map(), start.key()),
            id_keys(r@).no_duplicates(),
            forall|k: <Vid as VertexId>::Key| #[trigger] id_keys(r@).to_set().contains(k)
                <==> reachable(self.nbr_map(), start.key(), k),
    {
        let ghost g = self.nbr_map();
        let ghost f_nbr = |r: Vec<(Vid, E)>| r@.map_values(|p: (Vid, E)| p.0.key());
        proof {
            lemma_nbr_targets_finite::<Vid, E>(self.adjacency@);
            lemma_traversals_visit_reachable(g, start.key());
        }
        let mut q: VecDeque<Vid> = VecDeque::new();
        let mut seen: Vec<Vid> = Vec::new();
        let mut out: Vec<Vid> = Vec::new();
        q.push_back(start);
        seen.push(start);
        proof {
            assert(id_keys(q@) =~= seq![start.key()]);
            assert(id_keys(seen@).to_set() =~= Set::<<Vid as VertexId>::Key>::empty().insert(
                start.key(),
            )) by {
                assert(id_keys(seen@)[0] == start.key());
                assert(id_keys(seen@).contains(start.key()));
                assert forall|y: <Vid as VertexId>::Key|
                    id_keys(seen@).to_set().contains(y) implies y == start.key() by {
                    let j = choose|j: int| 0 <= j < id_keys(seen@).len() && id_keys(seen@)[j] == y;
                }
            }
            assert(id_keys(out@) =~= Seq::<<Vid as VertexId>::Key>::empty());
            assert(id_keys(out@) + bfs_rec(g, id_keys(q@), id_keys(seen@).to_set()) =~= bfs_seq(
                g,
                start.key(),
            ));
        }
        while q.len() != 0
            invariant
                targets(g).finite(),
                id_keys(out@) + bfs_rec(g, id_keys(q@), id_keys(seen@).to_set()) == bfs_seq(
                    g,
                    start.key(),
                ),
            decreases pending(g, id_keys(q@), id_keys(seen@).to_set()).len(), q@.len(),
        {
            let ghost w = id_keys(q@);
            let ghost s0 = id_keys(seen@).to_set();
            let ghost out0 = id_keys(out@);
            let current = q.pop_front().unwrap();
            let ghost ck = current.key();
            out.push(current);
            proof {
                assert(w.first() == ck);
                assert(id_keys(q@) =~= w.drop_first());
                assert(id_keys(out@) =~= out0.push(ck));
            }
            let ghost f0 = fresh_ids(adj_of(g, ck), s0);
            match self.adj_index(&current) {
                Some(idx) => {
                    proof {
                        lemma_assoc_map_get(self.adjacency@, f_nbr, idx as int);
                        assert(g.dom().contains(ck));
                        assert(adj_of(g, ck) == f_nbr(self.adjacency@[idx as int].1));
                    }
                    let ghost ns = adj_of(g, ck);
                    let ghost q1 = id_keys(q@);
                    let m = self.adjacency[idx].1.len();
                    let mut j: usize = 0;
                    while j < m
                        invariant
                            j <= m,
                            m == ns.len(),
                            id_keys(q@) == q1 + fresh_ids(ns.take(j as int), s0),
                            id_keys(seen@).to_set() == s0.union(
                                fresh_ids(ns.take(j as int), s0).to_set(),
                            ),
                        decreases m - j,
                    {
                        let nbr = self.adjacency[idx].1[j].0;
                        let ghost x = ns[j as int];
                        proof {
                            assert(x == self.adjacency@[idx as int].1@[j as int].0.key());
                            assert(x == nbr.key());
                            assert(ns.take(j as int + 1) =~= ns.take(j as int).push(x));
                            lemma_fresh_ids_snoc(ns.take(j as int), x, s0);
                        }
                        let ghost seenq = id_keys(seen@);
                        let ghost qb = id_keys(q@);
                        if !contains_vid(&seen, &nbr) {
                            seen.push(nbr);
                            q.push_back(nbr);
                            proof {
                                assert(id_keys(seen@) =~= seenq.push(x));
                                assert(id_keys(q@) =~= qb.push(x));
                                lemma_to_set_drop_last(seenq.push(x));
                                assert(seenq.push(x).drop_last() =~= seenq);
                                lemma_to_set_drop_last(fresh_ids(ns.take(j as int), s0).push(x));
                                assert(fresh_ids(ns.take(j as int), s0).push(x).drop_last()
                                    =~= fresh_ids(ns.take(j as int), s0));
                                assert(fresh_ids(ns.take(j as int + 1), s0) == fresh_ids(
                                    ns.take(j as int),
                                    s0,
                                ).push(x));
                                assert(id_keys(q@) =~= q1 + fresh_ids(ns.take(j as int + 1), s0));
                                assert(id_keys(seen@).to_set() =~= s0.union(
                                    fresh_ids(ns.take(j as int + 1), s0).to_set(),
                                ));
                            }
                        } else {
                            proof {
                                assert(fresh_ids(ns.take(j as int + 1), s0) == fresh_ids(
                                    ns.take(j as int),
                                    s0,
                                ));
                            }
                        }
                        j = j + 1;
                    }
                    proof {
                        assert(ns.take(m as int) =~= ns);
                        assert(id_keys(q@) == w.drop_first() + f0);
                        assert(id_keys(seen@).to_set() == s0.union(f0.to_set()));
                    }
                }
                None => {
                    proof {
                        lemma_assoc_map_dom(self.adjacency@, f_nbr);
                        assert(!g.dom().contains(ck));
                        assert(adj_of(g, ck) =~= Seq::<<Vid as VertexId>::Key>::empty());
                        assert(f0 =~= Seq::<<Vid as VertexId>::Key>::empty());
                        assert(id_keys(q@) =~= w.drop_first() + f0);
                        assert(id_keys(seen@).to_set() =~= s0.union(f0.to_set()));
                    }
                }
            }
            proof {
                assert(bfs_rec(g, w, s0) == seq![ck] + bfs_rec(
                    g,
                    w.drop_first() + f0,
                    s0.union(f0.to_set()),
                ));
                assert(id_keys(out@) + bfs_rec(g, id_keys(q@), id_keys(seen@).to_set()) =~= out0
                    + bfs_rec(g, w, s0));
                lemma_fresh_ids(adj_of(g, ck), s0);
                lemma_adj_in_targets(g, ck);
                lemma_to_set_add(w.drop_first(), f0);
                lemma_to_set_drop_first(w);
                if f0.len() > 0 {
                    assert(f0.contains(f0[0]));
                    assert(f0.to_set().contains(f0[0]));
                    assert(adj_of(g, ck).to_set().contains(f0[0]));
                    assert(adj_of(g, ck).contains(f0[0]));
                    assert(pending(g, w, s0).contains(f0[0]));
                    lemma_pending_lt(
                        g,
                        w,
                        s0,
                        w.drop_first() + f0,
                        s0.union(f0.to_set()),
                        f0[0],
                    );
                } else {
                    lemma_pending_le(g, w, s0, w.drop_first() + f0, s0.union(f0.to_set()));
                    assert(w.drop_first() + f0 =~= w.drop_first());
                }
            }
        }
        proof {
            assert(id_keys(q@) =~= Seq::<<Vid as VertexId>::Key>::empty());
            assert(bfs_rec(g, id_keys(q@), id_keys(seen@).to_set())
                == Seq::<<Vid as VertexId>::Key>::empty());
            assert(id_keys(out@) =~= id_keys(out@) + Seq::<<Vid as VertexId>::Key>::empty());
            assert(id_keys(out@) == bfs_seq(g, start.key()));
            assert forall|k: <Vid as VertexId>::Key| #[trigger] id_keys(out@).to_set().contains(k)
                <==> reachable(g, start.key(), k) by {
                assert(reach_set(g, start.key()).contains(k) == reachable(g, start.key(), k));
            }
        }
        out
    }

    /// Visit, depth first, every vertex reachable from `start`, with an
    /// explicit stack: each reachable identifier appears exactly once, in
    /// the order first visited, where among a vertex's neighbours the
    /// last-listed one is processed first; the key sequence of the result is
    /// a function of the adjacency mapping and the start key alone.
    #[verifier::loop_isolation(false)]
    pub fn dfs(&self, start: Vid) -> (r: Vec<Vid>)
        requires
            self.wf(),
        ensures
            id_keys(r@) == dfs_seq(self.nbr_map(), start.key()),
            id_keys(r@).no_duplicates(),
            forall|k: <Vid as VertexId>::Key| #[trigger] id_keys(r@).to_set().contains(k)
                <==> reachable(self.nbr_map(), start.key(), k),
    {
        let ghost g = self.nbr_map();
        let ghost f_nbr = |r: Vec<(Vid, E)>| r@.map_values(|p: (Vid, E)| p.0.key());
        proof {
            lemma_nbr_targets_finite::<Vid, E>(self.adjacency@);
            lemma_traversals_visit_reachable(g, start.key());
        }
        let mut stack: Vec<Vid> = Vec::new();
        let mut seen: Vec<Vid> = Vec::new();
        let mut out: Vec<Vid> = Vec::new();
        stack.push(start);
        proof {
            assert(id_keys(stack@) =~= seq![start.key()]);
            assert(id_keys(seen@).to_set() =~= Set::<<Vid as VertexId>::Key>::empty());
            assert(id_keys(out@) + dfs_rec(g, id_keys(stack@), id_keys(seen@).to_set())
                =~= dfs_seq(g, start.key()));
        }
        while stack.len() != 0
            invariant
                targets(g).finite(),
                id_keys(out@) + dfs_rec(g, id_keys(stack@), id_keys(seen@).to_set()) == dfs_seq(
                    g,
                    start.key(),
                ),
            decreases pending(g, id_keys(stack@), id_keys(seen@).to_set()).len(), stack@.len(),
        {
            let ghost w = id_keys(stack@);
            let ghost s0 = id_keys(seen@).to_set();
            let ghost seenq0 = id_keys(seen@);
            let ghost out0 = id_keys(out@);
            let current = stack.pop().unwrap();
            let ghost ck = current.key();
            proof {
                assert(w.last() == ck);
                assert(id_keys(stack@) =~= w.drop_last());
            }
            if !contains_vid(&seen, &current) {
                seen.push(current);
                out.push(current);
                let ghost s1 = s0.insert(ck);
                let ghost nsk = keep_unseen(adj_of(g, ck), s1);
                proof {
                    assert(id_keys(out@) =~= out0.push(ck));
                    assert(id_keys(seen@) =~= seenq0.push(ck));
                    lemma_to_set_drop_last(seenq0.push(ck));
                    assert(seenq0.push(ck).drop_last() =~= seenq0);
                    assert(id_keys(seen@).to_set() =~= s1);
                }
                match self.adj_index(&current) {
                    Some(idx) => {
                        proof {
                            lemma_assoc_map_get(self.adjacency@, f_nbr, idx as int);
                            assert(g.dom().contains(ck));
                            assert(adj_of(g, ck) == f_nbr(self.adjacency@[idx as int].1));
                        }
                        let ghost ns = adj_of(g, ck);
                        let ghost st1 = id_keys(stack@);
                        let m = self.adjacency[idx].1.len();
                        let mut j: usize = 0;
                        while j < m
                            invariant
                                j <= m,
                                m == ns.len(),
                                id_keys(seen@).to_set() == s1,
                                id_keys(stack@) == st1 + keep_unseen(ns.take(j as int), s1),
                            decreases m - j,
                        {
                            let nbr = self.adjacency[idx].1[j].0;
                            let ghost x = ns[j as int];
                            proof {
                                assert(x == self.adjacency@[idx as int].1@[j as int].0.key());
                                assert(x == nbr.key());
                                assert(ns.take(j as int + 1) =~= ns.take(j as int).push(x));
                                assert(ns.take(j as int + 1).drop_last() =~= ns.take(j as int));
                                assert(ns.take(j as int + 1).last() == x);
                            }
                            let ghost sb = id_keys(stack@);
                            if !contains_vid(&seen, &nbr) {
                                stack.push(nbr);
                                proof {
                                    assert(id_keys(stack@) =~= sb.push(x));
                                    assert(keep_unseen(ns.take(j as int + 1), s1) == keep_unseen(
                                        ns.take(j as int),
                                        s1,
                                    ).push(x));
                                    assert(id_keys(stack@) =~= st1 + keep_unseen(
                                        ns.take(j as int + 1),
                                        s1,
                                    ));
                                }
                            } else {
                                proof {
                                    assert(keep_unseen(ns.take(j as int + 1), s1) == keep_unseen(
                                        ns.take(j as int),
                                        s1,
                                    ));
                                }
                            }
                            j = j + 1;
                        }
                        proof {
                            assert(ns.take(m as int) =~= ns);
                            assert(id_keys(stack@) == w.drop_last() + nsk);
                        }
                    }
                    None => {
                        proof {
                            lemma_assoc_map_dom(self.adjacency@, f_nbr);
                            assert(!g.dom().contains(ck));
                            assert(adj_of(g, ck) =~= Seq::<<Vid as VertexId>::Key>::empty());
                            assert(nsk =~= Seq::<<Vid as VertexId>::Key>::empty());
                            assert(id_keys(stack@) =~= w.drop_last() + nsk);
                        }
                    }
                }
                proof {
                    assert(!s0.contains(ck));
                    assert(dfs_rec(g, w, s0) == seq![ck] + dfs_rec(g, w.drop_last() + nsk, s1));
                    assert(id_keys(out@) + dfs_rec(g, id_keys(stack@), id_keys(seen@).to_set())
                        =~= out0 + dfs_rec(g, w, s0));
                    lemma_keep_unseen(adj_of(g, ck), s1);
                    lemma_adj_in_targets(g, ck);
                    lemma_to_set_add(w.drop_last(), nsk);
                    lemma_to_set_drop_last(w);
                    assert(w.to_set().contains(ck));
                    assert(pending(g, w, s0).contains(ck));
                    lemma_pending_lt(g, w, s0, w.drop_last() + nsk, s1, ck);
                }
            } else {
                proof {
                    assert(s0.contains(ck));
                    assert(dfs_rec(g, w, s0) == dfs_rec(g, w.drop_last(), s0));
                    lemma_to_set_drop_last(w);
                    lemma_pending_le(g, w, s0, w.drop_last(), s0);
                }
            }
        }
        proof {
            assert(id_keys(stack@) =~= Seq::<<Vid as VertexId>::Key>::empty());
            assert(dfs_rec(g, id_keys(stack@), id_keys(seen@).to_set())
                == Seq::<<Vid as VertexId>::Key>::empty());
            assert(id_keys(out@) =~= id_keys(out@) + Seq::<<Vid as VertexId>::Key>::empty());
            assert(id_keys(out@) == dfs_seq(g, start.key()));
            assert forall|k: <Vid as VertexId>::Key| #[trigger] id_keys(out@).to_set().contains(k)
                <==> reachable(g, start.key(), k) by {
                assert(reach_set(g, start.key()).contains(k) == reachable(g, start.key(), k));
            }
        }
        out
    }
}

impl<Vid: VertexId, E: EdgeLabel, V> Graph<Vid, E, V> {
    /// Append the edge in both directions: `(to, label)` onto the row of
    /// `from`, then `(from, label)` onto the row of `to`, the one direction
    /// carrying a duplicate of the label. Afterwards each endpoint lists the
    /// other as a neighbour.
    pub fn push_undirected_edge(&mut self, from: Vid, to: Vid, edge: E)
        requires
            old(self).wf(),
        ensures
            final(self).wf(),
            final(self).vertex_map() == old(self).vertex_map(),
            final(self).adj_map() == pushed_edge(
                pushed_edge(old(self).adj_map(), from.key(), (to.key(), edge)),
                to.key(),
                (from.key(), edge),
            ),
            final(self).nbr_map() == pushed_edge(
                pushed_edge(old(self).nbr_map(), from.key(), to.key()),
                to.key(),
                from.key(),
            ),
            adj_of(final(self).nbr_map(), from.key()).contains(to.key()),
            adj_of(final(self).nbr_map(), to.key()).contains(from.key()),
    {
        let e2 = edge.dup();
        self.push_edge(from, to, e2);
        self.push_edge(to, from, edge);
        proof {
            let m0 = old(self).nbr_map();
            let m1 = pushed_edge(m0, from.key(), to.key());
            let m2 = self.nbr_map();
            assert(m2 == pushed_edge(m1, to.key(), from.key()));
            let row_to = adj_of(m1, to.key()).push(from.key());
            assert(adj_of(m2, to.key()) == row_to);
            assert(row_to[row_to.len() - 1] == from.key());
            assert(adj_of(m2, to.key()).contains(from.key()));
            if from.key() == to.key() {
                let row1 = adj_of(m0, from.key()).push(to.key());
                assert(adj_of(m1, to.key()) == row1);
                assert(row_to[row1.len() - 1] == to.key());
                assert(adj_of(m2, from.key()).contains(to.key()));
            } else {
                let row1 = adj_of(m0, from.key()).push(to.key());
                assert(adj_of(m2, from.key()) == row1);
                assert(row1[row1.len() - 1] == to.key());
                assert(adj_of(m2, from.key()).contains(to.key()));
            }
        }
    }
}

impl<Vid: VertexId, E> Graph<Vid, E, ()> {
    /// Register `vid` as a vertex with the empty payload.
    pub fn push_vid(&mut self, vid: Vid)
        requires
            old(self).wf(),
        ensures
            final(self).wf(),
            final(self).vertex_map() == old(self).vertex_map().insert(vid.key(), ()),
            final(self).adj_map() == old(self).adj_map(),
            final(self).nbr_map() == old(self).nbr_map(),
    {
        self.push_vertex(vid, ());
    }
}

/// The label views of one adjacency row of a string-labelled graph.
pub open spec fn label_views(row: Seq<(Seq<char>, String)>) -> Seq<(Seq<char>, Seq<char>)> {
    row.map_values(|p: (Seq<char>, String)| (p.0, p.1@))
}

/// Build the fixed example graph: vertices `A` to `E`, and the undirected
/// labelled edges `A`–`B`, `A`–`D`, `B`–`C` and `D`–`E`.
pub fn create_example_graph() -> (g: Graph<&'static str, String>)
    ensures
        g.wf(),
        g.vertex_map() == Map::<Seq<char>, ()>::empty().insert("A"@, ()).insert("B"@, ()).insert(
            "C"@,
            (),
        ).insert("D"@, ()).insert("E"@, ()),
        g.nbr_map() == Map::<Seq<char>, Seq<Seq<char>>>::empty().insert(
            "A"@,
            seq!["B"@, "D"@],
        ).insert("B"@, seq!["A"@, "C"@]).insert("C"@, seq!["B"@]).insert(
            "D"@,
            seq!["A"@, "E"@],
        ).insert("E"@, seq!["D"@]),
        label_views(adj_of(g.adj_map(), "A"@)) == seq![("B"@, "A - B"@), ("D"@, "A - D"@)],
        label_views(adj_of(g.adj_map(), "B"@)) == seq![("A"@, "A - B"@), ("C"@, "B - C"@)],
        label_views(adj_of(g.adj_map(), "C"@)) == seq![("B"@, "B - C"@)],
        label_views(adj_of(g.adj_map(), "D"@)) == seq![("A"@, "A - D"@), ("E"@, "D - E"@)],
        label_views(adj_of(g.adj_map(), "E"@)) == seq![("D"@, "D - E"@)],
{
    let mut g: Graph<&'static str, String> = Graph::new();
    g.push_vid("A");
    g.push_vid("B");
    g.push_vid("C");
    g.push_vid("D");
    g.push_vid("E");
    g.push_undirected_edge("A", "B", "A - B".to_owned());
    g.push_undirected_edge("A", "D", "A - D".to_owned());
    g.push_undirected_edge("B", "C", "B - C".to_owned());
    g.push_undirected_edge("D", "E", "D - E".to_owned());
    proof {
        reveal_strlit("A");
        reveal_strlit("B");
        reveal_strlit("C");
        reveal_strlit("D");
        reveal_strlit("E");
        reveal_strlit("A - B");
        reveal_strlit("A - D");
        reveal_strlit("B - C");
        reveal_strlit("D - E");
        assert("A"@[0] == 'A' && "B"@[0] == 'B' && "C"@[0] == 'C' && "D"@[0] == 'D' && "E"@[0]
            == 'E');
        assert("A"@ != "B"@ && "A"@ != "C"@ && "A"@ != "D"@ && "A"@ != "E"@);
        assert("B"@ != "C"@ && "B"@ != "D"@ && "B"@ != "E"@);
        assert("C"@ != "D"@ && "C"@ != "E"@ && "D"@ != "E"@);
        assert(g.nbr_map() =~= Map::<Seq<char>, Seq<Seq<char>>>::empty().insert(
            "A"@,
            seq!["B"@, "D"@],
        ).insert("B"@, seq!["A"@, "C"@]).insert("C"@, seq!["B"@]).insert(
            "D"@,
            seq!["A"@, "E"@],
        ).insert("E"@, seq!["D"@])) by {
            assert(adj_of(g.nbr_map(), "A"@) =~= seq!["B"@, "D"@]);
            assert(adj_of(g.nbr_map(), "B"@) =~= seq!["A"@, "C"@]);
            assert(adj_of(g.nbr_map(), "C"@) =~= seq!["B"@]);
            assert(adj_of(g.nbr_map(), "D"@) =~= seq!["A"@, "E"@]);
            assert(adj_of(g.nbr_map(), "E"@) =~= seq!["D"@]);
        }
        assert(label_views(adj_of(g.adj_map(), "A"@)) =~= seq![
            ("B"@, "A - B"@),
            ("D"@, "A - D"@),
        ]);
        assert(label_views(adj_of(g.adj_map(), "B"@)) =~= seq![
            ("A"@, "A - B"@),
            ("C"@, "B - C"@),
        ]);
        assert(label_views(adj_of(g.adj_map(), "C"@)) =~= seq![("B"@, "B - C"@)]);
        assert(label_views(adj_of(g.adj_map(), "D"@)) =~= seq![
            ("A"@, "A - D"@),
            ("E"@, "D - E"@),
        ]);
        assert(label_views(adj_of(g.adj_map(), "E"@)) =~= seq![("D"@, "D - E"@)]);
    }
    g
}

} // verus!
