//! The mathematical account of the two traversals. A graph is read here as a
//! map from a key to the ordered sequence of its neighbours' keys; the
//! breadth-first and depth-first visit orders are defined as recursive
//! functions over that map, and the lemmas at the end state the laws the
//! traversals obey: they visit exactly the reachable keys, each at most once.

use vstd::prelude::*;

verus! {

/// The adjacency row of `v`, in edge-insertion order; empty when `v` has no
/// adjacency entry.
pub open spec fn adj_of<K, T>(g: Map<K, Seq<T>>, v: K) -> Seq<T> {
    if g.dom().contains(v) {
        g[v]
    } else {
        Seq::empty()
    }
}

/// The adjacency mapping after appending `item` to the row of `from`,
/// creating that row if it was absent.
pub open spec fn pushed_edge<K, T>(m: Map<K, Seq<T>>, from: K, item: T) -> Map<K, Seq<T>> {
    m.insert(from, adj_of(m, from).push(item))
}

/// A walk through the graph: a non-empty sequence of keys, each step going
/// to a neighbour of the previous key.
pub open spec fn is_path<K>(g: Map<K, Seq<K>>, p: Seq<K>) -> bool {
    &&& p.len() >= 1
    &&& forall|i: int| 0 <= i < p.len() - 1 ==> adj_of(g, #[trigger] p[i]).contains(p[i + 1])
}

/// Whether `to` can be reached from `from` by following directed edges.
pub open spec fn reachable<K>(g: Map<K, Seq<K>>, from: K, to: K) -> bool {
    exists|p: Seq<K>| #[trigger] is_path(g, p) && p.first() == from && p.last() == to
}

/// The set of keys reachable from `from`.
pub open spec fn reach_set<K>(g: Map<K, Seq<K>>, from: K) -> Set<K> {
    Set::new(|k: K| reachable(g, from, k))
}

/// Every key that appears in some adjacency sequence.
pub open spec fn targets<K>(g: Map<K, Seq<K>>) -> Set<K> {
    Set::new(|k: K| exists|v: K| g.dom().contains(v) && #[trigger] adj_of(g, v).contains(k))
}

/// The keys a traversal with worklist `work` and visited set `seen` may
/// still add to `seen`: a measure for termination.
pub open spec fn pending<K>(g: Map<K, Seq<K>>, work: Seq<K>, seen: Set<K>) -> Set<K> {
    targets(g).union(work.to_set()).difference(seen)
}

/// The members of a concatenation are the members of its parts.
pub proof fn lemma_to_set_add<K>(a: Seq<K>, b: Seq<K>)
    ensures
        (a + b).to_set() =~= a.to_set().union(b.to_set()),
{
    assert forall|y: K| (a + b).to_set().contains(y) implies a.to_set().union(b.to_set()).contains(
        y,
    ) by {
        let i = choose|i: int| 0 <= i < (a + b).len() && (a + b)[i] == y;
        if i < a.len() {
            assert(a[i] == y);
        } else {
            assert(b[i - a.len()] == y);
        }
    }
    assert forall|y: K| a.to_set().union(b.to_set()).contains(y) implies (a + b).to_set().contains(
        y,
    ) by {
        if a.to_set().contains(y) {
            let i = choose|i: int| 0 <= i < a.len() && a[i] == y;
            assert((a + b)[i] == y);
        } else {
            let i = choose|i: int| 0 <= i < b.len() && b[i] == y;
            assert((a + b)[a.len() + i] == y);
        }
    }
}

/// The members of a non-empty sequence are its first element and the
/// members of the rest.
pub proof fn lemma_to_set_drop_first<K>(s: Seq<K>)
    requires
        s.len() > 0,
    ensures
        s.to_set() =~= s.drop_first().to_set().insert(s.first()),
{
    assert forall|y: K| s.to_set().contains(y) implies s.drop_first().to_set().insert(
        s.first(),
    ).contains(y) by {
        let i = choose|i: int| 0 <= i < s.len() && s[i] == y;
        if i > 0 {
            assert(s.drop_first()[i - 1] == y);
        }
    }
    assert forall|y: K| s.drop_first().to_set().insert(s.first()).contains(y) implies
        s.to_set().contains(y) by {
        if y == s.first() {
            assert(s[0] == y);
        } else {
            let i = choose|i: int| 0 <= i < s.drop_first().len() && s.drop_first()[i] == y;
            assert(s[i + 1] == y);
        }
    }
}

/// The members of a non-empty sequence are its last element and the
/// members of the front.
pub proof fn lemma_to_set_drop_last<K>(s: Seq<K>)
    requires
        s.len() > 0,
    ensures
        s.to_set() =~= s.drop_last().to_set().insert(s.last()),
{
    assert forall|y: K| s.to_set().contains(y) implies s.drop_last().to_set().insert(
        s.last(),
    ).contains(y) by {
        let i = choose|i: int| 0 <= i < s.len() && s[i] == y;
        if i < s.len() - 1 {
            assert(s.drop_last()[i] == y);
        }
    }
    assert forall|y: K| s.drop_last().to_set().insert(s.last()).contains(y) implies
        s.to_set().contains(y) by {
        if y == s.last() {
            assert(s[s.len() - 1] == y);
        } else {
            let i = choose|i: int| 0 <= i < s.drop_last().len() && s.drop_last()[i] == y;
            assert(s[i] == y);
        }
    }
}

/// Among the neighbours `ns`, the ones not yet seen, each kept once, in
/// order of first occurrence: what one round of the breadth-first loop
/// appends to its queue.
pub open spec fn fresh_ids<K>(ns: Seq<K>, seen: Set<K>) -> Seq<K>
    decreases ns.len(),
{
    if ns.len() == 0 {
        Seq::empty()
    } else if seen.contains(ns.first()) {
        fresh_ids(ns.drop_first(), seen)
    } else {
        seq![ns.first()] + fresh_ids(ns.drop_first(), seen.insert(ns.first()))
    }
}

/// `fresh_ids` yields exactly the unseen members of `ns`, without
/// repetition.
pub proof fn lemma_fresh_ids<K>(ns: Seq<K>, seen: Set<K>)
    ensures
        fresh_ids(ns, seen).no_duplicates(),
        fresh_ids(ns, seen).to_set() =~= ns.to_set().difference(seen),
    decreases ns.len(),
{
    if ns.len() == 0 {
        assert(fresh_ids(ns, seen).to_set() =~= ns.to_set().difference(seen));
    } else {
        let x = ns.first();
        lemma_to_set_drop_first(ns);
        if seen.contains(x) {
            lemma_fresh_ids(ns.drop_first(), seen);
        } else {
            lemma_fresh_ids(ns.drop_first(), seen.insert(x));
            let rest = fresh_ids(ns.drop_first(), seen.insert(x));
            lemma_to_set_drop_first(seq![x] + rest);
            assert((seq![x] + rest).first() == x);
            assert((seq![x] + rest).drop_first() =~= rest);
            assert(fresh_ids(ns, seen).to_set() =~= ns.to_set().difference(seen));
            assert(!rest.to_set().contains(x));
            assert(!rest.contains(x));
            assert forall|i: int, j: int|
                0 <= i < j < fresh_ids(ns, seen).len() implies fresh_ids(ns, seen)[i] != fresh_ids(
                ns,
                seen,
            )[j] by {
                if i > 0 {
                    assert(fresh_ids(ns, seen)[i] == rest[i - 1]);
                    assert(fresh_ids(ns, seen)[j] == rest[j - 1]);
                } else {
                    assert(fresh_ids(ns, seen)[j] == rest[j - 1]);
                    assert(rest.contains(rest[j - 1]));
                }
            }
        }
    }
}

/// Among the neighbours `ns`, the ones not yet seen, repetitions kept: what
/// one round of the depth-first loop pushes onto its stack.
pub open spec fn keep_unseen<K>(ns: Seq<K>, seen: Set<K>) -> Seq<K>
    decreases ns.len(),
{
    if ns.len() == 0 {
        Seq::empty()
    } else {
        let rest = keep_unseen(ns.drop_last(), seen);
        if seen.contains(ns.last()) {
            rest
        } else {
            rest.push(ns.last())
        }
    }
}

/// `keep_unseen` yields exactly the unseen members of `ns`.
pub proof fn lemma_keep_unseen<K>(ns: Seq<K>, seen: Set<K>)
    ensures
        keep_unseen(ns, seen).to_set() =~= ns.to_set().difference(seen),
    decreases ns.len(),
{
    if ns.len() == 0 {
        assert(keep_unseen(ns, seen).to_set() =~= ns.to_set().difference(seen));
    } else {
        lemma_keep_unseen(ns.drop_last(), seen);
        lemma_to_set_drop_last(ns);
        let rest = keep_unseen(ns.drop_last(), seen);
        if !seen.contains(ns.last()) {
            lemma_to_set_drop_last(rest.push(ns.last()));
            assert(rest.push(ns.last()).drop_last() =~= rest);
        }
        assert(keep_unseen(ns, seen).to_set() =~= ns.to_set().difference(seen));
    }
}

/// Every neighbour of any key is a target of the graph.
pub proof fn lemma_adj_in_targets<K>(g: Map<K, Seq<K>>, v: K)
    ensures
        forall|y: K| adj_of(g, v).contains(y) ==> targets(g).contains(y),
{
    assert forall|y: K| adj_of(g, v).contains(y) implies targets(g).contains(y) by {
        assert(g.dom().contains(v) && adj_of(g, v).contains(y));
    }
}

/// The pending set is finite whenever the target set is.
pub proof fn lemma_pending_finite<K>(g: Map<K, Seq<K>>, work: Seq<K>, seen: Set<K>)
    requires
        targets(g).finite(),
    ensures
        pending(g, work, seen).finite(),
{
    broadcast use vstd::seq_lib::seq_to_set_is_finite;
    broadcast use vstd::set_lib::lemma_set_union_finite_iff;
    broadcast use vstd::set_lib::lemma_set_subset_finite;

    let base = targets(g).union(work.to_set());
    assert(base.finite());
    assert(pending(g, work, seen).subset_of(base));
}

/// Stepping a traversal never grows the pending set: each key of the new
/// worklist is a target, an old worklist entry, or already seen.
pub proof fn lemma_pending_le<K>(g: Map<K, Seq<K>>, w1: Seq<K>, s1: Set<K>, w2: Seq<K>, s2: Set<K>)
    requires
        targets(g).finite(),
        forall|y: K|
            w2.to_set().contains(y) ==> targets(g).contains(y) || w1.to_set().contains(y)
                || s2.contains(y),
        s1.subset_of(s2),
    ensures
        pending(g, w2, s2).subset_of(pending(g, w1, s1)),
        pending(g, w2, s2).len() <= pending(g, w1, s1).len(),
{
    lemma_pending_finite(g, w1, s1);
    assert(pending(g, w2, s2).subset_of(pending(g, w1, s1)));
    vstd::set_lib::lemma_len_subset(pending(g, w2, s2), pending(g, w1, s1));
}

/// When the step also marks a pending key as seen, the pending set shrinks
/// strictly.
pub proof fn lemma_pending_lt<K>(
    g: Map<K, Seq<K>>,
    w1: Seq<K>,
    s1: Set<K>,
    w2: Seq<K>,
    s2: Set<K>,
    x: K,
)
    requires
        targets(g).finite(),
        forall|y: K|
            w2.to_set().contains(y) ==> targets(g).contains(y) || w1.to_set().contains(y)
                || s2.contains(y),
        s1.subset_of(s2),
        pending(g, w1, s1).contains(x),
        s2.contains(x),
    ensures
        pending(g, w2, s2).len() < pending(g, w1, s1).len(),
{
    lemma_pending_finite(g, w1, s1);
    let p1 = pending(g, w1, s1);
    let p2 = pending(g, w2, s2);
    assert(p2.subset_of(p1.remove(x)));
    vstd::set_lib::lemma_len_subset(p2, p1.remove(x));
    assert(p1.remove(x).len() == p1.len() - 1);
}

/// The visit order of a breadth-first traversal that still has to process
/// the queue `work`, having already enqueued the keys in `seen`: the front
/// key is visited, its unseen neighbours join the queue and the seen set,
/// and the traversal goes on.
pub open spec fn bfs_rec<K>(g: Map<K, Seq<K>>, work: Seq<K>, seen: Set<K>) -> Seq<K>
    decreases pending(g, work, seen).len(), work.len(),
        when targets(g).finite()
        via bfs_rec_decreases::<K>
{
    if work.len() == 0 {
        Seq::empty()
    } else {
        let v = work.first();
        let f = fresh_ids(adj_of(g, v), seen);
        seq![v] + bfs_rec(g, work.drop_first() + f, seen.union(f.to_set()))
    }
}

#[via_fn]
proof fn bfs_rec_decreases<K>(g: Map<K, Seq<K>>, work: Seq<K>, seen: Set<K>) {
    if work.len() > 0 {
        let v = work.first();
        let f = fresh_ids(adj_of(g, v), seen);
        let w2 = work.drop_first() + f;
        let s2 = seen.union(f.to_set());
        lemma_fresh_ids(adj_of(g, v), seen);
        lemma_adj_in_targets(g, v);
        lemma_to_set_add(work.drop_first(), f);
        lemma_to_set_drop_first(work);
        if f.len() > 0 {
            assert(f.contains(f[0]));
            assert(f.to_set().contains(f[0]));
            assert(adj_of(g, v).to_set().contains(f[0]));
            assert(adj_of(g, v).contains(f[0]));
            assert(!seen.contains(f[0]));
            assert(pending(g, work, seen).contains(f[0]));
            lemma_pending_lt(g, work, seen, w2, s2, f[0]);
        } else {
            lemma_pending_le(g, work, seen, w2, s2);
            assert(w2 =~= work.drop_first());
        }
    }
}

/// The visit order of a depth-first traversal that still has to process the
/// stack `work`, having already visited the keys in `seen`: the top key is
/// popped; if already visited it is discarded, otherwise it is visited and
/// its not-yet-visited neighbours are pushed in order, so that the last
/// neighbour is processed first.
pub open spec fn dfs_rec<K>(g: Map<K, Seq<K>>, work: Seq<K>, seen: Set<K>) -> Seq<K>
    decreases pending(g, work, seen).len(), work.len(),
        when targets(g).finite()
        via dfs_rec_decreases::<K>
{
    if work.len() == 0 {
        Seq::empty()
    } else {
        let v = work.last();
        if seen.contains(v) {
            dfs_rec(g, work.drop_last(), seen)
        } else {
            let ns = keep_unseen(adj_of(g, v), seen.insert(v));
            seq![v] + dfs_rec(g, work.drop_last() + ns, seen.insert(v))
        }
    }
}

#[via_fn]
proof fn dfs_rec_decreases<K>(g: Map<K, Seq<K>>, work: Seq<K>, seen: Set<K>) {
    if work.len() > 0 {
        let v = work.last();
        lemma_to_set_drop_last(work);
        if seen.contains(v) {
            lemma_pending_le(g, work, seen, work.drop_last(), seen);
        } else {
            let ns = keep_unseen(adj_of(g, v), seen.insert(v));
            let w2 = work.drop_last() + ns;
            let s2 = seen.insert(v);
            lemma_keep_unseen(adj_of(g, v), s2);
            lemma_adj_in_targets(g, v);
            lemma_to_set_add(work.drop_last(), ns);
            assert(work.to_set().contains(v));
            assert(pending(g, work, seen).contains(v));
            lemma_pending_lt(g, work, seen, w2, s2, v);
        }
    }
}

/// The breadth-first visit order from `start`.
pub open spec fn bfs_seq<K>(g: Map<K, Seq<K>>, start: K) -> Seq<K> {
    bfs_rec(g, seq![start], Set::empty().insert(start))
}

/// The depth-first visit order from `start`.
pub open spec fn dfs_seq<K>(g: Map<K, Seq<K>>, start: K) -> Seq<K> {
    dfs_rec(g, seq![start], Set::empty())
}

/// How `fresh_ids` grows when one more neighbour is appended: the new
/// neighbour is kept exactly when it is neither seen nor already kept.
pub proof fn lemma_fresh_ids_snoc<K>(ns: Seq<K>, x: K, seen: Set<K>)
    ensures
        fresh_ids(ns.push(x), seen) == if seen.union(fresh_ids(ns, seen).to_set()).contains(x) {
            fresh_ids(ns, seen)
        } else {
            fresh_ids(ns, seen).push(x)
        },
    decreases ns.len(),
{
    lemma_fresh_ids(ns, seen);
    if ns.len() == 0 {
        assert(ns.push(x).first() == x);
        assert(ns.push(x).drop_first() =~= Seq::<K>::empty());
        assert(fresh_ids(ns, seen) == Seq::<K>::empty());
        assert(fresh_ids(ns, seen).to_set() =~= Set::<K>::empty());
        assert(!seen.union(fresh_ids(ns, seen).to_set()).contains(x) == !seen.contains(x));
        if seen.contains(x) {
            assert(fresh_ids(ns.push(x), seen) == fresh_ids(ns.push(x).drop_first(), seen));
            assert(fresh_ids(ns.push(x).drop_first(), seen) == Seq::<K>::empty());
        } else {
            assert(fresh_ids(ns.push(x), seen) == seq![x] + fresh_ids(
                ns.push(x).drop_first(),
                seen.insert(x),
            ));
            assert(fresh_ids(ns.push(x).drop_first(), seen.insert(x)) == Seq::<K>::empty());
            assert(seq![x] + Seq::<K>::empty() =~= fresh_ids(ns, seen).push(x));
        }
    } else {
        let h = ns.first();
        assert(ns.push(x).first() == h);
        assert(ns.push(x).drop_first() =~= ns.drop_first().push(x));
        if seen.contains(h) {
            lemma_fresh_ids_snoc(ns.drop_first(), x, seen);
        } else {
            lemma_fresh_ids_snoc(ns.drop_first(), x, seen.insert(h));
            let rest = fresh_ids(ns.drop_first(), seen.insert(h));
            lemma_fresh_ids(ns.drop_first(), seen.insert(h));
            lemma_to_set_drop_first(seq![h] + rest);
            assert((seq![h] + rest).first() == h);
            assert((seq![h] + rest).drop_first() =~= rest);
            assert(seen.insert(h).union(rest.to_set()) =~= seen.union(
                (seq![h] + rest).to_set(),
            ));
            if !seen.union(fresh_ids(ns, seen).to_set()).contains(x) {
                assert(fresh_ids(ns.push(x), seen) =~= (seq![h] + rest).push(x));
            }
        }
    }
}

/// An empty graph has no targets.
pub proof fn lemma_targets_empty<K>()
    ensures
        targets(Map::<K, Seq<K>>::empty()).finite(),
        targets(Map::<K, Seq<K>>::empty()) =~= Set::<K>::empty(),
{
    assert forall|y: K| !(#[trigger] targets(Map::<K, Seq<K>>::empty()).contains(y)) by {
        if targets(Map::<K, Seq<K>>::empty()).contains(y) {
            let v = choose|v: K|
                Map::<K, Seq<K>>::empty().dom().contains(v) && #[trigger] adj_of(
                    Map::<K, Seq<K>>::empty(),
                    v,
                ).contains(y);
        }
    }
    assert(targets(Map::<K, Seq<K>>::empty()) =~= Set::<K>::empty());
}

/// Adding one adjacency row keeps the target set finite.
pub proof fn lemma_targets_insert_finite<K>(m: Map<K, Seq<K>>, k: K, row: Seq<K>)
    requires
        targets(m).finite(),
    ensures
        targets(m.insert(k, row)).finite(),
{
    broadcast use vstd::seq_lib::seq_to_set_is_finite;
    broadcast use vstd::set_lib::lemma_set_union_finite_iff;
    broadcast use vstd::set_lib::lemma_set_subset_finite;

    let m2 = m.insert(k, row);
    assert forall|y: K| #[trigger] targets(m2).contains(y) implies targets(m).union(
        row.to_set(),
    ).contains(y) by {
        let v = choose|v: K| m2.dom().contains(v) && #[trigger] adj_of(m2, v).contains(y);
        if v == k {
            assert(row.contains(y));
            assert(row.to_set().contains(y));
        } else {
            assert(m.dom().contains(v));
            assert(adj_of(m, v) == adj_of(m2, v));
            assert(adj_of(m, v).contains(y));
            assert(targets(m).contains(y));
        }
    }
    assert(targets(m2).subset_of(targets(m).union(row.to_set())));
}

/// Every key reaches itself.
pub proof fn lemma_reachable_refl<K>(g: Map<K, Seq<K>>, v: K)
    ensures
        reachable(g, v, v),
{
    let p = seq![v];
    assert(is_path(g, p));
    assert(p.first() == v && p.last() == v);
}

/// Reachability extends along an edge.
pub proof fn lemma_reachable_step<K>(g: Map<K, Seq<K>>, a: K, b: K, c: K)
    requires
        reachable(g, a, b),
        adj_of(g, b).contains(c),
    ensures
        reachable(g, a, c),
{
    let p = choose|p: Seq<K>| #[trigger] is_path(g, p) && p.first() == a && p.last() == b;
    let q = p.push(c);
    assert forall|i: int| 0 <= i < q.len() - 1 implies adj_of(g, #[trigger] q[i]).contains(
        q[i + 1],
    ) by {
        if i < p.len() - 1 {
            assert(q[i] == p[i] && q[i + 1] == p[i + 1]);
        } else {
            assert(q[i] == p.last() && q[i + 1] == c);
        }
    }
    assert(is_path(g, q) && q.first() == a && q.last() == c);
}

/// A set that contains the start of a path and is closed under edges
/// contains the path's end.
proof fn lemma_path_end_in_closed<K>(g: Map<K, Seq<K>>, p: Seq<K>, s: Set<K>)
    requires
        is_path(g, p),
        s.contains(p.first()),
        forall|x: K, y: K| s.contains(x) && #[trigger] adj_of(g, x).contains(y) ==> s.contains(y),
    ensures
        s.contains(p.last()),
    decreases p.len(),
{
    if p.len() > 1 {
        let q = p.drop_last();
        assert forall|i: int| 0 <= i < q.len() - 1 implies adj_of(g, #[trigger] q[i]).contains(
            q[i + 1],
        ) by {
            assert(q[i] == p[i] && q[i + 1] == p[i + 1]);
        }
        assert(is_path(g, q));
        assert(q.first() == p.first());
        lemma_path_end_in_closed(g, q, s);
        assert(adj_of(g, p[p.len() - 2]).contains(p[p.len() - 2 + 1]));
        assert(q.last() == p[p.len() - 2]);
    }
}

/// A set containing `from` and closed under edges contains every key
/// reachable from `from`.
pub proof fn lemma_closed_contains_reachable<K>(g: Map<K, Seq<K>>, from: K, s: Set<K>)
    requires
        s.contains(from),
        forall|x: K, y: K| s.contains(x) && #[trigger] adj_of(g, x).contains(y) ==> s.contains(y),
    ensures
        forall|y: K| reachable(g, from, y) ==> s.contains(y),
{
    assert forall|y: K| reachable(g, from, y) implies s.contains(y) by {
        let p = choose|p: Seq<K>| #[trigger] is_path(g, p) && p.first() == from && p.last() == y;
        lemma_path_end_in_closed(g, p, s);
    }
}

/// The running invariants of the breadth-first recursion: under the stated
/// hypotheses its output has no duplicates, covers the worklist, contains
/// only worklist keys or unseen keys, is closed under edges up to `seen`,
/// and contains only keys reachable from `root`.
proof fn lemma_bfs_rec_props<K>(g: Map<K, Seq<K>>, work: Seq<K>, seen: Set<K>, root: K)
    requires
        targets(g).finite(),
        work.to_set().subset_of(seen),
        work.no_duplicates(),
        forall|x: K| work.to_set().contains(x) ==> reachable(g, root, x),
    ensures
        bfs_rec(g, work, seen).no_duplicates(),
        work.to_set().subset_of(bfs_rec(g, work, seen).to_set()),
        forall|y: K| #[trigger] bfs_rec(g, work, seen).to_set().contains(y)
            ==> work.to_set().contains(y) || !seen.contains(y),
        forall|x: K, y: K|
            bfs_rec(g, work, seen).to_set().contains(x) && #[trigger] adj_of(g, x).contains(y)
                ==> seen.contains(y) || bfs_rec(g, work, seen).to_set().contains(y),
        forall|x: K| #[trigger] bfs_rec(g, work, seen).to_set().contains(x)
            ==> reachable(g, root, x),
    decreases pending(g, work, seen).len(), work.len(),
{
    let o = bfs_rec(g, work, seen);
    if work.len() == 0 {
        assert(o =~= Seq::<K>::empty());
        assert(work.to_set().subset_of(o.to_set()));
    } else {
        let v = work.first();
        let adj = adj_of(g, v);
        let f = fresh_ids(adj, seen);
        let w2 = work.drop_first() + f;
        let s2 = seen.union(f.to_set());
        lemma_fresh_ids(adj, seen);
        lemma_adj_in_targets(g, v);
        lemma_to_set_add(work.drop_first(), f);
        lemma_to_set_drop_first(work);
        assert(work.to_set().contains(v));
        // The recursion's hypotheses.
        assert(w2.to_set().subset_of(s2));
        assert(work.drop_first().no_duplicates()) by {
            assert forall|i: int, j: int|
                0 <= i < j < work.drop_first().len() implies work.drop_first()[i]
                != work.drop_first()[j] by {
                assert(work.drop_first()[i] == work[i + 1]);
                assert(work.drop_first()[j] == work[j + 1]);
            }
        }
        assert(w2.no_duplicates()) by {
            assert forall|i: int, j: int| 0 <= i < j < w2.len() implies w2[i] != w2[j] by {
                let d = work.drop_first().len();
                if j < d {
                    assert(w2[i] == work.drop_first()[i] && w2[j] == work.drop_first()[j]);
                } else if i >= d {
                    assert(w2[i] == f[i - d] && w2[j] == f[j - d]);
                } else {
                    assert(w2[i] == work.drop_first()[i] && w2[j] == f[j - d]);
                    assert(work.drop_first().contains(w2[i]));
                    assert(work.to_set().contains(w2[i]));
                    assert(f.contains(w2[j]));
                    assert(f.to_set().contains(w2[j]));
                    assert(!seen.contains(w2[j]));
                }
            }
        }
        assert forall|x: K| w2.to_set().contains(x) implies reachable(g, root, x) by {
            if work.drop_first().to_set().contains(x) {
                assert(work.to_set().contains(x));
            } else {
                assert(f.to_set().contains(x));
                assert(adj.to_set().contains(x));
                assert(adj.contains(x));
                lemma_reachable_step(g, root, v, x);
            }
        }
        // The recursion's measure.
        if f.len() > 0 {
            assert(f.contains(f[0]));
            assert(f.to_set().contains(f[0]));
            assert(adj.to_set().contains(f[0]));
            assert(adj.contains(f[0]));
            assert(pending(g, work, seen).contains(f[0]));
            lemma_pending_lt(g, work, seen, w2, s2, f[0]);
        } else {
            lemma_pending_le(g, work, seen, w2, s2);
            assert(w2 =~= work.drop_first());
        }
        lemma_bfs_rec_props(g, w2, s2, root);
        let o2 = bfs_rec(g, w2, s2);
        assert(o == seq![v] + o2);
        lemma_to_set_drop_first(seq![v] + o2);
        assert((seq![v] + o2).first() == v);
        assert((seq![v] + o2).drop_first() =~= o2);
        assert(o.to_set() =~= o2.to_set().insert(v));
        // No duplicates: the front key is not among the later output.
        assert(!o2.to_set().contains(v)) by {
            if o2.to_set().contains(v) {
                assert(w2.to_set().contains(v) || !s2.contains(v));
                assert(s2.contains(v));
                if work.drop_first().to_set().contains(v) {
                    let i = choose|i: int|
                        0 <= i < work.drop_first().len() && work.drop_first()[i] == v;
                    assert(work[i + 1] == v);
                    assert(work[0] == v);
                } else {
                    assert(f.to_set().contains(v));
                    assert(!seen.contains(v));
                }
            }
        }
        assert(o.no_duplicates()) by {
            assert forall|i: int, j: int| 0 <= i < j < o.len() implies o[i] != o[j] by {
                if i == 0 {
                    assert(o[j] == o2[j - 1]);
                    assert(o2.contains(o2[j - 1]));
                    assert(o2.to_set().contains(o2[j - 1]));
                } else {
                    assert(o[i] == o2[i - 1] && o[j] == o2[j - 1]);
                }
            }
        }
        // The worklist is covered.
        assert forall|y: K| work.to_set().contains(y) implies o.to_set().contains(y) by {
            if y != v {
                let i = choose|i: int| 0 <= i < work.len() && work[i] == y;
                assert(work.drop_first()[i - 1] == y);
                assert(work.drop_first().to_set().contains(y));
                assert(w2.to_set().contains(y));
                assert(o2.to_set().contains(y));
            }
        }
        // Output keys were in the worklist or unseen.
        assert forall|y: K| #[trigger] o.to_set().contains(y) implies work.to_set().contains(y)
            || !seen.contains(y) by {
            if y != v {
                assert(o2.to_set().contains(y));
                assert(w2.to_set().contains(y) || !s2.contains(y));
                if w2.to_set().contains(y) {
                    if work.drop_first().to_set().contains(y) {
                        assert(work.to_set().contains(y));
                    } else {
                        assert(f.to_set().contains(y));
                        assert(!seen.contains(y));
                    }
                }
            }
        }
        // Closure under edges, up to `seen`.
        assert forall|x: K, y: K|
            o.to_set().contains(x) && #[trigger] adj_of(g, x).contains(y) implies seen.contains(y)
            || o.to_set().contains(y) by {
            if x == v {
                if !seen.contains(y) {
                    assert(adj.to_set().contains(y));
                    assert(f.to_set().contains(y));
                    assert(w2.to_set().contains(y));
                    assert(o2.to_set().contains(y));
                }
            } else {
                assert(o2.to_set().contains(x));
                assert(s2.contains(y) || o2.to_set().contains(y));
                if s2.contains(y) && !seen.contains(y) {
                    assert(f.to_set().contains(y));
                    assert(w2.to_set().contains(y));
                    assert(o2.to_set().contains(y));
                }
            }
        }
        // Only reachable keys are output.
        assert forall|x: K| #[trigger] o.to_set().contains(x) implies reachable(g, root, x) by {
            if x == v {
                assert(work.to_set().contains(v));
            } else {
                assert(o2.to_set().contains(x));
            }
        }
    }
}

/// The running invariants of the depth-first recursion: its output has no
/// duplicates and no already-visited key, covers the stack up to `seen`, is
/// closed under edges up to `seen`, and contains only keys reachable from
/// `root`.
proof fn lemma_dfs_rec_props<K>(g: Map<K, Seq<K>>, work: Seq<K>, seen: Set<K>, root: K)
    requires
        targets(g).finite(),
        forall|x: K| work.to_set().contains(x) ==> reachable(g, root, x),
    ensures
        dfs_rec(g, work, seen).no_duplicates(),
        forall|y: K| #[trigger] dfs_rec(g, work, seen).to_set().contains(y) ==> !seen.contains(y),
        work.to_set().subset_of(dfs_rec(g, work, seen).to_set().union(seen)),
        forall|x: K, y: K|
            dfs_rec(g, work, seen).to_set().contains(x) && #[trigger] adj_of(g, x).contains(y)
                ==> seen.contains(y) || dfs_rec(g, work, seen).to_set().contains(y),
        forall|x: K| #[trigger] dfs_rec(g, work, seen).to_set().contains(x)
            ==> reachable(g, root, x),
    decreases pending(g, work, seen).len(), work.len(),
{
    let o = dfs_rec(g, work, seen);
    if work.len() == 0 {
        assert(o =~= Seq::<K>::empty());
        assert(work.to_set().subset_of(o.to_set().union(seen)));
    } else {
        let v = work.last();
        lemma_to_set_drop_last(work);
        assert(work.to_set().contains(v));
        if seen.contains(v) {
            assert forall|x: K| work.drop_last().to_set().contains(x) implies reachable(
                g,
                root,
                x,
            ) by {
                assert(work.to_set().contains(x));
            }
            lemma_pending_le(g, work, seen, work.drop_last(), seen);
            lemma_dfs_rec_props(g, work.drop_last(), seen, root);
            assert(o == dfs_rec(g, work.drop_last(), seen));
            assert forall|y: K| work.to_set().contains(y) implies o.to_set().union(seen).contains(
                y,
            ) by {
                if y != v {
                    assert(work.drop_last().to_set().contains(y));
                }
            }
        } else {
            let s2 = seen.insert(v);
            let ns = keep_unseen(adj_of(g, v), s2);
            let w2 = work.drop_last() + ns;
            let o2 = dfs_rec(g, w2, s2);
            lemma_keep_unseen(adj_of(g, v), s2);
            lemma_adj_in_targets(g, v);
            lemma_to_set_add(work.drop_last(), ns);
            // The recursion's hypotheses and measure.
            assert forall|x: K| w2.to_set().contains(x) implies reachable(g, root, x) by {
                if work.drop_last().to_set().contains(x) {
                    assert(work.to_set().contains(x));
                } else {
                    assert(ns.to_set().contains(x));
                    assert(adj_of(g, v).to_set().contains(x));
                    assert(adj_of(g, v).contains(x));
                    lemma_reachable_step(g, root, v, x);
                }
            }
            assert(pending(g, work, seen).contains(v));
            lemma_pending_lt(g, work, seen, w2, s2, v);
            lemma_dfs_rec_props(g, w2, s2, root);
            assert(o == seq![v] + o2);
            lemma_to_set_drop_first(seq![v] + o2);
            assert((seq![v] + o2).first() == v);
            assert((seq![v] + o2).drop_first() =~= o2);
            assert(o.to_set() =~= o2.to_set().insert(v));
            // No duplicates, and no already-visited key.
            assert(!o2.to_set().contains(v)) by {
                if o2.to_set().contains(v) {
                    assert(!s2.contains(v));
                }
            }
            assert(o.no_duplicates()) by {
                assert forall|i: int, j: int| 0 <= i < j < o.len() implies o[i] != o[j] by {
                    if i == 0 {
                        assert(o[j] == o2[j - 1]);
                        assert(o2.contains(o2[j - 1]));
                        assert(o2.to_set().contains(o2[j - 1]));
                    } else {
                        assert(o[i] == o2[i - 1] && o[j] == o2[j - 1]);
                    }
                }
            }
            assert forall|y: K| #[trigger] o.to_set().contains(y) implies !seen.contains(y) by {
                if y != v {
                    assert(o2.to_set().contains(y));
                    assert(!s2.contains(y));
                }
            }
            // The stack is covered, up to `seen`.
            assert forall|y: K| work.to_set().contains(y) implies o.to_set().union(seen).contains(
                y,
            ) by {
                if y != v {
                    assert(work.drop_last().to_set().contains(y));
                    assert(w2.to_set().contains(y));
                    assert(o2.to_set().union(s2).contains(y));
                    if !o2.to_set().contains(y) {
                        if y != v {
                            assert(seen.contains(y));
                        }
                    }
                }
            }
            // Closure under edges, up to `seen`.
            assert forall|x: K, y: K|
                o.to_set().contains(x) && #[trigger] adj_of(g, x).contains(y) implies seen.contains(
                y,
            ) || o.to_set().contains(y) by {
                if x == v {
                    if !seen.contains(y) && y != v {
                        assert(adj_of(g, v).to_set().contains(y));
                        assert(!s2.contains(y));
                        assert(ns.to_set().contains(y));
                        assert(w2.to_set().contains(y));
                        assert(o2.to_set().union(s2).contains(y));
                        assert(o2.to_set().contains(y));
                    }
                } else {
                    assert(o2.to_set().contains(x));
                    assert(s2.contains(y) || o2.to_set().contains(y));
                }
            }
            // Only reachable keys are output.
            assert forall|x: K| #[trigger] o.to_set().contains(x) implies reachable(g, root, x) by {
                if x == v {
                    assert(work.to_set().contains(v));
                } else {
                    assert(o2.to_set().contains(x));
                }
            }
        }
    }
}

/// Both traversals from `start` visit exactly the keys reachable from
/// `start` along directed edges, and each of them visits no key twice: the
/// two visit orders differ, their sets of visited keys do not.
pub proof fn lemma_traversals_visit_reachable<K>(g: Map<K, Seq<K>>, start: K)
    requires
        targets(g).finite(),
    ensures
        bfs_seq(g, start).no_duplicates(),
        dfs_seq(g, start).no_duplicates(),
        bfs_seq(g, start).to_set() == reach_set(g, start),
        dfs_seq(g, start).to_set() == reach_set(g, start),
        bfs_seq(g, start).to_set() == dfs_seq(g, start).to_set(),
{
    let w0 = seq![start];
    let s0 = Set::<K>::empty().insert(start);
    lemma_reachable_refl(g, start);
    assert(w0.to_set() =~= s0) by {
        assert(w0[0] == start);
        assert forall|y: K| w0.to_set().contains(y) implies s0.contains(y) by {
            let i = choose|i: int| 0 <= i < w0.len() && w0[i] == y;
        }
    }
    // Breadth-first.
    lemma_bfs_rec_props(g, w0, s0, start);
    let ob = bfs_seq(g, start);
    assert(ob.to_set().contains(start));
    assert forall|x: K, y: K|
        ob.to_set().contains(x) && #[trigger] adj_of(g, x).contains(y) implies
        ob.to_set().contains(y) by {
        if s0.contains(y) {
            assert(y == start);
        }
    }
    lemma_closed_contains_reachable(g, start, ob.to_set());
    assert(ob.to_set() =~= reach_set(g, start)) by {
        assert forall|y: K| ob.to_set().contains(y) implies reach_set(g, start).contains(y) by {
            assert(reachable(g, start, y));
        }
        assert forall|y: K| reach_set(g, start).contains(y) implies ob.to_set().contains(y) by {
            assert(reachable(g, start, y));
        }
    }
    // Depth-first.
    lemma_dfs_rec_props(g, w0, Set::<K>::empty(), start);
    let od = dfs_seq(g, start);
    assert(od.to_set().union(Set::<K>::empty()).contains(start));
    assert(od.to_set().contains(start));
    assert forall|x: K, y: K|
        od.to_set().contains(x) && #[trigger] adj_of(g, x).contains(y) implies
        od.to_set().contains(y) by {}
    lemma_closed_contains_reachable(g, start, od.to_set());
    assert(od.to_set() =~= reach_set(g, start)) by {
        assert forall|y: K| od.to_set().contains(y) implies reach_set(g, start).contains(y) by {
            assert(reachable(g, start, y));
        }
        assert forall|y: K| reach_set(g, start).contains(y) implies od.to_set().contains(y) by {
            assert(reachable(g, start, y));
        }
    }
}

/// From a start key whose adjacency entry is empty or absent, both
/// traversals visit exactly the start key, once.
pub proof fn lemma_isolated_start<K>(g: Map<K, Seq<K>>, start: K)
    requires
        targets(g).finite(),
        adj_of(g, start).len() == 0,
    ensures
        bfs_seq(g, start) == seq![start],
        dfs_seq(g, start) == seq![start],
{
    let w0 = seq![start];
    let s0 = Set::<K>::empty().insert(start);
    assert(adj_of(g, start) =~= Seq::<K>::empty());
    let f = fresh_ids(adj_of(g, start), s0);
    assert(f =~= Seq::<K>::empty());
    assert(w0.first() == start);
    assert(w0.drop_first() + f =~= Seq::<K>::empty());
    assert(bfs_rec(g, w0.drop_first() + f, s0.union(f.to_set())) =~= Seq::<K>::empty());
    assert(bfs_seq(g, start) =~= seq![start]);
    let ns = keep_unseen(adj_of(g, start), Set::<K>::empty().insert(start));
    assert(ns =~= Seq::<K>::empty());
    assert(w0.last() == start);
    assert(w0.drop_last() + ns =~= Seq::<K>::empty());
    assert(dfs_rec(g, w0.drop_last() + ns, Set::<K>::empty().insert(start)) =~= Seq::<K>::empty());
    assert(dfs_seq(g, start) =~= seq![start]);
}

/// After an undirected edge between `x` and `y` — each is a neighbour of
/// the other — each endpoint is reachable from the other.
pub proof fn lemma_undirected_edge_connects<K>(g: Map<K, Seq<K>>, x: K, y: K)
    requires
        adj_of(g, x).contains(y),
        adj_of(g, y).contains(x),
    ensures
        reachable(g, x, y),
        reachable(g, y, x),
{
    lemma_reachable_refl(g, x);
    lemma_reachable_step(g, x, x, y);
    lemma_reachable_refl(g, y);
    lemma_reachable_step(g, y, y, x);
}

} // verus!
