//! The mathematical reading of an association list: a sequence of
//! `(identifier, value)` rows, projected through a function on the values,
//! seen as a `Map` from keys to projected values. The graph container stores
//! its two mappings as such lists and states its contracts over the maps.

use vstd::prelude::*;

use crate::vid::VertexId;

verus! {

/// The keys carried by the identifiers of a sequence.
pub open spec fn id_keys<Vid: VertexId>(s: Seq<Vid>) -> Seq<Vid::Key> {
    s.map_values(|v: Vid| v.key())
}

/// Whether the rows of an association list carry pairwise distinct keys.
pub open spec fn keys_distinct<Vid: VertexId, T>(rows: Seq<(Vid, T)>) -> bool {
    forall|i: int, j: int|
        0 <= i < j < rows.len() ==> rows[i].0.key() != rows[j].0.key()
}

/// The map an association list stands for, with each stored value read
/// through the projection `f`. A later row for the same key overrides an
/// earlier one.
pub open spec fn assoc_map<Vid: VertexId, T, M>(
    rows: Seq<(Vid, T)>,
    f: spec_fn(T) -> M,
) -> Map<Vid::Key, M>
    decreases rows.len(),
{
    if rows.len() == 0 {
        Map::empty()
    } else {
        assoc_map(rows.drop_last(), f).insert(rows.last().0.key(), f(rows.last().1))
    }
}

/// The domain of the map is exactly the set of keys of the rows.
pub proof fn lemma_assoc_map_dom<Vid: VertexId, T, M>(rows: Seq<(Vid, T)>, f: spec_fn(T) -> M)
    ensures
        forall|k: Vid::Key| #[trigger] assoc_map(rows, f).dom().contains(k)
            <==> exists|i: int| 0 <= i < rows.len() && #[trigger] rows[i].0.key() == k,
    decreases rows.len(),
{
    if rows.len() > 0 {
        lemma_assoc_map_dom(rows.drop_last(), f);
        assert forall|k: Vid::Key| #[trigger] assoc_map(rows, f).dom().contains(k) implies exists|
            i: int,
        | 0 <= i < rows.len() && #[trigger] rows[i].0.key() == k by {
            if k == rows.last().0.key() {
                assert(rows[rows.len() - 1].0.key() == k);
            } else {
                assert(assoc_map(rows.drop_last(), f).dom().contains(k));
                let i = choose|i: int|
                    0 <= i < rows.drop_last().len() && #[trigger] rows.drop_last()[i].0.key() == k;
                assert(rows.drop_last()[i] == rows[i]);
                assert(rows[i].0.key() == k);
            }
        }
        assert forall|k: Vid::Key|
            exists|i: int| 0 <= i < rows.len() && #[trigger] rows[i].0.key() == k implies #[trigger]
            assoc_map(rows, f).dom().contains(k) by {
            let i = choose|i: int| 0 <= i < rows.len() && #[trigger] rows[i].0.key() == k;
            if i < rows.len() - 1 {
                assert(rows.drop_last()[i] == rows[i]);
                assert(rows.drop_last()[i].0.key() == k);
                assert(assoc_map(rows.drop_last(), f).dom().contains(k));
            } else {
                assert(k == rows.last().0.key());
            }
        }
    }
}

/// With pairwise distinct keys, looking up the key of row `i` yields the
/// projection of that row's value.
pub proof fn lemma_assoc_map_get<Vid: VertexId, T, M>(
    rows: Seq<(Vid, T)>,
    f: spec_fn(T) -> M,
    i: int,
)
    requires
        keys_distinct(rows),
        0 <= i < rows.len(),
    ensures
        assoc_map(rows, f).dom().contains(rows[i].0.key()),
        assoc_map(rows, f)[rows[i].0.key()] == f(rows[i].1),
    decreases rows.len(),
{
    if i == rows.len() - 1 {
    } else {
        assert(rows.drop_last()[i] == rows[i]);
        lemma_assoc_map_get(rows.drop_last(), f, i);
        assert(rows[i].0.key() != rows.last().0.key());
    }
}

/// With pairwise distinct keys, replacing the value of row `i` turns the map
/// into an insertion at that row's key.
pub proof fn lemma_assoc_map_update<Vid: VertexId, T, M>(
    rows: Seq<(Vid, T)>,
    f: spec_fn(T) -> M,
    i: int,
    t: T,
)
    requires
        keys_distinct(rows),
        0 <= i < rows.len(),
    ensures
        assoc_map(rows.update(i, (rows[i].0, t)), f)
            == assoc_map(rows, f).insert(rows[i].0.key(), f(t)),
    decreases rows.len(),
{
    let rows2 = rows.update(i, (rows[i].0, t));
    if i == rows.len() - 1 {
        assert(rows2.drop_last() =~= rows.drop_last());
        assert(rows2.last() == (rows[i].0, t));
    } else {
        assert(rows2.drop_last() =~= rows.drop_last().update(i, (rows[i].0, t)));
        assert(rows.drop_last()[i] == rows[i]);
        lemma_assoc_map_update(rows.drop_last(), f, i, t);
        assert(rows2.last() == rows.last());
        assert(rows[i].0.key() != rows.last().0.key());
        assert(assoc_map(rows2, f) =~= assoc_map(rows, f).insert(rows[i].0.key(), f(t)));
    }
}

} // verus!
