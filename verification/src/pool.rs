//! Frame-scoped storage of contact manifolds keyed by collider pair, and the
//! feature matching that carries impulses from one frame to the next.
use vstd::prelude::*;
use std::collections::HashMap;
use crate::handle::{ColliderHandle, packed, lemma_packed_injective};

verus! {

broadcast use vstd::std_specs::hash::group_hash_axioms;

/// The most contact points a manifold holds.
pub const MAX_MANIFOLD_POINTS: usize = 2;

/// Which kind of geometric feature produced a contact point.
#[derive(Debug, Clone, Copy, PartialEq, Eq, Structural, Default)]
pub enum ContactFeatureKind {
    #[default]
    Vertex,
    Face,
}

/// Names the features (vertex or edge indices on each shape) that produced a
/// contact point, so that the point can be recognised in the next frame.
#[derive(Debug, Clone, Copy, PartialEq, Eq, Structural, Default)]
pub struct ContactFeatureId {
    pub index_a: u8,
    pub index_b: u8,
    pub kind: ContactFeatureKind,
}

/// The features of `id` seen from the other shape: the two indices trade
/// places and the kind stays.
pub open spec fn feature_swapped(id: ContactFeatureId) -> ContactFeatureId {
    ContactFeatureId { index_a: id.index_b, index_b: id.index_a, kind: id.kind }
}

/// Seeing a contact from the other shape twice gives back the original
/// features.
pub proof fn lemma_feature_swap_involutive(id: ContactFeatureId)
    ensures
        feature_swapped(feature_swapped(id)) == id,
{
}

impl ContactFeatureId {
    /// The same features seen from the other shape: the two indices trade
    /// places and the kind stays.
    pub fn swapped(&self) -> (r: Self)
        ensures
            r == feature_swapped(*self),
    {
        ContactFeatureId { index_a: self.index_b, index_b: self.index_a, kind: self.kind }
    }
}

/// An unordered pair of colliders, stored with the smaller handle first.
#[derive(Debug, Clone, Copy, PartialEq, Eq, Structural, Hash)]
pub struct ColliderPair(pub ColliderHandle, pub ColliderHandle);

/// The canonical pair of `a` and `b`: the smaller handle first.
pub open spec fn canonical_pair(a: ColliderHandle, b: ColliderHandle) -> ColliderPair {
    if a.0 <= b.0 {
        ColliderPair(a, b)
    } else {
        ColliderPair(b, a)
    }
}

impl ColliderPair {
    /// The pair of `a` and `b` with the smaller handle first.
    pub fn new(a: ColliderHandle, b: ColliderHandle) -> (p: Self)
        ensures
            p == canonical_pair(a, b),
            p.0.0 <= p.1.0,
    {
        if a.0 <= b.0 {
            ColliderPair(a, b)
        } else {
            ColliderPair(b, a)
        }
    }
}

/// The pair is the same whichever collider comes first.
pub proof fn lemma_canonical_pair_symmetric(a: ColliderHandle, b: ColliderHandle)
    ensures
        canonical_pair(a, b) == canonical_pair(b, a),
{
}

/// The map key of a pair.
pub open spec fn pair_key(p: ColliderPair) -> u64 {
    packed(p.0.0, p.1.0)
}

/// The first entry of `entries` whose pair is `p`, if any.
pub open spec fn find_pair<M>(entries: Seq<(ColliderPair, M)>, p: ColliderPair) -> Option<int>
    decreases entries.len(),
{
    if entries.len() == 0 {
        None
    } else {
        match find_pair(entries.drop_last(), p) {
            Some(i) => Some(i),
            None => if entries.last().0 == p {
                Some(entries.len() - 1)
            } else {
                None
            },
        }
    }
}

/// The manifold stored for the colliders `a` and `b` (in either order).
pub open spec fn pool_lookup<M>(entries: Seq<(ColliderPair, M)>, a: ColliderHandle, b: ColliderHandle) -> Option<M> {
    match find_pair(entries, canonical_pair(a, b)) {
        Some(i) => Some(entries[i].1),
        None => None,
    }
}

/// The entries after inserting `m` for colliders `a` and `b`: an existing
/// entry for the pair is overwritten in place, otherwise one is appended.
pub open spec fn pool_insert<M>(entries: Seq<(ColliderPair, M)>, a: ColliderHandle, b: ColliderHandle, m: M) -> Seq<(ColliderPair, M)> {
    let p = canonical_pair(a, b);
    match find_pair(entries, p) {
        Some(i) => entries.update(i, (p, m)),
        None => entries.push((p, m)),
    }
}

/// A pair that some entry holds is found.
pub proof fn lemma_find_pair_present<M>(entries: Seq<(ColliderPair, M)>, p: ColliderPair, k: int)
    requires
        0 <= k < entries.len(),
        entries[k].0 == p,
    ensures
        find_pair(entries, p) is Some,
{
    lemma_find_pair(entries, p);
}

proof fn lemma_find_pair<M>(entries: Seq<(ColliderPair, M)>, p: ColliderPair)
    ensures
        match find_pair(entries, p) {
            Some(i) => 0 <= i < entries.len() && entries[i].0 == p && forall|j: int|
                0 <= j < i ==> entries[j].0 != p,
            None => forall|j: int| 0 <= j < entries.len() ==> entries[j].0 != p,
        },
    decreases entries.len(),
{
    if entries.len() > 0 {
        let rest = entries.drop_last();
        lemma_find_pair(rest, p);
        assert forall|j: int| 0 <= j < rest.len() implies rest[j] == entries[j] by {}
        match find_pair(rest, p) {
            Some(i) => {
                assert(find_pair(entries, p) == Some(i));
            },
            None => {
                assert forall|j: int| 0 <= j < rest.len() implies entries[j].0 != p by {
                    assert(rest[j] == entries[j]);
                }
            },
        }
    }
}

/// Frame-scoped storage of contact manifolds of type `M`, at most one per
/// collider pair, in insertion order.
pub struct ContactPool<M> {
    manifolds: Vec<M>,
    pairs: Vec<ColliderPair>,
    pair_map: HashMap<u64, usize>,
}

impl<M> ContactPool<M> {
    /// The stored manifolds with their collider pairs, in insertion order.
    pub closed spec fn entries(&self) -> Seq<(ColliderPair, M)> {
        Seq::new(self.manifolds@.len(), |i: int| (self.pairs@[i], self.manifolds@[i]))
    }

    /// The internal invariant: one entry per distinct canonical pair, and the
    /// key map points every stored pair at its entry.
    pub closed spec fn wf(&self) -> bool {
        &&& self.pairs@.len() == self.manifolds@.len()
        &&& self.pairs@.no_duplicates()
        &&& forall|i: int| 0 <= i < self.pairs@.len() ==> #[trigger] self.pairs@[i].0.0 <= self.pairs@[i].1.0
        &&& forall|i: int|
            0 <= i < self.pairs@.len() ==> #[trigger] self.pair_map@.contains_key(pair_key(self.pairs@[i]))
                && self.pair_map@[pair_key(self.pairs@[i])] == i
        &&& forall|k: u64|
            #[trigger] self.pair_map@.contains_key(k) ==> 0 <= self.pair_map@[k] < self.pairs@.len()
                && pair_key(self.pairs@[self.pair_map@[k] as int]) == k
    }

    /// An empty pool with room reserved for `capacity` manifolds.
    pub fn new(capacity: usize) -> (pool: Self)
        ensures
            pool.wf(),
            pool.entries().len() == 0,
    {
        ContactPool {
            manifolds: Vec::with_capacity(capacity),
            pairs: Vec::with_capacity(capacity),
            pair_map: HashMap::with_capacity(capacity),
        }
    }

    /// Empties the pool for a new frame.
    pub fn begin_frame(&mut self)
        ensures
            final(self).wf(),
            final(self).entries().len() == 0,
    {
        self.manifolds.clear();
        self.pairs.clear();
        self.pair_map.clear();
    }

    /// Stores `manifold` for colliders `a` and `b`, replacing the manifold
    /// already stored for that pair, if any.
    pub fn insert(&mut self, a: ColliderHandle, b: ColliderHandle, manifold: M)
        requires
            old(self).wf(),
        ensures
            final(self).wf(),
            final(self).entries() == pool_insert(old(self).entries(), a, b, manifold),
    {
        let key_pair = ColliderPair::new(a, b);
        let key = ((key_pair.1.0 as u64) << 32u64) | (key_pair.0.0 as u64);
        let ghost old_entries = self.entries();
        proof {
            lemma_find_pair(old_entries, key_pair);
            assert(key == pair_key(key_pair));
        }
        match self.pair_map.get(&key) {
            Some(existing_idx) => {
                let idx = *existing_idx;
                proof {
                    let i = idx as int;
                    lemma_packed_injective(self.pairs@[i].0.0, self.pairs@[i].1.0, key_pair.0.0, key_pair.1.0);
                    assert(self.pairs@[i] == key_pair);
                    assert(old_entries[i].0 == key_pair);
                    assert(find_pair(old_entries, key_pair) == Some(i)) by {
                        if find_pair(old_entries, key_pair) != Some(i) {
                            let j = find_pair(old_entries, key_pair)->0;
                            assert(self.pairs@[j] == key_pair);
                        }
                    }
                }
                self.manifolds.set(idx, manifold);
                proof {
                    assert(self.entries() =~= old_entries.update(idx as int, (key_pair, manifold)));
                }
            },
            None => {
                proof {
                    assert forall|i: int| 0 <= i < self.pairs@.len() implies self.pairs@[i] != key_pair by {
                        assert(self.pair_map@.contains_key(pair_key(self.pairs@[i])));
                    }
                    assert(find_pair(old_entries, key_pair) is None) by {
                        if find_pair(old_entries, key_pair) is Some {
                            let j = find_pair(old_entries, key_pair)->0;
                            assert(old_entries[j].0 == self.pairs@[j]);
                        }
                    }
                }
                let idx = self.manifolds.len();
                let ghost old_pairs = self.pairs@;
                let ghost old_map = self.pair_map@;
                self.manifolds.push(manifold);
                self.pairs.push(key_pair);
                self.pair_map.insert(key, idx);
                proof {
                    assert(self.entries() =~= old_entries.push((key_pair, manifold)));
                    assert forall|i: int| 0 <= i < self.pairs@.len() implies #[trigger] self.pair_map@.contains_key(pair_key(self.pairs@[i]))
                        && self.pair_map@[pair_key(self.pairs@[i])] == i by {
                        if i < old_pairs.len() {
                            assert(self.pairs@[i] == old_pairs[i]);
                            assert(old_map.contains_key(pair_key(old_pairs[i])));
                            lemma_packed_injective(old_pairs[i].0.0, old_pairs[i].1.0, key_pair.0.0, key_pair.1.0);
                        }
                    }
                    assert forall|k: u64| #[trigger] self.pair_map@.contains_key(k) implies 0 <= self.pair_map@[k] < self.pairs@.len()
                        && pair_key(self.pairs@[self.pair_map@[k] as int]) == k by {
                        if k != key {
                            assert(old_map.contains_key(k));
                        }
                    }
                    assert(self.pairs@.no_duplicates()) by {
                        assert forall|i: int, j: int| 0 <= i < self.pairs@.len() && 0 <= j < self.pairs@.len() && i != j
                            implies self.pairs@[i] != self.pairs@[j] by {
                            if i < old_pairs.len() && j < old_pairs.len() {
                                assert(self.pairs@[i] == old_pairs[i] && self.pairs@[j] == old_pairs[j]);
                            } else if i < old_pairs.len() {
                                assert(self.pairs@[i] == old_pairs[i]);
                            } else if j < old_pairs.len() {
                                assert(self.pairs@[j] == old_pairs[j]);
                            }
                        }
                    }
                }
            },
        }
    }

    /// The manifold that `previous` holds for colliders `a` and `b` (in
    /// either order), if any.
    pub fn get_previous(previous: &ContactPool<M>, a: ColliderHandle, b: ColliderHandle) -> (r: Option<&M>)
        requires
            previous.wf(),
        ensures
            match r {
                Some(m) => pool_lookup(previous.entries(), a, b) == Some(*m),
                None => pool_lookup(previous.entries(), a, b) is None,
            },
    {
        let key_pair = ColliderPair::new(a, b);
        let key = ((key_pair.1.0 as u64) << 32u64) | (key_pair.0.0 as u64);
        let ghost entries = previous.entries();
        proof {
            lemma_find_pair(entries, key_pair);
            assert(key == pair_key(key_pair));
        }
        match previous.pair_map.get(&key) {
            Some(idx) => {
                proof {
                    let i = *idx as int;
                    lemma_packed_injective(previous.pairs@[i].0.0, previous.pairs@[i].1.0, key_pair.0.0, key_pair.1.0);
                    assert(entries[i].0 == key_pair);
                    assert(find_pair(entries, key_pair) == Some(i)) by {
                        if find_pair(entries, key_pair) != Some(i) {
                            let j = find_pair(entries, key_pair)->0;
                            assert(previous.pairs@[j] == key_pair);
                        }
                    }
                }
                Some(&previous.manifolds[*idx])
            },
            None => {
                proof {
                    assert(find_pair(entries, key_pair) is None) by {
                        if find_pair(entries, key_pair) is Some {
                            let j = find_pair(entries, key_pair)->0;
                            assert(entries[j].0 == previous.pairs@[j]);
                            assert(previous.pair_map@.contains_key(pair_key(previous.pairs@[j])));
                        }
                    }
                }
                None
            },
        }
    }

    /// The stored manifolds in insertion order.
    pub fn manifolds(&self) -> (r: &[M])
        requires
            self.wf(),
        ensures
            r@.len() == self.entries().len(),
            forall|i: int| 0 <= i < r@.len() ==> r@[i] == self.entries()[i].1,
    {
        self.manifolds.as_slice()
    }

    /// The collider pair of each stored manifold, in insertion order.
    pub fn collider_pairs(&self) -> (r: &[ColliderPair])
        requires
            self.wf(),
        ensures
            r@.len() == self.entries().len(),
            forall|i: int| 0 <= i < r@.len() ==> r@[i] == self.entries()[i].0,
    {
        self.pairs.as_slice()
    }

    /// Mutable references to the stored manifolds in insertion order; what
    /// is written through them replaces those manifolds, and every entry
    /// keeps its collider pair.
    pub fn manifolds_mut(&mut self) -> (r: Vec<&mut M>)
        requires
            old(self).wf(),
        ensures
            final(self).wf(),
            r@.len() == old(self).entries().len(),
            forall|i: int| 0 <= i < r@.len() ==> *#[trigger] r@[i] == old(self).entries()[i].1,
            final(self).entries().len() == r@.len(),
            forall|i: int|
                0 <= i < r@.len() ==> #[trigger] final(self).entries()[i] == (
                    old(self).entries()[i].0,
                    *final(r@[i]),
                ),
    {
        let slice = self.manifolds.as_mut_slice();
        each_mut(slice)
    }
}

/// A mutable reference to each item of `items`, in order; each item ends up
/// as what was last written through its reference.
fn each_mut<'a, M>(items: &'a mut [M]) -> (r: Vec<&'a mut M>)
    ensures
        final(items)@.len() == old(items)@.len(),
        r@.len() == old(items)@.len(),
        forall|i: int| 0 <= i < r@.len() ==> *#[trigger] r@[i] == old(items)@[i],
        forall|i: int| 0 <= i < r@.len() ==> final(items)@[i] == *final(#[trigger] r@[i]),
    decreases old(items)@.len(),
{
    let n = items.len();
    if n == 0 {
        return Vec::new();
    }
    let (front, back) = items.split_at_mut(n - 1);
    let mut out = each_mut(front);
    let last = back.first_mut().unwrap();
    out.push(last);
    out
}

} // verus!

verus! {

/// The index of the first entry of `prev` equal to `id`, if any.
pub open spec fn first_match(prev: Seq<ContactFeatureId>, id: ContactFeatureId) -> Option<int>
    decreases prev.len(),
{
    if prev.len() == 0 {
        None
    } else {
        match first_match(prev.drop_last(), id) {
            Some(i) => Some(i),
            None => if prev.last() == id {
                Some(prev.len() - 1)
            } else {
                None
            },
        }
    }
}

/// For each current contact point, the index of the first point of the
/// previous frame's manifold with the same feature id: the point whose
/// accumulated impulses carry over to warm-start the solver.
pub fn match_features(current: &[ContactFeatureId], previous: &[ContactFeatureId]) -> (r: Vec<Option<usize>>)
    ensures
        r@.len() == current@.len(),
        forall|i: int|
            0 <= i < r@.len() ==> match #[trigger] r@[i] {
                Some(j) => first_match(previous@, current@[i]) == Some(j as int),
                None => first_match(previous@, current@[i]) is None,
            },
{
    let mut out: Vec<Option<usize>> = Vec::new();
    let mut i: usize = 0;
    while i < current.len()
        invariant
            i <= current@.len(),
            out@.len() == i,
            forall|k: int|
                0 <= k < i ==> match #[trigger] out@[k] {
                    Some(j) => first_match(previous@, current@[k]) == Some(j as int),
                    None => first_match(previous@, current@[k]) is None,
                },
        decreases current@.len() - i,
    {
        let id = current[i];
        let mut found: Option<usize> = None;
        let mut j: usize = 0;
        while j < previous.len() && found.is_none()
            invariant
                j <= previous@.len(),
                i < current@.len(),
                id == current@[i as int],
                match found {
                    Some(m) => first_match(previous@, id) == Some(m as int),
                    None => first_match(previous@.take(j as int), id) is None,
                },
            decreases previous@.len() - j + (if found is None {
                1int
            } else {
                0int
            }),
        {
            let ghost pre = previous@.take(j + 1);
            proof {
                assert(pre.drop_last() =~= previous@.take(j as int));
                assert(pre.last() == previous@[j as int]);
            }
            if previous[j] == id {
                proof {
                    assert(first_match(pre, id) == Some(j as int));
                    lemma_first_match_prefix(previous@, j as int + 1, id);
                }
                found = Some(j);
            } else {
                proof {
                    assert(first_match(pre, id) is None);
                }
                j = j + 1;
            }
        }
        proof {
            if found is None {
                assert(previous@.take(previous@.len() as int) =~= previous@);
            }
        }
        out.push(found);
        i = i + 1;
    }
    out
}

/// A match found in a prefix is the first match in the whole sequence.
proof fn lemma_first_match_prefix(prev: Seq<ContactFeatureId>, len: int, id: ContactFeatureId)
    requires
        0 < len <= prev.len(),
        first_match(prev.take(len), id) is Some,
    ensures
        first_match(prev, id) == first_match(prev.take(len), id),
    decreases prev.len() - len,
{
    if len < prev.len() {
        let bigger = prev.take(len + 1);
        assert(bigger.drop_last() =~= prev.take(len));
        assert(prev.take(len + 1).take(len) =~= prev.take(len));
        lemma_first_match_prefix(prev, len + 1, id);
    } else {
        assert(prev.take(len) =~= prev);
    }
}

/// Storing a manifold and then looking up its pair (in either order) finds
/// that manifold.
pub proof fn lemma_pool_insert_then_lookup<M>(entries: Seq<(ColliderPair, M)>, a: ColliderHandle, b: ColliderHandle, m: M)
    ensures
        pool_lookup(pool_insert(entries, a, b, m), a, b) == Some(m),
        pool_lookup(pool_insert(entries, a, b, m), b, a) == Some(m),
{
    let p = canonical_pair(a, b);
    let e2 = pool_insert(entries, a, b, m);
    lemma_find_pair(entries, p);
    lemma_find_pair(e2, p);
    match find_pair(entries, p) {
        Some(i) => {
            assert(e2[i].0 == p);
            if find_pair(e2, p) != Some(i) {
                let j = find_pair(e2, p)->0;
                if j < i {
                    assert(e2[j] == entries[j]);
                }
            }
        },
        None => {
            assert(e2[entries.len() as int].0 == p);
            if find_pair(e2, p) != Some(entries.len() as int) {
                let j = find_pair(e2, p)->0;
                if j < entries.len() {
                    assert(e2[j] == entries[j]);
                }
            }
        },
    }
}

/// Storing a manifold for one pair leaves what every other pair finds
/// unchanged.
pub proof fn lemma_pool_insert_keeps_other_pairs<M>(
    entries: Seq<(ColliderPair, M)>,
    a: ColliderHandle,
    b: ColliderHandle,
    m: M,
    c: ColliderHandle,
    d: ColliderHandle,
)
    requires
        canonical_pair(c, d) != canonical_pair(a, b),
    ensures
        pool_lookup(pool_insert(entries, a, b, m), c, d) == pool_lookup(entries, c, d),
{
    let p = canonical_pair(a, b);
    let q = canonical_pair(c, d);
    let e2 = pool_insert(entries, a, b, m);
    lemma_find_pair(entries, p);
    lemma_find_pair(entries, q);
    lemma_find_pair(e2, q);
    match find_pair(entries, q) {
        Some(i) => {
            assert(e2[i] == entries[i]);
            if find_pair(e2, q) != Some(i) {
                let j = find_pair(e2, q)->0;
                assert(e2[j] == entries[j]);
            }
        },
        None => {
            if find_pair(e2, q) is Some {
                let j = find_pair(e2, q)->0;
                if j < entries.len() {
                    assert(e2[j] == entries[j] || e2[j].0 == p);
                }
            }
        },
    }
}

/// Storing a manifold for a pair already present keeps the number of
/// entries; for a new pair it adds one entry at the end.
pub proof fn lemma_pool_insert_len<M>(entries: Seq<(ColliderPair, M)>, a: ColliderHandle, b: ColliderHandle, m: M)
    ensures
        pool_lookup(entries, a, b) is Some ==> pool_insert(entries, a, b, m).len() == entries.len(),
        pool_lookup(entries, a, b) is None ==> pool_insert(entries, a, b, m) == entries.push((canonical_pair(a, b), m)),
{
    lemma_find_pair(entries, canonical_pair(a, b));
}


/// A current point is matched only to a previous point with the very same
/// feature id (both indices and the kind), and to the first one; it is
/// matched to none exactly when no previous point has that id.
pub proof fn lemma_first_match_is_first_equal(prev: Seq<ContactFeatureId>, id: ContactFeatureId)
    ensures
        match first_match(prev, id) {
            Some(j) => {
                &&& 0 <= j < prev.len()
                &&& prev[j].index_a == id.index_a
                &&& prev[j].index_b == id.index_b
                &&& prev[j].kind == id.kind
                &&& forall|k: int| 0 <= k < j ==> prev[k] != id
            },
            None => forall|k: int| 0 <= k < prev.len() ==> prev[k] != id,
        },
    decreases prev.len(),
{
    if prev.len() > 0 {
        lemma_first_match_is_first_equal(prev.drop_last(), id);
        assert forall|k: int| 0 <= k < prev.len() - 1 implies prev[k] == prev.drop_last()[k] by {}
    }
}

} // verus!
