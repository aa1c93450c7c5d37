//! Greedy colouring of contacts for the position solver.
use vstd::prelude::*;
use std::collections::HashMap;
use crate::handle::BodyHandle;

verus! {

broadcast use vstd::std_specs::hash::group_hash_axioms;

/// Contact indices grouped by colour: `colours[k]` lists, in increasing
/// order, the contacts given colour `k`.
pub struct PositionColorAssignment {
    pub colours: Vec<Vec<usize>>,
}

/// Whether the colour last given to body `h` is `k`.
pub open spec fn last_colour_is(last: Map<u64, usize>, h: u64, k: int) -> bool {
    last.contains_key(h) && last[h] == k
}

/// The smallest colour that is neither of the colours last given to bodies
/// `a` and `b`.
pub open spec fn pick_colour(last: Map<u64, usize>, a: u64, b: u64) -> int {
    if !(last_colour_is(last, a, 0) || last_colour_is(last, b, 0)) {
        0
    } else if !(last_colour_is(last, a, 1) || last_colour_is(last, b, 1)) {
        1
    } else {
        2
    }
}

/// The colour groups and each body's last colour after colouring `pairs`
/// (the two bodies of each contact) in order.
pub struct ColourState {
    pub colours: Seq<Seq<usize>>,
    pub last: Map<u64, usize>,
}

/// Colours the contacts in order: each takes the smallest colour that
/// differs from the colour last given to either of its bodies, and both
/// bodies then remember that colour.
pub open spec fn colouring(pairs: Seq<(BodyHandle, BodyHandle)>) -> ColourState
    decreases pairs.len(),
{
    if pairs.len() == 0 {
        ColourState { colours: Seq::empty(), last: Map::empty() }
    } else {
        let st = colouring(pairs.drop_last());
        let a = pairs.last().0.0;
        let b = pairs.last().1.0;
        let k = pick_colour(st.last, a, b);
        let i = (pairs.len() - 1) as usize;
        ColourState {
            colours: if k < st.colours.len() {
                st.colours.update(k, st.colours[k].push(i))
            } else {
                st.colours.push(seq![i])
            },
            last: st.last.insert(a, k as usize).insert(b, k as usize),
        }
    }
}

/// Every colour last given to a body names an existing group.
proof fn lemma_colouring_last_bounded(pairs: Seq<(BodyHandle, BodyHandle)>)
    ensures
        forall|h: u64| #[trigger]
            colouring(pairs).last.contains_key(h) ==> colouring(pairs).last[h] < colouring(
                pairs,
            ).colours.len(),
        colouring(pairs).colours.len() <= 3,
    decreases pairs.len(),
{
    if pairs.len() > 0 {
        lemma_colouring_last_bounded(pairs.drop_last());
    }
}

/// Greedily colours the contacts whose body pairs are `contact_bodies`.
pub fn assign_contact_colours(contact_bodies: &[(BodyHandle, BodyHandle)]) -> (r: PositionColorAssignment)
    ensures
        r.colours@.map_values(|v: Vec<usize>| v@) == colouring(contact_bodies@).colours,
{
    let mut colours: Vec<Vec<usize>> = Vec::new();
    let mut body_colour: HashMap<u64, usize> = HashMap::new();
    let mut i: usize = 0;
    while i < contact_bodies.len()
        invariant
            i <= contact_bodies@.len(),
            colours@.map_values(|v: Vec<usize>| v@) == colouring(contact_bodies@.take(i as int)).colours,
            body_colour@ == colouring(contact_bodies@.take(i as int)).last,
        decreases contact_bodies@.len() - i,
    {
        let ghost pre = contact_bodies@.take(i as int);
        let ghost st = colouring(pre);
        proof {
            lemma_colouring_last_bounded(pre);
            assert(contact_bodies@.take(i + 1).drop_last() =~= pre);
        }
        let (ba, bb) = contact_bodies[i];
        let mut k: usize = 0;
        loop
            invariant
                body_colour@ == st.last,
                k <= 2,
                k >= 1 ==> (last_colour_is(st.last, ba.0, 0) || last_colour_is(st.last, bb.0, 0)),
                k >= 2 ==> (last_colour_is(st.last, ba.0, 1) || last_colour_is(st.last, bb.0, 1)),
            ensures
                k <= 2,
                k >= 1 ==> (last_colour_is(st.last, ba.0, 0) || last_colour_is(st.last, bb.0, 0)),
                k >= 2 ==> (last_colour_is(st.last, ba.0, 1) || last_colour_is(st.last, bb.0, 1)),
                !(last_colour_is(st.last, ba.0, k as int) || last_colour_is(st.last, bb.0, k as int)),
            decreases 3 - k,
        {
            let a_has = match body_colour.get(&ba.0) {
                Some(c) => *c == k,
                None => false,
            };
            let b_has = match body_colour.get(&bb.0) {
                Some(c) => *c == k,
                None => false,
            };
            if !(a_has || b_has) {
                break;
            }
            proof {
                if k == 2 {
                    assert(st.last[ba.0] == 2 || st.last[bb.0] == 2);
                }
            }
            k = k + 1;
        }
        proof {
            assert(k == pick_colour(st.last, ba.0, bb.0));
            if k > st.colours.len() {
                if last_colour_is(st.last, ba.0, (k - 1) as int) {
                    assert(st.last.contains_key(ba.0));
                } else {
                    assert(st.last.contains_key(bb.0));
                }
            }
        }
        if k >= colours.len() {
            colours.push(Vec::new());
        }
        let mut group: Vec<usize> = Vec::new();
        colours.set_and_swap(k, &mut group);
        group.push(i);
        colours.set(k, group);
        body_colour.insert(ba.0, k);
        body_colour.insert(bb.0, k);
        i = i + 1;
        proof {
            let post = colouring(contact_bodies@.take(i as int));
            assert(colours@.map_values(|v: Vec<usize>| v@) =~= post.colours);
        }
    }
    proof {
        assert(contact_bodies@.take(contact_bodies@.len() as int) =~= contact_bodies@);
    }
    PositionColorAssignment { colours }
}

} // verus!

verus! {

/// Contact `i` is in some colour group of `c`.
pub open spec fn has_colour(c: Seq<Seq<usize>>, i: usize) -> bool {
    exists|k: int| 0 <= k < c.len() && #[trigger] c[k].contains(i)
}

/// The colouring partitions the contacts: there are at most three colours,
/// every colour group is non-empty and lists contact indices in strictly
/// increasing order, and every contact is in exactly one group.
pub proof fn lemma_colouring_partition(pairs: Seq<(BodyHandle, BodyHandle)>)
    requires
        pairs.len() <= usize::MAX,
    ensures
        ({
            let c = colouring(pairs).colours;
            &&& c.len() <= 3
            &&& forall|k: int| 0 <= k < c.len() ==> #[trigger] c[k].len() > 0
            &&& forall|k: int, t: int|
                0 <= k < c.len() && 0 <= t < c[k].len() ==> #[trigger] c[k][t] < pairs.len()
            &&& forall|k: int, t: int|
                0 <= k < c.len() && 0 < t < c[k].len() ==> #[trigger] c[k][t - 1] < c[k][t]
            &&& forall|i: usize| i < pairs.len() ==> #[trigger] has_colour(c, i)
            &&& forall|i: usize, k1: int, k2: int|
                0 <= k1 < c.len() && 0 <= k2 < c.len() && #[trigger] c[k1].contains(i) && #[trigger] c[k2].contains(i)
                    ==> k1 == k2
        }),
    decreases pairs.len(),
{
    lemma_colouring_last_bounded(pairs);
    if pairs.len() > 0 {
        let rest = pairs.drop_last();
        lemma_colouring_partition(rest);
        lemma_colouring_last_bounded(rest);
        let st = colouring(rest);
        let c = colouring(pairs).colours;
        let k = pick_colour(st.last, pairs.last().0.0, pairs.last().1.0);
        let i = (pairs.len() - 1) as usize;
        assert(k <= st.colours.len()) by {
            if k > st.colours.len() {
                if last_colour_is(st.last, pairs.last().0.0, k - 1) {
                    assert(st.last.contains_key(pairs.last().0.0));
                } else {
                    assert(st.last.contains_key(pairs.last().1.0));
                }
            }
        }
        assert(c[k].len() > 0);
        assert(c[k].last() == i);
        assert(c[k].contains(i));
        assert forall|k1: int| 0 <= k1 < st.colours.len() && k1 != k implies c[k1] == st.colours[k1] by {}
        assert forall|k1: int, t: int| 0 <= k1 < c.len() && 0 <= t < c[k1].len() implies #[trigger] c[k1][t]
            < pairs.len() by {
            if k1 != k || t < c[k1].len() - 1 {
                assert(c[k1][t] == st.colours[k1][t]);
            }
        }
        if k < st.colours.len() {
            assert(c[k] == st.colours[k].push(i));
        } else {
            assert(c[k] == seq![i]);
        }
        assert forall|k1: int, t: int| 0 <= k1 < c.len() && 0 < t < c[k1].len() implies #[trigger] c[k1][t - 1]
            < c[k1][t] by {
            if k1 != k {
                assert(c[k1] == st.colours[k1]);
                assert(st.colours[k1][t - 1] < st.colours[k1][t]);
            } else if k < st.colours.len() {
                let old = st.colours[k];
                if t < old.len() {
                    assert(old[t - 1] < old[t]);
                } else {
                    assert(old[t - 1] < rest.len());
                }
            }
        }
        assert forall|j: usize, k1: int| 0 <= k1 < c.len() && #[trigger] c[k1].contains(j) implies (j == i && k1 == k)
            || (j < i && 0 <= k1 < st.colours.len() && st.colours[k1].contains(j)) by {
            let t = choose|t: int| 0 <= t < c[k1].len() && c[k1][t] == j;
            if k1 != k {
                assert(c[k1] == st.colours[k1]);
                assert(st.colours[k1][t] < rest.len());
            } else if k < st.colours.len() {
                let old = st.colours[k];
                if t < old.len() {
                    assert(old[t] < rest.len());
                    assert(old[t] == j);
                }
            }
        }
        assert forall|j: usize, k1: int| 0 <= k1 < st.colours.len() && #[trigger] st.colours[k1].contains(j)
            implies c[k1].contains(j) by {
            let t = choose|t: int| 0 <= t < st.colours[k1].len() && st.colours[k1][t] == j;
            assert(c[k1][t] == j);
        }
        assert forall|j: usize| j < pairs.len() implies #[trigger] has_colour(c, j) by {
            if j < i {
                assert(has_colour(st.colours, j));
                let k1 = choose|k1: int| 0 <= k1 < st.colours.len() && #[trigger] st.colours[k1].contains(j);
                assert(c[k1].contains(j));
            } else {
                assert(c[k].contains(j));
            }
        }
        assert forall|k1: int| 0 <= k1 < c.len() implies #[trigger] c[k1].len() > 0 by {
            if k1 != k {
                assert(c[k1] == st.colours[k1]);
            }
        }
    }
}


/// Whether contact `p` involves body `h`.
pub open spec fn contact_touches(p: (BodyHandle, BodyHandle), h: u64) -> bool {
    p.0.0 == h || p.1.0 == h
}

/// The colour that contact `j` of `pairs` takes.
pub open spec fn colour_given(pairs: Seq<(BodyHandle, BodyHandle)>, j: int) -> int {
    pick_colour(colouring(pairs.take(j)).last, pairs[j].0.0, pairs[j].1.0)
}

/// Contact `j` stays in the group of the colour it took.
proof fn lemma_colour_kept(pairs: Seq<(BodyHandle, BodyHandle)>, j: int, n: int)
    requires
        0 <= j < n <= pairs.len(),
    ensures
        0 <= colour_given(pairs, j) < colouring(pairs.take(n)).colours.len(),
        colouring(pairs.take(n)).colours[colour_given(pairs, j)].contains(j as usize),
    decreases n,
{
    let p = pairs.take(n);
    let before = pairs.take(n - 1);
    assert(p.drop_last() =~= before);
    assert(p.last() == pairs[n - 1]);
    lemma_colouring_last_bounded(before);
    let st = colouring(before);
    let c = colouring(p).colours;
    if n == j + 1 {
        let k = colour_given(pairs, j);
        let a = pairs[j].0.0;
        let b = pairs[j].1.0;
        assert(k <= st.colours.len()) by {
            if k > st.colours.len() {
                if last_colour_is(st.last, a, k - 1) {
                    assert(st.last.contains_key(a));
                } else {
                    assert(st.last.contains_key(b));
                }
            }
        }
        assert(c[k][c[k].len() - 1] == j as usize);
    } else {
        lemma_colour_kept(pairs, j, n - 1);
        let k0 = colour_given(pairs, j);
        let t = choose|t: int| 0 <= t < st.colours[k0].len() && st.colours[k0][t] == j as usize;
        assert(c[k0][t] == j as usize);
    }
}

/// While no later contact involves body `h`, it remembers the colour taken
/// by the last contact `j` that did.
proof fn lemma_last_colour(pairs: Seq<(BodyHandle, BodyHandle)>, h: u64, j: int, n: int)
    requires
        0 <= j < n <= pairs.len(),
        contact_touches(pairs[j], h),
        forall|m: int| j < m < n ==> !#[trigger] contact_touches(pairs[m], h),
    ensures
        colouring(pairs.take(n)).last.contains_key(h),
        colouring(pairs.take(n)).last[h] == colour_given(pairs, j),
    decreases n,
{
    let p = pairs.take(n);
    assert(p.drop_last() =~= pairs.take(n - 1));
    assert(p.last() == pairs[n - 1]);
    if n > j + 1 {
        lemma_last_colour(pairs, h, j, n - 1);
        assert(!contact_touches(pairs[n - 1], h));
    }
}

/// A contact never shares its colour with the previous contact of either of
/// its bodies: when contacts `j < i` both involve body `h` and none between
/// them does, no colour group holds both.
pub proof fn lemma_consecutive_contacts_differ(
    pairs: Seq<(BodyHandle, BodyHandle)>,
    h: u64,
    j: int,
    i: int,
)
    requires
        pairs.len() <= usize::MAX,
        0 <= j < i < pairs.len(),
        contact_touches(pairs[j], h),
        contact_touches(pairs[i], h),
        forall|m: int| j < m < i ==> !#[trigger] contact_touches(pairs[m], h),
    ensures
        forall|k: int|
            0 <= k < colouring(pairs).colours.len() ==> !(#[trigger] colouring(pairs).colours[k].contains(
                j as usize,
            ) && colouring(pairs).colours[k].contains(i as usize)),
{
    lemma_last_colour(pairs, h, j, i);
    assert(colour_given(pairs, i) != colour_given(pairs, j));
    lemma_colour_kept(pairs, j, pairs.len() as int);
    lemma_colour_kept(pairs, i, pairs.len() as int);
    assert(pairs.take(pairs.len() as int) =~= pairs);
    lemma_colouring_partition(pairs);
}

} // verus!
