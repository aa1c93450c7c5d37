//! The bookkeeping of one world step: which broadphase pairs go on to the
//! narrowphase, which bodies a new contact wakes, the step counters, and
//! which islands fall asleep.
use vstd::prelude::*;
use crate::body::BodyType;
use crate::filter::{CollisionFilter, filters_collide};
use crate::handle::{BodyHandle, ColliderHandle};
use crate::island::Island;
use crate::pool::{ColliderPair, ContactPool, canonical_pair, lemma_find_pair_present, pool_lookup};

verus! {

/// Whether broadphase pair `p` goes on to the narrowphase: its colliders
/// belong to different bodies and their filters let them collide.
pub open spec fn keeps_pair(
    p: (ColliderHandle, ColliderHandle),
    collider_body: Seq<BodyHandle>,
    filters: Seq<CollisionFilter>,
) -> bool {
    &&& collider_body[p.0.0 as int] != collider_body[p.1.0 as int]
    &&& filters_collide(filters[p.0.0 as int], filters[p.1.0 as int])
}

/// The pairs of `pairs` that `keeps_pair` keeps, in their order.
pub open spec fn kept_pairs(
    pairs: Seq<(ColliderHandle, ColliderHandle)>,
    collider_body: Seq<BodyHandle>,
    filters: Seq<CollisionFilter>,
) -> Seq<(ColliderHandle, ColliderHandle)>
    decreases pairs.len(),
{
    if pairs.len() == 0 {
        Seq::empty()
    } else {
        let rest = kept_pairs(pairs.drop_last(), collider_body, filters);
        if keeps_pair(pairs.last(), collider_body, filters) {
            rest.push(pairs.last())
        } else {
            rest
        }
    }
}

/// Whether every collider slot named in `pairs` indexes both tables.
pub open spec fn pairs_in_range(
    pairs: Seq<(ColliderHandle, ColliderHandle)>,
    n_body: nat,
    n_filter: nat,
) -> bool {
    forall|i: int|
        0 <= i < pairs.len() ==> {
            let p = #[trigger] pairs[i];
            &&& p.0.0 < n_body && p.1.0 < n_body
            &&& p.0.0 < n_filter && p.1.0 < n_filter
        }
}

/// Drops the broadphase pairs whose colliders share a body or whose filters
/// keep them apart; the others stay, in their order.
pub fn filter_candidate_pairs(
    pairs: &mut Vec<(ColliderHandle, ColliderHandle)>,
    collider_body: &[BodyHandle],
    filters: &[CollisionFilter],
)
    requires
        pairs_in_range(old(pairs)@, collider_body@.len(), filters@.len()),
    ensures
        final(pairs)@ == kept_pairs(old(pairs)@, collider_body@, filters@),
{
    let ghost all = pairs@;
    let mut kept: Vec<(ColliderHandle, ColliderHandle)> = Vec::new();
    let mut i: usize = 0;
    while i < pairs.len()
        invariant
            pairs@ == all,
            i <= all.len(),
            pairs_in_range(all, collider_body@.len(), filters@.len()),
            kept@ == kept_pairs(all.take(i as int), collider_body@, filters@),
        decreases all.len() - i,
    {
        let p = pairs[i];
        proof {
            assert(all.take(i + 1).drop_last() =~= all.take(i as int));
            assert(all.take(i + 1).last() == p);
        }
        let ia = p.0.slot();
        let ib = p.1.slot();
        if collider_body[ia] != collider_body[ib] && CollisionFilter::should_collide(
            &filters[ia],
            &filters[ib],
        ) {
            kept.push(p);
        }
        i = i + 1;
    }
    proof {
        assert(all.take(all.len() as int) =~= all);
    }
    *pairs = kept;
}

} // verus!

verus! {

/// The body slots of the first `n` contacts of `entries` whose collider pair
/// had no contact in `prev`, in order; `bodies[i]` are the body slots of
/// contact `i`.
pub open spec fn new_contact_bodies<M>(
    entries: Seq<(ColliderPair, M)>,
    prev: Seq<(ColliderPair, M)>,
    bodies: Seq<(u32, u32)>,
    n: int,
) -> Seq<(u32, u32)>
    decreases n,
{
    if n <= 0 {
        Seq::empty()
    } else {
        let rest = new_contact_bodies(entries, prev, bodies, n - 1);
        let p = entries[n - 1].0;
        if pool_lookup(prev, p.0, p.1) is None {
            rest.push(bodies[n - 1])
        } else {
            rest
        }
    }
}

/// The body slots of each contact of `current` whose collider pair had no
/// contact in `previous`: the bodies that a new contact wakes.
pub fn new_contact_bodies_of<M>(
    current: &ContactPool<M>,
    previous: &ContactPool<M>,
    bodies: &[(u32, u32)],
) -> (r: Vec<(u32, u32)>)
    requires
        current.wf(),
        previous.wf(),
        bodies@.len() == current.entries().len(),
    ensures
        r@ == new_contact_bodies(
            current.entries(),
            previous.entries(),
            bodies@,
            current.entries().len() as int,
        ),
{
    let pairs = current.collider_pairs();
    let mut out: Vec<(u32, u32)> = Vec::new();
    let mut i: usize = 0;
    while i < pairs.len()
        invariant
            i <= pairs@.len(),
            pairs@.len() == current.entries().len(),
            bodies@.len() == current.entries().len(),
            forall|k: int| 0 <= k < pairs@.len() ==> pairs@[k] == current.entries()[k].0,
            previous.wf(),
            out@ == new_contact_bodies(current.entries(), previous.entries(), bodies@, i as int),
        decreases pairs@.len() - i,
    {
        let p = pairs[i];
        if ContactPool::get_previous(previous, p.0, p.1).is_none() {
            out.push(bodies[i]);
        }
        i = i + 1;
    }
    out
}

/// Whether body slot `b` is one of the slots in `slots`.
pub open spec fn named_in(slots: Seq<(u32, u32)>, b: int) -> bool {
    exists|i: int| 0 <= i < slots.len() && (slots[i].0 == b || slots[i].1 == b)
}

/// Marks awake every body named in `slots`; the other bodies keep their state.
pub fn wake_bodies(is_awake: &mut Vec<bool>, slots: &[(u32, u32)])
    requires
        forall|i: int|
            0 <= i < slots@.len() ==> #[trigger] slots@[i].0 < old(is_awake)@.len() && slots@[i].1
                < old(is_awake)@.len(),
    ensures
        final(is_awake)@.len() == old(is_awake)@.len(),
        forall|b: int|
            0 <= b < old(is_awake)@.len() ==> #[trigger] final(is_awake)@[b] == (old(is_awake)@[b]
                || named_in(slots@, b)),
{
    let ghost before = is_awake@;
    let mut i: usize = 0;
    while i < slots.len()
        invariant
            i <= slots@.len(),
            is_awake@.len() == before.len(),
            forall|k: int|
                0 <= k < slots@.len() ==> #[trigger] slots@[k].0 < before.len() && slots@[k].1
                    < before.len(),
            forall|b: int|
                0 <= b < before.len() ==> #[trigger] is_awake@[b] == (before[b] || named_in(
                    slots@.take(i as int),
                    b,
                )),
        decreases slots@.len() - i,
    {
        let (a, b) = slots[i];
        is_awake.set(a as usize, true);
        is_awake.set(b as usize, true);
        proof {
            let t = slots@.take(i + 1);
            assert forall|x: int| 0 <= x < before.len() implies #[trigger] is_awake@[x] == (before[x]
                || named_in(t, x)) by {
                if named_in(slots@.take(i as int), x) {
                    let w = choose|w: int|
                        0 <= w < slots@.take(i as int).len() && (slots@.take(i as int)[w].0 == x
                            || slots@.take(i as int)[w].1 == x);
                    assert(t[w] == slots@.take(i as int)[w]);
                }
                if named_in(t, x) && !named_in(slots@.take(i as int), x) {
                    let w = choose|w: int| 0 <= w < t.len() && (t[w].0 == x || t[w].1 == x);
                    if w < i {
                        assert(t[w] == slots@.take(i as int)[w]);
                    }
                }
                if x == a || x == b {
                    assert(t[i as int] == slots@[i as int]);
                }
            }
        }
        i = i + 1;
    }
    proof {
        assert(slots@.take(slots@.len() as int) =~= slots@);
    }
}

} // verus!

verus! {

/// The number of islands of `islands` whose sleeping flag is `sleeping`.
pub open spec fn islands_in_state(islands: Seq<Island>, sleeping: bool) -> nat
    decreases islands.len(),
{
    if islands.len() == 0 {
        0
    } else {
        islands_in_state(islands.drop_last(), sleeping) + (if islands.last().is_sleeping == sleeping {
            1nat
        } else {
            0nat
        })
    }
}

proof fn lemma_islands_in_state_bound(islands: Seq<Island>, sleeping: bool)
    ensures
        islands_in_state(islands, sleeping) <= islands.len(),
    decreases islands.len(),
{
    if islands.len() > 0 {
        lemma_islands_in_state_bound(islands.drop_last(), sleeping);
    }
}

/// The numbers of awake and of sleeping islands, each taken modulo 2^32 as
/// the step counters hold them.
pub fn island_counts(islands: &[Island]) -> (r: (u32, u32))
    ensures
        r.0 == islands_in_state(islands@, false) as u32,
        r.1 == islands_in_state(islands@, true) as u32,
{
    let mut awake: usize = 0;
    let mut asleep: usize = 0;
    let mut i: usize = 0;
    while i < islands.len()
        invariant
            i <= islands@.len(),
            awake == islands_in_state(islands@.take(i as int), false),
            asleep == islands_in_state(islands@.take(i as int), true),
        decreases islands@.len() - i,
    {
        proof {
            assert(islands@.take(i + 1).drop_last() =~= islands@.take(i as int));
            lemma_islands_in_state_bound(islands@.take(i as int), false);
            lemma_islands_in_state_bound(islands@.take(i as int), true);
        }
        if islands[i].is_sleeping {
            asleep = asleep + 1;
        } else {
            awake = awake + 1;
        }
        i = i + 1;
    }
    proof {
        assert(islands@.take(islands@.len() as int) =~= islands@);
    }
    (#[verifier::truncate] (awake as u32), #[verifier::truncate] (asleep as u32))
}

/// How the step counters class a body.
pub enum BodyClass {
    /// A dynamic body that is awake.
    Active,
    /// A dynamic body that sleeps.
    Sleeping,
    /// A static body.
    Fixed,
    /// A kinematic body, which no counter counts.
    Uncounted,
}

/// The class of a body of type `t` with awake flag `awake`.
pub open spec fn body_class(t: BodyType, awake: bool) -> BodyClass {
    match t {
        BodyType::Dynamic => if awake {
            BodyClass::Active
        } else {
            BodyClass::Sleeping
        },
        BodyType::Static => BodyClass::Fixed,
        BodyType::Kinematic => BodyClass::Uncounted,
    }
}

/// The number of the first `n` bodies of class `c`.
pub open spec fn bodies_in_class(body_type: Seq<BodyType>, is_awake: Seq<bool>, n: int, c: BodyClass) -> nat
    decreases n,
{
    if n <= 0 {
        0
    } else {
        bodies_in_class(body_type, is_awake, n - 1, c) + (if body_class(body_type[n - 1], is_awake[n - 1]) == c {
            1nat
        } else {
            0nat
        })
    }
}

proof fn lemma_bodies_in_class_bound(body_type: Seq<BodyType>, is_awake: Seq<bool>, n: int, c: BodyClass)
    requires
        n >= 0,
    ensures
        bodies_in_class(body_type, is_awake, n, c) <= n,
    decreases n,
{
    if n > 0 {
        lemma_bodies_in_class_bound(body_type, is_awake, n - 1, c);
    }
}

/// The numbers of awake dynamic, sleeping dynamic and static bodies, each
/// taken modulo 2^32 as the step counters hold them.
pub fn body_counts(body_type: &[BodyType], is_awake: &[bool]) -> (r: (u32, u32, u32))
    requires
        body_type@.len() == is_awake@.len(),
    ensures
        r.0 == bodies_in_class(body_type@, is_awake@, body_type@.len() as int, BodyClass::Active) as u32,
        r.1 == bodies_in_class(body_type@, is_awake@, body_type@.len() as int, BodyClass::Sleeping) as u32,
        r.2 == bodies_in_class(body_type@, is_awake@, body_type@.len() as int, BodyClass::Fixed) as u32,
{
    let mut active: usize = 0;
    let mut sleeping: usize = 0;
    let mut fixed: usize = 0;
    let mut i: usize = 0;
    while i < body_type.len()
        invariant
            i <= body_type@.len(),
            body_type@.len() == is_awake@.len(),
            active == bodies_in_class(body_type@, is_awake@, i as int, BodyClass::Active),
            sleeping == bodies_in_class(body_type@, is_awake@, i as int, BodyClass::Sleeping),
            fixed == bodies_in_class(body_type@, is_awake@, i as int, BodyClass::Fixed),
        decreases body_type@.len() - i,
    {
        proof {
            lemma_bodies_in_class_bound(body_type@, is_awake@, i as int, BodyClass::Active);
            lemma_bodies_in_class_bound(body_type@, is_awake@, i as int, BodyClass::Sleeping);
            lemma_bodies_in_class_bound(body_type@, is_awake@, i as int, BodyClass::Fixed);
        }
        match body_type[i] {
            BodyType::Dynamic => {
                if is_awake[i] {
                    active = active + 1;
                } else {
                    sleeping = sleeping + 1;
                }
            },
            BodyType::Static => {
                fixed = fixed + 1;
            },
            BodyType::Kinematic => {},
        }
        i = i + 1;
    }
    (
        #[verifier::truncate] (active as u32),
        #[verifier::truncate] (sleeping as u32),
        #[verifier::truncate] (fixed as u32),
    )
}

/// The position of body slot `body` in the island's body list: the index of
/// its first occurrence.
pub fn island_local_index(island: &Island, body: u32) -> (r: usize)
    requires
        island.bodies@.contains(body),
    ensures
        r < island.bodies@.len(),
        island.bodies@[r as int] == body,
        forall|j: int| 0 <= j < r ==> island.bodies@[j] != body,
{
    let mut i: usize = 0;
    while i < island.bodies.len()
        invariant
            i <= island.bodies@.len(),
            island.bodies@.contains(body),
            forall|j: int| 0 <= j < i ==> island.bodies@[j] != body,
        decreases island.bodies@.len() - i,
    {
        if island.bodies[i] == body {
            return i;
        }
        i = i + 1;
    }
    proof {
        let w = choose|w: int| 0 <= w < island.bodies@.len() && island.bodies@[w] == body;
        assert(island.bodies@[w] != body);
    }
    unreached()
}

} // verus!

verus! {

/// The contact points of the contacts `contacts` (indices into all
/// manifolds, manifold `c` having `counts[c]` points), as (contact index,
/// point index) pairs in order.
pub open spec fn contact_points(contacts: Seq<usize>, counts: Seq<usize>) -> Seq<(usize, usize)>
    decreases contacts.len(),
{
    if contacts.len() == 0 {
        Seq::empty()
    } else {
        let c = contacts.last();
        contact_points(contacts.drop_last(), counts) + Seq::new(
            counts[c as int] as nat,
            |p: int| (c, p as usize),
        )
    }
}

/// For each contact point of an island's contacts, in order, its contact
/// index, its point index and the index of its normal constraint: the
/// constraints are built two per point, normal then friction, so the k-th
/// point's normal constraint is constraint `2k` and its friction constraint
/// `2k + 1`.
pub fn contact_constraint_map(contacts: &[usize], counts: &[usize]) -> (r: Vec<(usize, usize, usize)>)
    requires
        forall|i: int| 0 <= i < contacts@.len() ==> #[trigger] contacts@[i] < counts@.len(),
        2 * contact_points(contacts@, counts@).len() <= usize::MAX,
    ensures
        r@.len() == contact_points(contacts@, counts@).len(),
        forall|k: int|
            0 <= k < r@.len() ==> #[trigger] r@[k] == (
                contact_points(contacts@, counts@)[k].0,
                contact_points(contacts@, counts@)[k].1,
                (2 * k) as usize,
            ),
{
    let ghost total = contact_points(contacts@, counts@);
    proof {
        lemma_contact_points_prefix(contacts@, counts@, contacts@.len() as int);
        assert(contacts@.take(contacts@.len() as int) =~= contacts@);
    }
    let mut out: Vec<(usize, usize, usize)> = Vec::new();
    let mut i: usize = 0;
    while i < contacts.len()
        invariant
            i <= contacts@.len(),
            total == contact_points(contacts@, counts@),
            forall|j: int| 0 <= j < contacts@.len() ==> #[trigger] contacts@[j] < counts@.len(),
            2 * total.len() <= usize::MAX,
            forall|m: int|
                0 <= m <= contacts@.len() ==> #[trigger] contact_points(contacts@.take(m), counts@)
                    =~= total.take(contact_points(contacts@.take(m), counts@).len() as int),
            forall|m: int, m2: int|
                0 <= m <= m2 <= contacts@.len() ==> #[trigger] contact_points(contacts@.take(m), counts@).len()
                    <= #[trigger] contact_points(contacts@.take(m2), counts@).len(),
            out@.len() == contact_points(contacts@.take(i as int), counts@).len(),
            forall|k: int| 0 <= k < out@.len() ==> #[trigger] out@[k] == (total[k].0, total[k].1, (2 * k) as usize),
        decreases contacts@.len() - i,
    {
        let c = contacts[i];
        let n = counts[c];
        let ghost before = contact_points(contacts@.take(i as int), counts@);
        let ghost after = contact_points(contacts@.take(i + 1), counts@);
        proof {
            assert(contacts@.take(i + 1).drop_last() =~= contacts@.take(i as int));
            assert(contacts@.take(i + 1).last() == c);
            assert(after =~= before + Seq::new(n as nat, |p: int| (c, p as usize)));
            assert(contacts@.take(contacts@.len() as int) =~= contacts@);
        }
        let mut p: usize = 0;
        while p < n
            invariant
                p <= n,
                n == counts@[c as int],
                before.len() + n == after.len(),
                after.len() <= total.len(),
                after =~= total.take(after.len() as int),
                after =~= before + Seq::new(n as nat, |q: int| (c, q as usize)),
                2 * total.len() <= usize::MAX,
                out@.len() == before.len() + p,
                forall|k: int| 0 <= k < out@.len() ==> #[trigger] out@[k] == (total[k].0, total[k].1, (2 * k) as usize),
            decreases n - p,
        {
            let k = out.len();
            proof {
                assert(total[k as int] == after[k as int]);
                assert(after[k as int] == (c, p));
            }
            out.push((c, p, 2 * k));
            p = p + 1;
        }
        i = i + 1;
    }
    proof {
        assert(contacts@.take(contacts@.len() as int) =~= contacts@);
    }
    out
}

proof fn lemma_contact_points_prefix(contacts: Seq<usize>, counts: Seq<usize>, m: int)
    requires
        0 <= m <= contacts.len(),
    ensures
        forall|a: int|
            0 <= a <= m ==> #[trigger] contact_points(contacts.take(a), counts) =~= contact_points(
                contacts.take(m),
                counts,
            ).take(contact_points(contacts.take(a), counts).len() as int),
        forall|a: int, b: int|
            0 <= a <= b <= m ==> #[trigger] contact_points(contacts.take(a), counts).len()
                <= #[trigger] contact_points(contacts.take(b), counts).len(),
    decreases m,
{
    if m > 0 {
        lemma_contact_points_prefix(contacts, counts, m - 1);
        assert(contacts.take(m).drop_last() =~= contacts.take(m - 1));
        let whole = contact_points(contacts.take(m), counts);
        let front = contact_points(contacts.take(m - 1), counts);
        assert(whole.take(front.len() as int) =~= front);
        assert forall|a: int| 0 <= a <= m implies #[trigger] contact_points(contacts.take(a), counts)
            =~= whole.take(contact_points(contacts.take(a), counts).len() as int) by {
            if a < m {
                let pa = contact_points(contacts.take(a), counts);
                assert(pa =~= front.take(pa.len() as int));
                assert(front.take(pa.len() as int) =~= whole.take(pa.len() as int));
            }
        }
    }
}

} // verus!

verus! {

/// Whether island `isl` falls asleep this step: it is awake and `ready`
/// says its bodies have been still long enough.
pub open spec fn falls_asleep(isl: Island, ready: bool) -> bool {
    ready && !isl.is_sleeping
}

/// The body slots of the first `n` islands that fall asleep, island by
/// island in order.
pub open spec fn falling_bodies(islands: Seq<Island>, ready: Seq<bool>, n: int) -> Seq<u32>
    decreases n,
{
    if n <= 0 {
        Seq::empty()
    } else {
        let rest = falling_bodies(islands, ready, n - 1);
        if falls_asleep(islands[n - 1], ready[n - 1]) {
            rest + islands[n - 1].bodies@
        } else {
            rest
        }
    }
}

/// Puts to sleep each awake island that `ready` marks as still long enough:
/// the island is marked sleeping and its bodies no longer awake. Returns the
/// body slots of those islands, island by island, for the caller to stop.
pub fn sleep_ready_islands(islands: &mut [Island], ready: &[bool], is_awake: &mut Vec<bool>) -> (r: Vec<u32>)
    requires
        ready@.len() == old(islands)@.len(),
        forall|i: int|
            0 <= i < old(islands)@.len() && #[trigger] falls_asleep(old(islands)@[i], ready@[i]) ==> forall|t: int|
                0 <= t < old(islands)@[i].bodies@.len() ==> #[trigger] old(islands)@[i].bodies@[t]
                    < old(is_awake)@.len(),
    ensures
        r@ == falling_bodies(old(islands)@, ready@, old(islands)@.len() as int),
        final(islands)@.len() == old(islands)@.len(),
        forall|i: int|
            0 <= i < old(islands)@.len() ==> {
                &&& (#[trigger] final(islands)@[i]).bodies@ == old(islands)@[i].bodies@
                &&& final(islands)@[i].contacts@ == old(islands)@[i].contacts@
                &&& final(islands)@[i].joints@ == old(islands)@[i].joints@
                &&& final(islands)@[i].is_sleeping == (old(islands)@[i].is_sleeping || ready@[i])
            },
        final(is_awake)@.len() == old(is_awake)@.len(),
        forall|b: int|
            0 <= b < old(is_awake)@.len() ==> #[trigger] final(is_awake)@[b] == (old(is_awake)@[b] && !(
            b <= u32::MAX && r@.contains(b as u32))),
{
    let ghost old_islands = islands@;
    let ghost old_awake = is_awake@;
    let mut out: Vec<u32> = Vec::new();
    let mut i: usize = 0;
    while i < islands.len()
        invariant
            i <= islands@.len(),
            islands@.len() == old_islands.len(),
            ready@.len() == old_islands.len(),
            forall|j: int|
                0 <= j < old_islands.len() ==> {
                    &&& (#[trigger] islands@[j]).bodies@ == old_islands[j].bodies@
                    &&& islands@[j].contacts@ == old_islands[j].contacts@
                    &&& islands@[j].joints@ == old_islands[j].joints@
                    &&& islands@[j].is_sleeping == if j < i {
                        old_islands[j].is_sleeping || ready@[j]
                    } else {
                        old_islands[j].is_sleeping
                    }
                },
            out@ == falling_bodies(old_islands, ready@, i as int),
        decreases old_islands.len() - i,
    {
        if ready[i] && !islands[i].is_sleeping {
            islands[i].is_sleeping = true;
            let n = islands[i].bodies.len();
            let ghost before = out@;
            let mut t: usize = 0;
            while t < n
                invariant
                    t <= n,
                    i < islands@.len(),
                    n == islands@[i as int].bodies@.len(),
                    out@ == before + islands@[i as int].bodies@.take(t as int),
                decreases n - t,
            {
                out.push(islands[i].bodies[t]);
                proof {
                    let bs = islands@[i as int].bodies@;
                    assert(bs.take(t + 1) =~= bs.take(t as int).push(bs[t as int]));
                }
                t = t + 1;
            }
            proof {
                let bs = islands@[i as int].bodies@;
                assert(bs.take(n as int) =~= bs);
            }
        }
        i = i + 1;
    }
    let ghost falling = out@;
    proof {
        lemma_falling_bodies_in_range(old_islands, ready@, old_awake.len(), old_islands.len() as int);
    }
    let mut k: usize = 0;
    while k < out.len()
        invariant
            k <= out@.len(),
            out@ == falling,
            forall|t: int| 0 <= t < falling.len() ==> #[trigger] falling[t] < old_awake.len(),
            is_awake@.len() == old_awake.len(),
            forall|b: int|
                0 <= b < old_awake.len() ==> #[trigger] is_awake@[b] == (old_awake[b] && !(b <= u32::MAX
                    && falling.take(k as int).contains(b as u32))),
        decreases falling.len() - k,
    {
        let b = out[k];
        is_awake.set(b as usize, false);
        proof {
            let pre = falling.take(k as int);
            assert(falling.take(k + 1) =~= pre.push(b));
            assert forall|c: int| 0 <= c < old_awake.len() implies #[trigger] is_awake@[c] == (old_awake[c]
                && !(c <= u32::MAX && falling.take(k + 1).contains(c as u32))) by {
                if c <= u32::MAX {
                    let cu = c as u32;
                    if pre.push(b).contains(cu) && cu != b {
                        let w = choose|w: int| 0 <= w < pre.push(b).len() && pre.push(b)[w] == cu;
                        assert(pre[w] == cu);
                    }
                    if pre.contains(cu) {
                        let w = choose|w: int| 0 <= w < pre.len() && pre[w] == cu;
                        assert(pre.push(b)[w] == cu);
                    }
                    if cu == b {
                        assert(pre.push(b)[pre.len() as int] == b);
                    }
                }
            }
        }
        k = k + 1;
    }
    proof {
        assert(falling.take(falling.len() as int) =~= falling);
    }
    out
}

proof fn lemma_falling_bodies_in_range(islands: Seq<Island>, ready: Seq<bool>, bound: nat, n: int)
    requires
        0 <= n <= islands.len(),
        ready.len() == islands.len(),
        forall|i: int|
            0 <= i < islands.len() && #[trigger] falls_asleep(islands[i], ready[i]) ==> forall|t: int|
                0 <= t < islands[i].bodies@.len() ==> #[trigger] islands[i].bodies@[t] < bound,
    ensures
        forall|t: int|
            0 <= t < falling_bodies(islands, ready, n).len() ==> #[trigger] falling_bodies(
                islands,
                ready,
                n,
            )[t] < bound,
    decreases n,
{
    if n > 0 {
        lemma_falling_bodies_in_range(islands, ready, bound, n - 1);
        let rest = falling_bodies(islands, ready, n - 1);
        if falls_asleep(islands[n - 1], ready[n - 1]) {
            let bs = islands[n - 1].bodies@;
            assert forall|t: int| 0 <= t < (rest + bs).len() implies #[trigger] (rest + bs)[t] < bound by {
                if t >= rest.len() {
                    assert((rest + bs)[t] == bs[t - rest.len()]);
                } else {
                    assert((rest + bs)[t] == rest[t]);
                }
            }
        }
    }
}

} // verus!

verus! {

/// Filtering broadphase pairs keeps only pairs that pass, in their order,
/// and filtering again changes nothing.
pub proof fn lemma_filter_idempotent(
    pairs: Seq<(ColliderHandle, ColliderHandle)>,
    collider_body: Seq<BodyHandle>,
    filters: Seq<CollisionFilter>,
)
    ensures
        kept_pairs(kept_pairs(pairs, collider_body, filters), collider_body, filters) == kept_pairs(
            pairs,
            collider_body,
            filters,
        ),
        kept_pairs(pairs, collider_body, filters).len() <= pairs.len(),
        forall|i: int|
            0 <= i < kept_pairs(pairs, collider_body, filters).len() ==> keeps_pair(
                #[trigger] kept_pairs(pairs, collider_body, filters)[i],
                collider_body,
                filters,
            ),
    decreases pairs.len(),
{
    if pairs.len() > 0 {
        let rest = pairs.drop_last();
        lemma_filter_idempotent(rest, collider_body, filters);
        let k = kept_pairs(rest, collider_body, filters);
        if keeps_pair(pairs.last(), collider_body, filters) {
            assert(k.push(pairs.last()).drop_last() =~= k);
        }
    }
}

/// Once islands have been put to sleep, asking again with the same
/// readiness puts no further island to sleep and stops no body.
pub proof fn lemma_sleep_settles(before: Seq<Island>, after: Seq<Island>, ready: Seq<bool>)
    requires
        ready.len() == before.len(),
        after.len() == before.len(),
        forall|i: int|
            0 <= i < before.len() ==> (#[trigger] after[i]).is_sleeping == (before[i].is_sleeping || ready[i]),
    ensures
        falling_bodies(after, ready, after.len() as int) == Seq::<u32>::empty(),
{
    lemma_nothing_falls(after, ready, after.len() as int);
}

proof fn lemma_nothing_falls(islands: Seq<Island>, ready: Seq<bool>, n: int)
    requires
        0 <= n <= islands.len(),
        ready.len() == islands.len(),
        forall|i: int| 0 <= i < islands.len() && ready[i] ==> (#[trigger] islands[i]).is_sleeping,
    ensures
        falling_bodies(islands, ready, n) == Seq::<u32>::empty(),
    decreases n,
{
    if n > 0 {
        lemma_nothing_falls(islands, ready, n - 1);
    }
}

/// Every body is counted at most once: the awake, sleeping and static
/// counts together do not exceed the number of bodies.
pub proof fn lemma_body_counts_bounded(body_type: Seq<BodyType>, is_awake: Seq<bool>, n: int)
    requires
        n >= 0,
    ensures
        bodies_in_class(body_type, is_awake, n, BodyClass::Active) + bodies_in_class(
            body_type,
            is_awake,
            n,
            BodyClass::Sleeping,
        ) + bodies_in_class(body_type, is_awake, n, BodyClass::Fixed) <= n,
    decreases n,
{
    if n > 0 {
        lemma_body_counts_bounded(body_type, is_awake, n - 1);
    }
}

} // verus!

verus! {

/// Contacts that were all there last frame wake nobody: comparing a
/// frame's contacts with themselves finds no new one.
pub proof fn lemma_known_contacts_wake_nobody<M>(entries: Seq<(ColliderPair, M)>, bodies: Seq<(u32, u32)>, n: int)
    requires
        0 <= n <= entries.len(),
        forall|i: int| 0 <= i < entries.len() ==> (#[trigger] entries[i]).0.0.0 <= entries[i].0.1.0,
    ensures
        new_contact_bodies(entries, entries, bodies, n) == Seq::<(u32, u32)>::empty(),
    decreases n,
{
    if n > 0 {
        lemma_known_contacts_wake_nobody(entries, bodies, n - 1);
        let p = entries[n - 1].0;
        assert(canonical_pair(p.0, p.1) == p);
        lemma_find_pair_present(entries, p, n - 1);
    }
}


/// A pair is kept exactly when its colliders belong to different bodies
/// and their filters allow the collision: two colliders of one non-zero
/// group collide when the group is positive and never when it is negative,
/// and otherwise each one's category bits must meet the other's mask bits.
/// Filtering keeps exactly those pairs, in their order.
pub proof fn lemma_filter_keeps_exactly(
    pairs: Seq<(ColliderHandle, ColliderHandle)>,
    collider_body: Seq<BodyHandle>,
    filters: Seq<CollisionFilter>,
)
    ensures
        kept_pairs(pairs, collider_body, filters) == pairs.filter(
            |p: (ColliderHandle, ColliderHandle)|
                {
                    let fa = filters[p.0.0 as int];
                    let fb = filters[p.1.0 as int];
                    &&& collider_body[p.0.0 as int] != collider_body[p.1.0 as int]
                    &&& if fa.group_index != 0 && fa.group_index == fb.group_index {
                        fa.group_index > 0
                    } else {
                        (fa.category_bits & fb.mask_bits) != 0 && (fb.category_bits & fa.mask_bits) != 0
                    }
                },
        ),
        forall|k: int|
            0 <= k < kept_pairs(pairs, collider_body, filters).len() ==> {
                let p = #[trigger] kept_pairs(pairs, collider_body, filters)[k];
                let fa = filters[p.0.0 as int];
                let fb = filters[p.1.0 as int];
                &&& collider_body[p.0.0 as int] != collider_body[p.1.0 as int]
                &&& !(fa.group_index < 0 && fa.group_index == fb.group_index)
            },
    decreases pairs.len(),
{
    reveal(Seq::filter);
    if pairs.len() > 0 {
        lemma_filter_keeps_exactly(pairs.drop_last(), collider_body, filters);
        let rest = kept_pairs(pairs.drop_last(), collider_body, filters);
        assert forall|k: int| 0 <= k < rest.len() implies #[trigger] rest.push(pairs.last())[k] == rest[k] by {}
    }
}

/// Every island that is ready and was awake falls asleep with all of its
/// bodies, whatever its contacts and joints: each of them is in the list of
/// bodies to stop; and only bodies of such islands are in it.
pub proof fn lemma_falling_bodies_exact(islands: Seq<Island>, ready: Seq<bool>, n: int)
    requires
        0 <= n <= islands.len(),
        ready.len() == islands.len(),
    ensures
        forall|i: int, t: int|
            0 <= i < n && ready[i] && !islands[i].is_sleeping && 0 <= t < islands[i].bodies@.len()
                ==> falling_bodies(islands, ready, n).contains(#[trigger] islands[i].bodies@[t]),
        forall|b: u32|
            #[trigger] falling_bodies(islands, ready, n).contains(b) ==> exists|i: int|
                0 <= i < n && ready[i] && !islands[i].is_sleeping && islands[i].bodies@.contains(b),
    decreases n,
{
    if n > 0 {
        lemma_falling_bodies_exact(islands, ready, n - 1);
        let rest = falling_bodies(islands, ready, n - 1);
        let last = islands[n - 1];
        let all = falling_bodies(islands, ready, n);
        assert forall|i: int, t: int|
            0 <= i < n && ready[i] && !islands[i].is_sleeping && 0 <= t < islands[i].bodies@.len()
                implies all.contains(#[trigger] islands[i].bodies@[t]) by {
            if i < n - 1 {
                let j = choose|j: int| 0 <= j < rest.len() && rest[j] == islands[i].bodies@[t];
                if falls_asleep(last, ready[n - 1]) {
                    assert(all[j] == rest[j]);
                }
            } else {
                assert(all[rest.len() + t] == last.bodies@[t]);
            }
        }
        assert forall|b: u32| #[trigger] all.contains(b) implies exists|i: int|
            0 <= i < n && ready[i] && !islands[i].is_sleeping && islands[i].bodies@.contains(b) by {
            let j = choose|j: int| 0 <= j < all.len() && all[j] == b;
            if j < rest.len() {
                if falls_asleep(last, ready[n - 1]) {
                    assert(all[j] == rest[j]);
                }
                assert(rest.contains(b));
            } else {
                assert(last.bodies@[j - rest.len()] == b);
                assert(last.bodies@.contains(b));
            }
        }
    }
}

} // verus!
