//! Waking a body and the island it belongs to.
use vstd::prelude::*;
use crate::island::Island;
use crate::island_manager::IslandManager;

verus! {

/// Whether `b` is body `body_idx` or a body of island `k` (when `k` names one).
pub open spec fn woken_by(islands: Seq<Island>, k: usize, body_idx: u32, b: int) -> bool {
    b == body_idx || (k != usize::MAX && b <= u32::MAX && islands[k as int].bodies@.contains(b as u32))
}

/// Wakes body `body_idx` and, when it belongs to an island, that island and
/// every body in it.
pub fn wake_body(
    body_idx: u32,
    is_awake: &mut Vec<bool>,
    islands: &mut [Island],
    island_manager: &IslandManager,
)
    requires
        body_idx < old(is_awake)@.len(),
        body_idx < island_manager.body_map().len(),
        ({
            let k = island_manager.body_map()[body_idx as int];
            k == usize::MAX || (k < old(islands)@.len() && forall|t: int|
                0 <= t < old(islands)@[k as int].bodies@.len() ==> #[trigger] old(islands)@[k as int].bodies@[t]
                    < old(is_awake)@.len())
        }),
    ensures
        ({
            let k = island_manager.body_map()[body_idx as int];
            &&& final(is_awake)@.len() == old(is_awake)@.len()
            &&& forall|b: int|
                0 <= b < old(is_awake)@.len() ==> #[trigger] final(is_awake)@[b] == (old(is_awake)@[b] || woken_by(
                    old(islands)@,
                    k,
                    body_idx,
                    b,
                ))
            &&& k == usize::MAX ==> final(islands)@ == old(islands)@
            &&& k != usize::MAX ==> final(islands)@.len() == old(islands)@.len()
                && (forall|j: int| 0 <= j < old(islands)@.len() && j != k ==> #[trigger] final(islands)@[j] == old(islands)@[j])
                && final(islands)@[k as int].bodies@ == old(islands)@[k as int].bodies@
                && final(islands)@[k as int].contacts@ == old(islands)@[k as int].contacts@
                && final(islands)@[k as int].joints@ == old(islands)@[k as int].joints@
                && !final(islands)@[k as int].is_sleeping
        }),
{
    let ghost old_awake = is_awake@;
    let ghost old_islands = islands@;
    is_awake.set(body_idx as usize, true);
    let island_idx = island_manager.island_of(body_idx as usize);
    if island_idx == usize::MAX {
        proof {
            assert forall|b: int| 0 <= b < old_awake.len() implies #[trigger] is_awake@[b] == (old_awake[b]
                || woken_by(old_islands, island_idx, body_idx, b)) by {}
        }
        return;
    }
    islands[island_idx].is_sleeping = false;
    let n = islands[island_idx].bodies.len();
    let mut t: usize = 0;
    while t < n
        invariant
            island_idx < islands@.len(),
            islands@[island_idx as int].bodies@ == old_islands[island_idx as int].bodies@,
            n == islands@[island_idx as int].bodies@.len(),
            t <= n,
            is_awake@.len() == old_awake.len(),
            forall|u: int| 0 <= u < n ==> #[trigger] islands@[island_idx as int].bodies@[u] < old_awake.len(),
            forall|b: int|
                0 <= b < old_awake.len() ==> #[trigger] is_awake@[b] == (old_awake[b] || b == body_idx
                    || (b <= u32::MAX && islands@[island_idx as int].bodies@.take(t as int).contains(b as u32))),
        decreases n - t,
    {
        let b = islands[island_idx].bodies[t];
        is_awake.set(b as usize, true);
        proof {
            let bodies = islands@[island_idx as int].bodies@;
            assert(bodies.take(t + 1) =~= bodies.take(t as int).push(b));
            assert forall|c: int| 0 <= c < old_awake.len() implies #[trigger] is_awake@[c] == (old_awake[c]
                || c == body_idx || (c <= u32::MAX && bodies.take(t + 1).contains(c as u32))) by {
                if c <= u32::MAX {
                    let cu = c as u32;
                    let pre = bodies.take(t as int);
                    if pre.push(b).contains(cu) && cu != b {
                        let w = choose|w: int| 0 <= w < pre.push(b).len() && pre.push(b)[w] == cu;
                        assert(pre[w] == cu);
                    }
                    if pre.contains(cu) {
                        let w = choose|w: int| 0 <= w < pre.len() && pre[w] == cu;
                        assert(pre.push(b)[w] == cu);
                    }
                    if cu == b {
                        assert(pre.push(b)[pre.len() as int] == b);
                    }
                }
            }
        }
        t = t + 1;
    }
    proof {
        let bodies = islands@[island_idx as int].bodies@;
        assert(bodies.take(n as int) =~= bodies);
        assert forall|b: int| 0 <= b < old_awake.len() implies #[trigger] is_awake@[b] == (old_awake[b]
            || woken_by(old_islands, island_idx, body_idx, b)) by {}
    }
}


/// Waking a body wakes that body and every body listed in its island,
/// whatever else the island holds, and no other body.
pub proof fn lemma_wake_covers_island(islands: Seq<Island>, k: usize, body_idx: u32, b: int)
    ensures
        woken_by(islands, k, body_idx, body_idx as int),
        k != usize::MAX ==> forall|t: int|
            0 <= t < islands[k as int].bodies@.len() ==> woken_by(
                islands,
                k,
                body_idx,
                #[trigger] islands[k as int].bodies@[t] as int,
            ),
        0 <= b && woken_by(islands, k, body_idx, b) ==> b == body_idx || (k != usize::MAX && exists|t: int|
            0 <= t < islands[k as int].bodies@.len() && islands[k as int].bodies@[t] == b),
{
    if k != usize::MAX {
        assert forall|t: int| 0 <= t < islands[k as int].bodies@.len() implies woken_by(
            islands,
            k,
            body_idx,
            #[trigger] islands[k as int].bodies@[t] as int,
        ) by {
            assert(islands[k as int].bodies@.contains(islands[k as int].bodies@[t]));
        }
    }
    if 0 <= b && woken_by(islands, k, body_idx, b) && b != body_idx {
        let t = choose|t: int|
            0 <= t < islands[k as int].bodies@.len() && islands[k as int].bodies@[t] == b as u32;
        assert(islands[k as int].bodies@[t] == b);
    }
}

} // verus!
