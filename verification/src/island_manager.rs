//! Island construction: partitioning the moving bodies into the connected
//! components of the contact and joint graph.
use vstd::prelude::*;
use std::collections::VecDeque;
use crate::body::BodyType;
use crate::handle::{JointHandle, packed, packed_slot};
use crate::island::Island;

verus! {

/// A description of a joint to be created.
pub struct JointDesc;

/// All joints, stored flat; a joint's slot is its index here. `K` is the
/// joint description kept alongside the two bodies it connects.
pub struct JointStorage<K> {
    /// The joint descriptions, by slot.
    pub kinds: Vec<K>,
    /// The `(body_a, body_b)` body slots of each joint.
    pub body_pairs: Vec<(u32, u32)>,
    /// The generation of each joint slot.
    pub generation: Vec<u32>,
    /// The number of joints.
    pub len: usize,
}

impl<K> JointStorage<K> {
    /// An empty store.
    pub fn new() -> (s: Self)
        ensures
            s.kinds@.len() == 0,
            s.body_pairs@.len() == 0,
            s.generation@.len() == 0,
            s.len == 0,
    {
        JointStorage { kinds: Vec::new(), body_pairs: Vec::new(), generation: Vec::new(), len: 0 }
    }

    /// Appends a joint between body slots `body_a` and `body_b` and returns
    /// its slot (the previous count, truncated to 32 bits).
    pub fn push(&mut self, kind: K, body_a: u32, body_b: u32) -> (slot: u32)
        requires
            old(self).len < usize::MAX,
        ensures
            slot == old(self).len as u32,
            final(self).kinds@ == old(self).kinds@.push(kind),
            final(self).body_pairs@ == old(self).body_pairs@.push((body_a, body_b)),
            final(self).generation@ == old(self).generation@.push(0),
            final(self).len == old(self).len + 1,
    {
        let slot = self.len as u32;
        self.kinds.push(kind);
        self.body_pairs.push((body_a, body_b));
        self.generation.push(0);
        self.len = self.len + 1;
        slot
    }
}

impl<K> Default for JointStorage<K> {
    /// An empty store.
    fn default() -> (s: Self)
        ensures
            s.kinds@.len() == 0,
            s.body_pairs@.len() == 0,
            s.generation@.len() == 0,
            s.len == 0,
    {
        Self::new()
    }
}

/// The constraint graph that islands are built from: body types and awake
/// flags by slot, and the edges (all contacts first, then all joints), each
/// a pair of body slots.
pub struct ConstraintGraph {
    pub types: Seq<BodyType>,
    pub awake: Seq<bool>,
    pub edges: Seq<(u32, u32)>,
    pub num_contacts: int,
    pub joint_generations: Seq<u32>,
}

/// The graph that `build_islands` reads from its arguments.
pub open spec fn graph_of<K>(
    body_type: Seq<BodyType>,
    is_awake: Seq<bool>,
    contacts: Seq<(u32, u32)>,
    joints: JointStorage<K>,
) -> ConstraintGraph {
    ConstraintGraph {
        types: body_type,
        awake: is_awake,
        edges: contacts + joints.body_pairs@.take(joints.len as int),
        num_contacts: contacts.len() as int,
        joint_generations: joints.generation@.take(joints.len as int),
    }
}

/// A body that is not static: it exists and can be moved by constraints.
pub open spec fn moving(g: ConstraintGraph, b: int) -> bool {
    0 <= b < g.types.len() && g.types[b] != BodyType::Static
}

/// Whether edge `e` has `x` as an endpoint.
pub open spec fn touches(e: (u32, u32), x: u32) -> bool {
    e.0 == x || e.1 == x
}

/// The endpoint of `e` across from `x`.
pub open spec fn other_end(e: (u32, u32), x: u32) -> u32 {
    if e.0 == x {
        e.1
    } else {
        e.0
    }
}

/// Whether edge `e` joins `x` and `y`.
pub open spec fn links(e: (u32, u32), x: u32, y: u32) -> bool {
    (e.0 == x && e.1 == y) || (e.0 == y && e.1 == x)
}

/// `p` is a walk through moving bodies, consecutive bodies joined by the
/// edges whose indices `via` lists.
pub open spec fn is_walk(g: ConstraintGraph, p: Seq<u32>, via: Seq<int>) -> bool {
    &&& p.len() >= 1
    &&& via.len() + 1 == p.len()
    &&& forall|k: int| 0 <= k < p.len() ==> #[trigger] moving(g, p[k] as int)
    &&& forall|k: int|
        0 <= k < via.len() ==> 0 <= #[trigger] via[k] < g.edges.len() && links(
            g.edges[via[k]],
            p[k],
            p[k + 1],
        )
}

/// `b` can be reached from `a` through moving bodies along edges.
pub open spec fn connected(g: ConstraintGraph, a: u32, b: u32) -> bool {
    exists|p: Seq<u32>, via: Seq<int>| #[trigger] is_walk(g, p, via) && p[0] == a && p.last() == b
}

/// A moving body that `body_to_island` puts in island `k`.
pub open spec fn in_island(g: ConstraintGraph, b2i: Seq<usize>, x: u32, k: int) -> bool {
    moving(g, x as int) && b2i[x as int] == k
}

/// An edge with an endpoint in island `k`.
pub open spec fn edge_in_island(g: ConstraintGraph, b2i: Seq<usize>, e: (u32, u32), k: int) -> bool {
    in_island(g, b2i, e.0, k) || in_island(g, b2i, e.1, k)
}

/// A static body that an edge joins to a body of island `k`.
pub open spec fn static_attached(g: ConstraintGraph, b2i: Seq<usize>, k: int, x: u32) -> bool {
    &&& x < g.types.len()
    &&& !moving(g, x as int)
    &&& exists|e: int|
        0 <= e < g.edges.len() && touches(g.edges[e], x) && #[trigger] in_island(
            g,
            b2i,
            other_end(g.edges[e], x),
            k,
        )
}

/// The joint slots named by the handles of an island.
pub open spec fn joint_slots(isl: Island) -> Seq<u32> {
    isl.joints@.map_values(|h: JointHandle| packed_slot(h.bits()))
}

/// Island `k` is exactly the connected component of its seed: its first
/// body is the lowest-numbered awake body of the component, its bodies are
/// the component's moving bodies plus the static bodies they touch, and its
/// contacts and joints are those with an endpoint in the component, each
/// listed once.
pub open spec fn island_ok(g: ConstraintGraph, b2i: Seq<usize>, isl: Island, k: int) -> bool {
    let seed = isl.bodies@[0];
    let nj = g.edges.len() - g.num_contacts;
    &&& isl.bodies@.len() > 0
    &&& !isl.is_sleeping
    &&& isl.bodies@.no_duplicates()
    &&& forall|t: int|
        0 <= t < isl.bodies@.len() ==> {
            let x = #[trigger] isl.bodies@[t];
            &&& x < g.types.len()
            &&& moving(g, x as int) ==> b2i[x as int] == k
            &&& !moving(g, x as int) ==> static_attached(g, b2i, k, x)
        }
    &&& forall|x: u32| #[trigger] in_island(g, b2i, x, k) ==> isl.bodies@.contains(x)
    &&& forall|x: u32| #[trigger] static_attached(g, b2i, k, x) ==> isl.bodies@.contains(x)
    &&& isl.contacts@.no_duplicates()
    &&& forall|c: usize|
        #[trigger] isl.contacts@.contains(c) <==> (c < g.num_contacts && edge_in_island(
            g,
            b2i,
            g.edges[c as int],
            k,
        ))
    &&& joint_slots(isl).no_duplicates()
    &&& forall|t: int|
        0 <= t < isl.joints@.len() ==> #[trigger] isl.joints@[t].bits() == packed(
            joint_slots(isl)[t],
            g.joint_generations[joint_slots(isl)[t] as int],
        )
    &&& forall|j: u32|
        #[trigger] joint_slots(isl).contains(j) <==> (j < nj && edge_in_island(
            g,
            b2i,
            g.edges[g.num_contacts + j],
            k,
        ))
    &&& in_island(g, b2i, seed, k)
    &&& g.awake[seed as int]
    &&& forall|b: u32| #[trigger] in_island(g, b2i, b, k) && g.awake[b as int] ==> seed <= b
    &&& forall|b: u32| #[trigger] in_island(g, b2i, b, k) ==> connected(g, seed, b)
}

/// The islands and the body-to-island map, read at moving bodies, partition the graph: every awake
/// moving body is in an island, edges never join moving bodies of different
/// islands (or an island to a body left out), every island is a component as
/// `island_ok` says, and islands come in increasing order of their seeds.
pub open spec fn components_valid(g: ConstraintGraph, islands: Seq<Island>, b2i: Seq<usize>) -> bool {
    &&& b2i.len() == g.types.len()
    &&& forall|b: int| #[trigger] moving(g, b) ==> b2i[b] == usize::MAX || b2i[b] < islands.len()
    &&& forall|b: int| #[trigger] moving(g, b) && g.awake[b] ==> b2i[b] != usize::MAX
    &&& forall|e: int|
        0 <= e < g.edges.len() && moving(g, g.edges[e].0 as int) && moving(g, g.edges[e].1 as int)
            ==> b2i[#[trigger] g.edges[e].0 as int] == b2i[g.edges[e].1 as int]
    &&& forall|k: int| 0 <= k < islands.len() ==> island_ok(g, b2i, #[trigger] islands[k], k)
    &&& forall|k1: int, k2: int|
        0 <= k1 < k2 < islands.len() ==> #[trigger] islands[k1].bodies@[0]
            < #[trigger] islands[k2].bodies@[0]
}

/// Static body `x` is reached from an island: an edge joins it to a moving
/// body that has an island.
pub open spec fn static_reached(g: ConstraintGraph, b2i: Seq<usize>, x: u32) -> bool {
    exists|e: int|
        0 <= e < g.edges.len() && touches(g.edges[e], x) && #[trigger] moving(
            g,
            other_end(g.edges[e], x) as int,
        ) && b2i[other_end(g.edges[e], x) as int] != usize::MAX
}

/// The islands and the body-to-island map that `build_islands` leaves: the
/// islands are the components as `components_valid` says, and a static body
/// is marked `usize::MAX - 1` when an island reaches it and `usize::MAX`
/// otherwise.
pub open spec fn islands_valid(g: ConstraintGraph, islands: Seq<Island>, b2i: Seq<usize>) -> bool {
    &&& components_valid(g, islands, b2i)
    &&& forall|b: int|
        0 <= b < b2i.len() && !moving(g, b) ==> #[trigger] b2i[b] == (if static_reached(g, b2i, b as u32) {
            (usize::MAX - 1) as usize
        } else {
            usize::MAX
        })
}

/// The bodies, contacts and joint slots of an island, in order.
#[verifier::ext_equal]
pub struct IslandOrder {
    pub bodies: Seq<u32>,
    pub contacts: Seq<usize>,
    pub joints: Seq<u32>,
}

/// The contents of island `isl`, in order.
pub open spec fn island_order(isl: Island) -> IslandOrder {
    IslandOrder { bodies: isl.bodies@, contacts: isl.contacts@, joints: joint_slots(isl) }
}

/// An island with nothing in it yet.
pub open spec fn no_order() -> IslandOrder {
    IslandOrder { bodies: Seq::empty(), contacts: Seq::empty(), joints: Seq::empty() }
}

/// The state of the breadth-first walk that builds islands: the islands
/// built so far, the island of each moving body, the island that last
/// listed each static body, the edges already listed, the bodies waiting to
/// be expanded, and the island being built.
#[verifier::ext_equal]
pub struct Walk {
    pub islands: Seq<IslandOrder>,
    pub b2i: Seq<usize>,
    pub seen: Seq<usize>,
    pub taken: Seq<bool>,
    pub queue: Seq<u32>,
    pub cur: IslandOrder,
}

/// The walk reaches body `other`: an unplaced moving body joins the current
/// island and the back of the queue, and a static body that the current
/// island has not listed yet is listed.
pub open spec fn walk_visit(g: ConstraintGraph, w: Walk, other: u32) -> Walk {
    let k = w.islands.len() as usize;
    if moving(g, other as int) {
        if w.b2i[other as int] == usize::MAX {
            Walk { b2i: w.b2i.update(other as int, k), queue: w.queue.push(other), ..w }
        } else {
            w
        }
    } else if w.seen[other as int] != k {
        Walk {
            seen: w.seen.update(other as int, k),
            cur: IslandOrder { bodies: w.cur.bodies.push(other), ..w.cur },
            ..w
        }
    } else {
        w
    }
}

/// The walk looks at edge `p` from body `x`: an edge at `x` is listed in
/// the current island the first time it is seen, and its other end is
/// reached.
pub open spec fn walk_edge(g: ConstraintGraph, w: Walk, x: u32, p: int) -> Walk {
    let e = g.edges[p];
    if !touches(e, x) {
        w
    } else {
        let w1 = if w.taken[p] {
            w
        } else if p < g.num_contacts {
            Walk {
                taken: w.taken.update(p, true),
                cur: IslandOrder { contacts: w.cur.contacts.push(p as usize), ..w.cur },
                ..w
            }
        } else {
            Walk {
                taken: w.taken.update(p, true),
                cur: IslandOrder { joints: w.cur.joints.push((p - g.num_contacts) as u32), ..w.cur },
                ..w
            }
        };
        walk_visit(g, w1, other_end(e, x))
    }
}

/// The walk looks at the edges from index `p` on, in order, from body `x`.
pub open spec fn walk_edges(g: ConstraintGraph, w: Walk, x: u32, p: int) -> Walk
    decreases g.edges.len() - p,
{
    if 0 <= p < g.edges.len() {
        walk_edges(g, walk_edge(g, w, x, p), x, p + 1)
    } else {
        w
    }
}

/// The walk takes the body at the front of the queue, lists it in the
/// current island, and looks at all edges from it.
pub open spec fn walk_pop(g: ConstraintGraph, w: Walk) -> Walk {
    let x = w.queue[0];
    walk_edges(
        g,
        Walk { queue: w.queue.drop_first(), cur: IslandOrder { bodies: w.cur.bodies.push(x), ..w.cur }, ..w },
        x,
        0,
    )
}

/// The walk expands bodies until the queue is empty (each expansion lists
/// at least one body, and an island lists no more bodies than there are).
pub open spec fn walk_drain(g: ConstraintGraph, w: Walk) -> Walk
    decreases g.types.len() - w.cur.bodies.len(),
{
    if w.queue.len() > 0 && w.cur.bodies.len() < g.types.len() {
        let w2 = walk_pop(g, w);
        if w.cur.bodies.len() < w2.cur.bodies.len() <= g.types.len() {
            walk_drain(g, w2)
        } else {
            w2
        }
    } else {
        w
    }
}

/// The walk goes through the bodies from slot `i` on: each awake moving
/// body not yet placed seeds a new island, which is grown breadth-first and
/// then closed.
pub open spec fn walk_from(g: ConstraintGraph, w: Walk, i: int) -> Walk
    decreases g.types.len() - i,
{
    if 0 <= i < g.types.len() {
        if moving(g, i) && g.awake[i] && w.b2i[i] == usize::MAX {
            let k = w.islands.len() as usize;
            let d = walk_drain(
                g,
                Walk { b2i: w.b2i.update(i, k), queue: seq![i as u32], cur: no_order(), ..w },
            );
            walk_from(g, Walk { islands: d.islands.push(d.cur), cur: no_order(), ..d }, i + 1)
        } else {
            walk_from(g, w, i + 1)
        }
    } else {
        w
    }
}

/// The islands, in order and each with its contents in order, that the
/// breadth-first walk over `g` builds.
pub open spec fn island_walk(g: ConstraintGraph) -> Seq<IslandOrder> {
    walk_from(
        g,
        Walk {
            islands: Seq::empty(),
            b2i: Seq::new(g.types.len(), |i: int| usize::MAX),
            seen: Seq::new(g.types.len(), |i: int| usize::MAX),
            taken: Seq::new(g.edges.len(), |i: int| false),
            queue: Seq::empty(),
            cur: no_order(),
        },
        0,
    ).islands
}

/// The walk state that the exec state of island construction stands for.
pub open spec fn walk_of(
    islands: Seq<Island>,
    b2i: Seq<usize>,
    seen: Seq<usize>,
    taken: Seq<bool>,
    queue: Seq<u32>,
    cur: IslandOrder,
) -> Walk {
    Walk { islands: islands.map_values(|i: Island| island_order(i)), b2i, seen, taken, queue, cur }
}

/// Builds islands from the bodies and constraints of one step.
pub struct IslandManager {
    islands: Vec<Island>,
    /// Maps a body slot to the index of its island: `usize::MAX` for a body
    /// in none, `usize::MAX - 1` for a static body that an island reaches.
    pub body_to_island: Vec<usize>,
}

impl IslandManager {
    /// The islands as last built.
    pub closed spec fn island_list(&self) -> Seq<Island> {
        self.islands@
    }

    /// The body-to-island map as last built.
    pub closed spec fn body_map(&self) -> Seq<usize> {
        self.body_to_island@
    }

    /// A manager with no islands.
    pub fn new() -> (m: Self)
        ensures
            m.island_list().len() == 0,
            m.body_map().len() == 0,
    {
        IslandManager { islands: Vec::new(), body_to_island: Vec::new() }
    }

    /// Rebuilds the islands of one step. `body_type` and `is_awake` describe
    /// the bodies by slot, `contacts` gives the two body slots of each
    /// contact, and `joint_store` the joints. Islands grow breadth-first from
    /// each awake moving body not yet placed, in slot order, through contacts
    /// and joints; static bodies join every island that touches them but do
    /// not connect islands; a sleeping moving body joins the island that
    /// touches it. Each island lists its bodies, contacts and joints in the
    /// order of the walk (`island_walk`), and the body map marks a static
    /// body that an island reaches with `usize::MAX - 1`.
    pub fn build_islands<K>(
        &mut self,
        body_type: &Vec<BodyType>,
        is_awake: &Vec<bool>,
        contacts: &Vec<(u32, u32)>,
        joint_store: &JointStorage<K>,
    )
        requires
            is_awake@.len() == body_type@.len(),
            body_type@.len() <= u32::MAX,
            joint_store.len <= joint_store.body_pairs@.len(),
            joint_store.len <= joint_store.generation@.len(),
            joint_store.len <= u32::MAX,
            forall|c: int|
                0 <= c < contacts@.len() ==> #[trigger] contacts@[c].0 < body_type@.len()
                    && contacts@[c].1 < body_type@.len(),
            forall|j: int|
                0 <= j < joint_store.len ==> #[trigger] joint_store.body_pairs@[j].0
                    < body_type@.len() && joint_store.body_pairs@[j].1 < body_type@.len(),
        ensures
            islands_valid(
                graph_of(body_type@, is_awake@, contacts@, *joint_store),
                final(self).island_list(),
                final(self).body_map(),
            ),
            final(self).island_list().map_values(|i: Island| island_order(i)) == island_walk(
                graph_of(body_type@, is_awake@, contacts@, *joint_store),
            ),
    {
        let ghost g = graph_of(body_type@, is_awake@, contacts@, *joint_store);
        let n = body_type.len();
        let nc = contacts.len();
        let nj = joint_store.len;
        proof {
            assert forall|e: int| 0 <= e < g.edges.len() implies #[trigger] g.edges[e].0 < g.types.len()
                && g.edges[e].1 < g.types.len() by {
                if e < nc {
                    assert(g.edges[e] == contacts@[e]);
                    assert(contacts@[e].0 < n && contacts@[e].1 < n);
                } else {
                    assert(g.edges[e] == joint_store.body_pairs@.take(nj as int)[e - nc]);
                    assert(joint_store.body_pairs@.take(nj as int)[e - nc] == joint_store.body_pairs@[e
                        - nc]);
                    assert(joint_store.body_pairs@[e - nc].0 < n && joint_store.body_pairs@[e - nc].1 < n);
                }
            }
            assert(inputs_ok(g));
        }
        self.islands.clear();
        self.body_to_island.clear();
        let mut k: usize = 0;
        while k < n
            invariant
                k <= n,
                self.body_to_island@ == Seq::new(k as nat, |i: int| usize::MAX),
                self.islands@.len() == 0,
            decreases n - k,
        {
            self.body_to_island.push(usize::MAX);
            k = k + 1;
            proof {
                assert(self.body_to_island@ =~= Seq::new(k as nat, |i: int| usize::MAX));
            }
        }
        let mut static_seen: Vec<usize> = Vec::new();
        let mut k: usize = 0;
        while k < n
            invariant
                k <= n,
                static_seen@ == Seq::new(k as nat, |i: int| usize::MAX),
            decreases n - k,
        {
            static_seen.push(usize::MAX);
            k = k + 1;
            proof {
                assert(static_seen@ =~= Seq::new(k as nat, |i: int| usize::MAX));
            }
        }
        let mut contact_taken: Vec<bool> = Vec::new();
        let mut k: usize = 0;
        while k < nc
            invariant
                k <= nc,
                contact_taken@ == Seq::new(k as nat, |i: int| false),
            decreases nc - k,
        {
            contact_taken.push(false);
            k = k + 1;
            proof {
                assert(contact_taken@ =~= Seq::new(k as nat, |i: int| false));
            }
        }
        let mut joint_taken: Vec<bool> = Vec::new();
        let mut k: usize = 0;
        while k < nj
            invariant
                k <= nj,
                joint_taken@ == Seq::new(k as nat, |i: int| false),
            decreases nj - k,
        {
            joint_taken.push(false);
            k = k + 1;
            proof {
                assert(joint_taken@ =~= Seq::new(k as nat, |i: int| false));
            }
        }
        let ghost island0: Island = arbitrary();
        proof {
            assert(contact_taken@ + joint_taken@ =~= Seq::new(g.edges.len(), |i: int| false));
            lemma_outer_init(
                g,
                Bfs {
                    islands: self.islands@,
                    b2i: self.body_to_island@,
                    seen: static_seen@,
                    taken: contact_taken@ + joint_taken@,
                    queue: Seq::empty(),
                    isl: island0,
                },
            );
        }
        let ghost target = walk_from(g, walk_of(self.islands@, self.body_to_island@, static_seen@, contact_taken@ + joint_taken@, Seq::empty(), no_order()), 0);
        proof {
            assert(walk_of(self.islands@, self.body_to_island@, static_seen@, contact_taken@ + joint_taken@, Seq::empty(), no_order()) =~= Walk {
                islands: Seq::empty(),
                b2i: Seq::new(g.types.len(), |i: int| usize::MAX),
                seen: Seq::new(g.types.len(), |i: int| usize::MAX),
                taken: Seq::new(g.edges.len(), |i: int| false),
                queue: Seq::empty(),
                cur: no_order(),
            });
            assert(target.islands == island_walk(g));
        }
        let mut i: usize = 0;
        while i < n
            invariant
                g == graph_of(body_type@, is_awake@, contacts@, *joint_store),
                n == body_type@.len(),
                nc == contacts@.len(),
                nj == joint_store.len,
                contact_taken@.len() == nc,
                joint_taken@.len() == nj,
                nj <= joint_store.body_pairs@.len(),
                nj <= joint_store.generation@.len(),
                nj <= u32::MAX,
                i <= n,
                outer_inv(
                    g,
                    Bfs {
                        islands: self.islands@,
                        b2i: self.body_to_island@,
                        seen: static_seen@,
                        taken: contact_taken@ + joint_taken@,
                        queue: Seq::empty(),
                        isl: island0,
                    },
                    i as int,
                ),
                walk_from(g, walk_of(self.islands@, self.body_to_island@, static_seen@, contact_taken@ + joint_taken@, Seq::empty(), no_order()), i as int) == target,
            decreases n - i,
        {
            let ghost s0 = Bfs {
                islands: self.islands@,
                b2i: self.body_to_island@,
                seen: static_seen@,
                taken: contact_taken@ + joint_taken@,
                queue: Seq::empty(),
                isl: island0,
            };
            let ghost w_head = walk_of(self.islands@, self.body_to_island@, static_seen@, contact_taken@ + joint_taken@, Seq::empty(), no_order());
            if body_type[i] == BodyType::Static || !is_awake[i] || self.body_to_island[i]
                != usize::MAX {
                proof {
                    lemma_outer_skip(g, s0, i as int);
                    assert(walk_from(g, w_head, i as int) == walk_from(g, w_head, i as int + 1));
                }
                i = i + 1;
                continue;
            }
            let island_idx = self.islands.len();
            let mut island = Island::default();
            let mut queue: VecDeque<u32> = VecDeque::new();
            queue.push_back(i as u32);
            self.body_to_island.set(i, island_idx);
            let ghost seed = i as u32;
            let ghost d = walk_drain(g, walk_of(self.islands@, self.body_to_island@, static_seen@, contact_taken@ + joint_taken@, queue@, island_order(island)));
            proof {
                assert(island_order(island) =~= no_order()) by {
                    assert(joint_slots(island) =~= Seq::<u32>::empty());
                }
                assert(queue@ =~= seq![i as u32]);
                assert(walk_of(self.islands@, self.body_to_island@, static_seen@, contact_taken@ + joint_taken@, queue@, island_order(island)) =~= Walk {
                    b2i: w_head.b2i.update(i as int, w_head.islands.len() as usize),
                    queue: seq![i as u32],
                    cur: no_order(),
                    ..w_head
                });
                assert(walk_from(g, w_head, i as int) == walk_from(
                    g,
                    Walk { islands: d.islands.push(d.cur), cur: no_order(), ..d },
                    i as int + 1,
                ));
                lemma_start_island(
                    g,
                    s0,
                    i as int,
                    Bfs {
                        islands: self.islands@,
                        b2i: self.body_to_island@,
                        seen: static_seen@,
                        taken: contact_taken@ + joint_taken@,
                        queue: queue@,
                        isl: island,
                    },
                    seed,
                );
            }
            while queue.len() > 0
                invariant
                    g == graph_of(body_type@, is_awake@, contacts@, *joint_store),
                    n == body_type@.len(),
                    nc == contacts@.len(),
                    nj == joint_store.len,
                    contact_taken@.len() == nc,
                    joint_taken@.len() == nj,
                    nj <= joint_store.body_pairs@.len(),
                    nj <= joint_store.generation@.len(),
                    nj <= u32::MAX,
                    i < n,
                    seed == i as u32,
                    island_idx == self.islands@.len(),
                    island.bodies@.len() <= n,
                    bfs_inv(
                        g,
                        Bfs {
                            islands: self.islands@,
                            b2i: self.body_to_island@,
                            seen: static_seen@,
                            taken: contact_taken@ + joint_taken@,
                            queue: queue@,
                            isl: island,
                        },
                        seed,
                        seed,
                        0,
                        false,
                    ),
                    walk_drain(g, walk_of(self.islands@, self.body_to_island@, static_seen@, contact_taken@ + joint_taken@, queue@, island_order(island))) == d,
                decreases n - island.bodies@.len(),
            {
                let ghost s1 = Bfs {
                    islands: self.islands@,
                    b2i: self.body_to_island@,
                    seen: static_seen@,
                    taken: contact_taken@ + joint_taken@,
                    queue: queue@,
                    isl: island,
                };
                let ghost w1 = walk_of(self.islands@, self.body_to_island@, static_seen@, contact_taken@ + joint_taken@, queue@, island_order(island));
                let body_idx = queue.pop_front().unwrap();
                island.bodies.push(body_idx);
                let ghost grown = island.bodies@.len();
                proof {
                    assert(queue@ =~= s1.queue.drop_first());
                    assert(body_idx == w1.queue[0]);
                    assert(walk_of(self.islands@, self.body_to_island@, static_seen@, contact_taken@ + joint_taken@, queue@, island_order(island)) =~= Walk {
                        queue: w1.queue.drop_first(),
                        cur: IslandOrder { bodies: w1.cur.bodies.push(body_idx), ..w1.cur },
                        ..w1
                    });
                    lemma_pop(
                        g,
                        s1,
                        seed,
                        seed,
                        0,
                        Bfs {
                            islands: self.islands@,
                            b2i: self.body_to_island@,
                            seen: static_seen@,
                            taken: contact_taken@ + joint_taken@,
                            queue: queue@,
                            isl: island,
                        },
                    );
                }
                let mut c: usize = 0;
                while c < nc
                    invariant
                        g == graph_of(body_type@, is_awake@, contacts@, *joint_store),
                        n == body_type@.len(),
                        nc == contacts@.len(),
                        nj == joint_store.len,
                        contact_taken@.len() == nc,
                        joint_taken@.len() == nj,
                        nj <= joint_store.body_pairs@.len(),
                        nj <= joint_store.generation@.len(),
                        nj <= u32::MAX,
                        c <= nc,
                        island.bodies@.len() >= grown,
                        grown == s1.isl.bodies@.len() + 1,
                        island_idx == self.islands@.len(),
                        bfs_inv(
                            g,
                            Bfs {
                                islands: self.islands@,
                                b2i: self.body_to_island@,
                                seen: static_seen@,
                                taken: contact_taken@ + joint_taken@,
                                queue: queue@,
                                isl: island,
                            },
                            seed,
                            body_idx,
                            c as int,
                            true,
                        ),
                        walk_edges(g, walk_of(self.islands@, self.body_to_island@, static_seen@, contact_taken@ + joint_taken@, queue@, island_order(island)), body_idx, c as int) == walk_pop(g, w1),
                    decreases nc - c,
                {
                    let ghost s2 = Bfs {
                        islands: self.islands@,
                        b2i: self.body_to_island@,
                        seen: static_seen@,
                        taken: contact_taken@ + joint_taken@,
                        queue: queue@,
                        isl: island,
                    };
                    let ghost wc = walk_of(self.islands@, self.body_to_island@, static_seen@, contact_taken@ + joint_taken@, queue@, island_order(island));
                    proof {
                        assert(g.edges[c as int] == contacts@[c as int]);
                        assert(s2.taken[c as int] == contact_taken@[c as int]);
                    }
                    let (a, b) = contacts[c];
                    if a == body_idx || b == body_idx {
                        if !contact_taken[c] {
                            contact_taken.set(c, true);
                            island.contacts.push(c);
                            proof {
                                assert(contact_taken@ + joint_taken@ =~= wc.taken.update(c as int, true));
                                assert(island_order(island) =~= IslandOrder {
                                    contacts: wc.cur.contacts.push(c),
                                    ..wc.cur
                                });
                            }
                            proof {
                                assert(contact_taken@ + joint_taken@ =~= s2.taken.update(c as int, true));
                                lemma_take_contact(
                                    g,
                                    s2,
                                    seed,
                                    body_idx,
                                    c as int,
                                    Bfs {
                                        islands: self.islands@,
                                        b2i: self.body_to_island@,
                                        seen: static_seen@,
                                        taken: contact_taken@ + joint_taken@,
                                        queue: queue@,
                                        isl: island,
                                    },
                                );
                            }
                        } else {
                            proof {
                                lemma_taken_is_current(g, s2, seed, body_idx, c as int);
                            }
                        }
                        let other = if a == body_idx {
                            b
                        } else {
                            a
                        };
                        Self::visit(
                            Ghost(g),
                            Ghost(seed),
                            body_idx,
                            Ghost(c as int),
                            other,
                            island_idx,
                            body_type,
                            &mut self.body_to_island,
                            &mut static_seen,
                            &mut queue,
                            &mut island,
                            Ghost(contact_taken@ + joint_taken@),
                            Ghost(self.islands@),
                        );
                    } else {
                        proof {
                            lemma_advance(g, s2, seed, body_idx, c as int);
                        }
                    }
                    proof {
                        assert(walk_of(self.islands@, self.body_to_island@, static_seen@, contact_taken@ + joint_taken@, queue@, island_order(island)) == walk_edge(g, wc, body_idx, c as int));
                        assert(walk_edges(g, wc, body_idx, c as int) == walk_edges(
                            g,
                            walk_edge(g, wc, body_idx, c as int),
                            body_idx,
                            c as int + 1,
                        ));
                    }
                    c = c + 1;
                }
                let mut j: usize = 0;
                while j < nj
                    invariant
                        g == graph_of(body_type@, is_awake@, contacts@, *joint_store),
                        n == body_type@.len(),
                        nc == contacts@.len(),
                        nj == joint_store.len,
                        contact_taken@.len() == nc,
                        joint_taken@.len() == nj,
                        j <= nj,
                        island.bodies@.len() >= grown,
                        grown == s1.isl.bodies@.len() + 1,
                        island_idx == self.islands@.len(),
                        nj <= joint_store.body_pairs@.len(),
                        nj <= joint_store.generation@.len(),
                        nj <= u32::MAX,
                        bfs_inv(
                            g,
                            Bfs {
                                islands: self.islands@,
                                b2i: self.body_to_island@,
                                seen: static_seen@,
                                taken: contact_taken@ + joint_taken@,
                                queue: queue@,
                                isl: island,
                            },
                            seed,
                            body_idx,
                            nc + j,
                            true,
                        ),
                        walk_edges(g, walk_of(self.islands@, self.body_to_island@, static_seen@, contact_taken@ + joint_taken@, queue@, island_order(island)), body_idx, nc + j) == walk_pop(g, w1),
                    decreases nj - j,
                {
                    let ghost s2 = Bfs {
                        islands: self.islands@,
                        b2i: self.body_to_island@,
                        seen: static_seen@,
                        taken: contact_taken@ + joint_taken@,
                        queue: queue@,
                        isl: island,
                    };
                    let ghost p = nc + j;
                    let ghost wc = walk_of(self.islands@, self.body_to_island@, static_seen@, contact_taken@ + joint_taken@, queue@, island_order(island));
                    proof {
                        assert(g.edges[p] == joint_store.body_pairs@[j as int]);
                        assert(s2.taken[p] == joint_taken@[j as int]);
                        assert(g.joint_generations[j as int] == joint_store.generation@[j as int]);
                    }
                    let (a, b) = joint_store.body_pairs[j];
                    if a == body_idx || b == body_idx {
                        if !joint_taken[j] {
                            joint_taken.set(j, true);
                            let h = JointHandle::new(j as u32, joint_store.generation[j]);
                            island.joints.push(h);
                            proof {
                                assert(contact_taken@ + joint_taken@ =~= wc.taken.update(p, true));
                                assert(joint_slots(island) =~= wc.cur.joints.push(j as u32));
                                assert(island_order(island) =~= IslandOrder {
                                    joints: wc.cur.joints.push(j as u32),
                                    ..wc.cur
                                });
                                assert(contact_taken@ + joint_taken@ =~= s2.taken.update(p, true));
                                assert((p - nc) as u32 == j as u32);
                                lemma_take_joint(
                                    g,
                                    s2,
                                    seed,
                                    body_idx,
                                    p,
                                    Bfs {
                                        islands: self.islands@,
                                        b2i: self.body_to_island@,
                                        seen: static_seen@,
                                        taken: contact_taken@ + joint_taken@,
                                        queue: queue@,
                                        isl: island,
                                    },
                                    h,
                                );
                            }
                        } else {
                            proof {
                                lemma_taken_is_current(g, s2, seed, body_idx, p);
                            }
                        }
                        let other = if a == body_idx {
                            b
                        } else {
                            a
                        };
                        Self::visit(
                            Ghost(g),
                            Ghost(seed),
                            body_idx,
                            Ghost(p),
                            other,
                            island_idx,
                            body_type,
                            &mut self.body_to_island,
                            &mut static_seen,
                            &mut queue,
                            &mut island,
                            Ghost(contact_taken@ + joint_taken@),
                            Ghost(self.islands@),
                        );
                    } else {
                        proof {
                            lemma_advance(g, s2, seed, body_idx, p);
                        }
                    }
                    proof {
                        assert(walk_of(self.islands@, self.body_to_island@, static_seen@, contact_taken@ + joint_taken@, queue@, island_order(island)) == walk_edge(g, wc, body_idx, p));
                        assert(walk_edges(g, wc, body_idx, p) == walk_edges(
                            g,
                            walk_edge(g, wc, body_idx, p),
                            body_idx,
                            p + 1,
                        ));
                    }
                    j = j + 1;
                }
                proof {
                    lemma_finish_body(
                        g,
                        Bfs {
                            islands: self.islands@,
                            b2i: self.body_to_island@,
                            seen: static_seen@,
                            taken: contact_taken@ + joint_taken@,
                            queue: queue@,
                            isl: island,
                        },
                        seed,
                        body_idx,
                    );
                    let s3 = Bfs {
                        islands: self.islands@,
                        b2i: self.body_to_island@,
                        seen: static_seen@,
                        taken: contact_taken@ + joint_taken@,
                        queue: queue@,
                        isl: island,
                    };
                    lemma_bfs_reframe(g, s3, seed, body_idx);
                    lemma_distinct_bounded(island.bodies@, n as int);
                    assert(walk_of(self.islands@, self.body_to_island@, static_seen@, contact_taken@ + joint_taken@, queue@, island_order(island)) == walk_pop(g, w1));
                    assert(walk_drain(g, w1) == walk_drain(g, walk_of(self.islands@, self.body_to_island@, static_seen@, contact_taken@ + joint_taken@, queue@, island_order(island))));
                }
            }
            let ghost s4 = Bfs {
                islands: self.islands@,
                b2i: self.body_to_island@,
                seen: static_seen@,
                taken: contact_taken@ + joint_taken@,
                queue: queue@,
                isl: island,
            };
            let ghost islands_before = self.islands@;
            proof {
                assert(walk_drain(g, walk_of(self.islands@, self.body_to_island@, static_seen@, contact_taken@ + joint_taken@, queue@, island_order(island))) == walk_of(self.islands@, self.body_to_island@, static_seen@, contact_taken@ + joint_taken@, queue@, island_order(island)));
            }
            self.islands.push(island);
            proof {
                assert(self.islands@.map_values(|i: Island| island_order(i)) =~= islands_before.map_values(
                    |i: Island| island_order(i),
                ).push(island_order(island)));
                assert(walk_of(self.islands@, self.body_to_island@, static_seen@, contact_taken@ + joint_taken@, Seq::empty(), no_order()) =~= Walk { islands: d.islands.push(d.cur), cur: no_order(), ..d });
                lemma_finish_island(
                    g,
                    s4,
                    seed,
                    seed,
                    Bfs {
                        islands: self.islands@,
                        b2i: self.body_to_island@,
                        seen: static_seen@,
                        taken: contact_taken@ + joint_taken@,
                        queue: Seq::empty(),
                        isl: island0,
                    },
                );
            }
            i = i + 1;
        }
        proof {
            lemma_outer_final(
                g,
                Bfs {
                    islands: self.islands@,
                    b2i: self.body_to_island@,
                    seen: static_seen@,
                    taken: contact_taken@ + joint_taken@,
                    queue: Seq::empty(),
                    isl: island0,
                },
            );
            lemma_islands_bounded(g, self.islands@, self.body_to_island@);
            assert(walk_from(g, walk_of(self.islands@, self.body_to_island@, static_seen@, contact_taken@ + joint_taken@, Seq::empty(), no_order()), n as int) == walk_of(self.islands@, self.body_to_island@, static_seen@, contact_taken@ + joint_taken@, Seq::empty(), no_order()));
            assert(self.islands@.map_values(|i: Island| island_order(i)) == island_walk(g));
        }
        let ghost base = self.body_to_island@;
        let ghost built = self.islands@;
        let mut c: usize = 0;
        while c < nc
            invariant
                g == graph_of(body_type@, is_awake@, contacts@, *joint_store),
                n == body_type@.len(),
                nc == contacts@.len(),
                nj == joint_store.len,
                nj <= joint_store.body_pairs@.len(),
                c <= nc,
                inputs_ok(g),
                marked(g, base, self.body_to_island@, c as int),
                self.islands@ == built,
                components_valid(g, built, base),
                built.len() <= n,
            decreases nc - c,
        {
            let (a, b) = contacts[c];
            proof {
                assert(g.edges[c as int] == contacts@[c as int]);
            }
            self.mark_reached(Ghost(g), Ghost(base), Ghost(c as int), a, b, body_type);
            c = c + 1;
        }
        let mut j: usize = 0;
        while j < nj
            invariant
                g == graph_of(body_type@, is_awake@, contacts@, *joint_store),
                n == body_type@.len(),
                nc == contacts@.len(),
                nj == joint_store.len,
                nj <= joint_store.body_pairs@.len(),
                j <= nj,
                inputs_ok(g),
                marked(g, base, self.body_to_island@, nc + j),
                self.islands@ == built,
                components_valid(g, built, base),
                built.len() <= n,
            decreases nj - j,
        {
            let (a, b) = joint_store.body_pairs[j];
            proof {
                assert(g.edges[nc + j] == joint_store.body_pairs@.take(nj as int)[j as int]);
            }
            self.mark_reached(Ghost(g), Ghost(base), Ghost(nc + j), a, b, body_type);
            j = j + 1;
        }
        proof {
            lemma_marked_final(g, self.islands@, base, self.body_to_island@);
        }
    }

    /// Marks with `usize::MAX - 1` the static end of edge `p`, `(a, b)`,
    /// when its other end is a moving body with an island.
    fn mark_reached(
        &mut self,
        Ghost(g): Ghost<ConstraintGraph>,
        Ghost(base): Ghost<Seq<usize>>,
        Ghost(p): Ghost<int>,
        a: u32,
        b: u32,
        body_type: &Vec<BodyType>,
    )
        requires
            inputs_ok(g),
            g.types == body_type@,
            0 <= p < g.edges.len(),
            g.edges[p] == (a, b),
            marked(g, base, old(self).body_to_island@, p),
        ensures
            marked(g, base, final(self).body_to_island@, p + 1),
            final(self).islands@ == old(self).islands@,
    {
        let ghost before = self.body_to_island@;
        proof {
            assert(g.edges[p].0 < g.types.len() && g.edges[p].1 < g.types.len());
        }
        let a_static = body_type[a as usize] == BodyType::Static;
        let b_static = body_type[b as usize] == BodyType::Static;
        if a_static && !b_static && self.body_to_island[b as usize] != usize::MAX {
            self.body_to_island.set(a as usize, usize::MAX - 1);
        }
        if b_static && !a_static && self.body_to_island[a as usize] != usize::MAX {
            self.body_to_island.set(b as usize, usize::MAX - 1);
        }
        proof {
            lemma_mark_step(g, base, before, self.body_to_island@, p);
        }
    }

    /// Handles the endpoint `other` reached from the current body over edge
    /// `p`: an unplaced moving body joins the island and the queue, a static
    /// body not yet listed is listed.
    fn visit(
        Ghost(g): Ghost<ConstraintGraph>,
        Ghost(seed): Ghost<u32>,
        x: u32,
        Ghost(p): Ghost<int>,
        other: u32,
        island_idx: usize,
        body_type: &Vec<BodyType>,
        body_to_island: &mut Vec<usize>,
        static_seen: &mut Vec<usize>,
        queue: &mut VecDeque<u32>,
        island: &mut Island,
        Ghost(taken): Ghost<Seq<bool>>,
        Ghost(islands): Ghost<Seq<Island>>,
    )
        requires
            g.types == body_type@,
            islands.len() == island_idx,
            0 <= p < g.edges.len(),
            touches(g.edges[p], x),
            other == other_end(g.edges[p], x),
            in_cur(g, *old(island), p),
            bfs_inv(
                g,
                Bfs {
                    islands,
                    b2i: old(body_to_island)@,
                    seen: old(static_seen)@,
                    taken,
                    queue: old(queue)@,
                    isl: *old(island),
                },
                seed,
                x,
                p,
                true,
            ),
        ensures
            bfs_inv(
                g,
                Bfs {
                    islands,
                    b2i: final(body_to_island)@,
                    seen: final(static_seen)@,
                    taken,
                    queue: final(queue)@,
                    isl: *final(island),
                },
                seed,
                x,
                p + 1,
                true,
            ),
            final(island).bodies@.len() >= old(island).bodies@.len(),
            walk_of(
                islands,
                final(body_to_island)@,
                final(static_seen)@,
                taken,
                final(queue)@,
                island_order(*final(island)),
            ) == walk_visit(
                g,
                walk_of(
                    islands,
                    old(body_to_island)@,
                    old(static_seen)@,
                    taken,
                    old(queue)@,
                    island_order(*old(island)),
                ),
                other,
            ),
    {
        let ghost s = Bfs {
            islands,
            b2i: body_to_island@,
            seen: static_seen@,
            taken,
            queue: queue@,
            isl: *island,
        };
        proof {
            assert(other < g.types.len());
        }
        if body_type[other as usize] != BodyType::Static {
            if body_to_island[other as usize] == usize::MAX {
                body_to_island.set(other as usize, island_idx);
                queue.push_back(other);
                proof {
                    lemma_visit_moving(
                        g,
                        s,
                        seed,
                        x,
                        p,
                        Bfs {
                            islands,
                            b2i: body_to_island@,
                            seen: static_seen@,
                            taken,
                            queue: queue@,
                            isl: *island,
                        },
                    );
                }
            }
        } else {
            if static_seen[other as usize] != island_idx {
                static_seen.set(other as usize, island_idx);
                island.bodies.push(other);
                proof {
                    lemma_visit_static(
                        g,
                        s,
                        seed,
                        x,
                        p,
                        Bfs {
                            islands,
                            b2i: body_to_island@,
                            seen: static_seen@,
                            taken,
                            queue: queue@,
                            isl: *island,
                        },
                    );
                }
            }
        }
        proof {
            let s2 = Bfs {
                islands,
                b2i: body_to_island@,
                seen: static_seen@,
                taken,
                queue: queue@,
                isl: *island,
            };
            assert(in_cur(g, s2.isl, p));
            lemma_edge_done(g, s2, seed, x, p);
            lemma_advance(g, s2, seed, x, p);
        }
    }

    /// The island of body `body` (`usize::MAX` when it is in none).
    pub fn island_of(&self, body: usize) -> (r: usize)
        requires
            body < self.body_map().len(),
        ensures
            r == self.body_map()[body as int],
    {
        self.body_to_island[body]
    }

    /// The islands as last built, for updating in place.
    pub fn islands_mut(&mut self) -> (r: &mut [Island])
        ensures
            r@ == old(self).island_list(),
            final(self).island_list() == final(r)@,
            final(self).body_map() == old(self).body_map(),
    {
        self.islands.as_mut_slice()
    }

    /// The islands as last built.
    pub fn islands(&self) -> (r: &[Island])
        ensures
            r@ == self.island_list(),
    {
        self.islands.as_slice()
    }
}

impl Default for IslandManager {
    /// A manager with no islands.
    fn default() -> (m: Self)
        ensures
            m.island_list().len() == 0,
            m.body_map().len() == 0,
    {
        Self::new()
    }
}

} // verus!

verus! {

/// The working state of island construction.
struct Bfs {
    islands: Seq<Island>,
    b2i: Seq<usize>,
    seen: Seq<usize>,
    taken: Seq<bool>,
    queue: Seq<u32>,
    isl: Island,
}

/// An edge with a moving endpoint in an island built earlier than `cur`.
spec fn edge_before(g: ConstraintGraph, b2i: Seq<usize>, e: (u32, u32), cur: int) -> bool {
    (moving(g, e.0 as int) && b2i[e.0 as int] < cur) || (moving(g, e.1 as int) && b2i[e.1 as int]
        < cur)
}

/// Edge `e` is already listed in the island under construction.
spec fn in_cur(g: ConstraintGraph, isl: Island, e: int) -> bool {
    if e < g.num_contacts {
        isl.contacts@.contains(e as usize)
    } else {
        joint_slots(isl).contains((e - g.num_contacts) as u32)
    }
}

/// Edge `e`, seen from its endpoint `y`, has been handled: it is listed, and
/// its other endpoint is in the island under construction.
spec fn done(g: ConstraintGraph, s: Bfs, e: int, y: u32) -> bool {
    let z = other_end(g.edges[e], y);
    &&& in_cur(g, s.isl, e)
    &&& moving(g, z as int) ==> s.b2i[z as int] == s.islands.len()
    &&& !moving(g, z as int) ==> s.isl.bodies@.contains(z)
}

spec fn inputs_ok(g: ConstraintGraph) -> bool {
    &&& g.awake.len() == g.types.len()
    &&& g.types.len() <= u32::MAX
    &&& 0 <= g.num_contacts <= g.edges.len()
    &&& g.num_contacts <= usize::MAX
    &&& g.edges.len() - g.num_contacts <= u32::MAX
    &&& g.joint_generations.len() == g.edges.len() - g.num_contacts
    &&& forall|e: int|
        0 <= e < g.edges.len() ==> #[trigger] g.edges[e].0 < g.types.len() && g.edges[e].1
            < g.types.len()
}

/// What holds between islands, when bodies below `scan` have been considered.
spec fn outer_inv(g: ConstraintGraph, s: Bfs, scan: int) -> bool {
    let n = g.types.len();
    let cur = s.islands.len() as int;
    &&& inputs_ok(g)
    &&& s.b2i.len() == n
    &&& s.seen.len() == n
    &&& s.taken.len() == g.edges.len()
    &&& cur <= scan <= n
    &&& forall|b: int| 0 <= b < n ==> #[trigger] s.b2i[b] == usize::MAX || s.b2i[b] < cur
    &&& forall|b: int| 0 <= b < n && !moving(g, b) ==> #[trigger] s.b2i[b] == usize::MAX
    &&& forall|b: int| #[trigger] moving(g, b) && g.awake[b] && b < scan ==> s.b2i[b] != usize::MAX
    &&& forall|e: int|
        0 <= e < g.edges.len() && moving(g, g.edges[e].0 as int) && moving(g, g.edges[e].1 as int)
            ==> s.b2i[#[trigger] g.edges[e].0 as int] == s.b2i[g.edges[e].1 as int]
    &&& forall|k: int| 0 <= k < cur ==> island_ok(g, s.b2i, #[trigger] s.islands[k], k)
    &&& forall|k: int| 0 <= k < cur ==> #[trigger] s.islands[k].bodies@[0] < scan
    &&& forall|k1: int, k2: int|
        0 <= k1 < k2 < cur ==> #[trigger] s.islands[k1].bodies@[0]
            < #[trigger] s.islands[k2].bodies@[0]
    &&& forall|e: int|
        0 <= e < g.edges.len() ==> (#[trigger] s.taken[e] <==> edge_before(
            g,
            s.b2i,
            g.edges[e],
            cur,
        ))
    &&& forall|b: int|
        0 <= b < n && !moving(g, b) ==> #[trigger] s.seen[b] == usize::MAX || s.seen[b] < cur
}

/// What holds while island `s.islands.len()` grows from `seed`; when
/// `active`, body `x` is being processed and its edges below `p` are done.
spec fn bfs_inv(g: ConstraintGraph, s: Bfs, seed: u32, x: u32, p: int, active: bool) -> bool {
    let n = g.types.len();
    let cur = s.islands.len() as int;
    let nc = g.num_contacts;
    &&& inputs_ok(g)
    &&& s.b2i.len() == n
    &&& s.seen.len() == n
    &&& s.taken.len() == g.edges.len()
    &&& cur <= seed < n
    &&& forall|b: int| 0 <= b < n ==> #[trigger] s.b2i[b] == usize::MAX || s.b2i[b] <= cur
    &&& forall|b: int| 0 <= b < n && !moving(g, b) ==> #[trigger] s.b2i[b] == usize::MAX
    &&& forall|b: int|
        #[trigger] moving(g, b) && g.awake[b] && b < seed ==> s.b2i[b] != usize::MAX && s.b2i[b]
            < cur
    &&& forall|e: int|
        0 <= e < g.edges.len() && moving(g, g.edges[e].0 as int) && moving(g, g.edges[e].1 as int)
            && (s.b2i[g.edges[e].0 as int] < cur || s.b2i[g.edges[e].1 as int] < cur)
            ==> s.b2i[#[trigger] g.edges[e].0 as int] == s.b2i[g.edges[e].1 as int]
    &&& forall|k: int| 0 <= k < cur ==> island_ok(g, s.b2i, #[trigger] s.islands[k], k)
    &&& forall|k: int| 0 <= k < cur ==> #[trigger] s.islands[k].bodies@[0] < seed
    &&& forall|k1: int, k2: int|
        0 <= k1 < k2 < cur ==> #[trigger] s.islands[k1].bodies@[0]
            < #[trigger] s.islands[k2].bodies@[0]
    &&& forall|e: int|
        0 <= e < g.edges.len() ==> (#[trigger] s.taken[e] <==> (edge_before(
            g,
            s.b2i,
            g.edges[e],
            cur,
        ) || in_cur(g, s.isl, e)))
    &&& forall|b: int|
        0 <= b < n && !moving(g, b) ==> (#[trigger] s.seen[b] == usize::MAX || s.seen[b] <= cur)
            && (s.seen[b] == cur <==> s.isl.bodies@.contains(b as u32))
    &&& s.queue.no_duplicates()
    &&& forall|t: int|
        0 <= t < s.queue.len() ==> in_island(g, s.b2i, #[trigger] s.queue[t], cur)
            && !s.isl.bodies@.contains(s.queue[t])
    &&& forall|b: u32|
        #[trigger] in_island(g, s.b2i, b, cur) ==> s.isl.bodies@.contains(b) || s.queue.contains(b)
    &&& s.isl.bodies@.no_duplicates()
    &&& forall|t: int|
        0 <= t < s.isl.bodies@.len() ==> {
            let y = #[trigger] s.isl.bodies@[t];
            &&& y < n
            &&& moving(g, y as int) ==> s.b2i[y as int] == cur
            &&& !moving(g, y as int) ==> static_attached(g, s.b2i, cur, y)
        }
    &&& s.isl.contacts@.no_duplicates()
    &&& forall|t: int|
        0 <= t < s.isl.contacts@.len() ==> #[trigger] s.isl.contacts@[t] < nc && edge_in_island(
            g,
            s.b2i,
            g.edges[s.isl.contacts@[t] as int],
            cur,
        )
    &&& joint_slots(s.isl).no_duplicates()
    &&& forall|t: int|
        0 <= t < s.isl.joints@.len() ==> {
            let j = #[trigger] joint_slots(s.isl)[t];
            &&& j < g.edges.len() - nc
            &&& edge_in_island(g, s.b2i, g.edges[nc + j], cur)
            &&& s.isl.joints@[t].bits() == packed(j, g.joint_generations[j as int])
        }
    &&& forall|t: int, e: int|
        0 <= t < s.isl.bodies@.len() && 0 <= e < g.edges.len() && moving(
            g,
            s.isl.bodies@[t] as int,
        ) && !(active && s.isl.bodies@[t] == x) && touches(#[trigger] g.edges[e], #[trigger] s.isl.bodies@[t])
            ==> done(g, s, e, s.isl.bodies@[t])
    &&& active ==> {
        &&& s.isl.bodies@.contains(x)
        &&& in_island(g, s.b2i, x, cur)
        &&& 0 <= p <= g.edges.len()
        &&& forall|e: int| 0 <= e < p && touches(#[trigger] g.edges[e], x) ==> done(g, s, e, x)
    }
    &&& s.isl.bodies@.len() == 0 ==> s.queue == seq![seed]
    &&& s.isl.bodies@.len() > 0 ==> s.isl.bodies@[0] == seed
    &&& in_island(g, s.b2i, seed, cur)
    &&& g.awake[seed as int]
    &&& forall|b: u32| #[trigger] in_island(g, s.b2i, b, cur) ==> connected(g, seed, b)
    &&& !s.isl.is_sleeping
}

} // verus!

verus! {

proof fn lemma_connected_refl(g: ConstraintGraph, a: u32)
    requires
        moving(g, a as int),
    ensures
        connected(g, a, a),
{
    let p = seq![a];
    let via = Seq::<int>::empty();
    assert(is_walk(g, p, via));
}

proof fn lemma_connected_step(g: ConstraintGraph, a: u32, b: u32, c: u32, e: int)
    requires
        connected(g, a, b),
        0 <= e < g.edges.len(),
        links(g.edges[e], b, c),
        moving(g, c as int),
    ensures
        connected(g, a, c),
{
    let (p, via) = choose|p: Seq<u32>, via: Seq<int>| #[trigger]
        is_walk(g, p, via) && p[0] == a && p.last() == b;
    let p2 = p.push(c);
    let via2 = via.push(e);
    assert forall|k: int| 0 <= k < p2.len() implies #[trigger] moving(g, p2[k] as int) by {
        if k < p.len() {
            assert(p2[k] == p[k]);
        }
    }
    assert forall|k: int| 0 <= k < via2.len() implies 0 <= #[trigger] via2[k] < g.edges.len()
        && links(g.edges[via2[k]], p2[k], p2[k + 1]) by {
        if k < via.len() {
            assert(via2[k] == via[k]);
            assert(p2[k] == p[k] && p2[k + 1] == p[k + 1]);
        } else {
            assert(p2[k] == p.last());
        }
    }
    assert(is_walk(g, p2, via2));
    assert(p2[0] == a && p2.last() == c);
}

proof fn lemma_island_ok_stable(g: ConstraintGraph, b2i: Seq<usize>, b2i2: Seq<usize>, isl: Island, k: int)
    requires
        island_ok(g, b2i, isl, k),
        b2i.len() == b2i2.len(),
        b2i.len() == g.types.len(),
        forall|b: int| 0 <= b < b2i.len() ==> (#[trigger] b2i[b] == k) == (b2i2[b] == k),
    ensures
        island_ok(g, b2i2, isl, k),
{
    assert forall|x: u32| #[trigger] in_island(g, b2i2, x, k) == in_island(g, b2i, x, k) by {
        if moving(g, x as int) {
            assert((b2i[x as int] == k) == (b2i2[x as int] == k));
        }
    }
    assert forall|x: u32| #[trigger] static_attached(g, b2i2, k, x) == static_attached(g, b2i, k, x) by {
        if static_attached(g, b2i, k, x) {
            let e = choose|e: int|
                0 <= e < g.edges.len() && touches(g.edges[e], x) && #[trigger] in_island(
                    g,
                    b2i,
                    other_end(g.edges[e], x),
                    k,
                );
            assert(in_island(g, b2i2, other_end(g.edges[e], x), k));
        }
        if static_attached(g, b2i2, k, x) {
            let e = choose|e: int|
                0 <= e < g.edges.len() && touches(g.edges[e], x) && #[trigger] in_island(
                    g,
                    b2i2,
                    other_end(g.edges[e], x),
                    k,
                );
            assert(in_island(g, b2i, other_end(g.edges[e], x), k));
        }
    }
    assert forall|e: (u32, u32)| #[trigger] edge_in_island(g, b2i2, e, k) == edge_in_island(g, b2i, e, k) by {
        assert(in_island(g, b2i2, e.0, k) == in_island(g, b2i, e.0, k));
        assert(in_island(g, b2i2, e.1, k) == in_island(g, b2i, e.1, k));
    }
    let seed = isl.bodies@[0];
    assert(in_island(g, b2i2, seed, k) == in_island(g, b2i, seed, k));
    assert forall|t: int| 0 <= t < isl.bodies@.len() implies {
        let x = #[trigger] isl.bodies@[t];
        &&& x < g.types.len()
        &&& moving(g, x as int) ==> b2i2[x as int] == k
        &&& !moving(g, x as int) ==> static_attached(g, b2i2, k, x)
    } by {
        let x = isl.bodies@[t];
        if moving(g, x as int) {
            assert((b2i[x as int] == k) == (b2i2[x as int] == k));
        } else {
            assert(static_attached(g, b2i2, k, x) == static_attached(g, b2i, k, x));
        }
    }
    assert forall|c: usize|
        #[trigger] isl.contacts@.contains(c) <==> (c < g.num_contacts && edge_in_island(
            g,
            b2i2,
            g.edges[c as int],
            k,
        )) by {
        assert(edge_in_island(g, b2i2, g.edges[c as int], k) == edge_in_island(g, b2i, g.edges[c as int], k));
    }
    assert forall|j: u32|
        #[trigger] joint_slots(isl).contains(j) <==> (j < g.edges.len() - g.num_contacts
            && edge_in_island(g, b2i2, g.edges[g.num_contacts + j], k)) by {
        assert(edge_in_island(g, b2i2, g.edges[g.num_contacts + j], k) == edge_in_island(g, b2i, g.edges[g.num_contacts + j], k));
    }
}

proof fn lemma_outer_init(g: ConstraintGraph, s: Bfs)
    requires
        inputs_ok(g),
        s.islands.len() == 0,
        s.b2i == Seq::new(g.types.len(), |i: int| usize::MAX),
        s.seen == Seq::new(g.types.len(), |i: int| usize::MAX),
        s.taken == Seq::new(g.edges.len(), |i: int| false),
    ensures
        outer_inv(g, s, 0),
{
}

/// Static body `x` is joined by one of the first `p` edges to a moving body
/// that `base` puts in an island.
spec fn reached_before(g: ConstraintGraph, base: Seq<usize>, x: u32, p: int) -> bool {
    exists|e: int|
        0 <= e < p && touches(#[trigger] g.edges[e], x) && moving(g, other_end(g.edges[e], x) as int)
            && base[other_end(g.edges[e], x) as int] != usize::MAX
}

/// `cur` is `base` with the static bodies reached over the first `p` edges
/// marked `usize::MAX - 1`.
spec fn marked(g: ConstraintGraph, base: Seq<usize>, cur: Seq<usize>, p: int) -> bool {
    &&& base.len() == g.types.len()
    &&& cur.len() == g.types.len()
    &&& forall|b: int| 0 <= b < g.types.len() && !moving(g, b) ==> #[trigger] base[b] == usize::MAX
    &&& forall|b: int| 0 <= b < g.types.len() && moving(g, b) ==> #[trigger] cur[b] == base[b]
    &&& forall|b: int|
        0 <= b < g.types.len() && !moving(g, b) ==> #[trigger] cur[b] == (if reached_before(
            g,
            base,
            b as u32,
            p,
        ) {
            (usize::MAX - 1) as usize
        } else {
            usize::MAX
        })
}

proof fn lemma_mark_step(g: ConstraintGraph, base: Seq<usize>, cur: Seq<usize>, cur2: Seq<usize>, p: int)
    requires
        inputs_ok(g),
        0 <= p < g.edges.len(),
        marked(g, base, cur, p),
        cur2.len() == cur.len(),
        ({
            let (a, b) = g.edges[p];
            forall|x: int|
                0 <= x < cur.len() ==> #[trigger] cur2[x] == (if (x == a && !moving(g, a as int) && moving(
                    g,
                    b as int,
                ) && cur[b as int] != usize::MAX) || (x == b && !moving(g, b as int) && moving(
                    g,
                    a as int,
                ) && cur[a as int] != usize::MAX) {
                    (usize::MAX - 1) as usize
                } else {
                    cur[x]
                })
        }),
    ensures
        marked(g, base, cur2, p + 1),
{
    let (a, b) = g.edges[p];
    assert(g.edges[p].0 < g.types.len() && g.edges[p].1 < g.types.len());
    assert forall|x: int| 0 <= x < g.types.len() && !moving(g, x) implies #[trigger] cur2[x] == (if reached_before(
        g,
        base,
        x as u32,
        p + 1,
    ) {
        (usize::MAX - 1) as usize
    } else {
        usize::MAX
    }) by {
        let xu = x as u32;
        let here = touches(g.edges[p], xu) && moving(g, other_end(g.edges[p], xu) as int) && base[other_end(
            g.edges[p],
            xu,
        ) as int] != usize::MAX;
        if reached_before(g, base, xu, p) {
            let e = choose|e: int|
                0 <= e < p && touches(#[trigger] g.edges[e], xu) && moving(g, other_end(g.edges[e], xu) as int)
                    && base[other_end(g.edges[e], xu) as int] != usize::MAX;
            assert(reached_before(g, base, xu, p + 1));
        } else if here {
            assert(reached_before(g, base, xu, p + 1));
        } else {
            assert(!reached_before(g, base, xu, p + 1)) by {
                if reached_before(g, base, xu, p + 1) {
                    let e = choose|e: int|
                        0 <= e < p + 1 && touches(#[trigger] g.edges[e], xu) && moving(
                            g,
                            other_end(g.edges[e], xu) as int,
                        ) && base[other_end(g.edges[e], xu) as int] != usize::MAX;
                    if e < p {
                        assert(reached_before(g, base, xu, p));
                    }
                }
            }
        }
    }
}

/// Strictly increasing seeds below the number of bodies leave room for no
/// more islands than bodies.
proof fn lemma_islands_bounded(g: ConstraintGraph, islands: Seq<Island>, b2i: Seq<usize>)
    requires
        components_valid(g, islands, b2i),
    ensures
        islands.len() <= g.types.len(),
{
    if islands.len() > 0 {
        let last = islands.len() - 1;
        lemma_seed_at_least(g, islands, b2i, last);
        assert(island_ok(g, b2i, islands[last], last));
        assert(islands[last].bodies@[0] < g.types.len());
    }
}

/// With a static body `s` among the bodies, the seeds skip it, so there
/// are fewer islands than bodies.
proof fn lemma_islands_below_bodies(g: ConstraintGraph, islands: Seq<Island>, b2i: Seq<usize>, s: int)
    requires
        components_valid(g, islands, b2i),
        0 <= s < g.types.len(),
        !moving(g, s),
    ensures
        islands.len() < g.types.len(),
{
    if islands.len() > 0 {
        let last = islands.len() - 1;
        lemma_seed_skips(g, islands, b2i, s, last);
        assert(island_ok(g, b2i, islands[last], last));
        assert(islands[last].bodies@[0] < g.types.len());
    }
}

proof fn lemma_seed_skips(g: ConstraintGraph, islands: Seq<Island>, b2i: Seq<usize>, s: int, k: int)
    requires
        components_valid(g, islands, b2i),
        0 <= s < g.types.len(),
        !moving(g, s),
        0 <= k < islands.len(),
    ensures
        islands[k].bodies@[0] != s,
        islands[k].bodies@[0] >= k + (if islands[k].bodies@[0] > s {
            1int
        } else {
            0int
        }),
    decreases k,
{
    assert(island_ok(g, b2i, islands[k], k));
    assert(in_island(g, b2i, islands[k].bodies@[0], k));
    if k > 0 {
        lemma_seed_skips(g, islands, b2i, s, k - 1);
        assert(islands[k - 1].bodies@[0] < islands[k].bodies@[0]);
    }
}

proof fn lemma_seed_at_least(g: ConstraintGraph, islands: Seq<Island>, b2i: Seq<usize>, k: int)
    requires
        components_valid(g, islands, b2i),
        0 <= k < islands.len(),
    ensures
        islands[k].bodies@[0] >= k,
    decreases k,
{
    if k > 0 {
        lemma_seed_at_least(g, islands, b2i, k - 1);
        assert(islands[k - 1].bodies@[0] < islands[k].bodies@[0]);
    }
}

/// After every edge is looked at, the marks are those that `islands_valid`
/// asks for, and the components are untouched.
proof fn lemma_marked_final(g: ConstraintGraph, islands: Seq<Island>, base: Seq<usize>, cur: Seq<usize>)
    requires
        inputs_ok(g),
        components_valid(g, islands, base),
        islands.len() <= g.types.len(),
        g.types.len() <= u32::MAX,
        marked(g, base, cur, g.edges.len() as int),
    ensures
        islands_valid(g, islands, cur),
{
    assert forall|b: int| 0 <= b < cur.len() implies (#[trigger] base[b] == cur[b] || (base[b] == usize::MAX
        && cur[b] >= usize::MAX - 1)) by {
        if moving(g, b) {
        }
    }
    assert forall|k: int| 0 <= k < islands.len() implies island_ok(g, cur, #[trigger] islands[k], k) by {
        assert(island_ok(g, base, islands[k], k));
        assert forall|b: int| 0 <= b < base.len() implies (#[trigger] base[b] == k) == (cur[b] == k) by {
            assert(base[b] == cur[b] || (base[b] == usize::MAX && cur[b] >= usize::MAX - 1));
            assert(usize::MAX >= u32::MAX);
            if base[b] != cur[b] {
                lemma_islands_below_bodies(g, islands, base, b);
            }
        }
        lemma_island_ok_stable(g, base, cur, islands[k], k);
    }
    assert forall|b: int| 0 <= b < cur.len() && !moving(g, b) implies #[trigger] cur[b] == (if static_reached(
        g,
        cur,
        b as u32,
    ) {
        (usize::MAX - 1) as usize
    } else {
        usize::MAX
    }) by {
        let x = b as u32;
        if static_reached(g, cur, x) {
            let e = choose|e: int|
                0 <= e < g.edges.len() && touches(g.edges[e], x) && #[trigger] moving(
                    g,
                    other_end(g.edges[e], x) as int,
                ) && cur[other_end(g.edges[e], x) as int] != usize::MAX;
            assert(inputs_ok(g));
            assert(reached_before(g, base, x, g.edges.len() as int));
        }
        if reached_before(g, base, x, g.edges.len() as int) {
            let e = choose|e: int|
                0 <= e < g.edges.len() && touches(#[trigger] g.edges[e], x) && moving(
                    g,
                    other_end(g.edges[e], x) as int,
                ) && base[other_end(g.edges[e], x) as int] != usize::MAX;
            assert(static_reached(g, cur, x));
        }
    }
}

proof fn lemma_outer_final(g: ConstraintGraph, s: Bfs)
    requires
        outer_inv(g, s, g.types.len() as int),
    ensures
        components_valid(g, s.islands, s.b2i),
        forall|b: int| 0 <= b < g.types.len() && !moving(g, b) ==> #[trigger] s.b2i[b] == usize::MAX,
{
}

} // verus!

verus! {

proof fn lemma_outer_skip(g: ConstraintGraph, s: Bfs, scan: int)
    requires
        outer_inv(g, s, scan),
        scan < g.types.len(),
        !(moving(g, scan) && g.awake[scan] && s.b2i[scan] == usize::MAX),
    ensures
        outer_inv(g, s, scan + 1),
{
    assert forall|b: int| #[trigger] moving(g, b) && g.awake[b] && b < scan + 1 implies s.b2i[b]
        != usize::MAX by {
        if b < scan {
        }
    }
}

proof fn lemma_start_island(g: ConstraintGraph, s: Bfs, scan: int, s2: Bfs, x: u32)
    requires
        outer_inv(g, s, scan),
        scan < g.types.len(),
        moving(g, scan),
        g.awake[scan],
        s.b2i[scan] == usize::MAX,
        s2.islands == s.islands,
        s2.b2i == s.b2i.update(scan, s.islands.len() as usize),
        s2.seen == s.seen,
        s2.taken == s.taken,
        s2.queue == seq![scan as u32],
        s2.isl.bodies@.len() == 0,
        s2.isl.contacts@.len() == 0,
        s2.isl.joints@.len() == 0,
        !s2.isl.is_sleeping,
    ensures
        bfs_inv(g, s2, scan as u32, x, 0, false),
{
    let cur = s.islands.len() as int;
    let n = g.types.len();
    assert forall|k: int| 0 <= k < cur implies island_ok(g, s2.b2i, #[trigger] s2.islands[k], k) by {
        assert forall|b: int| 0 <= b < s.b2i.len() implies (#[trigger] s.b2i[b] == k) == (s2.b2i[b]
            == k) by {
            if b == scan {
            }
        }
        lemma_island_ok_stable(g, s.b2i, s2.b2i, s.islands[k], k);
    }
    assert forall|e: int|
        0 <= e < g.edges.len() implies (#[trigger] s2.taken[e] <==> (edge_before(
            g,
            s2.b2i,
            g.edges[e],
            cur,
        ) || in_cur(g, s2.isl, e))) by {
        assert(edge_before(g, s2.b2i, g.edges[e], cur) == edge_before(g, s.b2i, g.edges[e], cur));
        if e < g.num_contacts {
            assert(!s2.isl.contacts@.contains(e as usize));
        } else {
            assert(joint_slots(s2.isl).len() == 0);
            assert(!joint_slots(s2.isl).contains((e - g.num_contacts) as u32));
        }
    }
    assert forall|e: int|
        0 <= e < g.edges.len() && moving(g, g.edges[e].0 as int) && moving(g, g.edges[e].1 as int)
            && (s2.b2i[g.edges[e].0 as int] < cur || s2.b2i[g.edges[e].1 as int] < cur)
            implies s2.b2i[#[trigger] g.edges[e].0 as int] == s2.b2i[g.edges[e].1 as int] by {
        assert(s.b2i[g.edges[e].0 as int] == s.b2i[g.edges[e].1 as int]);
    }
    assert forall|b: u32| #[trigger] in_island(g, s2.b2i, b, cur) implies connected(g, scan as u32, b) by {
        if b as int != scan {
            assert(s.b2i[b as int] == s2.b2i[b as int]);
        }
        lemma_connected_refl(g, scan as u32);
    }
    assert forall|b: u32| #[trigger] in_island(g, s2.b2i, b, cur) implies s2.isl.bodies@.contains(b)
        || s2.queue.contains(b) by {
        if b as int != scan {
            assert(s.b2i[b as int] == s2.b2i[b as int]);
        } else {
            assert(s2.queue[0] == b);
        }
    }
    assert forall|b: int|
        0 <= b < n && !moving(g, b) implies (#[trigger] s2.seen[b] == usize::MAX || s2.seen[b] <= cur)
            && (s2.seen[b] == cur <==> s2.isl.bodies@.contains(b as u32)) by {
    }
    assert forall|b: int|
        #[trigger] moving(g, b) && g.awake[b] && b < scan implies s2.b2i[b] != usize::MAX
            && s2.b2i[b] < cur by {
    }
    assert(s2.queue.no_duplicates());
}

} // verus!

verus! {

/// Growing the island under construction keeps handled edges handled.
proof fn lemma_done_grows(g: ConstraintGraph, s: Bfs, s2: Bfs, e: int, y: u32)
    requires
        done(g, s, e, y),
        s2.islands.len() == s.islands.len(),
        s.b2i.len() == s2.b2i.len(),
        forall|b: int| 0 <= b < s.b2i.len() && s.b2i[b] == s.islands.len() ==> #[trigger] s2.b2i[b] == s.islands.len(),
        forall|c: usize| #[trigger] s.isl.contacts@.contains(c) ==> s2.isl.contacts@.contains(c),
        forall|j: u32| #[trigger] joint_slots(s.isl).contains(j) ==> joint_slots(s2.isl).contains(j),
        forall|b: u32| #[trigger] s.isl.bodies@.contains(b) ==> s2.isl.bodies@.contains(b),
        0 <= e < g.edges.len(),
        inputs_ok(g),
        s.b2i.len() == g.types.len(),
    ensures
        done(g, s2, e, y),
{
    let z = other_end(g.edges[e], y);
    if e < g.num_contacts {
        assert(s.isl.contacts@.contains(e as usize));
    } else {
        assert(joint_slots(s.isl).contains((e - g.num_contacts) as u32));
    }
    if moving(g, z as int) {
        assert(s2.b2i[z as int] == s.islands.len());
    } else {
        assert(s.isl.bodies@.contains(z));
    }
}

proof fn lemma_pop(g: ConstraintGraph, s: Bfs, seed: u32, x0: u32, p0: int, s2: Bfs)
    requires
        bfs_inv(g, s, seed, x0, p0, false),
        s.queue.len() > 0,
        s2.islands == s.islands,
        s2.b2i == s.b2i,
        s2.seen == s.seen,
        s2.taken == s.taken,
        s2.queue == s.queue.drop_first(),
        s2.isl.bodies@ == s.isl.bodies@.push(s.queue[0]),
        s2.isl.contacts@ == s.isl.contacts@,
        s2.isl.joints@ == s.isl.joints@,
        s2.isl.is_sleeping == s.isl.is_sleeping,
    ensures
        bfs_inv(g, s2, seed, s.queue[0], 0, true),
{
    let y = s.queue[0];
    let cur = s.islands.len() as int;
    let n = g.types.len();
    assert(joint_slots(s2.isl) =~= joint_slots(s.isl));
    assert forall|b: u32| #[trigger] s.isl.bodies@.contains(b) implies s2.isl.bodies@.contains(b) by {
        let t = choose|t: int| 0 <= t < s.isl.bodies@.len() && s.isl.bodies@[t] == b;
        assert(s2.isl.bodies@[t] == b);
    }
    assert forall|b: u32| #[trigger] s2.isl.bodies@.contains(b) implies s.isl.bodies@.contains(b) || b == y by {
        let t = choose|t: int| 0 <= t < s2.isl.bodies@.len() && s2.isl.bodies@[t] == b;
        if t < s.isl.bodies@.len() {
            assert(s.isl.bodies@[t] == b);
        }
    }
    assert(in_island(g, s.b2i, y, cur));
    assert(!s.isl.bodies@.contains(y));
    assert forall|t: int, e: int|
        0 <= t < s2.isl.bodies@.len() && 0 <= e < g.edges.len() && moving(
            g,
            s2.isl.bodies@[t] as int,
        ) && !(true && s2.isl.bodies@[t] == y) && touches(#[trigger] g.edges[e], #[trigger] s2.isl.bodies@[t])
            implies done(g, s2, e, s2.isl.bodies@[t]) by {
        assert(t < s.isl.bodies@.len());
        assert(s2.isl.bodies@[t] == s.isl.bodies@[t]);
        assert(done(g, s, e, s.isl.bodies@[t]));
        lemma_done_grows(g, s, s2, e, s.isl.bodies@[t]);
    }
    assert forall|t: int| 0 <= t < s2.queue.len() implies in_island(g, s2.b2i, #[trigger] s2.queue[t], cur)
        && !s2.isl.bodies@.contains(s2.queue[t]) by {
        assert(s2.queue[t] == s.queue[t + 1]);
        assert(s.queue[t + 1] != s.queue[0]);
    }
    assert forall|b: u32| #[trigger] in_island(g, s2.b2i, b, cur) implies s2.isl.bodies@.contains(b)
        || s2.queue.contains(b) by {
        if s.queue.contains(b) && b != y {
            let t = choose|t: int| 0 <= t < s.queue.len() && s.queue[t] == b;
            assert(s2.queue[t - 1] == b);
        }
        if b == y {
            assert(s2.isl.bodies@[s2.isl.bodies@.len() - 1] == b);
        }
    }
    assert forall|b: int|
        0 <= b < n && !moving(g, b) implies (#[trigger] s2.seen[b] == usize::MAX || s2.seen[b] <= cur)
            && (s2.seen[b] == cur <==> s2.isl.bodies@.contains(b as u32)) by {
        if s2.isl.bodies@.contains(b as u32) {
            assert(b as u32 != y);
        }
    }
    assert forall|e: int|
        0 <= e < g.edges.len() implies (#[trigger] s2.taken[e] <==> (edge_before(
            g,
            s2.b2i,
            g.edges[e],
            cur,
        ) || in_cur(g, s2.isl, e))) by {
        assert(in_cur(g, s2.isl, e) == in_cur(g, s.isl, e));
    }
    assert(s2.queue.no_duplicates());
    assert(s2.isl.bodies@.no_duplicates());
    if s.isl.bodies@.len() == 0 {
        assert(y == seed);
    } else {
        assert(s2.isl.bodies@[0] == s.isl.bodies@[0]);
    }
    assert(s2.isl.bodies@.contains(y)) by {
        assert(s2.isl.bodies@[s2.isl.bodies@.len() - 1] == y);
    }
}

} // verus!

verus! {

proof fn lemma_static_attached_grows(g: ConstraintGraph, b2i: Seq<usize>, b2i2: Seq<usize>, k: int, w: u32)
    requires
        static_attached(g, b2i, k, w),
        b2i.len() == b2i2.len(),
        b2i.len() == g.types.len(),
        forall|b: int| 0 <= b < b2i.len() && b2i[b] == k ==> #[trigger] b2i2[b] == k,
    ensures
        static_attached(g, b2i2, k, w),
{
    let e = choose|e: int|
        0 <= e < g.edges.len() && touches(g.edges[e], w) && #[trigger] in_island(
            g,
            b2i,
            other_end(g.edges[e], w),
            k,
        );
    let z = other_end(g.edges[e], w);
    assert(b2i2[z as int] == k);
    assert(in_island(g, b2i2, z, k));
}

/// An edge from the current body that was taken before belongs to the island
/// under construction, never to an earlier one.
proof fn lemma_taken_is_current(g: ConstraintGraph, s: Bfs, seed: u32, x: u32, p: int)
    requires
        bfs_inv(g, s, seed, x, p, true),
        p < g.edges.len(),
        touches(g.edges[p], x),
        s.taken[p],
    ensures
        in_cur(g, s.isl, p),
{
    let cur = s.islands.len() as int;
    let e = g.edges[p];
    if edge_before(g, s.b2i, e, cur) {
        assert(s.b2i[e.0 as int] == s.b2i[e.1 as int]);
    }
}

/// An endpoint across an edge from the current body is never in an earlier
/// island.
proof fn lemma_other_not_before(g: ConstraintGraph, s: Bfs, seed: u32, x: u32, p: int)
    requires
        bfs_inv(g, s, seed, x, p, true),
        p < g.edges.len(),
        touches(g.edges[p], x),
        moving(g, other_end(g.edges[p], x) as int),
    ensures
        s.b2i[other_end(g.edges[p], x) as int] == usize::MAX || s.b2i[other_end(g.edges[p], x) as int]
            == s.islands.len(),
{
    let e = g.edges[p];
    let y = other_end(e, x);
    if s.b2i[y as int] != usize::MAX && s.b2i[y as int] < s.islands.len() {
        assert(s.b2i[e.0 as int] == s.b2i[e.1 as int]);
    }
}

proof fn lemma_take_contact(g: ConstraintGraph, s: Bfs, seed: u32, x: u32, p: int, s2: Bfs)
    requires
        bfs_inv(g, s, seed, x, p, true),
        p < g.num_contacts,
        touches(g.edges[p], x),
        !s.taken[p],
        s2.islands == s.islands,
        s2.b2i == s.b2i,
        s2.seen == s.seen,
        s2.taken == s.taken.update(p, true),
        s2.queue == s.queue,
        s2.isl.bodies@ == s.isl.bodies@,
        s2.isl.contacts@ == s.isl.contacts@.push(p as usize),
        s2.isl.joints@ == s.isl.joints@,
        s2.isl.is_sleeping == s.isl.is_sleeping,
    ensures
        bfs_inv(g, s2, seed, x, p, true),
        in_cur(g, s2.isl, p),
{
    let cur = s.islands.len() as int;
    assert(joint_slots(s2.isl) =~= joint_slots(s.isl));
    assert(!in_cur(g, s.isl, p));
    assert(s2.isl.contacts@[s2.isl.contacts@.len() - 1] == p as usize);
    assert forall|c: usize| #[trigger] s2.isl.contacts@.contains(c) <==> (s.isl.contacts@.contains(c)
        || c == p as usize) by {
        if s2.isl.contacts@.contains(c) && c != p as usize {
            let t = choose|t: int| 0 <= t < s2.isl.contacts@.len() && s2.isl.contacts@[t] == c;
            assert(s.isl.contacts@[t] == c);
        }
        if s.isl.contacts@.contains(c) {
            let t = choose|t: int| 0 <= t < s.isl.contacts@.len() && s.isl.contacts@[t] == c;
            assert(s2.isl.contacts@[t] == c);
        }
    }
    assert forall|e: int|
        0 <= e < g.edges.len() implies (#[trigger] s2.taken[e] <==> (edge_before(
            g,
            s2.b2i,
            g.edges[e],
            cur,
        ) || in_cur(g, s2.isl, e))) by {
        if e != p && e < g.num_contacts {
            assert(s2.isl.contacts@.contains(e as usize) == s.isl.contacts@.contains(e as usize));
        }
    }
    assert(edge_in_island(g, s.b2i, g.edges[p], cur));
    assert forall|t: int|
        0 <= t < s2.isl.contacts@.len() implies #[trigger] s2.isl.contacts@[t] < g.num_contacts
            && edge_in_island(g, s2.b2i, g.edges[s2.isl.contacts@[t] as int], cur) by {
        if t < s.isl.contacts@.len() {
            assert(s2.isl.contacts@[t] == s.isl.contacts@[t]);
        }
    }
    assert forall|t: int, e: int|
        0 <= t < s2.isl.bodies@.len() && 0 <= e < g.edges.len() && moving(
            g,
            s2.isl.bodies@[t] as int,
        ) && !(true && s2.isl.bodies@[t] == x) && touches(#[trigger] g.edges[e], #[trigger] s2.isl.bodies@[t])
            implies done(g, s2, e, s2.isl.bodies@[t]) by {
        lemma_done_grows(g, s, s2, e, s.isl.bodies@[t]);
    }
    assert forall|e: int| 0 <= e < p && touches(#[trigger] g.edges[e], x) implies done(g, s2, e, x) by {
        lemma_done_grows(g, s, s2, e, x);
    }
}

proof fn lemma_take_joint(
    g: ConstraintGraph,
    s: Bfs,
    seed: u32,
    x: u32,
    p: int,
    s2: Bfs,
    h: JointHandle,
)
    requires
        bfs_inv(g, s, seed, x, p, true),
        g.num_contacts <= p < g.edges.len(),
        touches(g.edges[p], x),
        !s.taken[p],
        packed_slot(h.bits()) == (p - g.num_contacts) as u32,
        h.bits() == packed((p - g.num_contacts) as u32, g.joint_generations[p - g.num_contacts]),
        s2.islands == s.islands,
        s2.b2i == s.b2i,
        s2.seen == s.seen,
        s2.taken == s.taken.update(p, true),
        s2.queue == s.queue,
        s2.isl.bodies@ == s.isl.bodies@,
        s2.isl.contacts@ == s.isl.contacts@,
        s2.isl.joints@ == s.isl.joints@.push(h),
        s2.isl.is_sleeping == s.isl.is_sleeping,
    ensures
        bfs_inv(g, s2, seed, x, p, true),
        in_cur(g, s2.isl, p),
{
    let cur = s.islands.len() as int;
    let nc = g.num_contacts;
    let j = (p - nc) as u32;
    assert(g.types.len() <= u32::MAX);
    assert(joint_slots(s2.isl) =~= joint_slots(s.isl).push(j));
    assert(!in_cur(g, s.isl, p));
    assert(joint_slots(s2.isl)[joint_slots(s2.isl).len() - 1] == j);
    assert forall|i: u32| #[trigger] joint_slots(s2.isl).contains(i) <==> (joint_slots(s.isl).contains(i)
        || i == j) by {
        if joint_slots(s2.isl).contains(i) && i != j {
            let t = choose|t: int| 0 <= t < joint_slots(s2.isl).len() && joint_slots(s2.isl)[t] == i;
            assert(joint_slots(s.isl)[t] == i);
        }
        if joint_slots(s.isl).contains(i) {
            let t = choose|t: int| 0 <= t < joint_slots(s.isl).len() && joint_slots(s.isl)[t] == i;
            assert(joint_slots(s2.isl)[t] == i);
        }
    }
    assert forall|e: int|
        0 <= e < g.edges.len() implies (#[trigger] s2.taken[e] <==> (edge_before(
            g,
            s2.b2i,
            g.edges[e],
            cur,
        ) || in_cur(g, s2.isl, e))) by {
        if e != p && e >= nc {
            assert(joint_slots(s2.isl).contains((e - nc) as u32) == joint_slots(s.isl).contains((e - nc) as u32));
        }
    }
    assert(edge_in_island(g, s.b2i, g.edges[p], cur));
    assert(nc + j == p);
    assert forall|t: int| 0 <= t < s2.isl.joints@.len() implies {
        let i = #[trigger] joint_slots(s2.isl)[t];
        &&& i < g.edges.len() - nc
        &&& edge_in_island(g, s2.b2i, g.edges[nc + i], cur)
        &&& s2.isl.joints@[t].bits() == packed(i, g.joint_generations[i as int])
    } by {
        if t < s.isl.joints@.len() {
            assert(joint_slots(s2.isl)[t] == joint_slots(s.isl)[t]);
            assert(s2.isl.joints@[t] == s.isl.joints@[t]);
        }
    }
    assert forall|t: int, e: int|
        0 <= t < s2.isl.bodies@.len() && 0 <= e < g.edges.len() && moving(
            g,
            s2.isl.bodies@[t] as int,
        ) && !(true && s2.isl.bodies@[t] == x) && touches(#[trigger] g.edges[e], #[trigger] s2.isl.bodies@[t])
            implies done(g, s2, e, s2.isl.bodies@[t]) by {
        lemma_done_grows(g, s, s2, e, s.isl.bodies@[t]);
    }
    assert forall|e: int| 0 <= e < p && touches(#[trigger] g.edges[e], x) implies done(g, s2, e, x) by {
        lemma_done_grows(g, s, s2, e, x);
    }
}

} // verus!

verus! {

proof fn lemma_visit_moving(g: ConstraintGraph, s: Bfs, seed: u32, x: u32, p: int, s2: Bfs)
    requires
        bfs_inv(g, s, seed, x, p, true),
        p < g.edges.len(),
        touches(g.edges[p], x),
        moving(g, other_end(g.edges[p], x) as int),
        s.b2i[other_end(g.edges[p], x) as int] == usize::MAX,
        s2.islands == s.islands,
        s2.b2i == s.b2i.update(other_end(g.edges[p], x) as int, s.islands.len() as usize),
        s2.seen == s.seen,
        s2.taken == s.taken,
        s2.queue == s.queue.push(other_end(g.edges[p], x)),
        s2.isl == s.isl,
    ensures
        bfs_inv(g, s2, seed, x, p, true),
{
    let cur = s.islands.len() as int;
    let n = g.types.len();
    let y = other_end(g.edges[p], x);
    assert(links(g.edges[p], x, y));
    assert forall|b: int| 0 <= b < s.b2i.len() && s.b2i[b] == cur implies #[trigger] s2.b2i[b] == cur by {
        if b == y as int {
        }
    }
    assert forall|k: int| 0 <= k < cur implies island_ok(g, s2.b2i, #[trigger] s2.islands[k], k) by {
        assert forall|b: int| 0 <= b < s.b2i.len() implies (#[trigger] s.b2i[b] == k) == (s2.b2i[b]
            == k) by {
            if b == y as int {
            }
        }
        lemma_island_ok_stable(g, s.b2i, s2.b2i, s.islands[k], k);
    }
    assert forall|e: int|
        0 <= e < g.edges.len() && moving(g, g.edges[e].0 as int) && moving(g, g.edges[e].1 as int)
            && (s2.b2i[g.edges[e].0 as int] < cur || s2.b2i[g.edges[e].1 as int] < cur)
            implies s2.b2i[#[trigger] g.edges[e].0 as int] == s2.b2i[g.edges[e].1 as int] by {
        assert(s.b2i[g.edges[e].0 as int] == s.b2i[g.edges[e].1 as int]);
    }
    assert forall|e: int|
        0 <= e < g.edges.len() implies (#[trigger] s2.taken[e] <==> (edge_before(
            g,
            s2.b2i,
            g.edges[e],
            cur,
        ) || in_cur(g, s2.isl, e))) by {
        assert(edge_before(g, s2.b2i, g.edges[e], cur) == edge_before(g, s.b2i, g.edges[e], cur));
    }
    assert(!s.queue.contains(y));
    assert(!s.isl.bodies@.contains(y));
    assert forall|t: int| 0 <= t < s2.queue.len() implies in_island(g, s2.b2i, #[trigger] s2.queue[t], cur)
        && !s2.isl.bodies@.contains(s2.queue[t]) by {
        if t < s.queue.len() {
            assert(s2.queue[t] == s.queue[t]);
        }
    }
    assert forall|b: u32| #[trigger] in_island(g, s2.b2i, b, cur) implies s2.isl.bodies@.contains(b)
        || s2.queue.contains(b) by {
        if b == y {
            assert(s2.queue[s2.queue.len() - 1] == y);
        } else {
            assert(in_island(g, s.b2i, b, cur));
            if s.queue.contains(b) {
                let t = choose|t: int| 0 <= t < s.queue.len() && s.queue[t] == b;
                assert(s2.queue[t] == b);
            }
        }
    }
    assert forall|t: int| 0 <= t < s2.isl.bodies@.len() implies {
        let w = #[trigger] s2.isl.bodies@[t];
        &&& w < n
        &&& moving(g, w as int) ==> s2.b2i[w as int] == cur
        &&& !moving(g, w as int) ==> static_attached(g, s2.b2i, cur, w)
    } by {
        let w = s2.isl.bodies@[t];
        if !moving(g, w as int) {
            lemma_static_attached_grows(g, s.b2i, s2.b2i, cur, w);
        }
    }
    assert forall|t: int|
        0 <= t < s2.isl.contacts@.len() implies #[trigger] s2.isl.contacts@[t] < g.num_contacts
            && edge_in_island(g, s2.b2i, g.edges[s2.isl.contacts@[t] as int], cur) by {
        let e = g.edges[s.isl.contacts@[t] as int];
        assert(in_island(g, s.b2i, e.0, cur) ==> in_island(g, s2.b2i, e.0, cur));
        assert(in_island(g, s.b2i, e.1, cur) ==> in_island(g, s2.b2i, e.1, cur));
    }
    assert forall|t: int| 0 <= t < s2.isl.joints@.len() implies {
        let j = #[trigger] joint_slots(s2.isl)[t];
        &&& j < g.edges.len() - g.num_contacts
        &&& edge_in_island(g, s2.b2i, g.edges[g.num_contacts + j], cur)
        &&& s2.isl.joints@[t].bits() == packed(j, g.joint_generations[j as int])
    } by {
        let e = g.edges[g.num_contacts + joint_slots(s.isl)[t]];
        assert(in_island(g, s.b2i, e.0, cur) ==> in_island(g, s2.b2i, e.0, cur));
        assert(in_island(g, s.b2i, e.1, cur) ==> in_island(g, s2.b2i, e.1, cur));
    }
    assert forall|t: int, e: int|
        0 <= t < s2.isl.bodies@.len() && 0 <= e < g.edges.len() && moving(
            g,
            s2.isl.bodies@[t] as int,
        ) && !(true && s2.isl.bodies@[t] == x) && touches(#[trigger] g.edges[e], #[trigger] s2.isl.bodies@[t])
            implies done(g, s2, e, s2.isl.bodies@[t]) by {
        lemma_done_grows(g, s, s2, e, s.isl.bodies@[t]);
    }
    assert forall|e: int| 0 <= e < p && touches(#[trigger] g.edges[e], x) implies done(g, s2, e, x) by {
        lemma_done_grows(g, s, s2, e, x);
    }
    assert forall|b: u32| #[trigger] in_island(g, s2.b2i, b, cur) implies connected(g, seed, b) by {
        if b == y {
            assert(in_island(g, s.b2i, x, cur));
            lemma_connected_step(g, seed, x, y, p);
        } else {
            assert(in_island(g, s.b2i, b, cur));
        }
    }
    assert(s2.queue.no_duplicates());
    assert(in_island(g, s2.b2i, seed, cur));
    assert(in_island(g, s2.b2i, x, cur));
    assert forall|b: int|
        #[trigger] moving(g, b) && g.awake[b] && b < seed implies s2.b2i[b] != usize::MAX
            && s2.b2i[b] < cur by {
    }
}

proof fn lemma_visit_static(g: ConstraintGraph, s: Bfs, seed: u32, x: u32, p: int, s2: Bfs)
    requires
        bfs_inv(g, s, seed, x, p, true),
        p < g.edges.len(),
        touches(g.edges[p], x),
        !moving(g, other_end(g.edges[p], x) as int),
        s.seen[other_end(g.edges[p], x) as int] != s.islands.len(),
        s2.islands == s.islands,
        s2.b2i == s.b2i,
        s2.seen == s.seen.update(other_end(g.edges[p], x) as int, s.islands.len() as usize),
        s2.taken == s.taken,
        s2.queue == s.queue,
        s2.isl.bodies@ == s.isl.bodies@.push(other_end(g.edges[p], x)),
        s2.isl.contacts@ == s.isl.contacts@,
        s2.isl.joints@ == s.isl.joints@,
        s2.isl.is_sleeping == s.isl.is_sleeping,
    ensures
        bfs_inv(g, s2, seed, x, p, true),
{
    let cur = s.islands.len() as int;
    let n = g.types.len();
    let y = other_end(g.edges[p], x);
    assert(y < n);
    assert(joint_slots(s2.isl) =~= joint_slots(s.isl));
    assert(!s.isl.bodies@.contains(y));
    assert forall|b: u32| #[trigger] s.isl.bodies@.contains(b) implies s2.isl.bodies@.contains(b) by {
        let t = choose|t: int| 0 <= t < s.isl.bodies@.len() && s.isl.bodies@[t] == b;
        assert(s2.isl.bodies@[t] == b);
    }
    assert forall|b: u32| #[trigger] s2.isl.bodies@.contains(b) implies s.isl.bodies@.contains(b) || b == y by {
        let t = choose|t: int| 0 <= t < s2.isl.bodies@.len() && s2.isl.bodies@[t] == b;
        if t < s.isl.bodies@.len() {
            assert(s.isl.bodies@[t] == b);
        }
    }
    assert(s2.isl.bodies@[s2.isl.bodies@.len() - 1] == y);
    assert(other_end(g.edges[p], y) == x);
    assert(in_island(g, s.b2i, x, cur));
    assert(static_attached(g, s.b2i, cur, y));
    assert forall|b: int|
        0 <= b < n && !moving(g, b) implies (#[trigger] s2.seen[b] == usize::MAX || s2.seen[b] <= cur)
            && (s2.seen[b] == cur <==> s2.isl.bodies@.contains(b as u32)) by {
        if b != y as int {
            assert(s2.isl.bodies@.contains(b as u32) == s.isl.bodies@.contains(b as u32));
        }
    }
    assert forall|t: int| 0 <= t < s2.queue.len() implies in_island(g, s2.b2i, #[trigger] s2.queue[t], cur)
        && !s2.isl.bodies@.contains(s2.queue[t]) by {
    }
    assert forall|t: int, e: int|
        0 <= t < s2.isl.bodies@.len() && 0 <= e < g.edges.len() && moving(
            g,
            s2.isl.bodies@[t] as int,
        ) && !(true && s2.isl.bodies@[t] == x) && touches(#[trigger] g.edges[e], #[trigger] s2.isl.bodies@[t])
            implies done(g, s2, e, s2.isl.bodies@[t]) by {
        assert(t < s.isl.bodies@.len());
        assert(s2.isl.bodies@[t] == s.isl.bodies@[t]);
        lemma_done_grows(g, s, s2, e, s.isl.bodies@[t]);
    }
    assert forall|e: int| 0 <= e < p && touches(#[trigger] g.edges[e], x) implies done(g, s2, e, x) by {
        lemma_done_grows(g, s, s2, e, x);
    }
    assert forall|e: int|
        0 <= e < g.edges.len() implies (#[trigger] s2.taken[e] <==> (edge_before(
            g,
            s2.b2i,
            g.edges[e],
            cur,
        ) || in_cur(g, s2.isl, e))) by {
        assert(in_cur(g, s2.isl, e) == in_cur(g, s.isl, e));
    }
    assert forall|b: u32| #[trigger] in_island(g, s2.b2i, b, cur) implies s2.isl.bodies@.contains(b)
        || s2.queue.contains(b) by {
    }
    assert(s2.isl.bodies@.no_duplicates());
    assert(s2.isl.bodies@[0] == seed);
}

proof fn lemma_edge_done(g: ConstraintGraph, s: Bfs, seed: u32, x: u32, p: int)
    requires
        bfs_inv(g, s, seed, x, p, true),
        p < g.edges.len(),
        touches(g.edges[p], x),
        in_cur(g, s.isl, p),
        moving(g, other_end(g.edges[p], x) as int) ==> s.b2i[other_end(g.edges[p], x) as int] != usize::MAX,
        !moving(g, other_end(g.edges[p], x) as int) ==> s.seen[other_end(g.edges[p], x) as int]
            == s.islands.len(),
    ensures
        done(g, s, p, x),
{
    let y = other_end(g.edges[p], x);
    assert(y < g.types.len());
    if moving(g, y as int) {
        lemma_other_not_before(g, s, seed, x, p);
    }
}

proof fn lemma_advance(g: ConstraintGraph, s: Bfs, seed: u32, x: u32, p: int)
    requires
        bfs_inv(g, s, seed, x, p, true),
        p < g.edges.len(),
        touches(g.edges[p], x) ==> done(g, s, p, x),
    ensures
        bfs_inv(g, s, seed, x, p + 1, true),
{
}

proof fn lemma_finish_body(g: ConstraintGraph, s: Bfs, seed: u32, x: u32)
    requires
        bfs_inv(g, s, seed, x, g.edges.len() as int, true),
    ensures
        bfs_inv(g, s, seed, x, 0, false),
{
    assert forall|t: int, e: int|
        0 <= t < s.isl.bodies@.len() && 0 <= e < g.edges.len() && moving(
            g,
            s.isl.bodies@[t] as int,
        ) && !(false && s.isl.bodies@[t] == x) && touches(#[trigger] g.edges[e], #[trigger] s.isl.bodies@[t])
            implies done(g, s, e, s.isl.bodies@[t]) by {
        if s.isl.bodies@[t] == x {
        }
    }
}

} // verus!

verus! {

/// A finished island lists exactly the edges with an endpoint in it.
proof fn lemma_finished_edges(g: ConstraintGraph, s: Bfs, seed: u32, x: u32, e: int)
    requires
        bfs_inv(g, s, seed, x, 0, false),
        s.queue.len() == 0,
        0 <= e < g.edges.len(),
    ensures
        in_cur(g, s.isl, e) <==> edge_in_island(g, s.b2i, g.edges[e], s.islands.len() as int),
{
    let cur = s.islands.len() as int;
    let nc = g.num_contacts;
    let ed = g.edges[e];
    if edge_in_island(g, s.b2i, ed, cur) {
        let z = if in_island(g, s.b2i, ed.0, cur) {
            ed.0
        } else {
            ed.1
        };
        assert(in_island(g, s.b2i, z, cur));
        assert(s.isl.bodies@.contains(z));
        let t = choose|t: int| 0 <= t < s.isl.bodies@.len() && s.isl.bodies@[t] == z;
        assert(touches(g.edges[e], s.isl.bodies@[t]));
        assert(done(g, s, e, z));
    }
    if in_cur(g, s.isl, e) {
        if e < nc {
            let t = choose|t: int| 0 <= t < s.isl.contacts@.len() && s.isl.contacts@[t] == e as usize;
            assert(edge_in_island(g, s.b2i, g.edges[s.isl.contacts@[t] as int], cur));
        } else {
            let j = (e - nc) as u32;
            let t = choose|t: int| 0 <= t < joint_slots(s.isl).len() && joint_slots(s.isl)[t] == j;
            assert(t < s.isl.joints@.len());
            assert(edge_in_island(g, s.b2i, g.edges[nc + joint_slots(s.isl)[t]], cur));
            assert(nc + j == e);
        }
    }
}

proof fn lemma_finish_island(g: ConstraintGraph, s: Bfs, seed: u32, x: u32, s2: Bfs)
    requires
        bfs_inv(g, s, seed, x, 0, false),
        s.queue.len() == 0,
        s2.islands == s.islands.push(s.isl),
        s2.b2i == s.b2i,
        s2.seen == s.seen,
        s2.taken == s.taken,
    ensures
        outer_inv(g, s2, seed + 1),
{
    let cur = s.islands.len() as int;
    let n = g.types.len();
    let nc = g.num_contacts;
    let isl = s.isl;
    let b2i = s.b2i;
    assert(isl.bodies@.len() > 0);
    assert forall|e: int| 0 <= e < g.edges.len() implies in_cur(g, isl, e) <==> edge_in_island(
        g,
        b2i,
        g.edges[e],
        cur,
    ) by {
        lemma_finished_edges(g, s, seed, x, e);
    }
    // the finished island is a component
    assert forall|w: u32| #[trigger] static_attached(g, b2i, cur, w) implies isl.bodies@.contains(w) by {
        let e = choose|e: int|
            0 <= e < g.edges.len() && touches(g.edges[e], w) && #[trigger] in_island(
                g,
                b2i,
                other_end(g.edges[e], w),
                cur,
            );
        let z = other_end(g.edges[e], w);
        assert(isl.bodies@.contains(z));
        let t = choose|t: int| 0 <= t < isl.bodies@.len() && isl.bodies@[t] == z;
        assert(touches(g.edges[e], isl.bodies@[t]));
        assert(done(g, s, e, z));
        assert(other_end(g.edges[e], z) == w);
    }
    assert forall|c: usize|
        #[trigger] isl.contacts@.contains(c) <==> (c < nc && edge_in_island(
            g,
            b2i,
            g.edges[c as int],
            cur,
        )) by {
        if isl.contacts@.contains(c) {
            let t = choose|t: int| 0 <= t < isl.contacts@.len() && isl.contacts@[t] == c;
            assert(isl.contacts@[t] < nc);
        }
        if c < nc {
            assert(in_cur(g, isl, c as int) == isl.contacts@.contains(c));
        }
    }
    assert forall|j: u32|
        #[trigger] joint_slots(isl).contains(j) <==> (j < g.edges.len() - nc && edge_in_island(
            g,
            b2i,
            g.edges[nc + j],
            cur,
        )) by {
        if joint_slots(isl).contains(j) {
            let t = choose|t: int| 0 <= t < joint_slots(isl).len() && joint_slots(isl)[t] == j;
            assert(t < isl.joints@.len());
        }
        if j < g.edges.len() - nc {
            assert(in_cur(g, isl, nc + j) == joint_slots(isl).contains(j));
        }
    }
    assert forall|b: u32| #[trigger] in_island(g, b2i, b, cur) && g.awake[b as int] implies seed <= b by {
        if b < seed {
            assert(moving(g, b as int));
        }
    }
    assert forall|b: u32| #[trigger] in_island(g, b2i, b, cur) implies isl.bodies@.contains(b) by {
        assert(!s.queue.contains(b));
    }
    assert(island_ok(g, b2i, isl, cur));
    // the outer invariant
    assert forall|k: int| 0 <= k < cur + 1 implies island_ok(g, s2.b2i, #[trigger] s2.islands[k], k) by {
        if k < cur {
            assert(s2.islands[k] == s.islands[k]);
        }
    }
    assert forall|k: int| 0 <= k < cur + 1 implies #[trigger] s2.islands[k].bodies@[0] < seed + 1 by {
        if k < cur {
            assert(s2.islands[k] == s.islands[k]);
        }
    }
    assert forall|k1: int, k2: int|
        0 <= k1 < k2 < cur + 1 implies #[trigger] s2.islands[k1].bodies@[0]
            < #[trigger] s2.islands[k2].bodies@[0] by {
        assert(s2.islands[k1] == s.islands[k1]);
        if k2 < cur {
            assert(s2.islands[k2] == s.islands[k2]);
        }
    }
    assert forall|e: int|
        0 <= e < g.edges.len() && moving(g, g.edges[e].0 as int) && moving(g, g.edges[e].1 as int)
            implies b2i[#[trigger] g.edges[e].0 as int] == b2i[g.edges[e].1 as int] by {
        let ed = g.edges[e];
        if b2i[ed.0 as int] == cur {
            assert(in_island(g, b2i, ed.0, cur));
            assert(isl.bodies@.contains(ed.0));
            let t = choose|t: int| 0 <= t < isl.bodies@.len() && isl.bodies@[t] == ed.0;
            assert(touches(g.edges[e], isl.bodies@[t]));
            assert(done(g, s, e, ed.0));
        } else if b2i[ed.1 as int] == cur {
            assert(in_island(g, b2i, ed.1, cur));
            assert(isl.bodies@.contains(ed.1));
            let t = choose|t: int| 0 <= t < isl.bodies@.len() && isl.bodies@[t] == ed.1;
            assert(touches(g.edges[e], isl.bodies@[t]));
            assert(done(g, s, e, ed.1));
        }
    }
    assert forall|e: int|
        0 <= e < g.edges.len() implies (#[trigger] s2.taken[e] <==> edge_before(
            g,
            s2.b2i,
            g.edges[e],
            cur + 1,
        )) by {
        let ed = g.edges[e];
        assert(edge_before(g, b2i, ed, cur + 1) == (edge_before(g, b2i, ed, cur) || edge_in_island(
            g,
            b2i,
            ed,
            cur,
        )));
    }
    assert forall|b: int| #[trigger] moving(g, b) && g.awake[b] && b < seed + 1 implies s2.b2i[b]
        != usize::MAX by {
    }
}

} // verus!

verus! {

/// Once the current body is finished, which body it was no longer matters.
proof fn lemma_bfs_reframe(g: ConstraintGraph, s: Bfs, seed: u32, x: u32)
    requires
        bfs_inv(g, s, seed, x, 0, false),
    ensures
        bfs_inv(g, s, seed, seed, 0, false),
{
}

} // verus!

verus! {

/// A duplicate-free sequence of values below `n` has at most `n` entries.
proof fn lemma_distinct_bounded(s: Seq<u32>, n: int)
    requires
        s.no_duplicates(),
        0 <= n,
        forall|i: int| 0 <= i < s.len() ==> #[trigger] s[i] < n,
    ensures
        s.len() <= n,
{
    let t = s.map_values(|x: u32| x as int);
    assert(t.no_duplicates()) by {
        assert forall|i: int, j: int| 0 <= i < t.len() && 0 <= j < t.len() && i != j implies t[i]
            != t[j] by {
            assert(s[i] != s[j]);
        }
    }
    t.unique_seq_to_set();
    vstd::set_lib::lemma_int_range(0, n);
    assert(t.to_set().subset_of(vstd::set_lib::set_int_range(0, n))) by {
        assert forall|v: int| t.to_set().contains(v) implies vstd::set_lib::set_int_range(0, n).contains(v) by {
            let i = choose|i: int| 0 <= i < t.len() && t[i] == v;
            assert(s[i] < n);
        }
    }
    vstd::set_lib::lemma_len_subset(t.to_set(), vstd::set_lib::set_int_range(0, n));
}

} // verus!
