//! A dynamic tree of bounding boxes over colliders: each leaf holds one
//! collider's box, each internal node a box that its caller's `merge` made
//! of its two children. The tree keeps its shape; what a box is, how two are
//! merged and when two overlap are the caller's.
use vstd::prelude::*;
use std::collections::HashMap;
use crate::handle::ColliderHandle;

verus! {

broadcast use vstd::std_specs::hash::group_hash_axioms;

/// The node index that names no node.
pub const NULL_NODE: u32 = u32::MAX;

struct TreeNode<B> {
    aabb: B,
    /// `NULL_NODE` for the root.
    parent: u32,
    left: u32,
    right: u32,
    /// 0 for a leaf, above 0 for an internal node, -1 for a free node.
    height: i32,
    /// The collider of a leaf.
    handle: ColliderHandle,
    /// The next node of the free list.
    next_free: u32,
}

/// A dynamic bounding-volume tree keyed by collider handle.
#[verifier::reject_recursive_types(B)]
pub struct DynamicAabbTree<B> {
    nodes: Vec<TreeNode<B>>,
    root: u32,
    free_list: u32,
    handle_map: HashMap<u32, u32>,
    /// The free list, head first.
    free: Ghost<Seq<u32>>,
    /// A rank per node that grows from child to parent.
    rank: Ghost<Seq<int>>,
    /// An upper bound of the ranks of the nodes in the tree.
    bound: Ghost<int>,
    /// The results of every merge this tree has made: `(x, y, m)` when a
    /// merge of `x` and `y` gave `m`.
    merge_rel: Ghost<spec_fn(B, B, B) -> bool>,
}

impl<B> View for DynamicAabbTree<B> {
    /// The box of each collider in the tree, by collider handle.
    type V = Map<u32, B>;

    closed spec fn view(&self) -> Map<u32, B> {
        Map::new(
            |k: u32| self.handle_map@.contains_key(k),
            |k: u32| self.nodes@[self.handle_map@[k] as int].aabb,
        )
    }
}

impl<B> DynamicAabbTree<B> {
    /// Whether node `i` is in the tree.
    pub closed spec fn live(&self, i: int) -> bool {
        0 <= i < self.nodes@.len() && !self.free@.contains(i as u32)
    }

    /// Whether node `i` is a leaf of the tree.
    pub closed spec fn is_leaf(&self, i: int) -> bool {
        self.live(i) && self.nodes@[i].height == 0
    }

    /// The local shape invariant of node `i`.
    spec fn node_ok(&self, i: int) -> bool {
        let nd = self.nodes@[i];
        &&& nd.height >= 0
        &&& nd.height > 0 ==> {
            &&& self.live(nd.left as int)
            &&& self.live(nd.right as int)
            &&& nd.left != nd.right
            &&& self.nodes@[nd.left as int].parent == i
            &&& self.nodes@[nd.right as int].parent == i
        }
        &&& i != self.root ==> {
            &&& self.live(nd.parent as int)
            &&& self.nodes@[nd.parent as int].height > 0
            &&& (self.nodes@[nd.parent as int].left == i || self.nodes@[nd.parent as int].right == i)
            &&& self.rank@[i] < self.rank@[nd.parent as int]
        }
        &&& 0 <= self.rank@[i] <= self.bound@
        &&& nd.height == 0 ==> {
            &&& self.handle_map@.contains_key(nd.handle.0)
            &&& self.handle_map@[nd.handle.0] == i
        }
    }

    /// The free list is a chain of distinct existing nodes, ending in
    /// `NULL_NODE`.
    spec fn free_ok(&self) -> bool {
        let free = self.free@;
        &&& free.no_duplicates()
        &&& forall|k: int| 0 <= k < free.len() ==> #[trigger] free[k] < self.nodes@.len()
        &&& self.free_list == (if free.len() == 0 {
            NULL_NODE
        } else {
            free[0]
        })
        &&& forall|k: int|
            0 <= k < free.len() ==> {
                &&& (#[trigger] self.nodes@[free[k] as int]).next_free == (if k + 1 < free.len() {
                    free[k + 1]
                } else {
                    NULL_NODE
                })
                &&& self.nodes@[free[k] as int].height == -1
            }
    }

    /// The shape invariant of the tree: links, free list, ranks and the
    /// leaf map agree.
    spec fn shape_wf(&self) -> bool {
        &&& self.nodes@.len() < u32::MAX
        &&& self.rank@.len() == self.nodes@.len()
        &&& self.free_ok()
        &&& self.root == NULL_NODE ==> forall|i: int|
            0 <= i < self.nodes@.len() ==> #[trigger] self.free@.contains(i as u32)
        &&& self.root != NULL_NODE ==> self.live(self.root as int) && self.nodes@[self.root as int].parent
            == NULL_NODE
        &&& forall|i: int| self.live(i) ==> #[trigger] self.node_ok(i)
        &&& forall|k: u32|
            #[trigger] self.handle_map@.contains_key(k) ==> {
                let i = self.handle_map@[k] as int;
                &&& self.live(i)
                &&& self.nodes@[i].height == 0
                &&& self.nodes@[i].handle.0 == k
            }
    }

    /// Whether a merge that this tree made of `x` and `y` gave `m`.
    pub closed spec fn made_by_merge(&self, x: B, y: B, m: B) -> bool {
        (self.merge_rel@)(x, y, m)
    }

    /// The merge results `rel` together with those of `merge`.
    spec fn rel_with<F: Fn(B, B) -> B>(rel: spec_fn(B, B, B) -> bool, merge: &F) -> spec_fn(B, B, B) -> bool {
        |x: B, y: B, m: B| rel(x, y, m) || merge.ensures((x, y), m)
    }

    /// The box of internal node `i` is what one of this tree's merges made
    /// of its children's boxes.
    spec fn box_ok(&self, i: int) -> bool {
        let nd = self.nodes@[i];
        self.made_by_merge(self.nodes@[nd.left as int].aabb, self.nodes@[nd.right as int].aabb, nd.aabb)
    }

    /// Every internal node's box was merged from its children's boxes.
    spec fn boxes_ok(&self) -> bool {
        forall|i: int| self.live(i) && self.nodes@[i].height > 0 ==> #[trigger] self.box_ok(i)
    }

    /// Every internal node's box was merged from its children's boxes,
    /// except maybe those of `x` and the nodes above it.
    spec fn boxes_ok_except(&self, x: u32) -> bool {
        forall|i: int|
            self.live(i) && self.nodes@[i].height > 0 && !(x != NULL_NODE && self.above(x as int, i))
                ==> #[trigger] self.box_ok(i)
    }

    /// Node `i` is node `a` or one of its ancestors.
    spec fn above(&self, a: int, i: int) -> bool
        decreases self.bound@ - self.rank@[a],
    {
        if a == i {
            true
        } else if a == self.root as int || !(0 <= a < self.nodes@.len()) {
            false
        } else {
            let p = self.nodes@[a].parent as int;
            if 0 <= p < self.rank@.len() && self.rank@[a] < self.rank@[p] <= self.bound@ {
                self.above(p, i)
            } else {
                false
            }
        }
    }

    /// Going up from node `a` (not `i`, not the root) passes its parent.
    proof fn lemma_above_step(&self, a: int, i: int)
        requires
            self.shape_wf(),
            self.live(a),
            a != i,
            a != self.root,
        ensures
            self.above(a, i) == self.above(self.nodes@[a].parent as int, i),
    {
        assert(self.node_ok(a));
        assert(self.node_ok(self.nodes@[a].parent as int));
    }

    /// Every node of the tree lies below the root.
    proof fn lemma_below_root(&self, x: int)
        requires
            self.shape_wf(),
            self.live(x),
        ensures
            self.above(x, self.root as int),
        decreases self.bound@ - self.rank@[x],
    {
        if x != self.root as int {
            assert(self.node_ok(x));
            let p = self.nodes@[x].parent as int;
            assert(self.node_ok(p));
            self.lemma_above_step(x, self.root as int);
            self.lemma_below_root(p);
        }
    }

    /// A node below `n` other than `n` itself lies below one of the
    /// children of `n`, which is then internal.
    proof fn lemma_below_child(&self, x: int, n: int)
        requires
            self.shape_wf(),
            self.live(x),
            self.above(x, n),
            x != n,
        ensures
            self.live(n),
            self.nodes@[n].height > 0,
            self.above(x, self.nodes@[n].left as int) || self.above(x, self.nodes@[n].right as int),
        decreases self.bound@ - self.rank@[x],
    {
        assert(self.node_ok(x));
        assert(x != self.root as int);
        let p = self.nodes@[x].parent as int;
        assert(self.node_ok(p));
        self.lemma_above_step(x, n);
        if p == n {
            assert(self.above(x, x));
        } else {
            self.lemma_below_child(p, n);
            let l = self.nodes@[n].left as int;
            let r = self.nodes@[n].right as int;
            if x != l {
                self.lemma_above_step(x, l);
            }
            if x != r {
                self.lemma_above_step(x, r);
            }
        }
    }

    /// Whether every box that `overlaps` surely finds overlapping a box `q`
    /// (in either argument position) stays so when this tree merges it
    /// with another: the merged box then surely overlaps `q` too.
    pub open spec fn overlap_survives_merges<F: Fn(B, B) -> bool>(&self, overlaps: &F) -> bool {
        forall|x: B, y: B, m: B, q: B|
            #![trigger self.made_by_merge(x, y, m), overlaps.ensures((m, q), false)]
            #![trigger self.made_by_merge(x, y, m), overlaps.ensures((q, m), false)]
            self.made_by_merge(x, y, m) ==> {
                &&& overlaps.ensures((m, q), false) ==> overlaps.ensures((x, q), false)
                    && overlaps.ensures((y, q), false)
                &&& overlaps.ensures((q, m), false) ==> overlaps.ensures((q, x), false)
                    && overlaps.ensures((q, y), false)
            }
    }

    /// What `overlaps` surely finds the box of `x` overlapping, it surely
    /// finds the box of each node above `x` overlapping (first argument).
    proof fn lemma_lift_first<F: Fn(B, B) -> bool>(&self, overlaps: &F, x: int, n: int, q: B)
        requires
            self.wf(),
            self.overlap_survives_merges(overlaps),
            self.live(x),
            self.above(x, n),
            surely_overlap(overlaps, self.nodes@[x].aabb, q),
        ensures
            surely_overlap(overlaps, self.nodes@[n].aabb, q),
        decreases self.bound@ - self.rank@[x],
    {
        if x != n {
            assert(self.node_ok(x));
            assert(x != self.root as int);
            let p = self.nodes@[x].parent as int;
            assert(self.node_ok(p));
            self.lemma_above_step(x, n);
            assert(self.box_ok(p));
            let pn = self.nodes@[p];
            if overlaps.ensures((pn.aabb, q), false) {
                assert(overlaps.ensures((self.nodes@[pn.left as int].aabb, q), false));
                assert(overlaps.ensures((self.nodes@[pn.right as int].aabb, q), false));
            }
            self.lemma_lift_first(overlaps, p, n, q);
        }
    }

    /// What `overlaps` surely finds overlapping the box of `x`, it surely
    /// finds overlapping the box of each node above `x` (second argument).
    proof fn lemma_lift_second<F: Fn(B, B) -> bool>(&self, overlaps: &F, x: int, n: int, q: B)
        requires
            self.wf(),
            self.overlap_survives_merges(overlaps),
            self.live(x),
            self.above(x, n),
            surely_overlap(overlaps, q, self.nodes@[x].aabb),
        ensures
            surely_overlap(overlaps, q, self.nodes@[n].aabb),
        decreases self.bound@ - self.rank@[x],
    {
        if x != n {
            assert(self.node_ok(x));
            assert(x != self.root as int);
            let p = self.nodes@[x].parent as int;
            assert(self.node_ok(p));
            self.lemma_above_step(x, n);
            assert(self.box_ok(p));
            let pn = self.nodes@[p];
            if overlaps.ensures((q, pn.aabb), false) {
                assert(overlaps.ensures((q, self.nodes@[pn.left as int].aabb), false));
                assert(overlaps.ensures((q, self.nodes@[pn.right as int].aabb), false));
            }
            self.lemma_lift_second(overlaps, p, n, q);
        }
    }

    /// Ranks grow going up.
    proof fn lemma_above_rank(&self, x: int, n: int)
        requires
            self.above(x, n),
        ensures
            x == n || self.rank@[x] < self.rank@[n],
        decreases self.bound@ - self.rank@[x],
    {
        if x != n {
            self.lemma_above_rank(self.nodes@[x].parent as int, n);
        }
    }

    /// What lies below `m` lies below every node above `m`.
    proof fn lemma_above_trans(&self, x: int, m: int, n: int)
        requires
            self.above(x, m),
            self.above(m, n),
        ensures
            self.above(x, n),
        decreases self.bound@ - self.rank@[x],
    {
        if x != m {
            self.lemma_above_trans(self.nodes@[x].parent as int, m, n);
        }
    }

    /// Of two nodes above a common node, one lies above the other.
    proof fn lemma_above_comparable(&self, x: int, a: int, b: int)
        requires
            self.above(x, a),
            self.above(x, b),
        ensures
            self.above(a, b) || self.above(b, a),
        decreases self.bound@ - self.rank@[x],
    {
        if x != a && x != b {
            self.lemma_above_comparable(self.nodes@[x].parent as int, a, b);
        }
    }

    /// The children of an internal node lie below it and apart from each
    /// other.
    proof fn lemma_child_below(&self, n: int)
        requires
            self.shape_wf(),
            self.live(n),
            self.nodes@[n].height > 0,
        ensures
            self.above(self.nodes@[n].left as int, n),
            self.above(self.nodes@[n].right as int, n),
            !self.above(self.nodes@[n].left as int, self.nodes@[n].right as int),
            !self.above(self.nodes@[n].right as int, self.nodes@[n].left as int),
    {
        assert(self.node_ok(n));
        let l = self.nodes@[n].left as int;
        let r = self.nodes@[n].right as int;
        assert(self.node_ok(l));
        assert(self.node_ok(r));
        assert(self.above(n, n));
        self.lemma_above_step(l, n);
        self.lemma_above_step(r, n);
        if self.above(l, r) {
            self.lemma_above_step(l, r);
            self.lemma_above_rank(n, r);
        }
        if self.above(r, l) {
            self.lemma_above_step(r, l);
            self.lemma_above_rank(n, l);
        }
    }

    /// A node below `b` lies apart from a node `a` that lies apart from `b`.
    proof fn lemma_apart_below(&self, a: int, b: int, c: int)
        requires
            !self.above(a, b),
            !self.above(b, a),
            self.above(c, b),
        ensures
            !self.above(a, c),
            !self.above(c, a),
    {
        if self.above(a, c) {
            self.lemma_above_trans(a, c, b);
        }
        if self.above(c, a) {
            self.lemma_above_comparable(c, a, b);
        }
    }

    /// Nothing lies below two nodes that lie apart.
    proof fn lemma_not_below_both(&self, x: int, u: int, v: int)
        requires
            !self.above(u, v),
            !self.above(v, u),
        ensures
            !(self.above(x, u) && self.above(x, v)),
    {
        if self.above(x, u) && self.above(x, v) {
            self.lemma_above_comparable(x, u, v);
        }
    }

    /// Only a leaf itself lies below a leaf.
    proof fn lemma_below_leaf(&self, x: int, n: int)
        requires
            self.shape_wf(),
            self.live(x),
            self.above(x, n),
            self.nodes@[n].height == 0,
        ensures
            x == n,
    {
        if x != n {
            self.lemma_below_child(x, n);
        }
    }

    /// The internal invariant of the tree: its shape, and the boxes of its
    /// internal nodes.
    pub closed spec fn wf(&self) -> bool {
        &&& self.shape_wf()
        &&& self.boxes_ok()
    }

    /// The number of node slots, in the tree or free.
    pub closed spec fn capacity(&self) -> nat {
        self.nodes@.len()
    }

    /// An empty tree.
    pub fn new() -> (t: Self)
        ensures
            t.wf(),
            t@ == Map::<u32, B>::empty(),
            t.capacity() == 0,
            forall|x: B, y: B, m: B| !#[trigger] t.made_by_merge(x, y, m),
    {
        let t = DynamicAabbTree {
            nodes: Vec::new(),
            root: NULL_NODE,
            free_list: NULL_NODE,
            handle_map: HashMap::new(),
            free: Ghost(Seq::empty()),
            rank: Ghost(Seq::empty()),
            bound: Ghost(0),
            merge_rel: Ghost(|x: B, y: B, m: B| false),
        };
        assert(t@ =~= Map::<u32, B>::empty());
        t
    }

    /// Whether no collider is in the tree.
    pub fn is_empty(&self) -> (b: bool)
        requires
            self.wf(),
        ensures
            b == (self@ == Map::<u32, B>::empty()),
            b == (forall|i: int| !self.live(i)),
    {
        proof {
            if self.root != NULL_NODE {
                let r = self.root as int;
                assert(self.node_ok(r));
                if self.nodes@[r].height == 0 {
                    assert(self@.contains_key(self.nodes@[r].handle.0));
                } else {
                    let l = self.nodes@[r].left as int;
                    self.lemma_some_leaf_below(l);
                }
                assert(self@ != Map::<u32, B>::empty());
            } else {
                assert(self@ =~= Map::<u32, B>::empty()) by {
                    assert forall|k: u32| !#[trigger] self.handle_map@.contains_key(k) by {
                        if self.handle_map@.contains_key(k) {
                            let i = self.handle_map@[k] as int;
                            assert(self.free@.contains(i as u32));
                        }
                    }
                }
                assert forall|i: int| !self.live(i) by {
                    if 0 <= i < self.nodes@.len() {
                        assert(self.free@.contains(i as u32));
                    }
                }
            }
        }
        self.root == NULL_NODE
    }

    /// Below every node of the tree there is a leaf, so a tree with a node
    /// holds a collider.
    proof fn lemma_some_leaf_below(&self, i: int)
        requires
            self.shape_wf(),
            self.live(i),
        ensures
            self@ != Map::<u32, B>::empty(),
        decreases self.rank@[i],
    {
        assert(self.node_ok(i));
        if self.nodes@[i].height == 0 {
            assert(self@.contains_key(self.nodes@[i].handle.0));
        } else {
            let l = self.nodes@[i].left as int;
            assert(self.node_ok(l));
            assert(self.rank@[l] < self.rank@[i]);
            self.lemma_some_leaf_below(l);
        }
    }

    /// `other` has the nodes, links, free list and leaves of `self`; only
    /// the boxes and heights of internal nodes may differ, and internal
    /// nodes stay internal.
    spec fn same_links(&self, other: &Self) -> bool {
        &&& other.nodes@.len() == self.nodes@.len()
        &&& other.root == self.root
        &&& other.free_list == self.free_list
        &&& other.free@ == self.free@
        &&& other.rank@ == self.rank@
        &&& other.bound@ == self.bound@
        &&& other.handle_map@ == self.handle_map@
        &&& forall|i: int|
            0 <= i < self.nodes@.len() ==> {
                let a = #[trigger] self.nodes@[i];
                let b = other.nodes@[i];
                &&& b.parent == a.parent
                &&& b.left == a.left
                &&& b.right == a.right
                &&& b.handle == a.handle
                &&& b.next_free == a.next_free
                &&& (a.height > 0 ==> b.height > 0)
                &&& (a.height <= 0 ==> b.height == a.height && b.aabb == a.aabb)
            }
    }

    proof fn lemma_same_links(&self, other: &Self)
        requires
            self.shape_wf(),
            self.same_links(other),
        ensures
            other.shape_wf(),
            other@ == self@,
            forall|i: int| self.live(i) <==> #[trigger] other.live(i),
    {
        assert forall|i: int| self.live(i) <==> #[trigger] other.live(i) by {}
        assert forall|i: int| other.live(i) implies #[trigger] other.node_ok(i) by {
            assert(self.live(i));
            assert(self.node_ok(i));
            let nd = self.nodes@[i];
            if nd.height > 0 {
                assert(self.nodes@[nd.left as int] == self.nodes@[nd.left as int]);
            }
            if i != self.root {
                assert(self.live(nd.parent as int));
            }
        }
        assert forall|k: u32| #[trigger] other.handle_map@.contains_key(k) implies {
            let i = other.handle_map@[k] as int;
            &&& other.live(i)
            &&& other.nodes@[i].height == 0
            &&& other.nodes@[i].handle.0 == k
        } by {
            let i = self.handle_map@[k] as int;
            assert(self.live(i));
        }
        assert forall|k: int| 0 <= k < other.free@.len() implies {
            &&& (#[trigger] other.nodes@[other.free@[k] as int]).next_free == (if k + 1 < other.free@.len() {
                other.free@[k + 1]
            } else {
                NULL_NODE
            })
            &&& other.nodes@[other.free@[k] as int].height == -1
        } by {
            let f = self.free@[k] as int;
            assert(self.free@[k] < self.nodes@.len());
            assert(self.nodes@[f].height == -1 && self.nodes@[f].next_free == (if k + 1 < self.free@.len() {
                self.free@[k + 1]
            } else {
                NULL_NODE
            }));
        }
        assert(other@ =~= self@) by {
            assert forall|k: u32| #[trigger] self.handle_map@.contains_key(k) implies other.nodes@[other.handle_map@[k] as int].aabb
                == self.nodes@[self.handle_map@[k] as int].aabb by {
                let i = self.handle_map@[k] as int;
                assert(self.live(i));
            }
        }
    }

    /// Recomputes the box and height of `start` and of each of its
    /// ancestors, bottom up: each becomes `merge` of its children's boxes,
    /// one above the taller child (saturating at `i32::MAX`).
    fn refit_ancestors<F: Fn(B, B) -> B>(&mut self, start: u32, merge: &F)
        where
            B: Copy,
        requires
            old(self).shape_wf(),
            old(self).boxes_ok_except(start),
            start == NULL_NODE || (old(self).live(start as int) && old(self).nodes@[start as int].height
                > 0),
            forall|x: B, y: B| #[trigger] merge.requires((x, y)),
        ensures
            old(self).same_links(final(self)),
            final(self).shape_wf(),
            final(self).boxes_ok(),
            final(self)@ == old(self)@,
            final(self).merge_rel@ == Self::rel_with(old(self).merge_rel@, merge),
    {
        let ghost start_tree = *self;
        proof {
            self.merge_rel@ = Self::rel_with(start_tree.merge_rel@, merge);
            assert forall|i: int|
                self.live(i) && self.nodes@[i].height > 0 && !(start != NULL_NODE && start_tree.above(
                    start as int,
                    i,
                )) implies #[trigger] self.box_ok(i) by {
                assert(start_tree.box_ok(i));
            }
        }
        let mut x = start;
        while x != NULL_NODE
            invariant
                start_tree.shape_wf(),
                start_tree.same_links(self),
                x == NULL_NODE || (start_tree.live(x as int) && start_tree.nodes@[x as int].height > 0),
                forall|x: B, y: B| #[trigger] merge.requires((x, y)),
                self.merge_rel@ == Self::rel_with(start_tree.merge_rel@, merge),
                forall|i: int|
                    self.live(i) && self.nodes@[i].height > 0 && !(x != NULL_NODE && start_tree.above(
                        x as int,
                        i,
                    )) ==> #[trigger] self.box_ok(i),
            decreases (if x == NULL_NODE {
                0
            } else {
                start_tree.bound@ - start_tree.rank@[x as int] + 1
            }),
        {
            proof {
                start_tree.lemma_same_links(self);
                assert(start_tree.node_ok(x as int));
                assert(self.node_ok(x as int));
            }
            let xi = x as usize;
            let l = self.nodes[xi].left as usize;
            let r = self.nodes[xi].right as usize;
            let merged = merge(self.nodes[l].aabb, self.nodes[r].aabb);
            let hl = self.nodes[l].height;
            let hr = self.nodes[r].height;
            let taller = if hl > hr {
                hl
            } else {
                hr
            };
            let h = if taller < i32::MAX {
                taller + 1
            } else {
                taller
            };
            proof {
                assert(self.node_ok(l as int));
                assert(self.node_ok(r as int));
            }
            let ghost prev = *self;
            self.nodes[xi].aabb = merged;
            self.nodes[xi].height = h;
            let next = self.nodes[xi].parent;
            proof {
                if next != NULL_NODE {
                    assert(x != start_tree.root);
                    assert(start_tree.node_ok(next as int));
                }
                assert(start_tree.live(x as int));
                assert forall|i: int|
                    self.live(i) && self.nodes@[i].height > 0 && !(next != NULL_NODE && start_tree.above(
                        next as int,
                        i,
                    )) implies #[trigger] self.box_ok(i) by {
                    if i == x as int {
                        assert(self.nodes@[l as int] == prev.nodes@[l as int]);
                        assert(self.nodes@[r as int] == prev.nodes@[r as int]);
                    } else {
                        if x != start_tree.root {
                            start_tree.lemma_above_step(x as int, i);
                        }
                        assert(prev.live(i));
                        assert(prev.box_ok(i));
                        assert(start_tree.node_ok(i));
                        let c1 = prev.nodes@[i].left as int;
                        let c2 = prev.nodes@[i].right as int;
                        if c1 == x as int || c2 == x as int {
                            assert(start_tree.nodes@[x as int].parent == i);
                            assert(start_tree.above(i, i));
                        }
                        assert(self.nodes@[i] == prev.nodes@[i]);
                        assert(self.nodes@[c1] == prev.nodes@[c1]);
                        assert(self.nodes@[c2] == prev.nodes@[c2]);
                    }
                }
            }
            x = next;
        }
        proof {
            start_tree.lemma_same_links(self);
        }
    }

    /// A node of the tree other than the root has the root above it, so the
    /// root is then internal.
    proof fn lemma_root_above(&self, i: int)
        requires
            self.shape_wf(),
            self.live(i),
            i != self.root,
        ensures
            self.root != NULL_NODE,
            self.nodes@[self.root as int].height > 0,
        decreases self.bound@ - self.rank@[i],
    {
        if self.root == NULL_NODE {
            assert(self.free@.contains(i as u32));
        }
        assert(self.node_ok(i));
        let p = self.nodes@[i].parent as int;
        assert(self.node_ok(p));
        if p != self.root {
            self.lemma_root_above(p);
        }
    }

    /// Puts node `i` on top of the free list.
    fn free_node(&mut self, i: u32)
        requires
            (i as int) < old(self).nodes@.len(),
            !old(self).free@.contains(i),
        ensures
            final(self).nodes@ == old(self).nodes@.update(
                i as int,
                TreeNode { height: -1i32, next_free: old(self).free_list, ..old(self).nodes@[i as int] },
            ),
            final(self).free_list == i,
            final(self).free@ == seq![i] + old(self).free@,
            final(self).root == old(self).root,
            final(self).handle_map@ == old(self).handle_map@,
            final(self).rank@ == old(self).rank@,
            final(self).bound@ == old(self).bound@,
            final(self).merge_rel@ == old(self).merge_rel@,
    {
        let head = self.free_list;
        self.nodes[i as usize].height = -1;
        self.nodes[i as usize].next_free = head;
        self.free_list = i;
        proof {
            self.free@ = seq![i] + self.free@;
        }
    }

    /// The parent of leaf `l` in `t0`.
    spec fn parent_of(t0: &Self, l: int) -> int {
        t0.nodes@[l].parent as int
    }

    /// The sibling of leaf `l` in `t0`.
    spec fn sibling_of(t0: &Self, l: int) -> int {
        let p = Self::parent_of(t0, l);
        (if t0.nodes@[p].left == l {
            t0.nodes@[p].right
        } else {
            t0.nodes@[p].left
        }) as int
    }

    /// `t1` has the nodes of `t0` after leaf `l` (which has a parent) and
    /// that parent were unlinked and freed, the sibling taking the parent's
    /// place.
    spec fn unlinked(t0: &Self, t1: &Self, l: int) -> bool {
        let p = Self::parent_of(t0, l);
        let s = Self::sibling_of(t0, l);
        let g = t0.nodes@[p].parent;
        &&& t1.nodes@.len() == t0.nodes@.len()
        &&& t1.rank@ == t0.rank@
        &&& t1.bound@ == t0.bound@
        &&& t1.free@ == seq![l as u32, p as u32] + t0.free@
        &&& t1.free_list == l
        &&& t1.root == (if g == NULL_NODE {
            s as u32
        } else {
            t0.root
        })
        &&& forall|i: int|
            0 <= i < t0.nodes@.len() && i != l && i != p && i != s && i != g ==> #[trigger] t1.nodes@[i]
                == t0.nodes@[i]
        &&& t1.nodes@[s] == TreeNode { parent: g, ..t0.nodes@[s] }
        &&& g != NULL_NODE ==> t1.nodes@[g as int] == (if t0.nodes@[g as int].left == p {
            TreeNode { left: s as u32, ..t0.nodes@[g as int] }
        } else {
            TreeNode { right: s as u32, ..t0.nodes@[g as int] }
        })
        &&& t1.nodes@[p] == TreeNode { height: -1i32, next_free: t0.free_list, ..t0.nodes@[p] }
        &&& t1.nodes@[l] == TreeNode { height: -1i32, next_free: p as u32, ..t0.nodes@[l] }
    }

    /// `t1` is `t0` after collider `h`'s leaf `l` (which has a parent) and
    /// that parent were unlinked and freed, and `h` forgotten.
    spec fn detached(t0: &Self, t1: &Self, h: u32, l: int) -> bool {
        &&& t0.shape_wf()
        &&& t0.handle_map@.contains_key(h)
        &&& l == t0.handle_map@[h] as int
        &&& t0.nodes@[l].parent != NULL_NODE
        &&& Self::unlinked(t0, t1, l)
        &&& t1.handle_map@ == t0.handle_map@.remove(h)
    }

    /// Leaf `l` of `t0` can be unlinked: it, its parent, its sibling and
    /// its grandparent (if any) are distinct existing nodes, and neither it
    /// nor its parent is free.
    spec fn unlink_ready(t0: &Self, l: int) -> bool {
        let p = Self::parent_of(t0, l);
        let s = Self::sibling_of(t0, l);
        let g = t0.nodes@[p].parent;
        &&& t0.nodes@.len() < u32::MAX
        &&& 0 <= l < t0.nodes@.len()
        &&& 0 <= p < t0.nodes@.len()
        &&& 0 <= s < t0.nodes@.len()
        &&& g == NULL_NODE || (g as int) < t0.nodes@.len()
        &&& s != l && s != p && l != p
        &&& g != NULL_NODE ==> g as int != l && g as int != s && g as int != p
        &&& !t0.free@.contains(l as u32)
        &&& !t0.free@.contains(p as u32)
    }

    proof fn lemma_unlink_ready(t0: &Self, l: int)
        requires
            t0.shape_wf(),
            t0.live(l),
            t0.nodes@[l].height == 0,
            t0.nodes@[l].parent != NULL_NODE,
        ensures
            Self::unlink_ready(t0, l),
    {
        assert(t0.node_ok(l));
        assert(l != t0.root);
        let p = Self::parent_of(t0, l);
        assert(t0.node_ok(p));
        let s = Self::sibling_of(t0, l);
        let g = t0.nodes@[p].parent;
        assert(t0.node_ok(s));
        if g != NULL_NODE {
            assert(p != t0.root);
            assert(t0.node_ok(g as int));
        }
    }

    /// The nodes around a detached leaf: its parent, sibling and
    /// grandparent are distinct nodes of `t0`.
    #[verifier::spinoff_prover]
    proof fn lemma_detached_around(t0: &Self, t1: &Self, h: u32, l: int)
        requires
            Self::detached(t0, t1, h, l),
        ensures
            ({
                let p = Self::parent_of(t0, l);
                let s = Self::sibling_of(t0, l);
                let g = t0.nodes@[p].parent;
                &&& t0.live(l) && t0.live(p) && t0.live(s)
                &&& t0.nodes@[l].height == 0
                &&& t0.nodes@[p].height > 0
                &&& l != t0.root
                &&& s != l && s != p && l != p
                &&& t0.nodes@[s].parent == p
                &&& (t0.nodes@[p].left == l && t0.nodes@[p].right == s) || (t0.nodes@[p].left == s
                    && t0.nodes@[p].right == l)
                &&& t0.rank@[s] < t0.rank@[p]
                &&& g == NULL_NODE ==> p == t0.root
                &&& g != NULL_NODE ==> {
                    &&& p != t0.root
                    &&& t0.live(g as int)
                    &&& t0.nodes@[g as int].height > 0
                    &&& (t0.nodes@[g as int].left == p || t0.nodes@[g as int].right == p)
                    &&& g as int != l && g as int != s && g as int != p
                    &&& t0.rank@[p] < t0.rank@[g as int]
                }
            }),
            forall|i: int| #[trigger] t1.live(i) <==> (t0.live(i) && i != l && i != Self::parent_of(t0, l)),
    {
        let n = t0.nodes@.len();
        assert(t0.live(l));
        assert(t0.node_ok(l));
        let p = Self::parent_of(t0, l);
        assert(t0.node_ok(p));
        let s = Self::sibling_of(t0, l);
        let g = t0.nodes@[p].parent;
        assert(t0.node_ok(s));
        if g != NULL_NODE {
            assert(p != t0.root);
            assert(t0.node_ok(g as int));
        } else {
            assert(p == t0.root as int) by {
                if p != t0.root {
                    assert(t0.live(g as int));
                }
            }
        }
        Self::lemma_two_freed(t0, t1, l, p);
    }

    /// Freeing nodes `l` and `p` takes exactly them out of the tree.
    proof fn lemma_two_freed(t0: &Self, t1: &Self, l: int, p: int)
        requires
            t1.nodes@.len() == t0.nodes@.len(),
            t0.nodes@.len() < u32::MAX,
            0 <= l < t0.nodes@.len(),
            0 <= p < t0.nodes@.len(),
            t1.free@ == seq![l as u32, p as u32] + t0.free@,
        ensures
            forall|i: int| #[trigger] t1.live(i) <==> (t0.live(i) && i != l && i != p),
    {
        let n = t0.nodes@.len();
        assert forall|i: int| #[trigger] t1.live(i) <==> (t0.live(i) && i != l && i != p) by {
            if 0 <= i < n {
                if t1.free@.contains(i as u32) {
                    let k = choose|k: int| 0 <= k < t1.free@.len() && t1.free@[k] == i as u32;
                    if k >= 2 {
                        assert(t0.free@[k - 2] == i as u32);
                    }
                }
                if t0.free@.contains(i as u32) {
                    let k = choose|k: int| 0 <= k < t0.free@.len() && t0.free@[k] == i as u32;
                    assert(t1.free@[k + 2] == i as u32);
                }
                if i == l {
                    assert(t1.free@[0] == i as u32);
                }
                if i == p {
                    assert(t1.free@[1] == i as u32);
                }
            }
        }
    }

    proof fn lemma_detached_shape(t0: &Self, t1: &Self, h: u32, l: int)
        requires
            Self::detached(t0, t1, h, l),
        ensures
            forall|i: int| t1.live(i) ==> #[trigger] t1.node_ok(i),
    {
        Self::lemma_detached_around(t0, t1, h, l);
        let p = Self::parent_of(t0, l);
        let s = Self::sibling_of(t0, l);
        let g = t0.nodes@[p].parent;
        assert forall|i: int| t1.live(i) implies #[trigger] t1.node_ok(i) by {
            assert(t0.live(i) && i != l && i != p);
            assert(t0.node_ok(i));
            let a = t0.nodes@[i];
            let b = t1.nodes@[i];
            if a.height > 0 {
                let c1 = a.left as int;
                let c2 = a.right as int;
                assert(t0.node_ok(c1) && t0.node_ok(c2));
                if i != g as int {
                    assert(c1 != l && c1 != p && c2 != l && c2 != p);
                }
                assert(t1.live(b.left as int) && t1.live(b.right as int));
            }
            if i != t1.root && i != s {
                let q = a.parent as int;
                assert(i != t0.root);
                assert(t0.node_ok(q));
                assert(q != l);
                assert(q != p);
                assert(t1.live(q));
            }
            if b.height == 0 {
                assert(t0.handle_map@[a.handle.0] == i);
            }
        }
    }

    #[verifier::spinoff_prover]
    proof fn lemma_detached_free(t0: &Self, t1: &Self, h: u32, l: int)
        requires
            Self::detached(t0, t1, h, l),
        ensures
            t1.free_ok(),
    {
        Self::lemma_detached_around(t0, t1, h, l);
        let p = Self::parent_of(t0, l);
        let s = Self::sibling_of(t0, l);
        let g = t0.nodes@[p].parent;
        assert forall|k: int| 0 <= k < t0.free@.len() implies #[trigger] t1.nodes@[t0.free@[k] as int]
            == t0.nodes@[t0.free@[k] as int] by {
            let f = t0.free@[k] as int;
            assert(t0.free@[k] < t0.nodes@.len());
            assert(t0.free@.contains(f as u32));
            assert(!t0.live(f));
        }
        assert(!t0.free@.contains(l as u32));
        assert(!t0.free@.contains(p as u32));
        Self::lemma_two_pushed_free(t0, t1, l, p);
    }

    /// Pushing `p` and then `l` onto a well-formed free list keeps it
    /// well-formed.
    proof fn lemma_two_pushed_free(t0: &Self, t1: &Self, l: int, p: int)
        requires
            t0.free_ok(),
            t1.nodes@.len() == t0.nodes@.len(),
            0 <= l < t0.nodes@.len(),
            0 <= p < t0.nodes@.len(),
            l != p,
            !t0.free@.contains(l as u32),
            !t0.free@.contains(p as u32),
            t1.free@ == seq![l as u32, p as u32] + t0.free@,
            t1.free_list == l,
            t1.nodes@[l].next_free == p,
            t1.nodes@[l].height == -1,
            t1.nodes@[p].next_free == t0.free_list,
            t1.nodes@[p].height == -1,
            forall|k: int| 0 <= k < t0.free@.len() ==> #[trigger] t1.nodes@[t0.free@[k] as int] == t0.nodes@[t0.free@[k] as int],
        ensures
            t1.free_ok(),
    {
        let f0 = t0.free@;
        let f1 = t1.free@;
        assert(f1.len() == f0.len() + 2);
        assert(f1[0] == l as u32 && f1[1] == p as u32);
        assert(forall|k: int| 2 <= k < f1.len() ==> #[trigger] f1[k] == f0[k - 2]);
        lemma_push_two_no_dups(f0, l as u32, p as u32);
        assert forall|k: int| 0 <= k < f1.len() implies #[trigger] f1[k] < t1.nodes@.len() by {
            if k >= 2 {
                assert(f1[k] == f0[k - 2]);
            }
        }
        assert forall|k: int| 0 <= k < f1.len() implies {
            &&& (#[trigger] t1.nodes@[f1[k] as int]).next_free == (if k + 1 < f1.len() {
                f1[k + 1]
            } else {
                NULL_NODE
            })
            &&& t1.nodes@[f1[k] as int].height == -1
        } by {
            if k >= 2 {
                let j = k - 2;
                assert(f1[k] == f0[j]);
                assert(t1.nodes@[f0[j] as int] == t0.nodes@[f0[j] as int]);
                if j + 1 < f0.len() {
                    assert(f1[k + 1] == f0[j + 1]);
                }
            } else if k == 1 {
                if f0.len() > 0 {
                    assert(f1[2] == f0[0]);
                }
            }
        }
    }

    /// After collider `h`'s leaf `l` and its parent are unlinked and freed,
    /// the tree is whole again and holds every other collider.
    proof fn lemma_detached(t0: &Self, t1: &Self, h: u32, l: int)
        requires
            Self::detached(t0, t1, h, l),
        ensures
            t1.shape_wf(),
            t1@ == t0@.remove(h),
    {
        Self::lemma_detached_around(t0, t1, h, l);
        Self::lemma_detached_shape(t0, t1, h, l);
        Self::lemma_detached_free(t0, t1, h, l);
        let p = Self::parent_of(t0, l);
        assert forall|k: u32| #[trigger] t1.handle_map@.contains_key(k) implies {
            let i = t1.handle_map@[k] as int;
            &&& t1.live(i)
            &&& t1.nodes@[i].height == 0
            &&& t1.nodes@[i].handle.0 == k
        } by {
            let i = t0.handle_map@[k] as int;
            assert(t0.live(i));
        }
        assert(t1@ =~= t0@.remove(h)) by {
            assert forall|k: u32| #[trigger] t1.handle_map@.contains_key(k) implies t1.nodes@[t1.handle_map@[k] as int].aabb
                == t0.nodes@[t0.handle_map@[k] as int].aabb by {
                let i = t0.handle_map@[k] as int;
                assert(t0.live(i));
            }
        }
    }

    /// Unlinking a leaf changes no box and the children of no node but the
    /// grandparent of the leaf.
    proof fn lemma_detached_boxes(t0: &Self, t1: &Self, h: u32, l: int)
        requires
            Self::detached(t0, t1, h, l),
            t0.boxes_ok(),
            t1.merge_rel@ == t0.merge_rel@,
        ensures
            t1.boxes_ok_except(t0.nodes@[Self::parent_of(t0, l)].parent),
    {
        Self::lemma_detached_around(t0, t1, h, l);
        let p = Self::parent_of(t0, l);
        let s = Self::sibling_of(t0, l);
        let g = t0.nodes@[p].parent;
        assert forall|j: int| 0 <= j < t0.nodes@.len() implies #[trigger] t1.nodes@[j].aabb == t0.nodes@[j].aabb by {
            if j != l && j != p && j != s && j != g {
                assert(t1.nodes@[j] == t0.nodes@[j]);
            }
        }
        assert forall|i: int|
            t1.live(i) && t1.nodes@[i].height > 0 && !(g != NULL_NODE && t1.above(g as int, i))
                implies #[trigger] t1.box_ok(i) by {
            assert(t0.live(i));
            assert(i != g as int);
            assert(t0.box_ok(i));
            assert(t0.node_ok(i));
            let a = t0.nodes@[i];
            assert(t1.nodes@[i].left == a.left && t1.nodes@[i].right == a.right && t1.nodes@[i].aabb
                == a.aabb);
            assert(t0.node_ok(a.left as int));
            assert(t0.node_ok(a.right as int));
            assert(t1.nodes@[a.left as int].aabb == t0.nodes@[a.left as int].aabb);
            assert(t1.nodes@[a.right as int].aabb == t0.nodes@[a.right as int].aabb);
        }
    }

    /// Takes collider `handle` out of the tree: its leaf and the leaf's
    /// parent are freed, the leaf's sibling takes the parent's place, and
    /// the nodes above are refitted with `merge`. A handle that is not in
    /// the tree changes nothing.
    pub fn remove<F: Fn(B, B) -> B>(&mut self, handle: ColliderHandle, merge: &F)
        where
            B: Copy,
        requires
            old(self).wf(),
            forall|x: B, y: B| #[trigger] merge.requires((x, y)),
        ensures
            final(self).wf(),
            final(self)@ == old(self)@.remove(handle.0),
            final(self).capacity() == old(self).capacity(),
            forall|x: B, y: B, m: B| #[trigger]
                final(self).made_by_merge(x, y, m) ==> old(self).made_by_merge(x, y, m) || merge.ensures(
                    (x, y),
                    m,
                ),
    {
        let ghost t0 = *self;
        let h = handle.0;
        let leaf_idx = match self.handle_map.get(&h) {
            Some(i) => *i,
            None => {
                proof {
                    assert(t0@.remove(h) =~= t0@);
                }
                return;
            },
        };
        proof {
            assert(t0.live(leaf_idx as int));
            assert(t0.node_ok(leaf_idx as int));
        }
        if self.nodes[leaf_idx as usize].parent == NULL_NODE {
            proof {
                assert(leaf_idx == t0.root) by {
                    if leaf_idx != t0.root {
                        assert(t0.live(NULL_NODE as int));
                    }
                }
                assert forall|i: int| t0.live(i) implies i == leaf_idx by {
                    if i != leaf_idx {
                        t0.lemma_root_above(i);
                    }
                }
            }
            self.handle_map.remove(&h);
            self.root = NULL_NODE;
            self.free_node(leaf_idx);
            proof {
                Self::lemma_last_leaf_freed(&t0, self, h);
            }
            return;
        }
        proof {
            Self::lemma_unlink_ready(&t0, leaf_idx as int);
        }
        let refit_start = self.unlink(leaf_idx);
        self.handle_map.remove(&h);
        proof {
            assert(Self::detached(&t0, self, h, leaf_idx as int));
            Self::lemma_detached(&t0, self, h, leaf_idx as int);
            Self::lemma_detached_around(&t0, self, h, leaf_idx as int);
            if refit_start != NULL_NODE {
                assert(self.live(refit_start as int));
            }
            Self::lemma_detached_boxes(&t0, self, h, leaf_idx as int);
        }
        self.refit_ancestors(refit_start, merge);
    }

    /// Unlinks leaf `leaf_idx` and its parent, puts the sibling in the
    /// parent's place and frees both; returns the grandparent (`NULL_NODE`
    /// when the parent was the root).
    fn unlink(&mut self, leaf_idx: u32) -> (g: u32)
        requires
            Self::unlink_ready(old(self), leaf_idx as int),
        ensures
            Self::unlinked(old(self), final(self), leaf_idx as int),
            final(self).handle_map@ == old(self).handle_map@,
            final(self).merge_rel@ == old(self).merge_rel@,
            g == old(self).nodes@[Self::parent_of(old(self), leaf_idx as int)].parent,
    {
        let ghost t0 = *self;
        let li = leaf_idx as usize;
        let parent_idx = self.nodes[li].parent;
        let pi = parent_idx as usize;
        let sibling_idx = if self.nodes[pi].left == leaf_idx {
            self.nodes[pi].right
        } else {
            self.nodes[pi].left
        };
        let si = sibling_idx as usize;
        let grand = self.nodes[pi].parent;
        if grand == NULL_NODE {
            self.root = sibling_idx;
            self.nodes[si].parent = NULL_NODE;
        } else {
            let gi = grand as usize;
            if self.nodes[gi].left == parent_idx {
                self.nodes[gi].left = sibling_idx;
            } else {
                self.nodes[gi].right = sibling_idx;
            }
            self.nodes[si].parent = grand;
        }
        self.free_node(parent_idx);
        self.free_node(leaf_idx);
        proof {
            assert(seq![leaf_idx] + (seq![parent_idx] + t0.free@) =~= seq![leaf_idx, parent_idx]
                + t0.free@);
        }
        grand
    }

    /// Freeing the leaf that was the whole tree leaves an empty tree.
    proof fn lemma_last_leaf_freed(t0: &Self, t1: &Self, h: u32)
        requires
            t0.shape_wf(),
            t0.handle_map@.contains_key(h),
            t0.handle_map@[h] == t0.root,
            forall|i: int| t0.live(i) ==> i == t0.root,
            t1.root == NULL_NODE,
            t1.nodes@ == t0.nodes@.update(
                t0.root as int,
                TreeNode { height: -1i32, next_free: t0.free_list, ..t0.nodes@[t0.root as int] },
            ),
            t1.free_list == t0.root,
            t1.free@ == seq![t0.root] + t0.free@,
            t1.handle_map@ == t0.handle_map@.remove(h),
            t1.rank@ == t0.rank@,
            t1.bound@ == t0.bound@,
        ensures
            t1.shape_wf(),
            t1@ == t0@.remove(h),
    {
        let r = t0.root;
        assert(t0.live(r as int));
        let f0 = t0.free@;
        let f1 = t1.free@;
        assert forall|i: int| 0 <= i < t1.nodes@.len() implies #[trigger] t1.free@.contains(i as u32) by {
            if i == r {
                assert(f1[0] == r);
            } else {
                assert(!t0.live(i));
                let k = choose|k: int| 0 <= k < f0.len() && f0[k] == i as u32;
                assert(f1[k + 1] == i as u32);
            }
        }
        assert forall|k: u32| !#[trigger] t1.handle_map@.contains_key(k) by {
            if t1.handle_map@.contains_key(k) {
                let i = t0.handle_map@[k] as int;
                assert(t0.live(i));
                assert(t0.nodes@[i].handle.0 == k);
                assert(t0.nodes@[r as int].handle.0 == h);
            }
        }
        assert(f1.no_duplicates()) by {
            assert forall|a: int, b: int| 0 <= a < f1.len() && 0 <= b < f1.len() && a != b implies f1[a] != f1[b] by {
                if a >= 1 && b >= 1 {
                    assert(f1[a] == f0[a - 1] && f1[b] == f0[b - 1]);
                } else if a >= 1 {
                    assert(f1[a] == f0[a - 1]);
                    assert(f0.contains(f1[a]));
                } else if b >= 1 {
                    assert(f1[b] == f0[b - 1]);
                    assert(f0.contains(f1[b]));
                }
            }
        }
        assert forall|k: int| 0 <= k < f1.len() implies #[trigger] f1[k] < t1.nodes@.len() by {
            if k >= 1 {
                assert(f1[k] == f0[k - 1]);
            }
        }
        assert forall|k: int| 0 <= k < f1.len() implies {
            &&& (#[trigger] t1.nodes@[f1[k] as int]).next_free == (if k + 1 < f1.len() {
                f1[k + 1]
            } else {
                NULL_NODE
            })
            &&& t1.nodes@[f1[k] as int].height == -1
        } by {
            if k >= 1 {
                let j = k - 1;
                assert(f1[k] == f0[j]);
                assert(f0.contains(f0[j]));
                assert(f0[j] != r);
                assert(t0.nodes@[f0[j] as int] == t0.nodes@[f0[j] as int]);
                if j + 1 < f0.len() {
                    assert(f1[k + 1] == f0[j + 1]);
                }
            } else if f0.len() > 0 {
                assert(f1[1] == f0[0]);
            }
        }
        assert(t1.free_ok());
        assert forall|i: int| t1.live(i) implies #[trigger] t1.node_ok(i) by {}
        assert(t1@ =~= t0@.remove(h));
    }

    /// Takes a node off the free list, or appends a new one when the list
    /// is empty; the node is then neither free nor in the tree.
    fn allocate_node(&mut self, fill: B) -> (i: u32)
        requires
            old(self).free_ok(),
            old(self).nodes@.len() + 1 < u32::MAX,
            old(self).rank@.len() == old(self).nodes@.len(),
        ensures
            final(self).free_ok(),
            final(self).rank@.len() == final(self).nodes@.len(),
            final(self).root == old(self).root,
            final(self).handle_map@ == old(self).handle_map@,
            final(self).bound@ == old(self).bound@,
            final(self).merge_rel@ == old(self).merge_rel@,
            old(self).free@.len() > 0 ==> {
                &&& i == old(self).free@[0]
                &&& final(self).free@ == old(self).free@.drop_first()
                &&& final(self).nodes@ == old(self).nodes@
                &&& final(self).rank@ == old(self).rank@
            },
            old(self).free@.len() == 0 ==> {
                &&& i == old(self).nodes@.len()
                &&& final(self).free@ == old(self).free@
                &&& final(self).nodes@.len() == old(self).nodes@.len() + 1
                &&& forall|j: int| 0 <= j < old(self).nodes@.len() ==> #[trigger] final(self).nodes@[j] == old(self).nodes@[j]
                &&& forall|j: int| 0 <= j < old(self).nodes@.len() ==> #[trigger] final(self).rank@[j] == old(self).rank@[j]
            },
    {
        if self.free_list != NULL_NODE {
            let i = self.free_list;
            proof {
                assert(self.free@.len() > 0);
                assert(self.free@[0] < self.nodes@.len());
            }
            self.free_list = self.nodes[i as usize].next_free;
            proof {
                let f = self.free@;
                assert(self.nodes@[f[0] as int].next_free == (if 1 < f.len() { f[1] } else { NULL_NODE }));
                self.free@ = f.drop_first();
                assert forall|k: int| 0 <= k < self.free@.len() implies {
                    &&& (#[trigger] self.nodes@[self.free@[k] as int]).next_free == (if k + 1 < self.free@.len() {
                        self.free@[k + 1]
                    } else {
                        NULL_NODE
                    })
                    &&& self.nodes@[self.free@[k] as int].height == -1
                } by {
                    assert(self.free@[k] == f[k + 1]);
                    assert(self.nodes@[f[k + 1] as int] == self.nodes@[f[k + 1] as int]);
                    if k + 1 < self.free@.len() {
                        assert(self.free@[k + 1] == f[k + 2]);
                    }
                }
                assert forall|k: int| 0 <= k < self.free@.len() implies #[trigger] self.free@[k] < self.nodes@.len() by {
                    assert(self.free@[k] == f[k + 1]);
                }
                assert(self.free@.no_duplicates()) by {
                    assert forall|a: int, b: int| 0 <= a < self.free@.len() && 0 <= b < self.free@.len() && a != b implies self.free@[a] != self.free@[b] by {
                        assert(self.free@[a] == f[a + 1] && self.free@[b] == f[b + 1]);
                    }
                }
            }
            i
        } else {
            let i = self.nodes.len() as u32;
            self.nodes.push(TreeNode {
                aabb: fill,
                parent: NULL_NODE,
                left: NULL_NODE,
                right: NULL_NODE,
                height: -1,
                handle: ColliderHandle(u32::MAX),
                next_free: NULL_NODE,
            });
            proof {
                self.rank@ = self.rank@.push(0);
                assert(self.free@.len() == 0);
            }
            i
        }
    }

    /// Puts the first collider into an empty tree: its leaf becomes the
    /// root.
    fn insert_first(&mut self, handle: ColliderHandle, aabb: B)
        where
            B: Copy,
        requires
            old(self).shape_wf(),
            old(self).root == NULL_NODE,
            old(self).nodes@.len() + 1 < u32::MAX,
        ensures
            final(self).shape_wf(),
            final(self).boxes_ok(),
            final(self)@ == old(self)@.insert(handle.0, aabb),
            final(self).nodes@.len() <= old(self).nodes@.len() + 1,
            final(self).merge_rel@ == old(self).merge_rel@,
            final(self).handle_map@[handle.0] == final(self).root,
            final(self).nodes@[final(self).root as int].parent == NULL_NODE,
    {
        let ghost t0 = *self;
        proof {
            assert forall|k: u32| !#[trigger] t0.handle_map@.contains_key(k) by {
                if t0.handle_map@.contains_key(k) {
                    let i = t0.handle_map@[k] as int;
                    assert(t0.free@.contains(i as u32));
                }
            }
        }
        let l = self.allocate_node(aabb);
        let li = l as usize;
        let nf = self.nodes[li].next_free;
        let ghost ta = *self;
        self.nodes.set(
            li,
            TreeNode {
                aabb,
                parent: NULL_NODE,
                left: NULL_NODE,
                right: NULL_NODE,
                height: 0,
                handle,
                next_free: nf,
            },
        );
        self.root = l;
        self.handle_map.insert(handle.0, l);
        proof {
            self.rank@ = self.rank@.update(l as int, 0);
            if self.bound@ < 0 {
                self.bound@ = 0;
            }
            assert(!ta.free@.contains(l)) by {
                if t0.free@.len() > 0 {
                    assert(t0.free@[0] == l);
                    if ta.free@.contains(l) {
                        let k = choose|k: int| 0 <= k < ta.free@.len() && ta.free@[k] == l;
                        assert(t0.free@[k + 1] == l);
                    }
                }
            }
            assert forall|i: int| #[trigger] self.live(i) <==> i == l as int by {
                if 0 <= i < self.nodes@.len() && i != l as int {
                    if t0.free@.len() > 0 {
                        assert(t0.free@.contains(i as u32));
                        let k = choose|k: int| 0 <= k < t0.free@.len() && t0.free@[k] == i as u32;
                        assert(k != 0);
                        assert(ta.free@[k - 1] == i as u32);
                    } else {
                        assert(t0.free@.contains(i as u32));
                    }
                }
            }
            assert forall|k: int| 0 <= k < self.free@.len() implies {
                &&& (#[trigger] self.nodes@[self.free@[k] as int]).next_free == (if k + 1 < self.free@.len() {
                    self.free@[k + 1]
                } else {
                    NULL_NODE
                })
                &&& self.nodes@[self.free@[k] as int].height == -1
            } by {
                assert(ta.free@[k] != l);
                assert(ta.nodes@[ta.free@[k] as int] == ta.nodes@[ta.free@[k] as int]);
            }
            assert(self.free_ok());
            assert(self.node_ok(l as int));
            assert(self@ =~= t0@.insert(handle.0, aabb));
            assert(self.boxes_ok());
        }
    }

    /// `ta` is `t0` after nodes `l` and `np` were allocated: taken off the
    /// front of the free list or appended.
    spec fn allocated(t0: &Self, ta: &Self, l: int, np: int) -> bool {
        &&& ta.nodes@.len() >= t0.nodes@.len()
        &&& ta.nodes@.len() < u32::MAX
        &&& forall|i: int| 0 <= i < t0.nodes@.len() ==> #[trigger] ta.nodes@[i] == t0.nodes@[i]
        &&& ta.nodes@.len() == t0.nodes@.len() + (if l >= t0.nodes@.len() {
            1int
        } else {
            0int
        }) + (if np >= t0.nodes@.len() {
            1int
        } else {
            0int
        })
        &&& 0 <= l < ta.nodes@.len()
        &&& 0 <= np < ta.nodes@.len()
        &&& l != np
        &&& !t0.live(l)
        &&& !t0.live(np)
        &&& ta.free@ == t0.free@.skip(t0.free@.len() - ta.free@.len())
        &&& ta.free@.len() <= t0.free@.len()
        &&& forall|k: int|
            0 <= k < t0.free@.len() - ta.free@.len() ==> #[trigger] t0.free@[k] == l || t0.free@[k] == np
        &&& !ta.free@.contains(l as u32)
        &&& !ta.free@.contains(np as u32)
        &&& ta.free_ok()
        &&& ta.rank@.len() == ta.nodes@.len()
        &&& forall|i: int| 0 <= i < t0.nodes@.len() ==> #[trigger] ta.rank@[i] == t0.rank@[i]
        &&& ta.root == t0.root
        &&& ta.handle_map@ == t0.handle_map@
        &&& ta.bound@ == t0.bound@
    }

    /// `t1` is `ta` after leaf `l` (collider `h`, box `aabb`) and the new
    /// internal node `np` (box `pbox`, height `hnp`) were linked in, `np`
    /// taking the place of `s` and having `s` and `l` as children.
    spec fn linked(
        ta: &Self,
        t1: &Self,
        h: ColliderHandle,
        aabb: B,
        l: int,
        np: int,
        s: int,
        pbox: B,
        hnp: i32,
    ) -> bool {
        let g = ta.nodes@[s].parent;
        &&& t1.nodes@.len() == ta.nodes@.len()
        &&& t1.free@ == ta.free@
        &&& t1.free_list == ta.free_list
        &&& forall|i: int|
            0 <= i < ta.nodes@.len() && i != l && i != np && i != s && i != g ==> #[trigger] t1.nodes@[i]
                == ta.nodes@[i]
        &&& t1.nodes@[l] == TreeNode {
            aabb,
            parent: np as u32,
            left: NULL_NODE,
            right: NULL_NODE,
            height: 0i32,
            handle: h,
            next_free: ta.nodes@[l].next_free,
        }
        &&& t1.nodes@[np] == TreeNode {
            aabb: pbox,
            parent: g,
            left: s as u32,
            right: l as u32,
            height: hnp,
            handle: ta.nodes@[np].handle,
            next_free: ta.nodes@[np].next_free,
        }
        &&& t1.nodes@[s] == TreeNode { parent: np as u32, ..ta.nodes@[s] }
        &&& g != NULL_NODE ==> t1.nodes@[g as int] == (if ta.nodes@[g as int].left == s {
            TreeNode { left: np as u32, ..ta.nodes@[g as int] }
        } else {
            TreeNode { right: np as u32, ..ta.nodes@[g as int] }
        })
        &&& t1.root == (if g == NULL_NODE {
            np as u32
        } else {
            ta.root
        })
        &&& t1.rank@.len() == ta.nodes@.len()
        &&& forall|i: int|
            0 <= i < ta.nodes@.len() ==> #[trigger] t1.rank@[i] == (if i == l {
                2 * ta.rank@[s]
            } else if i == np {
                2 * ta.rank@[s] + 1
            } else {
                2 * ta.rank@[i]
            })
        &&& t1.bound@ == 2 * ta.bound@ + 1
        &&& t1.handle_map@ == ta.handle_map@.insert(h.0, l as u32)
        &&& hnp > 0
    }

    /// Nodes of `t0` keep their links and ranks through an allocation.
    proof fn lemma_allocated_live(t0: &Self, ta: &Self, l: int, np: int)
        requires
            t0.shape_wf(),
            Self::allocated(t0, ta, l, np),
        ensures
            forall|i: int| #[trigger] ta.live(i) <==> (t0.live(i) || i == l || i == np),
    {
        let f0 = t0.free@;
        let fa = ta.free@;
        let c = f0.len() - fa.len();
        assert forall|i: int| #[trigger] ta.live(i) <==> (t0.live(i) || i == l || i == np) by {
            if 0 <= i < ta.nodes@.len() {
                if fa.contains(i as u32) {
                    let k = choose|k: int| 0 <= k < fa.len() && fa[k] == i as u32;
                    assert(f0[k + c] == i as u32);
                    assert(i < t0.nodes@.len());
                    assert(f0.contains(i as u32));
                } else if i < t0.nodes@.len() && f0.contains(i as u32) && i != l && i != np {
                    let k = choose|k: int| 0 <= k < f0.len() && f0[k] == i as u32;
                    if k < c {
                        assert(f0[k] == l || f0[k] == np);
                    } else {
                        assert(fa[k - c] == i as u32);
                    }
                }
            }
        }
    }

    /// The nodes around the insertion point: the sibling, its parent (if
    /// any) and the two allocated nodes are distinct, and the sibling's
    /// parent is an internal node of `t0` above it.
    proof fn lemma_attached_around(
        t0: &Self,
        ta: &Self,
        t1: &Self,
        h: ColliderHandle,
        aabb: B,
        l: int,
        np: int,
        s: int,
        pbox: B,
        hnp: i32,
    )
        requires
            t0.shape_wf(),
            t0.live(s),
            Self::allocated(t0, ta, l, np),
            Self::linked(ta, t1, h, aabb, l, np, s, pbox, hnp),
        ensures
            ({
                let g = t0.nodes@[s].parent;
                &&& ta.nodes@[s] == t0.nodes@[s]
                &&& s != l && s != np
                &&& g == NULL_NODE <==> s == t0.root
                &&& g != NULL_NODE ==> {
                    &&& t0.live(g as int)
                    &&& ta.nodes@[g as int] == t0.nodes@[g as int]
                    &&& t0.nodes@[g as int].height > 0
                    &&& (t0.nodes@[g as int].left == s || t0.nodes@[g as int].right == s)
                    &&& g as int != l && g as int != np && g as int != s
                    &&& t0.rank@[s] < t0.rank@[g as int]
                }
                &&& 0 <= t0.rank@[s] <= t0.bound@
            }),
            forall|i: int| #[trigger] t1.live(i) <==> (t0.live(i) || i == l || i == np),
    {
        Self::lemma_allocated_live(t0, ta, l, np);
        assert forall|i: int| #[trigger] t1.live(i) <==> (t0.live(i) || i == l || i == np) by {
            assert(t1.live(i) == ta.live(i));
        }
        assert(t0.node_ok(s));
        let g = t0.nodes@[s].parent;
        if g != NULL_NODE {
            assert(s != t0.root);
            assert(t0.node_ok(g as int));
        } else {
            assert(s == t0.root) by {
                if s != t0.root {
                    assert(t0.live(g as int));
                }
            }
        }
    }

    #[verifier::spinoff_prover]
    proof fn lemma_attached_new_node(
        t0: &Self,
        ta: &Self,
        t1: &Self,
        h: ColliderHandle,
        aabb: B,
        l: int,
        np: int,
        s: int,
        pbox: B,
        hnp: i32,
        i: int,
    )
        requires
            t0.shape_wf(),
            t0.live(s),
            !t0.handle_map@.contains_key(h.0),
            Self::allocated(t0, ta, l, np),
            Self::linked(ta, t1, h, aabb, l, np, s, pbox, hnp),
            i == l || i == np,
        ensures
            t1.node_ok(i),
    {
        Self::lemma_attached_around(t0, ta, t1, h, aabb, l, np, s, pbox, hnp);
        let g = t0.nodes@[s].parent;
        let rs = t0.rank@[s];
        assert(t1.rank@[l] == 2 * rs);
        assert(t1.rank@[np] == 2 * rs + 1);
        assert(t1.live(np) && t1.live(l) && t1.live(s));
        if i == np && g != NULL_NODE {
            assert(t1.live(g as int));
            assert(t1.rank@[g as int] == 2 * t0.rank@[g as int]);
        }
    }

    /// What an insertion does to the nodes that were already in the tree.
    spec fn attach_facts(t0: &Self, t1: &Self, h: u32, l: int, np: int, s: int) -> bool {
        let g = t0.nodes@[s].parent;
        &&& forall|j: int| #[trigger] t1.live(j) <==> (t0.live(j) || j == l || j == np)
        &&& !t0.live(l) && !t0.live(np) && l != np
        &&& t1.nodes@.len() < u32::MAX
        &&& t1.rank@.len() == t1.nodes@.len()
        &&& forall|j: int|
            t0.live(j) && j != s && j != g ==> #[trigger] t1.nodes@[j] == t0.nodes@[j]
        &&& t1.nodes@[s] == TreeNode { parent: np as u32, ..t0.nodes@[s] }
        &&& g != NULL_NODE ==> t1.nodes@[g as int] == (if t0.nodes@[g as int].left == s {
            TreeNode { left: np as u32, ..t0.nodes@[g as int] }
        } else {
            TreeNode { right: np as u32, ..t0.nodes@[g as int] }
        })
        &&& forall|j: int| t0.live(j) ==> #[trigger] t1.rank@[j] == 2 * t0.rank@[j]
        &&& t1.rank@[np] == 2 * t0.rank@[s] + 1
        &&& t1.nodes@[np].parent == g
        &&& t1.nodes@[np].left == s
        &&& t1.nodes@[np].height > 0
        &&& t1.bound@ == 2 * t0.bound@ + 1
        &&& t1.root == (if g == NULL_NODE {
            np as u32
        } else {
            t0.root
        })
        &&& t1.handle_map@ == t0.handle_map@.insert(h, l as u32)
        &&& !t0.handle_map@.contains_key(h)
    }

    proof fn lemma_attach_facts(
        t0: &Self,
        ta: &Self,
        t1: &Self,
        h: ColliderHandle,
        aabb: B,
        l: int,
        np: int,
        s: int,
        pbox: B,
        hnp: i32,
    )
        requires
            t0.shape_wf(),
            t0.live(s),
            !t0.handle_map@.contains_key(h.0),
            Self::allocated(t0, ta, l, np),
            Self::linked(ta, t1, h, aabb, l, np, s, pbox, hnp),
        ensures
            Self::attach_facts(t0, t1, h.0, l, np, s),
    {
        Self::lemma_attached_around(t0, ta, t1, h, aabb, l, np, s, pbox, hnp);
        let g = t0.nodes@[s].parent;
        assert forall|j: int| t0.live(j) && j != s && j != g implies #[trigger] t1.nodes@[j] == t0.nodes@[j] by {
            assert(ta.nodes@[j] == t0.nodes@[j]);
        }
        assert forall|j: int| t0.live(j) implies #[trigger] t1.rank@[j] == 2 * t0.rank@[j] by {
            assert(ta.rank@[j] == t0.rank@[j]);
        }
    }

    #[verifier::spinoff_prover]
    proof fn lemma_attached_old_node(t0: &Self, t1: &Self, h: u32, l: int, np: int, s: int, i: int)
        requires
            t0.shape_wf(),
            t0.live(s),
            Self::attach_facts(t0, t1, h, l, np, s),
            t0.live(i),
        ensures
            t1.node_ok(i),
    {
        let g = t0.nodes@[s].parent;
        assert(t0.node_ok(s));
        if g != NULL_NODE {
            assert(s != t0.root);
            assert(t0.node_ok(g as int));
        } else {
            assert(s == t0.root) by {
                if s != t0.root {
                    assert(t0.live(g as int));
                }
            }
        }
        assert(t0.node_ok(i));
        assert(t1.live(i));
        let a = t0.nodes@[i];
        let b = t1.nodes@[i];
        assert(b.height == a.height && b.handle == a.handle);
        if i != s {
            assert(b.parent == a.parent);
        }
        if a.height > 0 {
            let c1 = a.left as int;
            let c2 = a.right as int;
            assert(t0.node_ok(c1) && t0.node_ok(c2));
            assert(t1.live(c1) && t1.live(c2));
            if i == g as int {
                assert(t1.live(np));
                assert(t1.nodes@[np].parent == i);
                if a.left == s {
                    assert(b.left == np && b.right == a.right);
                    assert(t0.live(a.right as int));
                } else {
                    assert(b.right == np && b.left == a.left);
                    assert(t0.live(a.left as int));
                }
                assert(t1.live(b.left as int) && t1.live(b.right as int));
                assert(b.left != b.right);
            } else {
                assert(c1 != s && c2 != s);
                assert(b.left == a.left && b.right == a.right);
                assert(t1.nodes@[c1].parent == t0.nodes@[c1].parent);
                assert(t1.nodes@[c2].parent == t0.nodes@[c2].parent);
            }
        }
        if i != t1.root {
            if i == s {
                assert(t1.live(np));
                assert(t1.nodes@[np].left == s);
            } else {
                assert(i != t0.root);
                let q = a.parent as int;
                assert(t0.node_ok(q));
                assert(t1.live(q));
                assert(t1.rank@[q] == 2 * t0.rank@[q]);
                if q == g as int {
                    assert(t0.nodes@[q].left == i || t0.nodes@[q].right == i);
                    assert(t1.nodes@[q].height == t0.nodes@[q].height);
                    if t0.nodes@[q].left == s {
                        assert(t1.nodes@[q].right == t0.nodes@[q].right);
                        assert(t0.nodes@[q].right == i);
                    } else {
                        assert(t1.nodes@[q].left == t0.nodes@[q].left);
                        assert(t0.nodes@[q].left == i);
                    }
                } else if q == s {
                    assert(t1.nodes@[q].left == t0.nodes@[q].left);
                    assert(t1.nodes@[q].right == t0.nodes@[q].right);
                    assert(t1.nodes@[q].height == t0.nodes@[q].height);
                } else {
                    assert(t1.nodes@[q] == t0.nodes@[q]);
                }
            }
        }
        assert(t1.rank@[i] == 2 * t0.rank@[i]);
        if b.height == 0 {
            assert(t0.handle_map@.contains_key(a.handle.0));
            assert(a.handle.0 != h);
        }
    }

    proof fn lemma_attached_shape(
        t0: &Self,
        ta: &Self,
        t1: &Self,
        h: ColliderHandle,
        aabb: B,
        l: int,
        np: int,
        s: int,
        pbox: B,
        hnp: i32,
    )
        requires
            t0.shape_wf(),
            t0.live(s),
            !t0.handle_map@.contains_key(h.0),
            Self::allocated(t0, ta, l, np),
            Self::linked(ta, t1, h, aabb, l, np, s, pbox, hnp),
        ensures
            forall|i: int| t1.live(i) ==> #[trigger] t1.node_ok(i),
    {
        Self::lemma_attached_around(t0, ta, t1, h, aabb, l, np, s, pbox, hnp);
        Self::lemma_attach_facts(t0, ta, t1, h, aabb, l, np, s, pbox, hnp);
        assert forall|i: int| t1.live(i) implies #[trigger] t1.node_ok(i) by {
            if i == l || i == np {
                Self::lemma_attached_new_node(t0, ta, t1, h, aabb, l, np, s, pbox, hnp, i);
            } else {
                Self::lemma_attached_old_node(t0, t1, h.0, l, np, s, i);
            }
        }
    }

    proof fn lemma_attached(
        t0: &Self,
        ta: &Self,
        t1: &Self,
        h: ColliderHandle,
        aabb: B,
        l: int,
        np: int,
        s: int,
        pbox: B,
        hnp: i32,
    )
        requires
            t0.shape_wf(),
            t0.live(s),
            !t0.handle_map@.contains_key(h.0),
            Self::allocated(t0, ta, l, np),
            Self::linked(ta, t1, h, aabb, l, np, s, pbox, hnp),
        ensures
            t1.shape_wf(),
            t1@ == t0@.insert(h.0, aabb),
            t1.live(np),
            t1.nodes@[np].height > 0,
            t1.capacity() == ta.capacity(),
    {
        Self::lemma_attached_around(t0, ta, t1, h, aabb, l, np, s, pbox, hnp);
        Self::lemma_attached_shape(t0, ta, t1, h, aabb, l, np, s, pbox, hnp);
        let g = t0.nodes@[s].parent;
        // the free list is untouched
        assert forall|k: int| 0 <= k < t1.free@.len() implies {
            &&& (#[trigger] t1.nodes@[t1.free@[k] as int]).next_free == (if k + 1 < t1.free@.len() {
                t1.free@[k + 1]
            } else {
                NULL_NODE
            })
            &&& t1.nodes@[t1.free@[k] as int].height == -1
        } by {
            let f = ta.free@[k] as int;
            assert(ta.free@[k] < ta.nodes@.len());
            assert(!t1.live(f));
            assert(ta.nodes@[f] == ta.nodes@[f]);
        }
        assert(t1.free_ok());
        // the root
        if g != NULL_NODE {
            let r = t0.root as int;
            assert(t0.live(r));
            assert(ta.nodes@[r] == t0.nodes@[r]);
            assert(t1.live(r));
        }
        // the map
        assert forall|k: u32| #[trigger] t1.handle_map@.contains_key(k) implies {
            let i = t1.handle_map@[k] as int;
            &&& t1.live(i)
            &&& t1.nodes@[i].height == 0
            &&& t1.nodes@[i].handle.0 == k
        } by {
            if k != h.0 {
                let i = t0.handle_map@[k] as int;
                assert(t0.live(i));
                assert(ta.nodes@[i] == t0.nodes@[i]);
            }
        }
        assert(t1@ =~= t0@.insert(h.0, aabb)) by {
            assert forall|k: u32| #[trigger] t1.handle_map@.contains_key(k) && k != h.0 implies t1.nodes@[t1.handle_map@[k] as int].aabb
                == t0.nodes@[t0.handle_map@[k] as int].aabb by {
                let i = t0.handle_map@[k] as int;
                assert(t0.live(i));
                assert(ta.nodes@[i] == t0.nodes@[i]);
            }
        }
    }

    /// Linking in a leaf changes no box of the nodes that were in the tree,
    /// and the children of none but the sibling's old parent.
    proof fn lemma_attached_boxes(
        t0: &Self,
        ta: &Self,
        t1: &Self,
        h: ColliderHandle,
        aabb: B,
        l: int,
        np: int,
        s: int,
        pbox: B,
        hnp: i32,
    )
        requires
            t0.shape_wf(),
            t0.boxes_ok(),
            t0.live(s),
            !t0.handle_map@.contains_key(h.0),
            Self::allocated(t0, ta, l, np),
            Self::linked(ta, t1, h, aabb, l, np, s, pbox, hnp),
            t1.shape_wf(),
            t1.merge_rel@ == t0.merge_rel@,
        ensures
            t1.boxes_ok_except(np as u32),
    {
        Self::lemma_attached_around(t0, ta, t1, h, aabb, l, np, s, pbox, hnp);
        Self::lemma_attach_facts(t0, ta, t1, h, aabb, l, np, s, pbox, hnp);
        let g = t0.nodes@[s].parent;
        if g != NULL_NODE {
            assert(t1.live(np));
            assert(t1.above(g as int, g as int));
            t1.lemma_above_step(np, g as int);
        }
        assert forall|j: int| t0.live(j) implies #[trigger] t1.nodes@[j].aabb == t0.nodes@[j].aabb by {
            if j != s && j != g {
                assert(t1.nodes@[j] == t0.nodes@[j]);
            }
        }
        assert forall|i: int|
            t1.live(i) && t1.nodes@[i].height > 0 && !(np as u32 != NULL_NODE && t1.above(np, i))
                implies #[trigger] t1.box_ok(i) by {
            assert(i != np);
            assert(t0.live(i));
            assert(i != g as int);
            assert(t0.box_ok(i));
            assert(t0.node_ok(i));
            let a = t0.nodes@[i];
            assert(t1.nodes@[i].left == a.left && t1.nodes@[i].right == a.right && t1.nodes@[i].aabb
                == a.aabb);
            assert(t1.nodes@[a.left as int].aabb == t0.nodes@[a.left as int].aabb);
            assert(t1.nodes@[a.right as int].aabb == t0.nodes@[a.right as int].aabb);
        }
    }

    /// Adds collider `handle` with box `aabb`. In an empty tree its leaf
    /// becomes the root; otherwise a new internal node takes the place of
    /// node `sibling`, with `sibling` and the new leaf as its children, and
    /// the nodes from there up are refitted with `merge`.
    pub fn insert<F: Fn(B, B) -> B>(&mut self, handle: ColliderHandle, aabb: B, sibling: u32, merge: &F)
        where
            B: Copy,
        requires
            old(self).wf(),
            !old(self)@.contains_key(handle.0),
            old(self).capacity() + 2 < u32::MAX,
            (forall|i: int| !old(self).live(i)) || old(self).live(sibling as int),
            forall|x: B, y: B| #[trigger] merge.requires((x, y)),
        ensures
            final(self).wf(),
            final(self)@ == old(self)@.insert(handle.0, aabb),
            final(self).capacity() <= old(self).capacity() + 2,
            forall|x: B, y: B, m: B| #[trigger]
                final(self).made_by_merge(x, y, m) ==> old(self).made_by_merge(x, y, m) || merge.ensures(
                    (x, y),
                    m,
                ),
            old(self).root_index() == NULL_NODE ==> {
                &&& final(self).root_index() as int == final(self).leaf_of(handle.0)
                &&& final(self).parent_index(final(self).leaf_of(handle.0)) == NULL_NODE
            },
            old(self).root_index() != NULL_NODE ==> ({
                let l = final(self).leaf_of(handle.0);
                let np = final(self).parent_index(l);
                let g = old(self).parent_index(sibling as int);
                &&& !old(self).live(l) && !old(self).live(np as int)
                &&& final(self).live(l) && final(self).live(np as int)
                &&& final(self).children_of(np as int) == (sibling, l as u32)
                &&& final(self).parent_index(sibling as int) == np
                &&& final(self).parent_index(np as int) == g
                &&& g == NULL_NODE ==> final(self).root_index() == np
                &&& g != NULL_NODE ==> {
                    &&& final(self).root_index() == old(self).root_index()
                    &&& final(self).children_of(g as int) == (if old(self).children_of(g as int).0
                        == sibling {
                        (np, old(self).children_of(g as int).1)
                    } else {
                        (old(self).children_of(g as int).0, np)
                    })
                }
            }),
    {
        let ghost t0 = *self;
        if self.root == NULL_NODE {
            self.insert_first(handle, aabb);
            return;
        }
        proof {
            assert(t0.live(t0.root as int));
            assert(t0.live(sibling as int));
            assert(t0.node_ok(sibling as int));
        }
        let si = sibling as usize;
        let sibling_box = self.nodes[si].aabb;
        let parent_box = merge(aabb, sibling_box);
        let hs = self.nodes[si].height;
        let hnp = if hs < i32::MAX {
            hs + 1
        } else {
            hs
        };
        let leaf = self.allocate_node(aabb);
        let ghost tm = *self;
        let new_parent = self.allocate_node(aabb);
        let ghost ta = *self;
        proof {
            Self::lemma_two_allocations(&t0, &tm, &ta, leaf as int, new_parent as int);
            Self::lemma_link_ready(&t0, &ta, leaf as int, new_parent as int, sibling as int);
        }
        self.link(handle, aabb, leaf, new_parent, sibling, parent_box, hnp);
        proof {
            Self::lemma_attached(
                &t0,
                &ta,
                self,
                handle,
                aabb,
                leaf as int,
                new_parent as int,
                sibling as int,
                parent_box,
                hnp,
            );
            Self::lemma_attached_boxes(
                &t0,
                &ta,
                self,
                handle,
                aabb,
                leaf as int,
                new_parent as int,
                sibling as int,
                parent_box,
                hnp,
            );
            Self::lemma_attach_facts(
                &t0,
                &ta,
                self,
                handle,
                aabb,
                leaf as int,
                new_parent as int,
                sibling as int,
                parent_box,
                hnp,
            );
        }
        let ghost t1 = *self;
        self.refit_ancestors(new_parent, merge);
        proof {
            t1.lemma_same_links(self);
            let (l, np, s) = (leaf as int, new_parent as int, sibling as int);
            assert(ta.nodes@[s] == t0.nodes@[s]);
            assert(self.handle_map@[handle.0] == leaf);
            assert(self.nodes@[l].parent == t1.nodes@[l].parent);
            assert(self.nodes@[np] .parent == t1.nodes@[np].parent);
            assert(self.nodes@[np].left == t1.nodes@[np].left && self.nodes@[np].right == t1.nodes@[np].right);
            assert(self.nodes@[s].parent == t1.nodes@[s].parent);
            let g = t0.nodes@[s].parent;
            if g != NULL_NODE {
                assert(t0.live(s));
                assert(t0.node_ok(s));
                assert(ta.nodes@[g as int] == t0.nodes@[g as int]);
                assert(self.nodes@[g as int].left == t1.nodes@[g as int].left);
                assert(self.nodes@[g as int].right == t1.nodes@[g as int].right);
            }
        }
    }

    /// Two allocations in a row, described as one.
    proof fn lemma_two_allocations(t0: &Self, tm: &Self, ta: &Self, l: int, np: int)
        requires
            t0.shape_wf(),
            t0.nodes@.len() + 2 < u32::MAX,
            tm.free_ok(),
            tm.rank@.len() == tm.nodes@.len(),
            tm.root == t0.root,
            tm.handle_map@ == t0.handle_map@,
            tm.bound@ == t0.bound@,
            t0.free@.len() > 0 ==> {
                &&& l == t0.free@[0]
                &&& tm.free@ == t0.free@.drop_first()
                &&& tm.nodes@ == t0.nodes@
                &&& tm.rank@ == t0.rank@
            },
            t0.free@.len() == 0 ==> {
                &&& l == t0.nodes@.len()
                &&& tm.free@ == t0.free@
                &&& tm.nodes@.len() == t0.nodes@.len() + 1
                &&& forall|j: int| 0 <= j < t0.nodes@.len() ==> #[trigger] tm.nodes@[j] == t0.nodes@[j]
                &&& forall|j: int| 0 <= j < t0.nodes@.len() ==> #[trigger] tm.rank@[j] == t0.rank@[j]
            },
            ta.free_ok(),
            ta.rank@.len() == ta.nodes@.len(),
            ta.root == tm.root,
            ta.handle_map@ == tm.handle_map@,
            ta.bound@ == tm.bound@,
            tm.free@.len() > 0 ==> {
                &&& np == tm.free@[0]
                &&& ta.free@ == tm.free@.drop_first()
                &&& ta.nodes@ == tm.nodes@
                &&& ta.rank@ == tm.rank@
            },
            tm.free@.len() == 0 ==> {
                &&& np == tm.nodes@.len()
                &&& ta.free@ == tm.free@
                &&& ta.nodes@.len() == tm.nodes@.len() + 1
                &&& forall|j: int| 0 <= j < tm.nodes@.len() ==> #[trigger] ta.nodes@[j] == tm.nodes@[j]
                &&& forall|j: int| 0 <= j < tm.nodes@.len() ==> #[trigger] ta.rank@[j] == tm.rank@[j]
            },
        ensures
            Self::allocated(t0, ta, l, np),
    {
        let f0 = t0.free@;
        let n0 = t0.nodes@.len();
        assert forall|i: int| 0 <= i < n0 implies #[trigger] ta.nodes@[i] == t0.nodes@[i] by {
            assert(tm.nodes@[i] == t0.nodes@[i]);
        }
        assert forall|i: int| 0 <= i < n0 implies #[trigger] ta.rank@[i] == t0.rank@[i] by {
            assert(tm.rank@[i] == t0.rank@[i]);
        }
        if f0.len() >= 2 {
            assert(tm.free@[0] == f0[1]);
            assert(f0[0] != f0[1]);
            assert(ta.free@ =~= f0.skip(2));
            assert(f0.contains(f0[0]) && f0.contains(f0[1]));
            assert(f0[0] < n0 && f0[1] < n0);
            assert(!ta.free@.contains(l as u32)) by {
                if ta.free@.contains(l as u32) {
                    let k = choose|k: int| 0 <= k < ta.free@.len() && ta.free@[k] == l as u32;
                    assert(f0[k + 2] == f0[0]);
                }
            }
            assert(!ta.free@.contains(np as u32)) by {
                if ta.free@.contains(np as u32) {
                    let k = choose|k: int| 0 <= k < ta.free@.len() && ta.free@[k] == np as u32;
                    assert(f0[k + 2] == f0[1]);
                }
            }
        } else if f0.len() == 1 {
            assert(tm.free@.len() == 0);
            assert(ta.free@ =~= f0.skip(1));
            assert(f0.contains(f0[0]));
            assert(f0[0] < n0);
        } else {
            assert(ta.free@ =~= f0.skip(0));
        }
        assert forall|i: int| 0 <= i < ta.free@.len() implies #[trigger] ta.free@[i] < n0 by {
            let c = f0.len() - ta.free@.len();
            assert(ta.free@[i] == f0[i + c]);
        }
    }

    /// The indices that `link` touches are distinct and in range.
    proof fn lemma_link_ready(t0: &Self, ta: &Self, l: int, np: int, s: int)
        requires
            t0.shape_wf(),
            t0.live(s),
            Self::allocated(t0, ta, l, np),
        ensures
            Self::link_ready(ta, l, np, s),
    {
        assert(t0.node_ok(s));
        assert(ta.nodes@[s] == t0.nodes@[s]);
        let g = t0.nodes@[s].parent;
        if g != NULL_NODE {
            assert(s != t0.root);
            assert(t0.live(g as int));
        }
    }

    /// Node `s` of `ta` and the two new nodes `l`, `np` can be linked.
    spec fn link_ready(ta: &Self, l: int, np: int, s: int) -> bool {
        let g = ta.nodes@[s].parent;
        &&& ta.nodes@.len() < u32::MAX
        &&& ta.rank@.len() == ta.nodes@.len()
        &&& 0 <= l < ta.nodes@.len()
        &&& 0 <= np < ta.nodes@.len()
        &&& 0 <= s < ta.nodes@.len()
        &&& l != np && l != s && np != s
        &&& g == NULL_NODE || (g as int) < ta.nodes@.len()
        &&& g != NULL_NODE ==> g as int != l && g as int != np && g as int != s
    }

    /// Links leaf `leaf` (collider `handle`, box `aabb`) and internal node
    /// `new_parent` (box `parent_box`, height `hnp`) in at node `sibling`.
    fn link(
        &mut self,
        handle: ColliderHandle,
        aabb: B,
        leaf: u32,
        new_parent: u32,
        sibling: u32,
        parent_box: B,
        hnp: i32,
    )
        requires
            Self::link_ready(old(self), leaf as int, new_parent as int, sibling as int),
            hnp > 0,
        ensures
            Self::linked(
                old(self),
                final(self),
                handle,
                aabb,
                leaf as int,
                new_parent as int,
                sibling as int,
                parent_box,
                hnp,
            ),
            final(self).merge_rel@ == old(self).merge_rel@,
    {
        let ghost ta = *self;
        let li = leaf as usize;
        let npi = new_parent as usize;
        let si = sibling as usize;
        let grand = self.nodes[si].parent;
        let leaf_next = self.nodes[li].next_free;
        self.nodes.set(
            li,
            TreeNode {
                aabb,
                parent: new_parent,
                left: NULL_NODE,
                right: NULL_NODE,
                height: 0,
                handle,
                next_free: leaf_next,
            },
        );
        let np_handle = self.nodes[npi].handle;
        let np_next = self.nodes[npi].next_free;
        self.nodes.set(
            npi,
            TreeNode {
                aabb: parent_box,
                parent: grand,
                left: sibling,
                right: leaf,
                height: hnp,
                handle: np_handle,
                next_free: np_next,
            },
        );
        self.nodes[si].parent = new_parent;
        if grand == NULL_NODE {
            self.root = new_parent;
        } else {
            let gi = grand as usize;
            if self.nodes[gi].left == sibling {
                self.nodes[gi].left = new_parent;
            } else {
                self.nodes[gi].right = new_parent;
            }
        }
        self.handle_map.insert(handle.0, leaf);
        proof {
            let r = ta.rank@;
            let rs = r[sibling as int];
            self.rank@ = Seq::new(
                r.len(),
                |i: int|
                    if i == leaf as int {
                        2 * rs
                    } else if i == new_parent as int {
                        2 * rs + 1
                    } else {
                        2 * r[i]
                    },
            );
            self.bound@ = 2 * self.bound@ + 1;
        }
    }

    /// Whether the boxes of colliders `a` and `b` were found to overlap, in
    /// either order, by a call of `overlaps`.
    pub open spec fn seen_overlapping<F: Fn(B, B) -> bool>(&self, overlaps: &F, a: u32, b: u32) -> bool {
        overlaps.ensures((self@[a], self@[b]), true) || overlaps.ensures((self@[b], self@[a]), true)
    }

    /// The weight of a stack of node pairs still to visit: each pair
    /// weighs `5^(rank sum)`, so a pair outweighs the up to four pairs of
    /// children that replace it.
    spec fn pair_stack_weight(&self, st: Seq<(u32, u32)>) -> nat
        decreases st.len(),
    {
        if st.len() == 0 {
            0
        } else {
            self.pair_stack_weight(st.drop_last()) + self.pair_weight(st.last())
        }
    }

    /// Whether colliders `h1 < h2` are both in the tree and `overlaps`
    /// surely finds each one's box overlapping the other's.
    pub open spec fn must_pair<F: Fn(B, B) -> bool>(&self, overlaps: &F, h1: u32, h2: u32) -> bool {
        &&& h1 < h2
        &&& self@.contains_key(h1)
        &&& self@.contains_key(h2)
        &&& surely_overlap(overlaps, self@[h1], self@[h2])
        &&& surely_overlap(overlaps, self@[h2], self@[h1])
    }

    /// The leaf of a collider in the tree.
    proof fn lemma_leaf_of(&self, h: u32)
        requires
            self.shape_wf(),
            self@.contains_key(h),
        ensures
            self.live(self.leaf_of(h)),
            self.nodes@[self.leaf_of(h)].height == 0,
            self.nodes@[self.leaf_of(h)].handle.0 == h,
            self@[h] == self.nodes@[self.leaf_of(h)].aabb,
    {
        assert(self.handle_map@.contains_key(h));
    }

    /// Node pair `e` has `x` below one of its nodes and `y` below the
    /// other.
    spec fn pair_covers(&self, e: (u32, u32), x: int, y: int) -> bool {
        ||| self.above(x, e.0 as int) && self.above(y, e.1 as int)
        ||| self.above(y, e.0 as int) && self.above(x, e.1 as int)
    }

    /// Collider pair `h1, h2` is none of the walk's concern, or is in
    /// `found` from index `from` on, or a pair of `st` covers its leaves.
    spec fn pairs_done<F: Fn(B, B) -> bool>(
        &self,
        overlaps: &F,
        found: Seq<(ColliderHandle, ColliderHandle)>,
        from: int,
        st: Seq<(u32, u32)>,
        h1: u32,
        h2: u32,
    ) -> bool {
        ||| !self.must_pair(overlaps, h1, h2)
        ||| exists|k: int|
            from <= k < found.len() && #[trigger] found[k] == (ColliderHandle(h1), ColliderHandle(h2))
        ||| exists|k: int|
            0 <= k < st.len() && self.pair_covers(#[trigger] st[k], self.leaf_of(h1), self.leaf_of(h2))
    }

    /// Collider pair `h1, h2` is in `found` from index `from0` on, or a
    /// pair of `st` from index `top` on covers its leaves.
    spec fn pair_resolved(
        &self,
        found: Seq<(ColliderHandle, ColliderHandle)>,
        from0: int,
        st: Seq<(u32, u32)>,
        top: int,
        h1: u32,
        h2: u32,
    ) -> bool {
        ||| exists|k: int|
            from0 <= k < found.len() && #[trigger] found[k] == (ColliderHandle(h1), ColliderHandle(h2))
        ||| exists|k: int|
            top <= k < st.len() && self.pair_covers(#[trigger] st[k], self.leaf_of(h1), self.leaf_of(h2))
    }

    /// One step of the walk: the pair on top of `st` was taken off, and each
    /// collider pair of concern that it covered was found or is covered by
    /// a pair pushed in its place.
    proof fn lemma_pairs_step<F: Fn(B, B) -> bool>(
        &self,
        overlaps: &F,
        found0: Seq<(ColliderHandle, ColliderHandle)>,
        found1: Seq<(ColliderHandle, ColliderHandle)>,
        from: int,
        st: Seq<(u32, u32)>,
        st1: Seq<(u32, u32)>,
        h1: u32,
        h2: u32,
    )
        requires
            st.len() > 0,
            0 <= from <= found0.len() <= found1.len(),
            forall|k: int| 0 <= k < found0.len() ==> found1[k] == found0[k],
            st1.len() >= st.len() - 1,
            forall|k: int| 0 <= k < st.len() - 1 ==> st1[k] == st[k],
            self.pairs_done(overlaps, found0, from, st, h1, h2),
            self.must_pair(overlaps, h1, h2) && self.pair_covers(
                st[st.len() - 1],
                self.leaf_of(h1),
                self.leaf_of(h2),
            ) ==> self.pair_resolved(found1, found0.len() as int, st1, st.len() - 1, h1, h2),
        ensures
            self.pairs_done(overlaps, found1, from, st1, h1, h2),
    {
        let x = self.leaf_of(h1);
        let y = self.leaf_of(h2);
        let want = (ColliderHandle(h1), ColliderHandle(h2));
        if self.must_pair(overlaps, h1, h2) {
            if exists|k: int| from <= k < found0.len() && #[trigger] found0[k] == want {
                let k = choose|k: int| from <= k < found0.len() && #[trigger] found0[k] == want;
                assert(found1[k] == want);
            } else {
                let k = choose|k: int| 0 <= k < st.len() && self.pair_covers(#[trigger] st[k], x, y);
                if k < st.len() - 1 {
                    assert(st1[k] == st[k]);
                } else if exists|j: int| found0.len() <= j < found1.len() && #[trigger] found1[j] == want {
                    let j = choose|j: int| found0.len() <= j < found1.len() && #[trigger] found1[j] == want;
                    assert(found1[j] == want);
                } else {
                    let j = choose|j: int|
                        st.len() - 1 <= j < st1.len() && self.pair_covers(#[trigger] st1[j], x, y);
                    assert(self.pair_covers(st1[j], x, y));
                }
            }
        }
    }

    /// A pair of nodes that covers a collider pair of concern surely
    /// overlaps.
    proof fn lemma_covering_pair_overlaps<F: Fn(B, B) -> bool>(
        &self,
        overlaps: &F,
        a: u32,
        b: u32,
        h1: u32,
        h2: u32,
    )
        requires
            self.wf(),
            self.overlap_survives_merges(overlaps),
            self.must_pair(overlaps, h1, h2),
            self.pair_covers((a, b), self.leaf_of(h1), self.leaf_of(h2)),
        ensures
            surely_overlap(overlaps, self.nodes@[a as int].aabb, self.nodes@[b as int].aabb),
    {
        let x = self.leaf_of(h1);
        let y = self.leaf_of(h2);
        self.lemma_leaf_of(h1);
        self.lemma_leaf_of(h2);
        if self.above(x, a as int) && self.above(y, b as int) {
            self.lemma_lift_first(overlaps, x, a as int, self.nodes@[y].aabb);
            self.lemma_lift_second(overlaps, y, b as int, self.nodes@[a as int].aabb);
        } else {
            self.lemma_lift_first(overlaps, y, a as int, self.nodes@[x].aabb);
            self.lemma_lift_second(overlaps, x, b as int, self.nodes@[a as int].aabb);
        }
    }

    /// The two nodes of `e` are the same node, or lie apart.
    spec fn apart_or_same(&self, e: (u32, u32)) -> bool {
        e.0 == e.1 || (!self.above(e.0 as int, e.1 as int) && !self.above(e.1 as int, e.0 as int))
    }

    /// Node pairs `news` cover the leaves `x`, `y` only where `e` does, and
    /// at most one of them does.
    spec fn split_ok(&self, e: (u32, u32), news: Seq<(u32, u32)>, x: int, y: int) -> bool {
        &&& forall|k: int|
            0 <= k < news.len() && self.pair_covers(#[trigger] news[k], x, y) ==> self.pair_covers(e, x, y)
        &&& forall|k1: int, k2: int|
            0 <= k1 < k2 < news.len() ==> !(self.pair_covers(#[trigger] news[k1], x, y) && self.pair_covers(
                #[trigger] news[k2],
                x,
                y,
            ))
    }

    /// Splitting the pair `(a, a)` of an internal node into the pairs of
    /// its children.
    proof fn lemma_split_same(&self, a: u32, x: int, y: int)
        requires
            self.shape_wf(),
            self.live(a as int),
            self.nodes@[a as int].height > 0,
        ensures
            ({
                let l = self.nodes@[a as int].left;
                let r = self.nodes@[a as int].right;
                &&& self.split_ok((a, a), seq![(l, l), (r, r), (l, r)], x, y)
                &&& self.apart_or_same((l, l))
                &&& self.apart_or_same((r, r))
                &&& self.apart_or_same((l, r))
            }),
    {
        let l = self.nodes@[a as int].left;
        let r = self.nodes@[a as int].right;
        let (li, ri, ai) = (l as int, r as int, a as int);
        self.lemma_child_below(ai);
        self.lemma_not_below_both(x, li, ri);
        self.lemma_not_below_both(y, li, ri);
        if self.above(x, li) {
            self.lemma_above_trans(x, li, ai);
        }
        if self.above(x, ri) {
            self.lemma_above_trans(x, ri, ai);
        }
        if self.above(y, li) {
            self.lemma_above_trans(y, li, ai);
        }
        if self.above(y, ri) {
            self.lemma_above_trans(y, ri, ai);
        }
        let news = seq![(l, l), (r, r), (l, r)];
        assert(news[0] == (l, l) && news[1] == (r, r) && news[2] == (l, r));
    }

    /// Splitting a pair `(a, b)` of two internal nodes that lie apart into
    /// the four pairs of their children.
    proof fn lemma_split_apart(&self, a: u32, b: u32, x: int, y: int)
        requires
            self.shape_wf(),
            self.live(a as int),
            self.live(b as int),
            self.nodes@[a as int].height > 0,
            self.nodes@[b as int].height > 0,
            !self.above(a as int, b as int),
            !self.above(b as int, a as int),
        ensures
            ({
                let al = self.nodes@[a as int].left;
                let ar = self.nodes@[a as int].right;
                let bl = self.nodes@[b as int].left;
                let br = self.nodes@[b as int].right;
                &&& self.split_ok((a, b), seq![(al, bl), (al, br), (ar, bl), (ar, br)], x, y)
                &&& self.apart_or_same((al, bl))
                &&& self.apart_or_same((al, br))
                &&& self.apart_or_same((ar, bl))
                &&& self.apart_or_same((ar, br))
            }),
    {
        let al = self.nodes@[a as int].left;
        let ar = self.nodes@[a as int].right;
        let bl = self.nodes@[b as int].left;
        let br = self.nodes@[b as int].right;
        let (ai, bi) = (a as int, b as int);
        let (ali, ari, bli, bri) = (al as int, ar as int, bl as int, br as int);
        self.lemma_child_below(ai);
        self.lemma_child_below(bi);
        self.lemma_apart_below(ai, bi, bli);
        self.lemma_apart_below(ai, bi, bri);
        self.lemma_apart_below(bli, ai, ali);
        self.lemma_apart_below(bli, ai, ari);
        self.lemma_apart_below(bri, ai, ali);
        self.lemma_apart_below(bri, ai, ari);
        self.lemma_not_below_both(x, ali, ari);
        self.lemma_not_below_both(x, bli, bri);
        self.lemma_not_below_both(x, ali, bli);
        self.lemma_not_below_both(x, ali, bri);
        self.lemma_not_below_both(x, ari, bli);
        self.lemma_not_below_both(x, ari, bri);
        self.lemma_not_below_both(y, ali, ari);
        self.lemma_not_below_both(y, bli, bri);
        self.lemma_not_below_both(y, ali, bli);
        self.lemma_not_below_both(y, ali, bri);
        self.lemma_not_below_both(y, ari, bli);
        self.lemma_not_below_both(y, ari, bri);
        if self.above(x, ali) {
            self.lemma_above_trans(x, ali, ai);
        }
        if self.above(x, ari) {
            self.lemma_above_trans(x, ari, ai);
        }
        if self.above(x, bli) {
            self.lemma_above_trans(x, bli, bi);
        }
        if self.above(x, bri) {
            self.lemma_above_trans(x, bri, bi);
        }
        if self.above(y, ali) {
            self.lemma_above_trans(y, ali, ai);
        }
        if self.above(y, ari) {
            self.lemma_above_trans(y, ari, ai);
        }
        if self.above(y, bli) {
            self.lemma_above_trans(y, bli, bi);
        }
        if self.above(y, bri) {
            self.lemma_above_trans(y, bri, bi);
        }
        let news = seq![(al, bl), (al, br), (ar, bl), (ar, br)];
        assert(news[0] == (al, bl) && news[1] == (al, br) && news[2] == (ar, bl) && news[3] == (ar, br));
    }

    /// Splitting a pair `(a, b)` that lies apart, where `b` is internal, into
    /// the pairs of `a` with the children of `b`.
    proof fn lemma_split_right(&self, a: u32, b: u32, x: int, y: int)
        requires
            self.shape_wf(),
            self.live(b as int),
            self.nodes@[b as int].height > 0,
            !self.above(a as int, b as int),
            !self.above(b as int, a as int),
        ensures
            ({
                let bl = self.nodes@[b as int].left;
                let br = self.nodes@[b as int].right;
                &&& self.split_ok((a, b), seq![(a, bl), (a, br)], x, y)
                &&& self.apart_or_same((a, bl))
                &&& self.apart_or_same((a, br))
            }),
    {
        let bl = self.nodes@[b as int].left;
        let br = self.nodes@[b as int].right;
        let (ai, bi, bli, bri) = (a as int, b as int, bl as int, br as int);
        self.lemma_child_below(bi);
        self.lemma_apart_below(ai, bi, bli);
        self.lemma_apart_below(ai, bi, bri);
        self.lemma_not_below_both(x, bli, bri);
        self.lemma_not_below_both(x, ai, bli);
        self.lemma_not_below_both(x, ai, bri);
        self.lemma_not_below_both(y, bli, bri);
        self.lemma_not_below_both(y, ai, bli);
        self.lemma_not_below_both(y, ai, bri);
        if self.above(x, bli) {
            self.lemma_above_trans(x, bli, bi);
        }
        if self.above(x, bri) {
            self.lemma_above_trans(x, bri, bi);
        }
        if self.above(y, bli) {
            self.lemma_above_trans(y, bli, bi);
        }
        if self.above(y, bri) {
            self.lemma_above_trans(y, bri, bi);
        }
        let news = seq![(a, bl), (a, br)];
        assert(news[0] == (a, bl) && news[1] == (a, br));
    }

    /// Splitting a pair `(a, b)` that lies apart, where `a` is internal, into
    /// the pairs of the children of `a` with `b`.
    proof fn lemma_split_left(&self, a: u32, b: u32, x: int, y: int)
        requires
            self.shape_wf(),
            self.live(a as int),
            self.nodes@[a as int].height > 0,
            !self.above(a as int, b as int),
            !self.above(b as int, a as int),
        ensures
            ({
                let al = self.nodes@[a as int].left;
                let ar = self.nodes@[a as int].right;
                &&& self.split_ok((a, b), seq![(al, b), (ar, b)], x, y)
                &&& self.apart_or_same((al, b))
                &&& self.apart_or_same((ar, b))
            }),
    {
        let al = self.nodes@[a as int].left;
        let ar = self.nodes@[a as int].right;
        let (ai, bi, ali, ari) = (a as int, b as int, al as int, ar as int);
        self.lemma_child_below(ai);
        self.lemma_apart_below(bi, ai, ali);
        self.lemma_apart_below(bi, ai, ari);
        self.lemma_not_below_both(x, ali, ari);
        self.lemma_not_below_both(x, bi, ali);
        self.lemma_not_below_both(x, bi, ari);
        self.lemma_not_below_both(y, ali, ari);
        self.lemma_not_below_both(y, bi, ali);
        self.lemma_not_below_both(y, bi, ari);
        if self.above(x, ali) {
            self.lemma_above_trans(x, ali, ai);
        }
        if self.above(x, ari) {
            self.lemma_above_trans(x, ari, ai);
        }
        if self.above(y, ali) {
            self.lemma_above_trans(y, ali, ai);
        }
        if self.above(y, ari) {
            self.lemma_above_trans(y, ari, ai);
        }
        let news = seq![(al, b), (ar, b)];
        assert(news[0] == (al, b) && news[1] == (ar, b));
    }

    /// Colliders `h1 < h2`, both in the tree.
    spec fn handle_pair(&self, h1: u32, h2: u32) -> bool {
        h1 < h2 && self@.contains_key(h1) && self@.contains_key(h2)
    }

    /// The leaves of collider pair `h1, h2` are covered by at most one pair
    /// of `st`, and by none once the pair is in `found` from `from` on.
    spec fn covered_once(
        &self,
        found: Seq<(ColliderHandle, ColliderHandle)>,
        from: int,
        st: Seq<(u32, u32)>,
        h1: u32,
        h2: u32,
    ) -> bool {
        let x = self.leaf_of(h1);
        let y = self.leaf_of(h2);
        self.handle_pair(h1, h2) ==> {
            &&& forall|k1: int, k2: int|
                0 <= k1 < k2 < st.len() ==> !(self.pair_covers(#[trigger] st[k1], x, y) && self.pair_covers(
                    #[trigger] st[k2],
                    x,
                    y,
                ))
            &&& forall|k: int, j: int|
                from <= k < found.len() && #[trigger] found[k] == (ColliderHandle(h1), ColliderHandle(h2))
                    && 0 <= j < st.len() ==> !self.pair_covers(#[trigger] st[j], x, y)
        }
    }

    /// One step of the walk keeps each collider pair covered at most once:
    /// the pairs pushed in place of the top one split what it covered, and
    /// a collider pair found in this step was covered by the top pair only.
    proof fn lemma_covered_once_step(
        &self,
        found0: Seq<(ColliderHandle, ColliderHandle)>,
        found1: Seq<(ColliderHandle, ColliderHandle)>,
        from: int,
        st: Seq<(u32, u32)>,
        st1: Seq<(u32, u32)>,
        h1: u32,
        h2: u32,
    )
        requires
            st.len() > 0,
            0 <= from <= found0.len() <= found1.len() <= found0.len() + 1,
            forall|k: int| 0 <= k < found0.len() ==> found1[k] == found0[k],
            st1.len() >= st.len() - 1,
            forall|k: int| 0 <= k < st.len() - 1 ==> st1[k] == st[k],
            self.covered_once(found0, from, st, h1, h2),
            self.handle_pair(h1, h2) ==> self.split_ok(
                st[st.len() - 1],
                st1.subrange(st.len() - 1, st1.len() as int),
                self.leaf_of(h1),
                self.leaf_of(h2),
            ),
            self.handle_pair(h1, h2) && found1.len() == found0.len() + 1 && found1[found0.len() as int]
                == (ColliderHandle(h1), ColliderHandle(h2)) ==> self.pair_covers(
                st[st.len() - 1],
                self.leaf_of(h1),
                self.leaf_of(h2),
            ) && st1.len() == st.len() - 1,
        ensures
            self.covered_once(found1, from, st1, h1, h2),
    {
        let x = self.leaf_of(h1);
        let y = self.leaf_of(h2);
        let top = st.len() - 1;
        let news = st1.subrange(top, st1.len() as int);
        let want = (ColliderHandle(h1), ColliderHandle(h2));
        if self.handle_pair(h1, h2) {
            assert forall|k1: int, k2: int| 0 <= k1 < k2 < st1.len() implies !(self.pair_covers(
                #[trigger] st1[k1],
                x,
                y,
            ) && self.pair_covers(#[trigger] st1[k2], x, y)) by {
                if k2 < top {
                    assert(st1[k1] == st[k1] && st1[k2] == st[k2]);
                } else if k1 < top {
                    assert(st1[k1] == st[k1]);
                    assert(news[k2 - top] == st1[k2]);
                    if self.pair_covers(st1[k2], x, y) {
                        assert(self.pair_covers(st[top], x, y));
                    }
                } else {
                    assert(news[k1 - top] == st1[k1]);
                    assert(news[k2 - top] == st1[k2]);
                }
            }
            assert forall|k: int, j: int|
                from <= k < found1.len() && #[trigger] found1[k] == want && 0 <= j < st1.len() implies !self.pair_covers(
                #[trigger] st1[j],
                x,
                y,
            ) by {
                if k < found0.len() {
                    assert(found0[k] == want);
                    if j < top {
                        assert(st1[j] == st[j]);
                    } else {
                        assert(news[j - top] == st1[j]);
                        if self.pair_covers(st1[j], x, y) {
                            assert(self.pair_covers(st[top], x, y));
                        }
                    }
                } else {
                    assert(st1[j] == st[j]);
                    assert(self.pair_covers(st[top], x, y));
                }
            }
        }
    }

    /// The pair of colliders `ha` and `hb`, the smaller handle first.
    spec fn canon_pair(ha: ColliderHandle, hb: ColliderHandle) -> (ColliderHandle, ColliderHandle) {
        if ha.0 < hb.0 {
            (ha, hb)
        } else {
            (hb, ha)
        }
    }

    /// The collider pairs that the walk reports for the node pair `(a, b)`,
    /// in the order it reports them, taking two boxes to overlap where
    /// `overlaps` can answer yes.
    spec fn pairs_order<F: Fn(B, B) -> bool>(&self, overlaps: &F, a: int, b: int) -> Seq<
        (ColliderHandle, ColliderHandle),
    >
        decreases self.rank@[a] + self.rank@[b],
    {
        let an = self.nodes@[a];
        let bn = self.nodes@[b];
        let (al, ar) = (an.left as int, an.right as int);
        let (bl, br) = (bn.left as int, bn.right as int);
        if a == b {
            if an.height == 0 || !self.child_ranks_ok(a) {
                Seq::empty()
            } else {
                self.pairs_order(overlaps, al, ar) + self.pairs_order(overlaps, ar, ar) + self.pairs_order(
                    overlaps,
                    al,
                    al,
                )
            }
        } else if !overlaps.ensures((an.aabb, bn.aabb), true) {
            Seq::empty()
        } else if an.height == 0 && bn.height == 0 {
            seq![Self::canon_pair(an.handle, bn.handle)]
        } else if an.height == 0 {
            if self.child_ranks_ok(b) && 0 <= self.rank@[a] {
                self.pairs_order(overlaps, a, br) + self.pairs_order(overlaps, a, bl)
            } else {
                Seq::empty()
            }
        } else if bn.height == 0 {
            if self.child_ranks_ok(a) && 0 <= self.rank@[b] {
                self.pairs_order(overlaps, ar, b) + self.pairs_order(overlaps, al, b)
            } else {
                Seq::empty()
            }
        } else if self.child_ranks_ok(a) && self.child_ranks_ok(b) {
            self.pairs_order(overlaps, ar, br) + self.pairs_order(overlaps, ar, bl) + self.pairs_order(
                overlaps,
                al,
                br,
            ) + self.pairs_order(overlaps, al, bl)
        } else {
            Seq::empty()
        }
    }

    /// The collider pairs that `collect_pairs` reports, in order.
    pub closed spec fn pairs_output<F: Fn(B, B) -> bool>(&self, overlaps: &F) -> Seq<
        (ColliderHandle, ColliderHandle),
    > {
        if self.root == NULL_NODE {
            Seq::empty()
        } else {
            self.pairs_order(overlaps, self.root as int, self.root as int)
        }
    }

    /// What the node pairs of stack `st` still report, the top one first.
    spec fn pairs_stack_order<F: Fn(B, B) -> bool>(&self, overlaps: &F, st: Seq<(u32, u32)>) -> Seq<
        (ColliderHandle, ColliderHandle),
    >
        decreases st.len(),
    {
        if st.len() == 0 {
            Seq::empty()
        } else {
            self.pairs_order(overlaps, st.last().0 as int, st.last().1 as int) + self.pairs_stack_order(
                overlaps,
                st.drop_last(),
            )
        }
    }

    proof fn lemma_pairs_stack_push<F: Fn(B, B) -> bool>(&self, overlaps: &F, st: Seq<(u32, u32)>, e: (u32, u32))
        ensures
            self.pairs_stack_order(overlaps, st.push(e)) == self.pairs_order(overlaps, e.0 as int, e.1 as int)
                + self.pairs_stack_order(overlaps, st),
    {
        assert(st.push(e).drop_last() =~= st);
        assert(st.push(e).last() == e);
    }

    /// Collects into `pairs`, after what it already holds, the pairs of
    /// colliders whose leaves `overlaps` finds overlapping, each once and
    /// with the smaller handle first, walking pairs of subtrees whose boxes
    /// overlap. When `overlaps` keeps finding merged boxes overlapping what
    /// their parts overlap, every pair that it surely finds overlapping (in
    /// both orders) is collected; when its every yes is sure both ways, no
    /// other pair is. When it gives one answer per pair of boxes, the pairs
    /// come in the order of the walk (`pairs_output`).
    #[verifier::rlimit(80)]
    pub fn collect_pairs<F: Fn(B, B) -> bool>(
        &self,
        pairs: &mut Vec<(ColliderHandle, ColliderHandle)>,
        overlaps: &F,
    )
        where
            B: Copy,
        requires
            self.wf(),
            forall|x: B, y: B| #[trigger] overlaps.requires((x, y)),
        ensures
            final(pairs)@.len() >= old(pairs)@.len(),
            final(pairs)@.subrange(0, old(pairs)@.len() as int) == old(pairs)@,
            forall|k: int|
                old(pairs)@.len() <= k < final(pairs)@.len() ==> {
                    let p = #[trigger] final(pairs)@[k];
                    &&& p.0.0 < p.1.0
                    &&& self@.contains_key(p.0.0)
                    &&& self@.contains_key(p.1.0)
                    &&& self.seen_overlapping(overlaps, p.0.0, p.1.0)
                },
            forall|i: int, j: int|
                old(pairs)@.len() <= i < j < final(pairs)@.len() ==> final(pairs)@[i] != final(pairs)@[j],
            decisive(overlaps) ==> forall|k: int|
                old(pairs)@.len() <= k < final(pairs)@.len() ==> self.must_pair(
                    overlaps,
                    (#[trigger] final(pairs)@[k]).0.0,
                    final(pairs)@[k].1.0,
                ),
            self.overlap_survives_merges(overlaps) ==> forall|h1: u32, h2: u32| #[trigger]
                self.must_pair(overlaps, h1, h2) ==> exists|k: int|
                    old(pairs)@.len() <= k < final(pairs)@.len() && final(pairs)@[k] == (
                        ColliderHandle(h1),
                        ColliderHandle(h2),
                    ),
            deterministic(overlaps) ==> final(pairs)@ == old(pairs)@ + self.pairs_output(overlaps),
    {
        let ghost before = pairs@;
        let ghost from = before.len() as int;
        if self.root == NULL_NODE {
            proof {
                assert forall|h: u32| !#[trigger] self@.contains_key(h) by {
                    if self@.contains_key(h) {
                        assert(self.free@.contains(self.leaf_of(h) as u32));
                    }
                }
                assert(pairs@ =~= before + self.pairs_output(overlaps));
            }
            return;
        }
        proof {
            assert(self.node_ok(self.root as int));
        }
        if self.nodes[self.root as usize].height == 0 {
            proof {
                assert(pairs@ =~= before + self.pairs_output(overlaps));
                assert forall|h1: u32, h2: u32| !#[trigger] self.must_pair(overlaps, h1, h2) by {
                    if self.must_pair(overlaps, h1, h2) {
                        self.lemma_leaf_of(h1);
                        self.lemma_leaf_of(h2);
                        if self.leaf_of(h1) != self.root as int {
                            self.lemma_root_above(self.leaf_of(h1));
                        }
                        if self.leaf_of(h2) != self.root as int {
                            self.lemma_root_above(self.leaf_of(h2));
                        }
                    }
                }
            }
            return;
        }
        let mut stack: Vec<(u32, u32)> = Vec::new();
        stack.push((self.root, self.root));
        proof {
            self.lemma_pairs_stack_push(overlaps, Seq::empty(), (self.root, self.root));
            assert(Seq::<(u32, u32)>::empty().push((self.root, self.root)) =~= stack@);
            assert(self.pairs_stack_order(overlaps, Seq::<(u32, u32)>::empty()) =~= Seq::<
                (ColliderHandle, ColliderHandle),
            >::empty());
            assert(pairs@ + self.pairs_stack_order(overlaps, stack@) =~= before + self.pairs_output(overlaps));
            assert(self.apart_or_same(stack@[0]));
            assert forall|h1: u32, h2: u32| #[trigger] self.covered_once(pairs@, from, stack@, h1, h2) by {}
            if self.overlap_survives_merges(overlaps) {
                assert forall|h1: u32, h2: u32| #[trigger]
                    self.pairs_done(overlaps, pairs@, from, stack@, h1, h2) by {
                    if self.must_pair(overlaps, h1, h2) {
                        self.lemma_leaf_of(h1);
                        self.lemma_leaf_of(h2);
                        self.lemma_below_root(self.leaf_of(h1));
                        self.lemma_below_root(self.leaf_of(h2));
                        assert(stack@[0] == (self.root, self.root));
                    }
                }
            }
        }
        while stack.len() > 0
            invariant
                self.shape_wf(),
                self.boxes_ok(),
                from == before.len(),
                forall|x: B, y: B| #[trigger] overlaps.requires((x, y)),
                forall|k: int|
                    0 <= k < stack@.len() ==> self.live((#[trigger] stack@[k]).0 as int) && self.live(
                        stack@[k].1 as int,
                    ),
                pairs@.len() >= before.len(),
                pairs@.subrange(0, before.len() as int) == before,
                forall|k: int|
                    before.len() <= k < pairs@.len() ==> {
                        let p = #[trigger] pairs@[k];
                        &&& p.0.0 < p.1.0
                        &&& self@.contains_key(p.0.0)
                        &&& self@.contains_key(p.1.0)
                        &&& self.seen_overlapping(overlaps, p.0.0, p.1.0)
                    },
                self.overlap_survives_merges(overlaps) ==> forall|h1: u32, h2: u32| #[trigger]
                    self.pairs_done(overlaps, pairs@, from, stack@, h1, h2),
                forall|k: int| 0 <= k < stack@.len() ==> self.apart_or_same(#[trigger] stack@[k]),
                forall|h1: u32, h2: u32| #[trigger] self.covered_once(pairs@, from, stack@, h1, h2),
                forall|i: int, j: int| before.len() <= i < j < pairs@.len() ==> pairs@[i] != pairs@[j],
                deterministic(overlaps) ==> pairs@ + self.pairs_stack_order(overlaps, stack@) == before
                    + self.pairs_output(overlaps),
            decreases self.pair_stack_weight(stack@),
        {
            let ghost st = stack@;
            let (a, b) = stack.pop().unwrap();
            proof {
                assert(st.drop_last() == stack@);
                assert(st.last() == (a, b));
                assert(self.live(a as int) && self.live(b as int)) by {
                    assert(st[st.len() - 1] == (a, b));
                }
                assert(self.apart_or_same((a, b))) by {
                    assert(st[st.len() - 1] == (a, b));
                }
                assert(self.node_ok(a as int));
                assert(self.node_ok(b as int));
                lemma_pow5_positive((self.rank@[a as int] + self.rank@[b as int]) as nat);
            }
            let ghost w = pow5((self.rank@[a as int] + self.rank@[b as int]) as nat);
            let ghost rest = stack@;
            let ghost found0 = pairs@;
            let an = &self.nodes[a as usize];
            let bn = &self.nodes[b as usize];
            proof {
                self.lemma_pairs_stack_push(overlaps, rest, (a, b));
                assert(rest.push((a, b)) =~= st);
                if an.height > 0 {
                    self.lemma_child_ranks(a);
                }
                if bn.height > 0 {
                    self.lemma_child_ranks(b);
                }
            }
            if a == b {
                if an.height != 0 {
                    let l = an.left;
                    let r = an.right;
                    stack.push((l, l));
                    stack.push((r, r));
                    stack.push((l, r));
                    proof {
                        self.lemma_three_pairs_lighter(rest, a, l, r);
                        assert(deterministic(overlaps) ==> pairs@ + self.pairs_stack_order(overlaps, stack@) =~= found0 + (self.pairs_order(overlaps, a as int, b as int) + self.pairs_stack_order(overlaps, rest))) by {
                            if deterministic(overlaps) {
                                self.lemma_pairs_stack_push(overlaps, rest, (l, l));
                                self.lemma_pairs_stack_push(overlaps, rest.push((l, l)), (r, r));
                                self.lemma_pairs_stack_push(overlaps, rest.push((l, l)).push((r, r)), (l, r));
                                assert(rest.push((l, l)).push((r, r)).push((l, r)) =~= stack@);
                            }
                        }
                        assert forall|k: int| 0 <= k < stack@.len() implies self.apart_or_same(#[trigger] stack@[k]) by {
                            if k < rest.len() {
                                assert(stack@[k] == st[k]);
                            } else {
                                self.lemma_split_same(a, 0, 0);
                            }
                        }
                        assert forall|h1: u32, h2: u32| #[trigger] self.covered_once(pairs@, from, stack@, h1, h2) by {
                            if self.handle_pair(h1, h2) {
                                self.lemma_split_same(a, self.leaf_of(h1), self.leaf_of(h2));
                                assert(stack@.subrange(rest.len() as int, stack@.len() as int) =~= seq![(l, l), (r, r), (l, r)]);
                            }
                            self.lemma_covered_once_step(found0, pairs@, from, st, stack@, h1, h2);
                        }
                        if self.overlap_survives_merges(overlaps) {
                            assert forall|h1: u32, h2: u32| #[trigger]
                                self.pairs_done(overlaps, pairs@, from, stack@, h1, h2) by {
                                let x = self.leaf_of(h1);
                                let y = self.leaf_of(h2);
                                if self.must_pair(overlaps, h1, h2) && self.pair_covers((a, b), x, y) {
                                    self.lemma_leaf_of(h1);
                                    self.lemma_leaf_of(h2);
                                    self.lemma_below_child(x, a as int);
                                    self.lemma_below_child(y, a as int);
                                    let t = rest.len() as int;
                                    assert(stack@[t] == (l, l));
                                    assert(stack@[t + 1] == (r, r));
                                    assert(stack@[t + 2] == (l, r));
                                }
                                self.lemma_pairs_step(overlaps, found0, pairs@, from, st, stack@, h1, h2);
                            }
                        }
                    }
                } else {
                    proof {
                        assert(deterministic(overlaps) ==> pairs@ + self.pairs_stack_order(overlaps, stack@) =~= found0 + (self.pairs_order(overlaps, a as int, b as int) + self.pairs_stack_order(overlaps, rest))) by {
                            if deterministic(overlaps) {
                                assert(self.pairs_order(overlaps, a as int, b as int) =~= Seq::<(ColliderHandle, ColliderHandle)>::empty());
                            }
                        }
                        assert forall|h1: u32, h2: u32| #[trigger] self.covered_once(pairs@, from, stack@, h1, h2) by {
                            self.lemma_covered_once_step(found0, pairs@, from, st, stack@, h1, h2);
                        }
                    }
                    proof {
                        if self.overlap_survives_merges(overlaps) {
                            assert forall|h1: u32, h2: u32| #[trigger]
                                self.pairs_done(overlaps, pairs@, from, stack@, h1, h2) by {
                                let x = self.leaf_of(h1);
                                let y = self.leaf_of(h2);
                                if self.must_pair(overlaps, h1, h2) && self.pair_covers((a, b), x, y) {
                                    self.lemma_leaf_of(h1);
                                    self.lemma_leaf_of(h2);
                                    self.lemma_below_leaf(x, a as int);
                                    self.lemma_below_leaf(y, a as int);
                                }
                                self.lemma_pairs_step(overlaps, found0, pairs@, from, st, stack@, h1, h2);
                            }
                        }
                    }
                }
            } else {
                let hit = overlaps(an.aabb, bn.aabb);
                proof {
                    if deterministic(overlaps) {
                        assert(overlaps.ensures((an.aabb, bn.aabb), true) == hit);
                    }
                }
                if !hit {
                    proof {
                        assert(deterministic(overlaps) ==> pairs@ + self.pairs_stack_order(overlaps, stack@) =~= found0 + (self.pairs_order(overlaps, a as int, b as int) + self.pairs_stack_order(overlaps, rest))) by {
                            if deterministic(overlaps) {
                                assert(self.pairs_order(overlaps, a as int, b as int) =~= Seq::<(ColliderHandle, ColliderHandle)>::empty());
                            }
                        }
                    }
                    proof {
                        assert forall|h1: u32, h2: u32| #[trigger] self.covered_once(pairs@, from, stack@, h1, h2) by {
                            self.lemma_covered_once_step(found0, pairs@, from, st, stack@, h1, h2);
                        }
                    }
                    proof {
                        if self.overlap_survives_merges(overlaps) {
                            assert forall|h1: u32, h2: u32| #[trigger]
                                self.pairs_done(overlaps, pairs@, from, stack@, h1, h2) by {
                                if self.must_pair(overlaps, h1, h2) && self.pair_covers(
                                    (a, b),
                                    self.leaf_of(h1),
                                    self.leaf_of(h2),
                                ) {
                                    self.lemma_covering_pair_overlaps(overlaps, a, b, h1, h2);
                                }
                                self.lemma_pairs_step(overlaps, found0, pairs@, from, st, stack@, h1, h2);
                            }
                        }
                    }
                } else if an.height == 0 && bn.height == 0 {
                    let ha = an.handle;
                    let hb = bn.handle;
                    proof {
                        assert(self.handle_map@[ha.0] == a && self.handle_map@[hb.0] == b);
                        assert(ha.0 != hb.0);
                        assert(self@[ha.0] == an.aabb && self@[hb.0] == bn.aabb);
                    }
                    if ha.0 < hb.0 {
                        pairs.push((ha, hb));
                    } else {
                        pairs.push((hb, ha));
                    }
                    proof {
                        assert(pairs@.subrange(0, before.len() as int) =~= before);
                        assert(deterministic(overlaps) ==> pairs@ + self.pairs_stack_order(overlaps, stack@) =~= found0 + (self.pairs_order(overlaps, a as int, b as int) + self.pairs_stack_order(overlaps, rest))) by {
                            if deterministic(overlaps) {
                                assert(self.pairs_order(overlaps, a as int, b as int) == seq![Self::canon_pair(ha, hb)]);
                            }
                        }
                        let q = pairs@[found0.len() as int];
                        assert(st[st.len() - 1] == (a, b));
                        assert(self.leaf_of(ha.0) == a && self.leaf_of(hb.0) == b);
                        assert(self.above(a as int, a as int) && self.above(b as int, b as int));
                        assert(self.pair_covers(st[st.len() - 1], self.leaf_of(q.0.0), self.leaf_of(q.1.0)));
                        assert forall|h1: u32, h2: u32| #[trigger] self.covered_once(pairs@, from, stack@, h1, h2) by {
                            if self.handle_pair(h1, h2) && pairs@[found0.len() as int] == (ColliderHandle(h1), ColliderHandle(h2)) {
                                assert(h1 == q.0.0 && h2 == q.1.0);
                            }
                            self.lemma_covered_once_step(found0, pairs@, from, st, stack@, h1, h2);
                        }
                        assert forall|i: int, j: int| before.len() <= i < j < pairs@.len() implies pairs@[i] != pairs@[j] by {
                            if j == found0.len() {
                                assert(self.covered_once(found0, from, st, q.0.0, q.1.0));
                                assert(self.handle_pair(q.0.0, q.1.0));
                                if pairs@[i] == q {
                                    assert(found0[i] == (ColliderHandle(q.0.0), ColliderHandle(q.1.0)));
                                }
                            } else {
                                assert(pairs@[i] == found0[i] && pairs@[j] == found0[j]);
                            }
                        }
                        if self.overlap_survives_merges(overlaps) {
                            assert forall|h1: u32, h2: u32| #[trigger]
                                self.pairs_done(overlaps, pairs@, from, stack@, h1, h2) by {
                                let x = self.leaf_of(h1);
                                let y = self.leaf_of(h2);
                                if self.must_pair(overlaps, h1, h2) && self.pair_covers((a, b), x, y) {
                                    self.lemma_leaf_of(h1);
                                    self.lemma_leaf_of(h2);
                                    if self.above(x, a as int) && self.above(y, b as int) {
                                        self.lemma_below_leaf(x, a as int);
                                        self.lemma_below_leaf(y, b as int);
                                    } else {
                                        self.lemma_below_leaf(y, a as int);
                                        self.lemma_below_leaf(x, b as int);
                                    }
                                    assert(pairs@[found0.len() as int] == (ColliderHandle(h1), ColliderHandle(h2)));
                                }
                                self.lemma_pairs_step(overlaps, found0, pairs@, from, st, stack@, h1, h2);
                            }
                        }
                    }
                } else if an.height == 0 {
                    stack.push((a, bn.left));
                    stack.push((a, bn.right));
                    proof {
                        self.lemma_child_ranks(b);
                        self.lemma_two_pairs_lighter(rest, a, b, a, bn.left, a, bn.right);
                        assert(deterministic(overlaps) ==> pairs@ + self.pairs_stack_order(overlaps, stack@) =~= found0 + (self.pairs_order(overlaps, a as int, b as int) + self.pairs_stack_order(overlaps, rest))) by {
                            if deterministic(overlaps) {
                                self.lemma_pairs_stack_push(overlaps, rest, (a, bn.left));
                                self.lemma_pairs_stack_push(overlaps, rest.push((a, bn.left)), (a, bn.right));
                                assert(rest.push((a, bn.left)).push((a, bn.right)) =~= stack@);
                            }
                        }
                        assert forall|k: int| 0 <= k < stack@.len() implies self.apart_or_same(#[trigger] stack@[k]) by {
                            if k < rest.len() {
                                assert(stack@[k] == st[k]);
                            } else {
                                self.lemma_split_right(a, b, 0, 0);
                            }
                        }
                        assert forall|h1: u32, h2: u32| #[trigger] self.covered_once(pairs@, from, stack@, h1, h2) by {
                            if self.handle_pair(h1, h2) {
                                self.lemma_split_right(a, b, self.leaf_of(h1), self.leaf_of(h2));
                                assert(stack@.subrange(rest.len() as int, stack@.len() as int) =~= seq![(a, bn.left), (a, bn.right)]);
                            }
                            self.lemma_covered_once_step(found0, pairs@, from, st, stack@, h1, h2);
                        }
                        if self.overlap_survives_merges(overlaps) {
                            assert forall|h1: u32, h2: u32| #[trigger]
                                self.pairs_done(overlaps, pairs@, from, stack@, h1, h2) by {
                                let x = self.leaf_of(h1);
                                let y = self.leaf_of(h2);
                                if self.must_pair(overlaps, h1, h2) && self.pair_covers((a, b), x, y) {
                                    self.lemma_leaf_of(h1);
                                    self.lemma_leaf_of(h2);
                                    if self.above(x, a as int) && self.above(y, b as int) {
                                        self.lemma_below_child(y, b as int);
                                    } else {
                                        self.lemma_below_child(x, b as int);
                                    }
                                    let t = rest.len() as int;
                                    assert(stack@[t] == (a, bn.left));
                                    assert(stack@[t + 1] == (a, bn.right));
                                }
                                self.lemma_pairs_step(overlaps, found0, pairs@, from, st, stack@, h1, h2);
                            }
                        }
                    }
                } else if bn.height == 0 {
                    stack.push((an.left, b));
                    stack.push((an.right, b));
                    proof {
                        self.lemma_child_ranks(a);
                        self.lemma_two_pairs_lighter(rest, a, b, an.left, b, an.right, b);
                        assert(deterministic(overlaps) ==> pairs@ + self.pairs_stack_order(overlaps, stack@) =~= found0 + (self.pairs_order(overlaps, a as int, b as int) + self.pairs_stack_order(overlaps, rest))) by {
                            if deterministic(overlaps) {
                                self.lemma_pairs_stack_push(overlaps, rest, (an.left, b));
                                self.lemma_pairs_stack_push(overlaps, rest.push((an.left, b)), (an.right, b));
                                assert(rest.push((an.left, b)).push((an.right, b)) =~= stack@);
                            }
                        }
                        assert forall|k: int| 0 <= k < stack@.len() implies self.apart_or_same(#[trigger] stack@[k]) by {
                            if k < rest.len() {
                                assert(stack@[k] == st[k]);
                            } else {
                                self.lemma_split_left(a, b, 0, 0);
                            }
                        }
                        assert forall|h1: u32, h2: u32| #[trigger] self.covered_once(pairs@, from, stack@, h1, h2) by {
                            if self.handle_pair(h1, h2) {
                                self.lemma_split_left(a, b, self.leaf_of(h1), self.leaf_of(h2));
                                assert(stack@.subrange(rest.len() as int, stack@.len() as int) =~= seq![(an.left, b), (an.right, b)]);
                            }
                            self.lemma_covered_once_step(found0, pairs@, from, st, stack@, h1, h2);
                        }
                        if self.overlap_survives_merges(overlaps) {
                            assert forall|h1: u32, h2: u32| #[trigger]
                                self.pairs_done(overlaps, pairs@, from, stack@, h1, h2) by {
                                let x = self.leaf_of(h1);
                                let y = self.leaf_of(h2);
                                if self.must_pair(overlaps, h1, h2) && self.pair_covers((a, b), x, y) {
                                    self.lemma_leaf_of(h1);
                                    self.lemma_leaf_of(h2);
                                    if self.above(x, a as int) && self.above(y, b as int) {
                                        self.lemma_below_child(x, a as int);
                                    } else {
                                        self.lemma_below_child(y, a as int);
                                    }
                                    let t = rest.len() as int;
                                    assert(stack@[t] == (an.left, b));
                                    assert(stack@[t + 1] == (an.right, b));
                                }
                                self.lemma_pairs_step(overlaps, found0, pairs@, from, st, stack@, h1, h2);
                            }
                        }
                    }
                } else {
                    stack.push((an.left, bn.left));
                    stack.push((an.left, bn.right));
                    stack.push((an.right, bn.left));
                    stack.push((an.right, bn.right));
                    proof {
                        self.lemma_four_pairs_lighter(rest, a, b);
                        assert(deterministic(overlaps) ==> pairs@ + self.pairs_stack_order(overlaps, stack@) =~= found0 + (self.pairs_order(overlaps, a as int, b as int) + self.pairs_stack_order(overlaps, rest))) by {
                            if deterministic(overlaps) {
                                self.lemma_pairs_stack_push(overlaps, rest, (an.left, bn.left));
                                self.lemma_pairs_stack_push(overlaps, rest.push((an.left, bn.left)), (an.left, bn.right));
                                self.lemma_pairs_stack_push(overlaps, rest.push((an.left, bn.left)).push((an.left, bn.right)), (an.right, bn.left));
                                self.lemma_pairs_stack_push(overlaps, rest.push((an.left, bn.left)).push((an.left, bn.right)).push((an.right, bn.left)), (an.right, bn.right));
                                assert(rest.push((an.left, bn.left)).push((an.left, bn.right)).push((an.right, bn.left)).push((an.right, bn.right)) =~= stack@);
                            }
                        }
                        assert forall|k: int| 0 <= k < stack@.len() implies self.apart_or_same(#[trigger] stack@[k]) by {
                            if k < rest.len() {
                                assert(stack@[k] == st[k]);
                            } else {
                                self.lemma_split_apart(a, b, 0, 0);
                            }
                        }
                        assert forall|h1: u32, h2: u32| #[trigger] self.covered_once(pairs@, from, stack@, h1, h2) by {
                            if self.handle_pair(h1, h2) {
                                self.lemma_split_apart(a, b, self.leaf_of(h1), self.leaf_of(h2));
                                assert(stack@.subrange(rest.len() as int, stack@.len() as int) =~= seq![(an.left, bn.left), (an.left, bn.right), (an.right, bn.left), (an.right, bn.right)]);
                            }
                            self.lemma_covered_once_step(found0, pairs@, from, st, stack@, h1, h2);
                        }
                        if self.overlap_survives_merges(overlaps) {
                            assert forall|h1: u32, h2: u32| #[trigger]
                                self.pairs_done(overlaps, pairs@, from, stack@, h1, h2) by {
                                let x = self.leaf_of(h1);
                                let y = self.leaf_of(h2);
                                if self.must_pair(overlaps, h1, h2) && self.pair_covers((a, b), x, y) {
                                    self.lemma_leaf_of(h1);
                                    self.lemma_leaf_of(h2);
                                    if self.above(x, a as int) && self.above(y, b as int) {
                                        self.lemma_below_child(x, a as int);
                                        self.lemma_below_child(y, b as int);
                                    } else {
                                        self.lemma_below_child(y, a as int);
                                        self.lemma_below_child(x, b as int);
                                    }
                                    let t = rest.len() as int;
                                    assert(stack@[t] == (an.left, bn.left));
                                    assert(stack@[t + 1] == (an.left, bn.right));
                                    assert(stack@[t + 2] == (an.right, bn.left));
                                    assert(stack@[t + 3] == (an.right, bn.right));
                                }
                                self.lemma_pairs_step(overlaps, found0, pairs@, from, st, stack@, h1, h2);
                            }
                        }
                    }
                }
            }
        }
        proof {
            if decisive(overlaps) {
                assert forall|k: int| before.len() <= k < pairs@.len() implies self.must_pair(
                    overlaps,
                    (#[trigger] pairs@[k]).0.0,
                    pairs@[k].1.0,
                ) by {
                    let p = pairs@[k];
                    assert(self.seen_overlapping(overlaps, p.0.0, p.1.0));
                    if overlaps.ensures((self@[p.0.0], self@[p.1.0]), true) {
                    } else {
                        assert(overlaps.ensures((self@[p.1.0], self@[p.0.0]), true));
                    }
                }
            }
            if self.overlap_survives_merges(overlaps) {
                assert forall|h1: u32, h2: u32| #[trigger] self.must_pair(overlaps, h1, h2) implies exists|
                    k: int,
                |
                    before.len() <= k < pairs@.len() && pairs@[k] == (ColliderHandle(h1), ColliderHandle(h2)) by {
                    assert(self.pairs_done(overlaps, pairs@, from, stack@, h1, h2));
                }
            }
        }
    }

    /// The weight of a pair.
    spec fn pair_weight(&self, p: (u32, u32)) -> nat {
        pow5((self.rank@[p.0 as int] + self.rank@[p.1 as int]) as nat)
    }

    proof fn lemma_push_weight(&self, st: Seq<(u32, u32)>, p: (u32, u32))
        ensures
            self.pair_stack_weight(st.push(p)) == self.pair_stack_weight(st) + self.pair_weight(p),
    {
        assert(st.push(p).drop_last() =~= st);
    }

    /// The children of internal node `a` (ranks below `a`'s, not below 0).
    proof fn lemma_child_ranks(&self, a: u32)
        requires
            self.shape_wf(),
            self.live(a as int),
            self.nodes@[a as int].height > 0,
        ensures
            0 <= self.rank@[self.nodes@[a as int].left as int] < self.rank@[a as int],
            0 <= self.rank@[self.nodes@[a as int].right as int] < self.rank@[a as int],
            self.live(self.nodes@[a as int].left as int),
            self.live(self.nodes@[a as int].right as int),
    {
        assert(self.node_ok(a as int));
        assert(self.node_ok(self.nodes@[a as int].left as int));
        assert(self.node_ok(self.nodes@[a as int].right as int));
    }

    proof fn lemma_three_pairs_lighter(&self, rest: Seq<(u32, u32)>, a: u32, l: u32, r: u32)
        requires
            self.shape_wf(),
            self.live(a as int),
            self.nodes@[a as int].height > 0,
            self.nodes@[a as int].left == l,
            self.nodes@[a as int].right == r,
        ensures
            self.pair_stack_weight(rest.push((l, l)).push((r, r)).push((l, r))) < self.pair_stack_weight(rest)
                + self.pair_weight((a, a)),
    {
        self.lemma_child_ranks(a);
        assert(self.node_ok(a as int));
        self.lemma_push_weight(rest, (l, l));
        self.lemma_push_weight(rest.push((l, l)), (r, r));
        self.lemma_push_weight(rest.push((l, l)).push((r, r)), (l, r));
        let s = (self.rank@[a as int] + self.rank@[a as int]) as nat;
        let m = (s - 1) as nat;
        lemma_pow5_monotone((self.rank@[l as int] + self.rank@[l as int]) as nat, m);
        lemma_pow5_monotone((self.rank@[r as int] + self.rank@[r as int]) as nat, m);
        lemma_pow5_monotone((self.rank@[l as int] + self.rank@[r as int]) as nat, m);
        lemma_pow5_positive(m);
    }

    proof fn lemma_two_pairs_lighter(
        &self,
        rest: Seq<(u32, u32)>,
        a: u32,
        b: u32,
        x1: u32,
        y1: u32,
        x2: u32,
        y2: u32,
    )
        requires
            self.rank@[a as int] + self.rank@[b as int] >= 1,
            0 <= self.rank@[x1 as int] + self.rank@[y1 as int] < self.rank@[a as int] + self.rank@[b as int],
            0 <= self.rank@[x2 as int] + self.rank@[y2 as int] < self.rank@[a as int] + self.rank@[b as int],
        ensures
            self.pair_stack_weight(rest.push((x1, y1)).push((x2, y2))) < self.pair_stack_weight(rest)
                + self.pair_weight((a, b)),
    {
        self.lemma_push_weight(rest, (x1, y1));
        self.lemma_push_weight(rest.push((x1, y1)), (x2, y2));
        let s = (self.rank@[a as int] + self.rank@[b as int]) as nat;
        let m = (s - 1) as nat;
        lemma_pow5_monotone((self.rank@[x1 as int] + self.rank@[y1 as int]) as nat, m);
        lemma_pow5_monotone((self.rank@[x2 as int] + self.rank@[y2 as int]) as nat, m);
        lemma_pow5_positive(m);
    }

    proof fn lemma_four_pairs_lighter(&self, rest: Seq<(u32, u32)>, a: u32, b: u32)
        requires
            self.shape_wf(),
            self.live(a as int),
            self.live(b as int),
            self.nodes@[a as int].height > 0,
            self.nodes@[b as int].height > 0,
        ensures
            ({
                let al = self.nodes@[a as int].left;
                let ar = self.nodes@[a as int].right;
                let bl = self.nodes@[b as int].left;
                let br = self.nodes@[b as int].right;
                self.pair_stack_weight(rest.push((al, bl)).push((al, br)).push((ar, bl)).push((ar, br)))
                    < self.pair_stack_weight(rest) + self.pair_weight((a, b))
            }),
    {
        self.lemma_child_ranks(a);
        self.lemma_child_ranks(b);
        let al = self.nodes@[a as int].left;
        let ar = self.nodes@[a as int].right;
        let bl = self.nodes@[b as int].left;
        let br = self.nodes@[b as int].right;
        self.lemma_push_weight(rest, (al, bl));
        self.lemma_push_weight(rest.push((al, bl)), (al, br));
        self.lemma_push_weight(rest.push((al, bl)).push((al, br)), (ar, bl));
        self.lemma_push_weight(rest.push((al, bl)).push((al, br)).push((ar, bl)), (ar, br));
        let s = (self.rank@[a as int] + self.rank@[b as int]) as nat;
        let m = (s - 1) as nat;
        lemma_pow5_monotone((self.rank@[al as int] + self.rank@[bl as int]) as nat, m);
        lemma_pow5_monotone((self.rank@[al as int] + self.rank@[br as int]) as nat, m);
        lemma_pow5_monotone((self.rank@[ar as int] + self.rank@[bl as int]) as nat, m);
        lemma_pow5_monotone((self.rank@[ar as int] + self.rank@[br as int]) as nat, m);
        lemma_pow5_positive(m);
    }

    /// The weight of a stack of nodes still to visit: `5^rank` each.
    spec fn node_stack_weight(&self, st: Seq<u32>) -> nat
        decreases st.len(),
    {
        if st.len() == 0 {
            0
        } else {
            self.node_stack_weight(st.drop_last()) + pow5(self.rank@[st.last() as int] as nat)
        }
    }

    proof fn lemma_children_lighter(&self, rest: Seq<u32>, a: u32)
        requires
            self.shape_wf(),
            self.live(a as int),
            self.nodes@[a as int].height > 0,
        ensures
            ({
                let l = self.nodes@[a as int].left;
                let r = self.nodes@[a as int].right;
                self.node_stack_weight(rest.push(l).push(r)) < self.node_stack_weight(rest) + pow5(
                    self.rank@[a as int] as nat,
                )
            }),
    {
        self.lemma_child_ranks(a);
        let l = self.nodes@[a as int].left;
        let r = self.nodes@[a as int].right;
        assert(rest.push(l).drop_last() =~= rest);
        assert(rest.push(l).push(r).drop_last() =~= rest.push(l));
        let m = (self.rank@[a as int] - 1) as nat;
        lemma_pow5_monotone(self.rank@[l as int] as nat, m);
        lemma_pow5_monotone(self.rank@[r as int] as nat, m);
        lemma_pow5_positive(m);
        assert(pow5(self.rank@[a as int] as nat) == 5 * pow5(m));
        assert(self.node_stack_weight(rest.push(l)) == self.node_stack_weight(rest) + pow5(
            self.rank@[l as int] as nat,
        ));
        assert(self.node_stack_weight(rest.push(l).push(r)) == self.node_stack_weight(rest.push(l))
            + pow5(self.rank@[r as int] as nat));
    }

    /// The leaf of collider `h`.
    pub closed spec fn leaf_of(&self, h: u32) -> int {
        self.handle_map@[h] as int
    }

    /// The parent of node `i` (`NULL_NODE` for the root).
    pub closed spec fn parent_index(&self, i: int) -> u32 {
        self.nodes@[i].parent
    }

    /// The two children of node `i`.
    pub closed spec fn children_of(&self, i: int) -> (u32, u32) {
        (self.nodes@[i].left, self.nodes@[i].right)
    }

    /// The root node (`NULL_NODE` when the tree is empty).
    pub closed spec fn root_index(&self) -> u32 {
        self.root
    }

    /// Collider `h` is none of a query's concern (not in the tree, or not
    /// surely overlapping `query`), or is in `found` from index `from` on,
    /// or its leaf lies below a node of `st`.
    spec fn query_done<F: Fn(B, B) -> bool>(
        &self,
        overlaps: &F,
        query: B,
        found: Seq<ColliderHandle>,
        from: int,
        st: Seq<u32>,
        h: u32,
    ) -> bool {
        ||| !(self@.contains_key(h) && surely_overlap(overlaps, self@[h], query))
        ||| exists|k: int| from <= k < found.len() && #[trigger] found[k] == ColliderHandle(h)
        ||| exists|k: int| 0 <= k < st.len() && self.above(self.leaf_of(h), #[trigger] st[k] as int)
    }

    /// One step of a query: the node on top of `st` was taken off, and each
    /// collider of concern below it was found or lies below a node pushed
    /// in its place.
    proof fn lemma_query_step<F: Fn(B, B) -> bool>(
        &self,
        overlaps: &F,
        query: B,
        found0: Seq<ColliderHandle>,
        found1: Seq<ColliderHandle>,
        from: int,
        st: Seq<u32>,
        st1: Seq<u32>,
        h: u32,
    )
        requires
            st.len() > 0,
            0 <= from <= found0.len() <= found1.len(),
            forall|k: int| 0 <= k < found0.len() ==> found1[k] == found0[k],
            st1.len() >= st.len() - 1,
            forall|k: int| 0 <= k < st.len() - 1 ==> st1[k] == st[k],
            self.query_done(overlaps, query, found0, from, st, h),
            self@.contains_key(h) && surely_overlap(overlaps, self@[h], query) && self.above(
                self.leaf_of(h),
                st[st.len() - 1] as int,
            ) ==> (exists|k: int| found0.len() <= k < found1.len() && found1[k] == ColliderHandle(h))
                || (exists|k: int|
                st.len() - 1 <= k < st1.len() && self.above(self.leaf_of(h), st1[k] as int)),
        ensures
            self.query_done(overlaps, query, found1, from, st1, h),
    {
        if self@.contains_key(h) && surely_overlap(overlaps, self@[h], query) {
            if exists|k: int| from <= k < found0.len() && #[trigger] found0[k] == ColliderHandle(h) {
                let k = choose|k: int| from <= k < found0.len() && #[trigger] found0[k] == ColliderHandle(h);
                assert(found1[k] == ColliderHandle(h));
            } else {
                let k = choose|k: int| 0 <= k < st.len() && self.above(self.leaf_of(h), #[trigger] st[k] as int);
                if k < st.len() - 1 {
                    assert(st1[k] == st[k]);
                } else if exists|j: int| found0.len() <= j < found1.len() && found1[j] == ColliderHandle(h) {
                    let j = choose|j: int| found0.len() <= j < found1.len() && found1[j] == ColliderHandle(h);
                    assert(found1[j] == ColliderHandle(h));
                } else {
                    let j = choose|j: int|
                        st.len() - 1 <= j < st1.len() && self.above(self.leaf_of(h), st1[j] as int);
                    assert(self.above(self.leaf_of(h), st1[j] as int));
                }
            }
        }
    }

    /// The children of node `n` rank below it, and not below 0.
    spec fn child_ranks_ok(&self, n: int) -> bool {
        let l = self.nodes@[n].left as int;
        let r = self.nodes@[n].right as int;
        &&& 0 <= l < self.rank@.len()
        &&& 0 <= r < self.rank@.len()
        &&& 0 <= self.rank@[l] < self.rank@[n]
        &&& 0 <= self.rank@[r] < self.rank@[n]
    }

    /// The colliders that a query for `query` reports below node `n`, in
    /// the order it reports them (the right subtree before the left), taking
    /// a box to overlap `query` where `overlaps` can answer yes.
    spec fn query_order<F: Fn(B, B) -> bool>(&self, overlaps: &F, query: B, n: int) -> Seq<
        ColliderHandle,
    >
        decreases self.rank@[n],
    {
        let nd = self.nodes@[n];
        if !overlaps.ensures((nd.aabb, query), true) {
            Seq::empty()
        } else if nd.height == 0 {
            seq![nd.handle]
        } else if self.child_ranks_ok(n) {
            self.query_order(overlaps, query, nd.right as int) + self.query_order(
                overlaps,
                query,
                nd.left as int,
            )
        } else {
            Seq::empty()
        }
    }

    /// What a query for `query` reports, in order.
    pub closed spec fn query_output<F: Fn(B, B) -> bool>(&self, overlaps: &F, query: B) -> Seq<ColliderHandle> {
        if self.root == NULL_NODE {
            Seq::empty()
        } else {
            self.query_order(overlaps, query, self.root as int)
        }
    }

    /// What the nodes of stack `st` still report, the top one first.
    spec fn query_stack_order<F: Fn(B, B) -> bool>(&self, overlaps: &F, query: B, st: Seq<u32>) -> Seq<
        ColliderHandle,
    >
        decreases st.len(),
    {
        if st.len() == 0 {
            Seq::empty()
        } else {
            self.query_order(overlaps, query, st.last() as int) + self.query_stack_order(
                overlaps,
                query,
                st.drop_last(),
            )
        }
    }

    /// Collects into `results`, after what it already holds, the colliders
    /// whose box `overlaps` finds overlapping `query`, each once, walking
    /// only the subtrees whose boxes overlap it. When `overlaps` keeps
    /// finding merged boxes overlapping what their parts overlap, every
    /// collider whose box it surely finds overlapping `query` is collected.
    /// When it gives one answer per pair of boxes, the colliders come in the
    /// order of the walk (`query_output`).
    pub fn query_aabb<F: Fn(B, B) -> bool>(&self, query: B, results: &mut Vec<ColliderHandle>, overlaps: &F)
        where
            B: Copy,
        requires
            self.wf(),
            forall|x: B, y: B| #[trigger] overlaps.requires((x, y)),
        ensures
            final(results)@.len() >= old(results)@.len(),
            final(results)@.subrange(0, old(results)@.len() as int) == old(results)@,
            forall|k: int|
                old(results)@.len() <= k < final(results)@.len() ==> {
                    let h = #[trigger] final(results)@[k];
                    &&& self@.contains_key(h.0)
                    &&& overlaps.ensures((self@[h.0], query), true)
                },
            forall|i: int, j: int|
                old(results)@.len() <= i < j < final(results)@.len() ==> final(results)@[i]
                    != final(results)@[j],
            self.overlap_survives_merges(overlaps) ==> forall|h: u32|
                #[trigger] self@.contains_key(h) && surely_overlap(overlaps, self@[h], query) ==> exists|
                    k: int,
                |
                    old(results)@.len() <= k < final(results)@.len() && final(results)@[k]
                        == ColliderHandle(h),
            deterministic(overlaps) ==> final(results)@ == old(results)@ + self.query_output(overlaps, query),
    {
        let ghost before = results@;
        if self.root == NULL_NODE {
            proof {
                assert forall|h: u32| !#[trigger] self@.contains_key(h) by {
                    if self@.contains_key(h) {
                        assert(self.free@.contains(self.leaf_of(h) as u32));
                    }
                }
            }
            return;
        }
        let mut stack: Vec<u32> = Vec::new();
        stack.push(self.root);
        proof {
            assert(stack@.drop_last() =~= Seq::<u32>::empty());
            assert(stack@.last() == self.root);
            assert(self.query_stack_order(overlaps, query, Seq::<u32>::empty()) =~= Seq::<ColliderHandle>::empty());
            assert(self.query_stack_order(overlaps, query, stack@) =~= self.query_order(overlaps, query, self.root as int));
            assert(results@ + self.query_stack_order(overlaps, query, stack@) =~= before + self.query_output(
                overlaps,
                query,
            ));
            if self.overlap_survives_merges(overlaps) {
                assert forall|h: u32| #[trigger]
                    self.query_done(overlaps, query, results@, before.len() as int, stack@, h) by {
                    if self@.contains_key(h) {
                        self.lemma_below_root(self.leaf_of(h));
                        assert(stack@[0] == self.root);
                    }
                }
            }
        }
        while stack.len() > 0
            invariant
                self.shape_wf(),
                forall|x: B, y: B| #[trigger] overlaps.requires((x, y)),
                forall|k: int| 0 <= k < stack@.len() ==> self.live(#[trigger] stack@[k] as int),
                results@.len() >= before.len(),
                results@.subrange(0, before.len() as int) == before,
                forall|k: int|
                    before.len() <= k < results@.len() ==> {
                        let h = #[trigger] results@[k];
                        &&& self@.contains_key(h.0)
                        &&& overlaps.ensures((self@[h.0], query), true)
                    },
                self.boxes_ok(),
                self.overlap_survives_merges(overlaps) ==> forall|h: u32| #[trigger]
                    self.query_done(overlaps, query, results@, before.len() as int, stack@, h),
                forall|k1: int, k2: int|
                    0 <= k1 < k2 < stack@.len() ==> !self.above(#[trigger] stack@[k1] as int, #[trigger] stack@[k2] as int)
                        && !self.above(stack@[k2] as int, stack@[k1] as int),
                forall|k: int, j: int|
                    before.len() <= k < results@.len() && 0 <= j < stack@.len() ==> !self.above(
                        self.leaf_of((#[trigger] results@[k]).0),
                        #[trigger] stack@[j] as int,
                    ),
                forall|i: int, j: int| before.len() <= i < j < results@.len() ==> results@[i] != results@[j],
                deterministic(overlaps) ==> results@ + self.query_stack_order(overlaps, query, stack@) == before
                    + self.query_output(overlaps, query),
            decreases self.node_stack_weight(stack@),
        {
            let ghost st = stack@;
            let node_idx = stack.pop().unwrap();
            proof {
                assert(st.drop_last() == stack@);
                assert(st[st.len() - 1] == node_idx);
                assert(self.live(node_idx as int));
                assert(self.node_ok(node_idx as int));
                lemma_pow5_positive(self.rank@[node_idx as int] as nat);
            }
            let ghost rest = stack@;
            let ghost found0 = results@;
            if node_idx == NULL_NODE {
                continue;
            }
            let node = &self.nodes[node_idx as usize];
            let hit = overlaps(node.aabb, query);
            proof {
                assert(self.query_stack_order(overlaps, query, st) == self.query_order(overlaps, query, node_idx as int)
                    + self.query_stack_order(overlaps, query, rest));
                if deterministic(overlaps) {
                    assert(overlaps.ensures((node.aabb, query), true) == hit);
                }
            }
            if !hit {
                proof {
                    if deterministic(overlaps) {
                        assert(self.query_order(overlaps, query, node_idx as int) =~= Seq::<ColliderHandle>::empty());
                        assert(self.query_order(overlaps, query, node_idx as int) + self.query_stack_order(
                            overlaps,
                            query,
                            rest,
                        ) =~= self.query_stack_order(overlaps, query, rest));
                    }
                    if self.overlap_survives_merges(overlaps) {
                        assert forall|h: u32| #[trigger]
                            self.query_done(overlaps, query, results@, before.len() as int, stack@, h) by {
                            if self@.contains_key(h) && surely_overlap(overlaps, self@[h], query)
                                && self.above(self.leaf_of(h), node_idx as int) {
                                self.lemma_lift_first(overlaps, self.leaf_of(h), node_idx as int, query);
                            }
                            self.lemma_query_step(overlaps, query, found0, results@, before.len() as int, st, stack@, h);
                        }
                    }
                }
                continue;
            }
            if node.height == 0 {
                proof {
                    assert(self.handle_map@[node.handle.0] == node_idx);
                    assert(self@[node.handle.0] == node.aabb);
                }
                results.push(node.handle);
                proof {
                    assert(results@.subrange(0, before.len() as int) =~= before);
                    if deterministic(overlaps) {
                        assert(self.query_order(overlaps, query, node_idx as int) == seq![node.handle]);
                        assert(results@ + self.query_stack_order(overlaps, query, stack@) =~= found0 + (
                        self.query_order(overlaps, query, node_idx as int) + self.query_stack_order(
                            overlaps,
                            query,
                            rest,
                        )));
                    }
                    let top = rest.len() as int;
                    assert(self.leaf_of(node.handle.0) == node_idx);
                    assert forall|k: int, j: int|
                        before.len() <= k < results@.len() && 0 <= j < stack@.len() implies !self.above(
                            self.leaf_of((#[trigger] results@[k]).0),
                            #[trigger] stack@[j] as int,
                        ) by {
                        assert(stack@[j] == st[j]);
                        if k < found0.len() {
                            assert(results@[k] == found0[k]);
                        } else {
                            assert(st[top] == node_idx);
                        }
                    }
                    assert forall|i: int, j: int| before.len() <= i < j < results@.len() implies results@[i] != results@[j] by {
                        if j == found0.len() {
                            assert(results@[i] == found0[i]);
                            assert(st[top] == node_idx);
                            assert(!self.above(self.leaf_of(found0[i].0), st[top] as int));
                            assert(self.above(node_idx as int, node_idx as int));
                        } else {
                            assert(results@[i] == found0[i] && results@[j] == found0[j]);
                        }
                    }
                    if self.overlap_survives_merges(overlaps) {
                        assert forall|h: u32| #[trigger]
                            self.query_done(overlaps, query, results@, before.len() as int, stack@, h) by {
                            if self@.contains_key(h) && self.above(self.leaf_of(h), node_idx as int) {
                                self.lemma_below_leaf(self.leaf_of(h), node_idx as int);
                                assert(results@[found0.len() as int] == ColliderHandle(h));
                            }
                            self.lemma_query_step(overlaps, query, found0, results@, before.len() as int, st, stack@, h);
                        }
                    }
                }
            } else {
                stack.push(node.left);
                stack.push(node.right);
                proof {
                    self.lemma_children_lighter(rest, node_idx);
                    if deterministic(overlaps) {
                        self.lemma_child_ranks(node_idx);
                        assert(self.child_ranks_ok(node_idx as int));
                        let (l, r) = (node.left, node.right);
                        assert(stack@.drop_last() =~= rest.push(l));
                        assert(rest.push(l).drop_last() =~= rest);
                        assert(stack@.last() == r);
                        assert(rest.push(l).last() == l);
                        assert(self.query_stack_order(overlaps, query, rest.push(l)) == self.query_order(
                            overlaps,
                            query,
                            l as int,
                        ) + self.query_stack_order(overlaps, query, rest));
                        assert(self.query_stack_order(overlaps, query, stack@) == self.query_order(
                            overlaps,
                            query,
                            r as int,
                        ) + self.query_stack_order(overlaps, query, rest.push(l)));
                        assert(self.query_order(overlaps, query, node_idx as int) == self.query_order(
                            overlaps,
                            query,
                            r as int,
                        ) + self.query_order(overlaps, query, l as int));
                        assert(self.query_stack_order(overlaps, query, stack@) =~= self.query_order(
                            overlaps,
                            query,
                            node_idx as int,
                        ) + self.query_stack_order(overlaps, query, rest));
                    }
                    let top = rest.len() as int;
                    let n = node_idx as int;
                    let l = node.left as int;
                    let r = node.right as int;
                    self.lemma_child_below(n);
                    assert(stack@[top] == node.left && stack@[top + 1] == node.right);
                    assert(st[top] == node_idx);
                    assert forall|k1: int, k2: int| 0 <= k1 < k2 < stack@.len() implies !self.above(
                        #[trigger] stack@[k1] as int,
                        #[trigger] stack@[k2] as int,
                    ) && !self.above(stack@[k2] as int, stack@[k1] as int) by {
                        if k2 < top {
                            assert(stack@[k1] == st[k1] && stack@[k2] == st[k2]);
                        } else if k1 < top {
                            assert(stack@[k1] == st[k1]);
                            assert(!self.above(st[k1] as int, n) && !self.above(n, st[k1] as int));
                            self.lemma_apart_below(st[k1] as int, n, l);
                            self.lemma_apart_below(st[k1] as int, n, r);
                        }
                    }
                    assert forall|k: int, j: int|
                        before.len() <= k < results@.len() && 0 <= j < stack@.len() implies !self.above(
                            self.leaf_of((#[trigger] results@[k]).0),
                            #[trigger] stack@[j] as int,
                        ) by {
                        let x = self.leaf_of(results@[k].0);
                        if j < top {
                            assert(stack@[j] == st[j]);
                        } else {
                            assert(!self.above(x, st[top] as int));
                            if self.above(x, stack@[j] as int) {
                                self.lemma_above_trans(x, stack@[j] as int, n);
                            }
                        }
                    }
                    if self.overlap_survives_merges(overlaps) {
                        assert forall|h: u32| #[trigger]
                            self.query_done(overlaps, query, results@, before.len() as int, stack@, h) by {
                            if self@.contains_key(h) && self.above(self.leaf_of(h), node_idx as int) {
                                assert(self.nodes@[self.leaf_of(h)].height == 0);
                                self.lemma_below_child(self.leaf_of(h), node_idx as int);
                                assert(stack@[rest.len() as int] == node.left);
                                assert(stack@[rest.len() as int + 1] == node.right);
                            }
                            self.lemma_query_step(overlaps, query, found0, results@, before.len() as int, st, stack@, h);
                        }
                    }
                }
            }
        }
        proof {
            if self.overlap_survives_merges(overlaps) {
                assert forall|h: u32|
                    #[trigger] self@.contains_key(h) && surely_overlap(overlaps, self@[h], query) implies exists|
                        k: int,
                    | before.len() <= k < results@.len() && results@[k] == ColliderHandle(h) by {
                    assert(self.query_done(overlaps, query, results@, before.len() as int, stack@, h));
                }
            }
        }
    }

    /// The box stored at node `i`.
    pub closed spec fn box_of(&self, i: int) -> B {
        self.nodes@[i].aabb
    }

    /// The collider of leaf `i`.
    pub closed spec fn leaf_handle(&self, i: int) -> u32 {
        self.nodes@[i].handle.0
    }

    /// The box of node `i`.
    pub fn node_box(&self, i: u32) -> (r: B)
        where
            B: Copy,
        requires
            self.wf(),
            self.live(i as int),
        ensures
            r == self.box_of(i as int),
            self.is_leaf(i as int) ==> self@.contains_key(self.leaf_handle(i as int)) && r
                == self@[self.leaf_handle(i as int)],
    {
        proof {
            assert(self.node_ok(i as int));
        }
        self.nodes[i as usize].aabb
    }

    /// The two children of node `i`, or `None` when it is a leaf.
    pub fn node_children(&self, i: u32) -> (r: Option<(u32, u32)>)
        requires
            self.wf(),
            self.live(i as int),
        ensures
            r is None <==> self.is_leaf(i as int),
            r matches Some(c) ==> self.live(c.0 as int) && self.live(c.1 as int) && c.0 != c.1,
    {
        proof {
            assert(self.node_ok(i as int));
        }
        if self.nodes[i as usize].height == 0 {
            None
        } else {
            Some((self.nodes[i as usize].left, self.nodes[i as usize].right))
        }
    }

    /// Moves collider `handle` to box `new_box`. While its stored box
    /// `contains` the new one nothing changes (a collider that moves a
    /// little keeps its leaf). Otherwise the collider is taken out and put
    /// back with `new_box` fattened once by `fatten`, next to the node that
    /// `choose_sibling` picks in the tree without it (the root when that
    /// choice names no node). Returns whether the collider was put back.
    pub fn update<C, Fa, S, M>(
        &mut self,
        handle: ColliderHandle,
        new_box: B,
        contains: &C,
        fatten: &Fa,
        choose_sibling: &S,
        merge: &M,
    ) -> (moved: bool)
        where
            B: Copy,
            C: Fn(B, B) -> bool,
            Fa: Fn(B) -> B,
            S: Fn(&Self, B) -> u32,
            M: Fn(B, B) -> B,
        requires
            old(self).wf(),
            old(self).capacity() + 2 < u32::MAX,
            forall|x: B, y: B| #[trigger] contains.requires((x, y)),
            forall|x: B| #[trigger] fatten.requires((x,)),
            forall|t: &Self, x: B| #[trigger] choose_sibling.requires((t, x)),
            forall|x: B, y: B| #[trigger] merge.requires((x, y)),
        ensures
            final(self).wf(),
            final(self).capacity() <= old(self).capacity() + 2,
            forall|x: B, y: B, m: B| #[trigger]
                final(self).made_by_merge(x, y, m) ==> old(self).made_by_merge(x, y, m) || merge.ensures(
                    (x, y),
                    m,
                ),
            !old(self)@.contains_key(handle.0) ==> !moved && final(self)@ == old(self)@,
            old(self)@.contains_key(handle.0) ==> {
                &&& contains.ensures((old(self)@[handle.0], new_box), !moved)
                &&& !moved ==> final(self)@ == old(self)@
                &&& moved ==> exists|f1: B| #[trigger]
                    fatten.ensures((new_box,), f1) && final(self)@ == old(self)@.insert(handle.0, f1)
            },
    {
        let stored = match self.leaf_box(handle) {
            Some(b) => b,
            None => {
                return false;
            },
        };
        if contains(stored, new_box) {
            return false;
        }
        self.remove(handle, merge);
        let fat = fatten(new_box);
        let chosen = choose_sibling(&*self, fat);
        let sibling = if self.is_node(chosen) {
            chosen
        } else {
            self.root()
        };
        let ghost removed = self@;
        self.insert(handle, fat, sibling, merge);
        proof {
            assert(removed.insert(handle.0, fat) =~= old(self)@.insert(handle.0, fat));
        }
        true
    }

    /// The number of node slots, in the tree or free.
    pub fn node_count(&self) -> (n: usize)
        ensures
            n == self.capacity(),
    {
        self.nodes.len()
    }

    /// The box stored for collider `handle`, if it is in the tree.
    pub fn leaf_box(&self, handle: ColliderHandle) -> (r: Option<B>)
        where
            B: Copy,
        requires
            self.wf(),
        ensures
            r == self@.get(handle.0),
    {
        match self.handle_map.get(&handle.0) {
            Some(idx) => Some(self.nodes[*idx as usize].aabb),
            None => None,
        }
    }

    /// The root node, or `NULL_NODE` when the tree is empty.
    pub fn root(&self) -> (r: u32)
        requires
            self.wf(),
        ensures
            r == NULL_NODE <==> (forall|i: int| !self.live(i)),
            r != NULL_NODE ==> self.live(r as int),
    {
        proof {
            if self.root == NULL_NODE {
                assert forall|i: int| !self.live(i) by {
                    if 0 <= i < self.nodes@.len() {
                        assert(self.free@.contains(i as u32));
                    }
                }
            }
        }
        self.root
    }

    /// Whether `i` names a node of the tree.
    pub fn is_node(&self, i: u32) -> (b: bool)
        requires
            self.wf(),
        ensures
            b == self.live(i as int),
    {
        if i as usize >= self.nodes.len() {
            return false;
        }
        proof {
            if self.free@.contains(i) {
                let k = choose|k: int| 0 <= k < self.free@.len() && self.free@[k] == i;
                assert(self.nodes@[self.free@[k] as int].height == -1);
            } else {
                assert(self.live(i as int));
                assert(self.node_ok(i as int));
            }
        }
        self.nodes[i as usize].height >= 0
    }
}

/// Whether `overlaps` surely finds `a` overlapping `b`: no call of it on
/// them answers no.
pub open spec fn surely_overlap<B, F: Fn(B, B) -> bool>(overlaps: &F, a: B, b: B) -> bool {
    !overlaps.ensures((a, b), false)
}

/// Whether every yes of `overlaps` is sure both ways: when a call on `a`
/// and `b` can answer yes, no call on `a`, `b` or on `b`, `a` answers no.
pub open spec fn decisive<B, F: Fn(B, B) -> bool>(overlaps: &F) -> bool {
    forall|a: B, b: B| #[trigger]
        overlaps.ensures((a, b), true) ==> surely_overlap(overlaps, a, b) && surely_overlap(
            overlaps,
            b,
            a,
        )
}

/// Whether `overlaps` gives one answer on each pair of boxes: no pair can
/// get both a yes and a no.
pub open spec fn deterministic<B, F: Fn(B, B) -> bool>(overlaps: &F) -> bool {
    forall|a: B, b: B| !(#[trigger] overlaps.ensures((a, b), true) && overlaps.ensures((a, b), false))
}

/// `5^n`.
pub open spec fn pow5(n: nat) -> nat
    decreases n,
{
    if n == 0 {
        1
    } else {
        5 * pow5((n - 1) as nat)
    }
}

proof fn lemma_pow5_positive(n: nat)
    ensures
        pow5(n) >= 1,
    decreases n,
{
    if n > 0 {
        lemma_pow5_positive((n - 1) as nat);
    }
}

proof fn lemma_pow5_monotone(a: nat, b: nat)
    requires
        a <= b,
    ensures
        pow5(a) <= pow5(b),
    decreases b,
{
    if a < b {
        lemma_pow5_monotone(a, (b - 1) as nat);
        lemma_pow5_positive((b - 1) as nat);
    }
}

/// Putting two new, distinct items in front of a sequence without
/// duplicates gives one without duplicates.
proof fn lemma_push_two_no_dups(f0: Seq<u32>, l: u32, p: u32)
    requires
        f0.no_duplicates(),
        !f0.contains(l),
        !f0.contains(p),
        l != p,
    ensures
        (seq![l, p] + f0).no_duplicates(),
{
    let f1 = seq![l, p] + f0;
    assert forall|a: int, b: int| 0 <= a < f1.len() && 0 <= b < f1.len() && a != b implies f1[a] != f1[b] by {
        if a >= 2 && b >= 2 {
            assert(f1[a] == f0[a - 2] && f1[b] == f0[b - 2]);
        } else if a >= 2 {
            assert(f1[a] == f0[a - 2]);
            assert(f0.contains(f1[a]));
        } else if b >= 2 {
            assert(f1[b] == f0[b - 2]);
            assert(f0.contains(f1[b]));
        }
    }
}

/// Removing a collider undoes inserting it: a tree that did not hold `h`
/// holds exactly what it held before after `h` is inserted and removed,
/// and in between a lookup of `h` gives back the inserted box.
pub proof fn lemma_remove_undoes_insert<B>(m: Map<u32, B>, h: u32, b: B)
    requires
        !m.contains_key(h),
    ensures
        m.insert(h, b).get(h) == Some(b),
        m.insert(h, b).remove(h) == m,
        forall|k: u32| k != h ==> #[trigger] m.insert(h, b).get(k) == m.get(k),
{
    assert(m.insert(h, b).remove(h) =~= m);
}

impl<B> Default for DynamicAabbTree<B> {
    /// An empty tree.
    fn default() -> (t: Self)
        ensures
            t.wf(),
            t@ == Map::<u32, B>::empty(),
    {
        Self::new()
    }
}

} // verus!
