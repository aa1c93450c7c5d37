use ironphysics::bvh::{DynamicAabbTree, NULL_NODE};
use ironphysics::handle::ColliderHandle;

#[derive(Debug, Clone, Copy, PartialEq)]
struct Bx {
    min: (f32, f32),
    max: (f32, f32),
}

fn bx(x0: f32, y0: f32, x1: f32, y1: f32) -> Bx {
    Bx { min: (x0, y0), max: (x1, y1) }
}

fn merge(a: Bx, b: Bx) -> Bx {
    Bx { min: (a.min.0.min(b.min.0), a.min.1.min(b.min.1)), max: (a.max.0.max(b.max.0), a.max.1.max(b.max.1)) }
}

fn overlaps(a: Bx, b: Bx) -> bool {
    a.min.0 <= b.max.0 && b.min.0 <= a.max.0 && a.min.1 <= b.max.1 && b.min.1 <= a.max.1
}

fn contains(a: Bx, b: Bx) -> bool {
    a.min.0 <= b.min.0 && b.max.0 <= a.max.0 && a.min.1 <= b.min.1 && b.max.1 <= a.max.1
}

fn fatten(a: Bx) -> Bx {
    Bx { min: (a.min.0 - 0.1, a.min.1 - 0.1), max: (a.max.0 + 0.1, a.max.1 + 0.1) }
}

fn area(a: Bx) -> f32 {
    (a.max.0 - a.min.0) * (a.max.1 - a.min.1)
}

fn best_sibling(tree: &DynamicAabbTree<Bx>, leaf: Bx) -> u32 {
    let root = tree.root();
    if root == NULL_NODE {
        return NULL_NODE;
    }
    let mut best_cost = area(merge(leaf, tree.node_box(root)));
    let mut best = root;
    let mut stack = vec![(root, 0.0f32)];
    while let Some((node, inherited)) = stack.pop() {
        let b = tree.node_box(node);
        let direct = area(merge(leaf, b));
        let total = direct + inherited;
        if total < best_cost {
            best_cost = total;
            best = node;
        }
        if let Some((l, r)) = tree.node_children(node) {
            let child_inherited = inherited + direct - area(b);
            if area(leaf) + child_inherited < best_cost {
                stack.push((l, child_inherited));
                stack.push((r, child_inherited));
            }
        }
    }
    best
}

fn insert_box(tree: &mut DynamicAabbTree<Bx>, h: ColliderHandle, b: Bx) {
    let fat = fatten(b);
    let sibling = best_sibling(tree, fat);
    tree.insert(h, fat, sibling, &merge);
}

fn pairs_of(tree: &DynamicAabbTree<Bx>) -> Vec<(ColliderHandle, ColliderHandle)> {
    let mut pairs = Vec::new();
    tree.collect_pairs(&mut pairs, &overlaps);
    pairs
}

#[test]
fn bvh_insert_and_query() {
    let mut tree = DynamicAabbTree::new();
    let handle_0 = ColliderHandle(0);
    let handle_1 = ColliderHandle(1);
    let handle_2 = ColliderHandle(2);
    insert_box(&mut tree, handle_0, bx(0.0, 0.0, 1.0, 1.0));
    insert_box(&mut tree, handle_1, bx(0.5, 0.5, 1.5, 1.5));
    insert_box(&mut tree, handle_2, bx(5.0, 5.0, 6.0, 6.0));
    let pairs = pairs_of(&tree);
    assert!(pairs.contains(&(handle_0, handle_1)) || pairs.contains(&(handle_1, handle_0)));
    assert!(!pairs.contains(&(handle_0, handle_2)) && !pairs.contains(&(handle_2, handle_0)));
    assert!(!pairs.contains(&(handle_1, handle_2)) && !pairs.contains(&(handle_2, handle_1)));
}

#[test]
fn bvh_remove_stops_pairing() {
    let mut tree = DynamicAabbTree::new();
    let handle_0 = ColliderHandle(0);
    let handle_1 = ColliderHandle(1);
    insert_box(&mut tree, handle_0, bx(0.0, 0.0, 1.0, 1.0));
    insert_box(&mut tree, handle_1, bx(0.5, 0.5, 1.5, 1.5));
    let mut pairs = Vec::new();
    tree.collect_pairs(&mut pairs, &overlaps);
    assert!(!pairs.is_empty());
    tree.remove(handle_0, &merge);
    pairs.clear();
    tree.collect_pairs(&mut pairs, &overlaps);
    assert!(pairs.is_empty());
}

#[test]
fn bvh_update_inside_fat_aabb_no_reinsert() {
    let mut tree = DynamicAabbTree::new();
    let handle_0 = ColliderHandle(0);
    insert_box(&mut tree, handle_0, bx(0.0, 0.0, 1.0, 1.0));
    let initial_node_count = tree.node_count();
    let moved = tree.update(handle_0, bx(0.01, 0.0, 1.01, 1.0), &contains, &fatten, &best_sibling, &merge);
    let final_node_count = tree.node_count();
    assert!(!moved);
    assert_eq!(initial_node_count, final_node_count);
}

#[test]
fn bvh_query_aabb() {
    let mut tree = DynamicAabbTree::new();
    let handle_0 = ColliderHandle(0);
    let handle_1 = ColliderHandle(1);
    let handle_2 = ColliderHandle(2);
    insert_box(&mut tree, handle_0, bx(0.0, 0.0, 1.0, 1.0));
    insert_box(&mut tree, handle_1, bx(0.5, 0.5, 1.5, 1.5));
    insert_box(&mut tree, handle_2, bx(5.0, 5.0, 6.0, 6.0));
    let mut results = Vec::new();
    tree.query_aabb(bx(1.2, 1.2, 1.3, 1.3), &mut results, &overlaps);
    assert_eq!(results.len(), 1);
    assert_eq!(results[0], handle_1);
}

#[test]
fn bvh_update_far_move_reinserts_and_repairs() {
    let mut tree = DynamicAabbTree::new();
    let a = ColliderHandle(3);
    let b = ColliderHandle(7);
    insert_box(&mut tree, a, bx(0.0, 0.0, 1.0, 1.0));
    insert_box(&mut tree, b, bx(10.0, 10.0, 11.0, 11.0));
    assert!(pairs_of(&tree).is_empty());
    let moved = tree.update(a, bx(10.5, 10.5, 11.5, 11.5), &contains, &fatten, &best_sibling, &merge);
    assert!(moved);
    assert_eq!(pairs_of(&tree), vec![(a, b)]);
    let stored = tree.leaf_box(a).unwrap();
    assert!(contains(stored, bx(10.5, 10.5, 11.5, 11.5)));
    assert_eq!(tree.leaf_box(ColliderHandle(99)), None);
}

#[test]
fn bvh_pairs_are_canonical_and_unique() {
    let mut tree = DynamicAabbTree::new();
    for i in (0..6u32).rev() {
        insert_box(&mut tree, ColliderHandle(i), bx(i as f32 * 0.5, 0.0, i as f32 * 0.5 + 1.0, 1.0));
    }
    let pairs = pairs_of(&tree);
    for (x, y) in &pairs {
        assert!(x.0 < y.0);
    }
    let mut sorted = pairs.clone();
    sorted.sort();
    sorted.dedup();
    assert_eq!(sorted.len(), pairs.len());
    // neighbours up to two apart overlap (their fattened boxes reach)
    assert!(sorted.contains(&(ColliderHandle(0), ColliderHandle(1))));
    assert!(sorted.contains(&(ColliderHandle(0), ColliderHandle(2))));
    assert!(!sorted.contains(&(ColliderHandle(0), ColliderHandle(5))));
}

#[test]
fn bvh_remove_everything_empties_tree_and_reuses_nodes() {
    let mut tree = DynamicAabbTree::new();
    for i in 0..4u32 {
        insert_box(&mut tree, ColliderHandle(i), bx(i as f32, 0.0, i as f32 + 1.0, 1.0));
    }
    let count = tree.node_count();
    assert_eq!(count, 7);
    for i in 0..4u32 {
        tree.remove(ColliderHandle(i), &merge);
    }
    assert!(tree.is_empty());
    assert_eq!(tree.root(), NULL_NODE);
    for i in 0..4u32 {
        insert_box(&mut tree, ColliderHandle(i + 10), bx(i as f32, 0.0, i as f32 + 1.0, 1.0));
    }
    assert_eq!(tree.node_count(), count);
    assert!(!tree.is_empty());
}

#[test]
fn bvh_remove_undoes_insert() {
    let mut tree = DynamicAabbTree::new();
    let a = ColliderHandle(1);
    let b = ColliderHandle(2);
    insert_box(&mut tree, a, bx(0.0, 0.0, 1.0, 1.0));
    let before_a = tree.leaf_box(a);
    insert_box(&mut tree, b, bx(3.0, 0.0, 4.0, 1.0));
    assert_eq!(tree.leaf_box(b), Some(fatten(bx(3.0, 0.0, 4.0, 1.0))));
    tree.remove(b, &merge);
    assert_eq!(tree.leaf_box(b), None);
    assert_eq!(tree.leaf_box(a), before_a);
    assert_eq!(before_a, Some(fatten(bx(0.0, 0.0, 1.0, 1.0))));
}

#[test]
fn bvh_collects_every_overlapping_pair() {
    // A grid of boxes, some removed and moved: the pairs found are exactly
    // those a pairwise check of the stored boxes finds.
    let mut tree = DynamicAabbTree::new();
    let mut boxes: Vec<(ColliderHandle, Bx)> = Vec::new();
    for i in 0..24u32 {
        let x = (i % 6) as f32 * 0.9;
        let y = (i / 6) as f32 * 1.3;
        let w = 0.5 + (i % 3) as f32 * 0.3;
        let h = ColliderHandle(i * 7 % 24);
        let b = bx(x, y, x + w, y + w);
        insert_box(&mut tree, h, b);
        boxes.push((h, fatten(b)));
    }
    for i in [3u32, 10, 17] {
        tree.remove(ColliderHandle(i), &merge);
        boxes.retain(|(h, _)| h.0 != i);
    }
    let moved = ColliderHandle(5);
    let target = bx(2.0, 2.0, 3.0, 3.0);
    let reinserted = tree.update(moved, target, &contains, &fatten, &best_sibling, &merge);
    assert!(reinserted);
    for entry in boxes.iter_mut() {
        if entry.0 == moved {
            entry.1 = fatten(target);
        }
    }
    let mut expected = Vec::new();
    for (i, (ha, ba)) in boxes.iter().enumerate() {
        for (hb, bb) in boxes.iter().skip(i + 1) {
            if overlaps(*ba, *bb) {
                let p = if ha.0 < hb.0 { (*ha, *hb) } else { (*hb, *ha) };
                expected.push(p);
            }
        }
    }
    let mut found = pairs_of(&tree);
    expected.sort_by_key(|p| (p.0 .0, p.1 .0));
    found.sort_by_key(|p| (p.0 .0, p.1 .0));
    assert!(!expected.is_empty());
    assert_eq!(found, expected);
}

#[test]
fn bvh_query_finds_every_overlapping_box() {
    let mut tree = DynamicAabbTree::new();
    let mut boxes = Vec::new();
    for i in 0..15u32 {
        let x = (i % 5) as f32 * 1.1;
        let y = (i / 5) as f32 * 1.1;
        let b = bx(x, y, x + 0.8, y + 0.8);
        insert_box(&mut tree, ColliderHandle(i), b);
        boxes.push((ColliderHandle(i), fatten(b)));
    }
    let query = bx(1.0, 1.0, 2.5, 2.5);
    let mut results = Vec::new();
    tree.query_aabb(query, &mut results, &overlaps);
    let mut expected: Vec<u32> = boxes.iter().filter(|(_, b)| overlaps(*b, query)).map(|(h, _)| h.0).collect();
    let mut got: Vec<u32> = results.iter().map(|h| h.0).collect();
    expected.sort();
    got.sort();
    assert!(expected.len() >= 2);
    assert_eq!(got, expected);
}

#[test]
fn bvh_update_stores_one_slop() {
    let mut tree = DynamicAabbTree::new();
    let h0 = ColliderHandle(0);
    insert_box(&mut tree, h0, bx(0.0, 0.0, 1.0, 1.0));
    let moved = tree.update(h0, bx(5.0, 5.0, 6.0, 6.0), &contains, &fatten, &best_sibling, &merge);
    assert!(moved);
    assert_eq!(tree.leaf_box(h0), Some(fatten(bx(5.0, 5.0, 6.0, 6.0))));
    let mut r = Vec::new();
    tree.query_aabb(bx(6.15, 6.15, 6.16, 6.16), &mut r, &overlaps);
    assert!(r.is_empty());
    tree.query_aabb(bx(6.05, 6.05, 6.06, 6.06), &mut r, &overlaps);
    assert_eq!(r, vec![h0]);
}

fn query_reference(tree: &DynamicAabbTree<Bx>, node: u32, q: Bx, out: &mut Vec<ColliderHandle>, handles: &[(ColliderHandle, Bx)]) {
    let b = tree.node_box(node);
    if !overlaps(b, q) {
        return;
    }
    match tree.node_children(node) {
        None => {
            let h = handles.iter().find(|(h, _)| tree.leaf_box(*h) == Some(b)).unwrap().0;
            out.push(h);
        }
        Some((l, r)) => {
            query_reference(tree, r, q, out, handles);
            query_reference(tree, l, q, out, handles);
        }
    }
}

#[test]
fn bvh_query_reports_right_subtree_first() {
    let mut tree = DynamicAabbTree::new();
    let mut handles = Vec::new();
    for i in 0..9u32 {
        let x = i as f32 * 0.7;
        let b = bx(x, 0.0, x + 1.0, 1.0);
        insert_box(&mut tree, ColliderHandle(i), b);
        handles.push((ColliderHandle(i), fatten(b)));
    }
    let q = bx(1.0, 0.2, 4.5, 0.8);
    let mut expected = Vec::new();
    query_reference(&tree, tree.root(), q, &mut expected, &handles);
    let mut got = Vec::new();
    tree.query_aabb(q, &mut got, &overlaps);
    assert!(expected.len() >= 3);
    assert_eq!(got, expected);
}
