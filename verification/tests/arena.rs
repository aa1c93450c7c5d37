use ironphysics::arena::GenerationalArena;

#[test]
fn arena_insert_and_get() {
    let mut arena = GenerationalArena::new();
    let (slot, gen) = arena.insert(42u32);
    assert_eq!(arena.get(slot, gen), Some(&42));
    assert_eq!(arena.len(), 1);
}

#[test]
fn arena_remove_then_get_returns_none() {
    let mut arena = GenerationalArena::new();
    let (slot, gen) = arena.insert(99);
    arena.remove(slot, gen);
    assert_eq!(arena.get(slot, gen), None);
    assert_eq!(arena.len(), 0);
}

#[test]
fn arena_stale_handle_rejected() {
    let mut arena = GenerationalArena::new();
    let (slot, gen0) = arena.insert("first");
    arena.remove(slot, gen0);
    let (slot2, gen1) = arena.insert("second");
    assert_eq!(slot, slot2);
    assert_eq!(arena.get(slot, gen0), None);
    assert_eq!(arena.get(slot, gen1), Some(&"second"));
}

#[test]
fn arena_iter_skips_free_slots() {
    let mut arena = GenerationalArena::new();
    let (_s0, _g0) = arena.insert("A");
    let (s1, g1) = arena.insert("B");
    let (_s2, _g2) = arena.insert("C");
    arena.remove(s1, g1);
    let items: Vec<_> = arena.iter();
    assert_eq!(items.len(), 2);
    assert!(items.contains(&&"A"));
    assert!(items.contains(&&"C"));
}

#[test]
fn arena_fresh_slots_count_up_from_zero_generation() {
    let mut arena = GenerationalArena::with_capacity(4);
    assert!(arena.is_empty());
    assert_eq!(arena.insert('a'), (0, 0));
    assert_eq!(arena.insert('b'), (1, 0));
    assert_eq!(arena.insert('c'), (2, 0));
    assert_eq!(arena.len(), 3);
    assert!(!arena.is_empty());
}

#[test]
fn arena_reuse_advances_generation_twice() {
    // removal advances the generation once, reuse once more
    let mut arena = GenerationalArena::new();
    let (s, g) = arena.insert(1u8);
    assert_eq!(arena.remove(s, g), Some(1));
    assert_eq!(arena.insert(2u8), (s, g + 2));
}

#[test]
fn arena_reuses_most_recently_freed_slot_first() {
    let mut arena = GenerationalArena::new();
    let a = arena.insert(10);
    let b = arena.insert(20);
    let _c = arena.insert(30);
    arena.remove(a.0, a.1);
    arena.remove(b.0, b.1);
    let d = arena.insert(40);
    assert_eq!(d.0, b.0);
    let e = arena.insert(50);
    assert_eq!(e.0, a.0);
    let f = arena.insert(60);
    assert_eq!(f, (3, 0));
}

#[test]
fn arena_remove_with_wrong_generation_or_slot_is_refused() {
    let mut arena = GenerationalArena::new();
    let (s, g) = arena.insert(7);
    assert_eq!(arena.remove(s, g + 1), None);
    assert_eq!(arena.remove(s + 5, g), None);
    assert_eq!(arena.len(), 1);
    assert_eq!(arena.remove(s, g), Some(7));
    assert_eq!(arena.remove(s, g), None);
    assert_eq!(arena.len(), 0);
}

#[test]
fn arena_get_mut_changes_only_that_value() {
    let mut arena = GenerationalArena::new();
    let a = arena.insert(1);
    let b = arena.insert(2);
    if let Some(v) = arena.get_mut(a.0, a.1) {
        *v = 100;
    }
    assert_eq!(arena.get(a.0, a.1), Some(&100));
    assert_eq!(arena.get(b.0, b.1), Some(&2));
    assert!(arena.get_mut(a.0, a.1 + 1).is_none());
}

#[test]
fn arena_iter_is_in_slot_order() {
    let mut arena = GenerationalArena::new();
    let a = arena.insert("x");
    arena.insert("y");
    arena.remove(a.0, a.1);
    arena.insert("z");
    let items: Vec<&&str> = arena.iter();
    assert_eq!(items, vec![&"z", &"y"]);
}

#[test]
fn arena_iter_mut_writes_occupied_values_only() {
    let mut arena = GenerationalArena::new();
    let (s0, g0) = arena.insert(1u32);
    let (s1, g1) = arena.insert(2u32);
    let (s2, g2) = arena.insert(3u32);
    arena.remove(s1, g1);
    for v in arena.iter_mut() {
        *v *= 10;
    }
    assert_eq!(arena.get(s0, g0), Some(&10));
    assert_eq!(arena.get(s2, g2), Some(&30));
    assert_eq!(arena.get(s1, g1), None);
    assert_eq!(arena.len(), 2);
    let (s3, g3) = arena.insert(4u32);
    assert_eq!(s3, s1);
    assert_eq!(arena.get(s3, g3), Some(&4));
}

#[test]
fn arena_can_insert_when_fresh() {
    let mut arena: GenerationalArena<u8> = GenerationalArena::new();
    assert!(arena.can_insert());
    let (s, g) = arena.insert(1);
    arena.remove(s, g);
    assert!(arena.can_insert());
}

#[test]
fn arena_insert_in_step_appends_new_slots_and_reuses_freed_ones() {
    let mut arena: GenerationalArena<char> = GenerationalArena::new();
    let mut storage: Vec<char> = Vec::new();
    for c in ['a', 'b', 'c'] {
        let ((slot, _), append) = arena.insert_in_step(c, storage.len());
        assert!(append);
        assert_eq!(slot as usize, storage.len());
        storage.push(c);
    }
    assert_eq!(arena.remove(1, 0), Some('b'));
    let ((slot, gen), append) = arena.insert_in_step('d', storage.len());
    assert!(!append);
    assert_eq!((slot, gen), (1, 2));
    storage[slot as usize] = 'd';
    assert_eq!(arena.slot_count(), storage.len());
    assert_eq!(storage, vec!['a', 'd', 'c']);
    assert_eq!(arena.get(1, gen), Some(&'d'));
}

#[test]
fn arena_len_counts_live_handles() {
    let mut arena: GenerationalArena<u32> = GenerationalArena::new();
    let mut handles = Vec::new();
    for v in 0..6u32 {
        let h = arena.insert(v);
        assert!(!handles.contains(&h));
        handles.push(h);
    }
    arena.remove(handles[2].0, handles[2].1);
    arena.remove(handles[4].0, handles[4].1);
    let h = arena.insert(99);
    assert_eq!(arena.get(h.0, h.1), Some(&99));
    handles.push(h);
    let live = handles.iter().filter(|(s, g)| arena.get(*s, *g).is_some()).count();
    assert_eq!(live, arena.len());
    assert_eq!(arena.iter().len(), arena.len());
}
