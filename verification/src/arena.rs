//! A generational arena: values live in slots, and a `(slot, generation)`
//! pair names a value only while that slot still holds it.
use vstd::prelude::*;

verus! {

/// The abstract state of one slot: its generation counter and, when the slot
/// is occupied, its value.
#[verifier::ext_equal]
pub struct SlotModel<T> {
    pub generation: u32,
    pub value: Option<T>,
}

/// The abstract state of an arena: the slots in index order and the stack of
/// free slot indices (the last one is reused first).
#[verifier::ext_equal]
pub struct ArenaModel<T> {
    pub slots: Seq<SlotModel<T>>,
    pub free: Seq<u32>,
}

/// The generation that follows `g`, wrapping from `u32::MAX` to 0.
pub open spec fn next_generation(g: u32) -> u32 {
    if g == u32::MAX {
        0
    } else {
        (g + 1) as u32
    }
}

/// The value that `(slot, generation)` names in `m`, if any: the slot must
/// exist, be occupied, and carry exactly that generation.
pub open spec fn lookup<T>(m: ArenaModel<T>, slot: u32, generation: u32) -> Option<T> {
    if slot < m.slots.len() && m.slots[slot as int].value is Some && m.slots[slot as int].generation
        == generation {
        m.slots[slot as int].value
    } else {
        None
    }
}

/// The number of occupied slots.
pub open spec fn occupied_count<T>(slots: Seq<SlotModel<T>>) -> nat
    decreases slots.len(),
{
    if slots.len() == 0 {
        0
    } else {
        occupied_count(slots.drop_last()) + (if slots.last().value is Some {
            1nat
        } else {
            0nat
        })
    }
}

/// The values of the occupied slots, in slot order.
pub open spec fn occupied_values<T>(slots: Seq<SlotModel<T>>) -> Seq<T>
    decreases slots.len(),
{
    if slots.len() == 0 {
        Seq::empty()
    } else {
        let rest = occupied_values(slots.drop_last());
        match slots.last().value {
            Some(v) => rest.push(v),
            None => rest,
        }
    }
}

/// A consistent arena state: every slot has a `u32` index, and every entry
/// of the free stack names a distinct, existing, unoccupied slot.
pub open spec fn model_wf<T>(m: ArenaModel<T>) -> bool {
    &&& m.slots.len() <= u32::MAX
    &&& m.free.no_duplicates()
    &&& forall|i: int|
        0 <= i < m.free.len() ==> #[trigger] m.free[i] < m.slots.len() && m.slots[m.free[i] as int].value is None
}

/// Whether an insert into `m` has a slot index to hand out.
pub open spec fn model_has_room<T>(m: ArenaModel<T>) -> bool {
    m.free.len() > 0 || m.slots.len() < u32::MAX
}

/// The arena after inserting `value` into `m`, with the handle that names it:
/// the most recently freed slot is reused with its generation advanced,
/// otherwise a new slot is appended with generation 0.
pub open spec fn model_insert<T>(m: ArenaModel<T>, value: T) -> (ArenaModel<T>, (u32, u32)) {
    if m.free.len() > 0 {
        let slot = m.free.last();
        let generation = next_generation(m.slots[slot as int].generation);
        (
            ArenaModel {
                slots: m.slots.update(slot as int, SlotModel { generation, value: Some(value) }),
                free: m.free.drop_last(),
            },
            (slot, generation),
        )
    } else {
        (
            ArenaModel {
                slots: m.slots.push(SlotModel { generation: 0, value: Some(value) }),
                free: m.free,
            },
            (m.slots.len() as u32, 0),
        )
    }
}

/// The arena after removing what `(slot, generation)` names, with the removed
/// value: the slot becomes free, its generation advances, and it goes on top
/// of the free stack. A handle that names nothing leaves `m` unchanged.
pub open spec fn model_remove<T>(m: ArenaModel<T>, slot: u32, generation: u32) -> (
    ArenaModel<T>,
    Option<T>,
) {
    match lookup(m, slot, generation) {
        Some(v) => (
            ArenaModel {
                slots: m.slots.update(
                    slot as int,
                    SlotModel { generation: next_generation(generation), value: None },
                ),
                free: m.free.push(slot),
            },
            Some(v),
        ),
        None => (m, None),
    }
}

enum ArenaEntry<T> {
    Occupied { generation: u32, value: T },
    Free { generation: u32 },
}

spec fn entry_model<T>(e: ArenaEntry<T>) -> SlotModel<T> {
    match e {
        ArenaEntry::Occupied { generation, value } => SlotModel { generation, value: Some(value) },
        ArenaEntry::Free { generation } => SlotModel { generation, value: None },
    }
}

/// A slot-and-generation arena of `T` values.
pub struct GenerationalArena<T> {
    entries: Vec<ArenaEntry<T>>,
    free_list: Vec<u32>,
    len: usize,
}

impl<T> View for GenerationalArena<T> {
    type V = ArenaModel<T>;

    closed spec fn view(&self) -> ArenaModel<T> {
        ArenaModel {
            slots: self.entries@.map_values(|e: ArenaEntry<T>| entry_model(e)),
            free: self.free_list@,
        }
    }
}

proof fn lemma_occupied_count_bound<T>(slots: Seq<SlotModel<T>>)
    ensures
        occupied_count(slots) <= slots.len(),
    decreases slots.len(),
{
    if slots.len() > 0 {
        lemma_occupied_count_bound(slots.drop_last());
    }
}

proof fn lemma_occupied_count_push<T>(slots: Seq<SlotModel<T>>, s: SlotModel<T>)
    ensures
        occupied_count(slots.push(s)) == occupied_count(slots) + (if s.value is Some {
            1nat
        } else {
            0nat
        }),
{
    assert(slots.push(s).drop_last() =~= slots);
}

proof fn lemma_occupied_count_update<T>(slots: Seq<SlotModel<T>>, i: int, s: SlotModel<T>)
    requires
        0 <= i < slots.len(),
    ensures
        occupied_count(slots.update(i, s)) + (if slots[i].value is Some {
            1nat
        } else {
            0nat
        }) == occupied_count(slots) + (if s.value is Some {
            1nat
        } else {
            0nat
        }),
    decreases slots.len(),
{
    if i == slots.len() - 1 {
        assert(slots.update(i, s).drop_last() =~= slots.drop_last());
    } else {
        lemma_occupied_count_update(slots.drop_last(), i, s);
        assert(slots.update(i, s).drop_last() =~= slots.drop_last().update(i, s));
    }
}

proof fn lemma_occupied_count_positive<T>(slots: Seq<SlotModel<T>>, i: int)
    requires
        0 <= i < slots.len(),
        slots[i].value is Some,
    ensures
        occupied_count(slots) >= 1,
    decreases slots.len(),
{
    if i < slots.len() - 1 {
        lemma_occupied_count_positive(slots.drop_last(), i);
    }
}

impl<T> GenerationalArena<T> {
    /// The internal invariant: the model is consistent and `len` counts the
    /// occupied slots.
    pub closed spec fn wf(&self) -> bool {
        &&& model_wf(self@)
        &&& self.len == occupied_count(self@.slots)
    }

    /// A well-formed arena has a consistent model, so the laws on models
    /// apply to it.
    pub proof fn lemma_wf_model(&self)
        requires
            self.wf(),
        ensures
            model_wf(self@),
    {
    }

    /// Whether an insert has a slot index to hand out.
    pub open spec fn has_room(&self) -> bool {
        model_has_room(self@)
    }

    /// An empty arena.
    pub fn new() -> (a: Self)
        ensures
            a.wf(),
            model_wf(a@),
            a@.slots.len() == 0,
            a@.free.len() == 0,
    {
        let a = GenerationalArena { entries: Vec::new(), free_list: Vec::new(), len: 0 };
        assert(a@.slots =~= Seq::<SlotModel<T>>::empty());
        a
    }

    /// An empty arena with room reserved for `cap` slots.
    pub fn with_capacity(cap: usize) -> (a: Self)
        ensures
            a.wf(),
            model_wf(a@),
            a@.slots.len() == 0,
            a@.free.len() == 0,
    {
        let a = GenerationalArena {
            entries: Vec::with_capacity(cap),
            free_list: Vec::with_capacity(cap),
            len: 0,
        };
        assert(a@.slots =~= Seq::<SlotModel<T>>::empty());
        a
    }

    /// Stores `value` and returns the `(slot, generation)` that names it.
    pub fn insert(&mut self, value: T) -> (h: (u32, u32))
        requires
            old(self).wf(),
            old(self).has_room(),
        ensures
            final(self).wf(),
            model_wf(final(self)@),
            (final(self)@, h) == model_insert(old(self)@, value),
            lookup(old(self)@, h.0, h.1) is None,
            lookup(final(self)@, h.0, h.1) == Some(value),
    {
        proof {
            lemma_occupied_count_bound(self@.slots);
            lemma_insert_then_get(self@, value);
        }
        let ghost old_model = self@;
        if let Some(slot_index) = self.free_list.pop() {
            let idx = slot_index as usize;
            proof {
                assert(old_model.free.last() == slot_index);
                assert(old_model.free[old_model.free.len() - 1] == slot_index);
                lemma_occupied_count_positive_free(old_model.slots, idx as int);
            }
            let next_gen = match &self.entries[idx] {
                ArenaEntry::Free { generation } => generation.wrapping_add(1),
                ArenaEntry::Occupied { generation, .. } => generation.wrapping_add(1),
            };
            self.len = self.len + 1;
            self.entries.set(idx, ArenaEntry::Occupied { generation: next_gen, value });
            proof {
                let new_slot = SlotModel { generation: next_gen, value: Some(value) };
                lemma_occupied_count_update(old_model.slots, idx as int, new_slot);
                assert(self@.slots =~= old_model.slots.update(idx as int, new_slot));
                assert(self@.free =~= old_model.free.drop_last());
                assert forall|i: int| 0 <= i < self@.free.len() implies #[trigger] self@.free[i]
                    < self@.slots.len() && self@.slots[self@.free[i] as int].value is None by {
                    assert(self@.free[i] == old_model.free[i]);
                    assert(old_model.free[i] != old_model.free[old_model.free.len() - 1]);
                }
            }
            (slot_index, next_gen)
        } else {
            let slot_index = self.entries.len() as u32;
            let generation: u32 = 0;
            self.len = self.len + 1;
            self.entries.push(ArenaEntry::Occupied { generation, value });
            proof {
                let new_slot = SlotModel { generation: 0, value: Some(value) };
                lemma_occupied_count_push(old_model.slots, new_slot);
                assert(self@.slots =~= old_model.slots.push(new_slot));
            }
            (slot_index, generation)
        }
    }

    /// Stores `value` as `insert` does, in an arena that a parallel storage
    /// of `storage_len` entries follows slot by slot. Returns the handle and
    /// whether the storage must append an entry for it (a new slot) rather
    /// than overwrite the entry at the handle's slot (a reused one); either
    /// way the storage then again has one entry per slot.
    pub fn insert_in_step(&mut self, value: T, storage_len: usize) -> (r: ((u32, u32), bool))
        requires
            old(self).wf(),
            old(self).has_room(),
            storage_len == old(self)@.slots.len(),
        ensures
            final(self).wf(),
            model_wf(final(self)@),
            (final(self)@, r.0) == model_insert(old(self)@, value),
            lookup(old(self)@, r.0.0, r.0.1) is None,
            lookup(final(self)@, r.0.0, r.0.1) == Some(value),
            r.1 <==> r.0.0 == storage_len,
            r.1 ==> final(self)@.slots.len() == storage_len + 1,
            !r.1 ==> r.0.0 < storage_len && final(self)@.slots.len() == storage_len,
    {
        let h = self.insert(value);
        let append = h.0 as usize == storage_len;
        (h, append)
    }

    /// The number of slots, occupied or free.
    pub fn slot_count(&self) -> (n: usize)
        ensures
            n == self@.slots.len(),
    {
        self.entries.len()
    }

    /// Removes and returns the value that `(slot, generation)` names; a stale
    /// or unknown handle removes nothing and gives `None`.
    pub fn remove(&mut self, slot: u32, generation: u32) -> (r: Option<T>)
        requires
            old(self).wf(),
        ensures
            final(self).wf(),
            model_wf(final(self)@),
            (final(self)@, r) == model_remove(old(self)@, slot, generation),
    {
        if slot as usize >= self.entries.len() {
            return None;
        }
        match &self.entries[slot as usize] {
            ArenaEntry::Free { .. } => return None,
            ArenaEntry::Occupied { generation: g, .. } => {
                if *g != generation {
                    return None;
                }
            },
        }
        let ghost old_model = self@;
        let mut old_entry = ArenaEntry::Free { generation: 0 };
        self.entries.set_and_swap(slot as usize, &mut old_entry);
        if let ArenaEntry::Occupied { generation: g, value } = old_entry {
            let next_generation = g.wrapping_add(1);
            self.entries.set(slot as usize, ArenaEntry::Free { generation: next_generation });
            self.free_list.push(slot);
            proof {
                let freed = SlotModel { generation: next_generation, value: None };
                lemma_occupied_count_update(old_model.slots, slot as int, freed);
                assert(self@.slots =~= old_model.slots.update(slot as int, freed));
                assert(self@.free =~= old_model.free.push(slot));
                assert forall|i: int| 0 <= i < old_model.free.len() implies old_model.free[i]
                    != slot by {
                    assert(old_model.slots[old_model.free[i] as int].value is None);
                }
                assert forall|i: int| 0 <= i < self@.free.len() implies #[trigger] self@.free[i]
                    < self@.slots.len() && self@.slots[self@.free[i] as int].value is None by {
                    if i < old_model.free.len() {
                        assert(self@.free[i] == old_model.free[i]);
                    }
                }
            }
            self.len = self.len - 1;
            Some(value)
        } else {
            None
        }
    }

    /// The value that `(slot, generation)` names, if any.
    pub fn get(&self, slot: u32, generation: u32) -> (r: Option<&T>)
        requires
            self.wf(),
        ensures
            match r {
                Some(v) => lookup(self@, slot, generation) == Some(*v),
                None => lookup(self@, slot, generation) is None,
            },
    {
        if slot as usize >= self.entries.len() {
            return None;
        }
        match &self.entries[slot as usize] {
            ArenaEntry::Occupied { generation: g, value } => {
                if *g == generation {
                    Some(value)
                } else {
                    None
                }
            },
            _ => None,
        }
    }

    /// Mutable access to the value that `(slot, generation)` names, if any.
    /// Writing through the reference changes that value and nothing else.
    pub fn get_mut(&mut self, slot: u32, generation: u32) -> (r: Option<&mut T>)
        requires
            old(self).wf(),
        ensures
            final(self).wf(),
            model_wf(final(self)@),
            match r {
                Some(v) => {
                    &&& lookup(old(self)@, slot, generation) == Some(*v)
                    &&& final(self)@ == ArenaModel {
                        slots: old(self)@.slots.update(
                            slot as int,
                            SlotModel { generation, value: Some(*final(v)) },
                        ),
                        free: old(self)@.free,
                    }
                },
                None => {
                    &&& lookup(old(self)@, slot, generation) is None
                    &&& final(self)@ == old(self)@
                },
            },
    {
        if slot as usize >= self.entries.len() {
            return None;
        }
        match &self.entries[slot as usize] {
            ArenaEntry::Occupied { generation: g, .. } => {
                if *g != generation {
                    return None;
                }
            },
            ArenaEntry::Free { .. } => {
                return None;
            },
        }
        let ghost old_model = self@;
        proof {
            lemma_replace_value(self.entries@, slot as int, generation);
        }
        let entry = &mut self.entries[slot as usize];
        let v = occupied_value_mut(entry);
        Some(v)
    }

    /// Mutable references to the values of the occupied slots, in slot
    /// order. Writing through them changes those values and nothing else.
    pub fn iter_mut(&mut self) -> (r: Vec<&mut T>)
        requires
            old(self).wf(),
        ensures
            final(self).wf(),
            model_wf(final(self)@),
            final(self)@.free == old(self)@.free,
            occupied_count(final(self)@.slots) == occupied_count(old(self)@.slots),
            same_shape(old(self)@.slots, final(self)@.slots),
            r@.len() == occupied_values(old(self)@.slots).len(),
            forall|i: int| 0 <= i < r@.len() ==> *#[trigger] r@[i] == occupied_values(old(self)@.slots)[i],
            forall|i: int|
                0 <= i < r@.len() ==> final(self)@.slots[occupied_positions(old(self)@.slots)[i]].value
                    == Some(*final(#[trigger] r@[i])),
    {
        proof {
            lemma_occupied_positions(self@.slots);
            lemma_entries_kept::<T>(self@.free);
        }
        let slice = self.entries.as_mut_slice();
        occupied_refs(slice)
    }

    /// Whether an insert has a slot index to hand out: a freed slot to
    /// reuse, or room for one more slot below `u32::MAX`.
    pub fn can_insert(&self) -> (b: bool)
        ensures
            b == self.has_room(),
    {
        self.free_list.len() > 0 || self.entries.len() < u32::MAX as usize
    }

    /// The number of occupied slots, which is the number of handles that
    /// name a value.
    pub fn len(&self) -> (n: usize)
        requires
            self.wf(),
        ensures
            n == occupied_count(self@.slots),
            live_handles(self@).finite(),
            n == live_handles(self@).len(),
    {
        proof {
            lemma_len_counts_live_handles(self@);
        }
        self.len
    }

    /// Whether no slot is occupied.
    pub fn is_empty(&self) -> (b: bool)
        requires
            self.wf(),
        ensures
            b == (occupied_count(self@.slots) == 0),
    {
        self.len == 0
    }

    /// The values of the occupied slots, in slot order.
    pub fn iter(&self) -> (r: Vec<&T>)
        requires
            self.wf(),
        ensures
            r@.len() == occupied_values(self@.slots).len(),
            forall|i: int| 0 <= i < r@.len() ==> *r@[i] == occupied_values(self@.slots)[i],
    {
        let mut out: Vec<&T> = Vec::new();
        let mut i: usize = 0;
        while i < self.entries.len()
            invariant
                i <= self.entries.len(),
                out@.len() == occupied_values(self@.slots.take(i as int)).len(),
                forall|k: int|
                    0 <= k < out@.len() ==> *out@[k] == occupied_values(
                        self@.slots.take(i as int),
                    )[k],
            decreases self.entries.len() - i,
        {
            let ghost before = self@.slots.take(i as int);
            proof {
                assert(self@.slots.take(i + 1).drop_last() =~= before);
                assert(self@.slots.take(i + 1).last() == self@.slots[i as int]);
            }
            match &self.entries[i] {
                ArenaEntry::Occupied { value, .. } => {
                    out.push(value);
                },
                ArenaEntry::Free { .. } => {},
            }
            i = i + 1;
        }
        proof {
            assert(self@.slots.take(self.entries.len() as int) =~= self@.slots);
        }
        out
    }
}

proof fn lemma_replace_value<T>(entries: Seq<ArenaEntry<T>>, i: int, generation: u32)
    requires
        0 <= i < entries.len(),
        entries[i] is Occupied,
        entries[i]->Occupied_generation == generation,
    ensures
        forall|x: T|
            #![trigger entries.update(i, ArenaEntry::Occupied { generation, value: x })]
            {
                let updated = entries.update(i, ArenaEntry::Occupied { generation, value: x });
                let old_slots = entries.map_values(|e: ArenaEntry<T>| entry_model(e));
                &&& updated.map_values(|e: ArenaEntry<T>| entry_model(e)) =~= old_slots.update(
                    i,
                    SlotModel { generation, value: Some(x) },
                )
                &&& occupied_count(updated.map_values(|e: ArenaEntry<T>| entry_model(e)))
                    == occupied_count(old_slots)
            },
{
    let old_slots = entries.map_values(|e: ArenaEntry<T>| entry_model(e));
    assert forall|x: T|
        #![trigger entries.update(i, ArenaEntry::Occupied { generation, value: x })]
        true implies {
        let updated = entries.update(i, ArenaEntry::Occupied { generation, value: x });
        &&& updated.map_values(|e: ArenaEntry<T>| entry_model(e)) =~= old_slots.update(
            i,
            SlotModel { generation, value: Some(x) },
        )
        &&& occupied_count(updated.map_values(|e: ArenaEntry<T>| entry_model(e)))
            == occupied_count(old_slots)
    } by {
        let updated = entries.update(i, ArenaEntry::Occupied { generation, value: x });
        assert(updated.map_values(|e: ArenaEntry<T>| entry_model(e)) =~= old_slots.update(
            i,
            SlotModel { generation, value: Some(x) },
        ));
        lemma_occupied_count_update(old_slots, i, SlotModel { generation, value: Some(x) });
    }
}

fn occupied_value_mut<T>(entry: &mut ArenaEntry<T>) -> (v: &mut T)
    requires
        *old(entry) is Occupied,
    ensures
        *old(entry) == (ArenaEntry::Occupied {
            generation: (*old(entry))->Occupied_generation,
            value: *v,
        }),
        *final(entry) == (ArenaEntry::Occupied {
            generation: (*old(entry))->Occupied_generation,
            value: *final(v),
        }),
{
    match entry {
        ArenaEntry::Occupied { value, .. } => value,
        ArenaEntry::Free { .. } => unreached(),
    }
}


/// Two slot sequences with the same generations and the same occupied slots.
pub open spec fn same_shape<T>(a: Seq<SlotModel<T>>, b: Seq<SlotModel<T>>) -> bool {
    &&& a.len() == b.len()
    &&& forall|j: int|
        0 <= j < a.len() ==> #[trigger] a[j].generation == b[j].generation && (a[j].value is Some)
            == (b[j].value is Some)
}

proof fn lemma_same_shape_counts<T>(a: Seq<SlotModel<T>>, b: Seq<SlotModel<T>>)
    requires
        same_shape(a, b),
    ensures
        occupied_count(a) == occupied_count(b),
        occupied_values(a).len() == occupied_values(b).len(),
    decreases a.len(),
{
    if a.len() > 0 {
        assert(same_shape(a.drop_last(), b.drop_last())) by {
            assert forall|j: int| 0 <= j < a.len() - 1 implies #[trigger] a.drop_last()[j].generation
                == b.drop_last()[j].generation && (a.drop_last()[j].value is Some) == (
            b.drop_last()[j].value is Some) by {
                assert(a.drop_last()[j] == a[j] && b.drop_last()[j] == b[j]);
            }
        }
        lemma_same_shape_counts(a.drop_last(), b.drop_last());
        assert(a.last() == a[a.len() - 1] && b.last() == b[b.len() - 1]);
        assert(a[a.len() - 1].generation == b[a.len() - 1].generation);
    }
}

/// `b` has the length of `a` and keeps each of its free entries unchanged.
spec fn frees_kept<T>(a: Seq<ArenaEntry<T>>, b: Seq<ArenaEntry<T>>) -> bool {
    &&& b.len() == a.len()
    &&& forall|j: int| 0 <= j < a.len() && a[j] is Free ==> #[trigger] b[j] == a[j]
}

/// `b` has the length of `a`, and each occupied entry of `a` is occupied in
/// `b` with the same generation.
spec fn occupied_kept<T>(a: Seq<ArenaEntry<T>>, b: Seq<ArenaEntry<T>>) -> bool {
    &&& b.len() == a.len()
    &&& forall|j: int|
        0 <= j < a.len() && a[j] is Occupied ==> (#[trigger] b[j]) is Occupied
            && b[j]->Occupied_generation == a[j]->Occupied_generation
}

proof fn lemma_entries_kept<T>(free: Seq<u32>)
    ensures
        forall|a: Seq<ArenaEntry<T>>, b: Seq<ArenaEntry<T>>|
            #[trigger] frees_kept(a, b) && #[trigger] occupied_kept(a, b) ==> occupied_count(
                b.map_values(|e: ArenaEntry<T>| entry_model(e)),
            ) == occupied_count(a.map_values(|e: ArenaEntry<T>| entry_model(e))) && same_shape(
                a.map_values(|e: ArenaEntry<T>| entry_model(e)),
                b.map_values(|e: ArenaEntry<T>| entry_model(e)),
            ),
{
    assert forall|a: Seq<ArenaEntry<T>>, b: Seq<ArenaEntry<T>>|
        #[trigger] frees_kept(a, b) && #[trigger] occupied_kept(a, b) implies occupied_count(
        b.map_values(|e: ArenaEntry<T>| entry_model(e)),
    ) == occupied_count(a.map_values(|e: ArenaEntry<T>| entry_model(e))) && same_shape(
        a.map_values(|e: ArenaEntry<T>| entry_model(e)),
        b.map_values(|e: ArenaEntry<T>| entry_model(e)),
    ) by {
        let sa = a.map_values(|e: ArenaEntry<T>| entry_model(e));
        let sb = b.map_values(|e: ArenaEntry<T>| entry_model(e));
        assert forall|j: int| 0 <= j < sa.len() implies #[trigger] sa[j].generation
            == sb[j].generation && (sa[j].value is Some) == (sb[j].value is Some) by {
            if a[j] is Free {
                assert(b[j] == a[j]);
            } else {
                assert(b[j] is Occupied);
            }
        }
        lemma_same_shape_counts(sa, sb);
    }
    lemma_frees_kept_wf::<T>(free);
}

proof fn lemma_frees_kept_wf<T>(free: Seq<u32>)
    ensures
        forall|a: Seq<ArenaEntry<T>>, b: Seq<ArenaEntry<T>>|
            #[trigger] frees_kept(a, b) && model_wf(
                ArenaModel { slots: a.map_values(|e: ArenaEntry<T>| entry_model(e)), free },
            ) ==> model_wf(ArenaModel { slots: b.map_values(|e: ArenaEntry<T>| entry_model(e)), free }),
{
    assert forall|a: Seq<ArenaEntry<T>>, b: Seq<ArenaEntry<T>>|
        #[trigger] frees_kept(a, b) && model_wf(
            ArenaModel { slots: a.map_values(|e: ArenaEntry<T>| entry_model(e)), free },
        ) implies model_wf(
        ArenaModel { slots: b.map_values(|e: ArenaEntry<T>| entry_model(e)), free },
    ) by {
        let sa = a.map_values(|e: ArenaEntry<T>| entry_model(e));
        let sb = b.map_values(|e: ArenaEntry<T>| entry_model(e));
        assert forall|i: int| 0 <= i < free.len() implies #[trigger] free[i] < sb.len()
            && sb[free[i] as int].value is None by {
            let j = free[i] as int;
            assert(sa[j].value is None);
            assert(a[j] is Free);
            assert(b[j] == a[j]);
        }
    }
}

/// The slot indices of the occupied slots, in slot order.
pub open spec fn occupied_positions<T>(slots: Seq<SlotModel<T>>) -> Seq<int>
    decreases slots.len(),
{
    if slots.len() == 0 {
        Seq::empty()
    } else {
        let rest = occupied_positions(slots.drop_last());
        if slots.last().value is Some {
            rest.push(slots.len() - 1)
        } else {
            rest
        }
    }
}

proof fn lemma_occupied_positions<T>(slots: Seq<SlotModel<T>>)
    ensures
        occupied_positions(slots).len() == occupied_values(slots).len(),
        forall|i: int|
            0 <= i < occupied_positions(slots).len() ==> 0 <= #[trigger] occupied_positions(slots)[i]
                < slots.len() && slots[occupied_positions(slots)[i]].value == Some(
                occupied_values(slots)[i],
            ),
        forall|i: int, k: int|
            0 <= i < k < occupied_positions(slots).len() ==> #[trigger] occupied_positions(slots)[i]
                < #[trigger] occupied_positions(slots)[k],
    decreases slots.len(),
{
    if slots.len() > 0 {
        let rest = slots.drop_last();
        lemma_occupied_positions(rest);
        assert forall|i: int| 0 <= i < occupied_positions(rest).len() implies slots[occupied_positions(rest)[i]]
            == rest[occupied_positions(rest)[i]] by {}
    }
}

fn occupied_refs<'a, T>(entries: &'a mut [ArenaEntry<T>]) -> (r: Vec<&'a mut T>)
    ensures
        ({
            let old_slots = old(entries)@.map_values(|e: ArenaEntry<T>| entry_model(e));
            let pos = occupied_positions(old_slots);
            &&& frees_kept(old(entries)@, final(entries)@)
            &&& occupied_kept(old(entries)@, final(entries)@)
            &&& r@.len() == pos.len()
            &&& forall|i: int| 0 <= i < r@.len() ==> Some(*#[trigger] r@[i]) == old_slots[pos[i]].value
            &&& forall|i: int|
                0 <= i < r@.len() ==> entry_model(final(entries)@[pos[i]]).value == Some(
                    *final(#[trigger] r@[i]),
                )
        }),
    decreases old(entries)@.len(),
{
    let ghost old_all = entries@;
    let ghost old_slots = old_all.map_values(|e: ArenaEntry<T>| entry_model(e));
    let n = entries.len();
    if n == 0 {
        return Vec::new();
    }
    let (front, back) = entries.split_at_mut(n - 1);
    let ghost old_front = front@;
    let ghost old_back = back@;
    let mut out = occupied_refs(front);
    let ghost mid = out@;
    let last = back.first_mut().unwrap();
    proof {
        assert(old_back[0] == old_all[n - 1]);
        assert(old_front =~= old_all.drop_last());
        assert(old_slots.drop_last() =~= old_front.map_values(|e: ArenaEntry<T>| entry_model(e)));
        lemma_occupied_positions(old_slots.drop_last());
    }
    match last {
        ArenaEntry::Occupied { value, .. } => {
            out.push(value);
        },
        ArenaEntry::Free { .. } => {},
    }
    out
}

proof fn lemma_occupied_count_positive_free<T>(slots: Seq<SlotModel<T>>, i: int)
    requires
        0 <= i < slots.len(),
        slots[i].value is None,
    ensures
        occupied_count(slots) < slots.len(),
    decreases slots.len(),
{
    if i < slots.len() - 1 {
        lemma_occupied_count_positive_free(slots.drop_last(), i);
    } else {
        lemma_occupied_count_bound(slots.drop_last());
    }
}

} // verus!

verus! {

/// Reading back what was just stored: the handle that an insert returns
/// named nothing before and names the inserted value after, and the arena
/// stays consistent.
pub proof fn lemma_insert_then_get<T>(m: ArenaModel<T>, value: T)
    requires
        model_wf(m),
        model_has_room(m),
    ensures
        ({
            let (m2, h) = model_insert(m, value);
            &&& lookup(m, h.0, h.1) is None
            &&& lookup(m2, h.0, h.1) == Some(value)
            &&& model_wf(m2)
        }),
{
    let (m2, h) = model_insert(m, value);
    if m.free.len() > 0 {
        assert forall|i: int| 0 <= i < m2.free.len() implies #[trigger] m2.free[i] < m2.slots.len()
            && m2.slots[m2.free[i] as int].value is None by {
            assert(m2.free[i] == m.free[i]);
            assert(m.free[i] != m.free[m.free.len() - 1]);
        }
    }
}

/// An insert changes what no other handle names: every handle other than the
/// returned one names the same value (or nothing) before and after.
pub proof fn lemma_insert_preserves_other_handles<T>(
    m: ArenaModel<T>,
    value: T,
    slot: u32,
    generation: u32,
)
    requires
        model_wf(m),
        model_has_room(m),
        (slot, generation) != model_insert(m, value).1,
    ensures
        lookup(model_insert(m, value).0, slot, generation) == lookup(m, slot, generation),
{
}

/// A remove hands back exactly what the handle named, after which the handle
/// names nothing, the arena stays consistent, and no other slot changes.
pub proof fn lemma_remove_then_get<T>(m: ArenaModel<T>, slot: u32, generation: u32)
    requires
        model_wf(m),
    ensures
        ({
            let (m2, r) = model_remove(m, slot, generation);
            &&& r == lookup(m, slot, generation)
            &&& lookup(m2, slot, generation) is None
            &&& model_wf(m2)
            &&& forall|s: u32, g: u32| s != slot ==> #[trigger] lookup(m2, s, g) == lookup(m, s, g)
        }),
{
    let (m2, r) = model_remove(m, slot, generation);
    if r is Some {
        assert forall|i: int| 0 <= i < m.free.len() implies m.free[i] != slot by {
            assert(m.slots[m.free[i] as int].value is None);
        }
        assert forall|i: int| 0 <= i < m2.free.len() implies #[trigger] m2.free[i] < m2.slots.len()
            && m2.slots[m2.free[i] as int].value is None by {
            if i < m.free.len() {
                assert(m2.free[i] == m.free[i]);
            }
        }
        assert(m2.free.no_duplicates()) by {
            assert forall|i: int, j: int|
                0 <= i < m2.free.len() && 0 <= j < m2.free.len() && i != j implies m2.free[i]
                != m2.free[j] by {
                if i < m.free.len() && j < m.free.len() {
                    assert(m2.free[i] == m.free[i] && m2.free[j] == m.free[j]);
                } else if i < m.free.len() {
                    assert(m2.free[i] == m.free[i]);
                } else if j < m.free.len() {
                    assert(m2.free[j] == m.free[j]);
                }
            }
        }
    }
}

/// A stale handle is rejected: once a value is removed and its slot is
/// handed out again, the old handle names nothing, while the new handle
/// reuses the same slot with a different generation.
pub proof fn lemma_stale_handle_rejected<T>(m: ArenaModel<T>, slot: u32, generation: u32, value: T)
    requires
        model_wf(m),
        lookup(m, slot, generation) is Some,
    ensures
        ({
            let m2 = model_remove(m, slot, generation).0;
            let (m3, h) = model_insert(m2, value);
            &&& h.0 == slot
            &&& h.1 != generation
            &&& lookup(m3, slot, generation) is None
            &&& lookup(m3, h.0, h.1) == Some(value)
        }),
{
    lemma_remove_then_get(m, slot, generation);
    let m2 = model_remove(m, slot, generation).0;
    assert(m2.free.last() == slot);
    lemma_insert_then_get(m2, value);
}

/// The occupied count goes up by one on every insert and down by one on
/// every remove that finds its value; a remove that finds nothing changes
/// nothing.
pub proof fn lemma_len_tracks_inserts_and_removes<T>(
    m: ArenaModel<T>,
    value: T,
    slot: u32,
    generation: u32,
)
    requires
        model_wf(m),
        model_has_room(m),
    ensures
        occupied_count(model_insert(m, value).0.slots) == occupied_count(m.slots) + 1,
        lookup(m, slot, generation) is Some ==> occupied_count(
            model_remove(m, slot, generation).0.slots,
        ) + 1 == occupied_count(m.slots),
        lookup(m, slot, generation) is None ==> model_remove(m, slot, generation).0 == m,
{
    if m.free.len() > 0 {
        let s = m.free.last();
        assert(m.free[m.free.len() - 1] == s);
        lemma_occupied_count_update(
            m.slots,
            s as int,
            SlotModel { generation: next_generation(m.slots[s as int].generation), value: Some(value) },
        );
    } else {
        lemma_occupied_count_push(m.slots, SlotModel { generation: 0, value: Some(value) });
    }
    if lookup(m, slot, generation) is Some {
        lemma_occupied_count_update(
            m.slots,
            slot as int,
            SlotModel { generation: next_generation(generation), value: None },
        );
    }
}


/// The handles `(slot, generation)` that name a value in `m`.
pub open spec fn live_handles<T>(m: ArenaModel<T>) -> Set<(u32, u32)> {
    Set::new(|h: (u32, u32)| lookup(m, h.0, h.1) is Some)
}

/// The handles that name a value among the first slots of `slots`.
spec fn live_in<T>(slots: Seq<SlotModel<T>>) -> Set<(u32, u32)> {
    Set::new(
        |h: (u32, u32)|
            h.0 < slots.len() && slots[h.0 as int].value is Some && slots[h.0 as int].generation == h.1,
    )
}

proof fn lemma_live_in_count<T>(slots: Seq<SlotModel<T>>)
    requires
        slots.len() <= u32::MAX,
    ensures
        live_in(slots).finite(),
        live_in(slots).len() == occupied_count(slots),
    decreases slots.len(),
{
    if slots.len() == 0 {
        assert(live_in(slots) =~= Set::<(u32, u32)>::empty());
    } else {
        let rest = slots.drop_last();
        lemma_live_in_count(rest);
        let n = (slots.len() - 1) as u32;
        let last = slots.last();
        if last.value is Some {
            assert(live_in(slots) =~= live_in(rest).insert((n, last.generation)));
            assert(!live_in(rest).contains((n, last.generation)));
        } else {
            assert(live_in(slots) =~= live_in(rest));
        }
    }
}

/// The occupied count is the number of handles that name a value: each
/// occupied slot is named by exactly one generation.
pub proof fn lemma_len_counts_live_handles<T>(m: ArenaModel<T>)
    requires
        model_wf(m),
    ensures
        live_handles(m).finite(),
        live_handles(m).len() == occupied_count(m.slots),
{
    lemma_live_in_count(m.slots);
    assert(live_handles(m) =~= live_in(m.slots));
}

} // verus!
