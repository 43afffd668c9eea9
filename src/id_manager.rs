//! Hands out recyclable identities and resolves them to the slots that carry them.
use vstd::prelude::*;
use bevy::utils::HashMap;
use crate::components::{Entity, RollSafeId};

verus! {

/// The identity-to-slot table, kept in bevy's `HashMap`. Verus does not see
/// inside it; it is read and written only through the wrappers below.
#[verifier::external_body]
pub struct SlotTable {
    m: HashMap<usize, Entity>,
}

/// A table that maps nothing.
pub open spec fn no_entries() -> Map<usize, Entity> {
    Map::empty()
}

/// What the table maps each identity to.
pub uninterp spec fn entries_of(t: SlotTable) -> Map<usize, Entity>;

/// Relies on `HashMap::default` (hashbrown): the new map is empty.
#[verifier::external_body]
fn table_new() -> (r: SlotTable)
    ensures
        entries_of(r) == no_entries(),
{
    SlotTable { m: HashMap::default() }
}

/// Relies on `HashMap::insert` (hashbrown): `k` now maps to `e`.
#[verifier::external_body]
fn table_insert(t: &mut SlotTable, k: usize, e: Entity)
    ensures
        entries_of(*final(t)) == entries_of(*old(t)).insert(k, e),
{
    t.m.insert(k, e);
}

/// Relies on `HashMap::remove` (hashbrown): `k` no longer maps to anything.
#[verifier::external_body]
fn table_remove(t: &mut SlotTable, k: usize)
    ensures
        entries_of(*final(t)) == entries_of(*old(t)).remove(k),
{
    t.m.remove(&k);
}

/// Relies on `HashMap::get` (hashbrown): what `k` maps to, if anything.
#[verifier::external_body]
fn table_get(t: &SlotTable, k: usize) -> (r: Option<Entity>)
    ensures
        r == (if entries_of(*t).contains_key(k) {
            Some(entries_of(*t)[k])
        } else {
            None
        }),
{
    t.m.get(&k).copied()
}

/// Relies on `HashMap::clear` (hashbrown): the map is empty.
#[verifier::external_body]
fn table_clear(t: &mut SlotTable)
    ensures
        entries_of(*final(t)) == no_entries(),
{
    t.m.clear();
}

/// The table that a scan of `(slot, identity)` pairs builds: each identity
/// maps to the last slot listed with it.
pub open spec fn table_of(pairs: Seq<(Entity, RollSafeId)>) -> Map<usize, Entity>
    decreases pairs.len(),
{
    if pairs.len() == 0 {
        Map::empty()
    } else {
        let last = pairs.last();
        table_of(pairs.drop_last()).insert(last.1.0, last.0)
    }
}

/// Owns the namespace of identities: a counter for fresh ones, a pool of
/// released ones reused last-in first-out, and the identity-to-slot table.
pub struct IdManager {
    next_id: usize,
    unused_ids: Vec<usize>,
    id_to_entity_id: SlotTable,
}

impl IdManager {
    /// The next identity that has never been handed out.
    pub closed spec fn next(&self) -> nat {
        self.next_id as nat
    }

    /// The released identities, the most recently released last.
    pub closed spec fn free(&self) -> Seq<usize> {
        self.unused_ids@
    }

    /// The identity-to-slot table.
    pub closed spec fn table(&self) -> Map<usize, Entity> {
        entries_of(self.id_to_entity_id)
    }

    /// Whether `alloc_id` can hand out an identity without the counter overflowing.
    pub open spec fn can_alloc(&self) -> bool {
        self.free().len() > 0 || self.next() < usize::MAX
    }

    /// The next identity that has never been handed out.
    pub fn next_id(&self) -> (r: usize)
        ensures
            r == self.next(),
    {
        self.next_id
    }

    /// The released identities, the most recently released last.
    pub fn released(&self) -> (r: &[usize])
        ensures
            r@ == self.free(),
    {
        self.unused_ids.as_slice()
    }

    /// An allocator that has handed out nothing.
    pub fn new() -> (r: IdManager)
        ensures
            r.next() == 0,
            r.free() == Seq::<usize>::empty(),
            r.table() == Map::<usize, Entity>::empty(),
    {
        IdManager { next_id: 0, unused_ids: Vec::new(), id_to_entity_id: table_new() }
    }

    /// Takes the most recently released identity, or else mints a fresh one.
    pub fn alloc_id(&mut self) -> (r: RollSafeId)
        requires
            old(self).can_alloc(),
        ensures
            final(self).table() == old(self).table(),
            old(self).free().len() > 0 ==> {
                &&& r.0 == old(self).free().last()
                &&& final(self).free() == old(self).free().drop_last()
                &&& final(self).next() == old(self).next()
            },
            old(self).free().len() == 0 ==> {
                &&& r.0 == old(self).next()
                &&& final(self).free() == old(self).free()
                &&& final(self).next() == old(self).next() + 1
            },
    {
        if let Some(id) = self.unused_ids.pop() {
            return RollSafeId(id);
        }
        let id = self.next_id;
        self.next_id = self.next_id + 1;
        RollSafeId(id)
    }

    /// Puts `id` back in the pool; it no longer resolves.
    pub fn free_id(&mut self, id: RollSafeId)
        ensures
            final(self).free() == old(self).free().push(id.0),
            final(self).next() == old(self).next(),
            final(self).table() == old(self).table().remove(id.0),
    {
        self.unused_ids.push(id.0);
        table_remove(&mut self.id_to_entity_id, id.0);
    }

    /// The slot that carries `id`, if the table knows it.
    pub fn lookup_entity(&self, id: RollSafeId) -> (r: Option<Entity>)
        ensures
            r == (if self.table().contains_key(id.0) {
                Some(self.table()[id.0])
            } else {
                None
            }),
    {
        table_get(&self.id_to_entity_id, id.0)
    }

    /// Records that `e` carries `id`.
    pub(crate) fn register(&mut self, id: RollSafeId, e: Entity)
        ensures
            final(self).free() == old(self).free(),
            final(self).next() == old(self).next(),
            final(self).table() == old(self).table().insert(id.0, e),
    {
        table_insert(&mut self.id_to_entity_id, id.0, e);
    }

    /// Replaces the table by one built from `pairs`, the slots that carry an
    /// identity with the identity each carries.
    pub fn rebuild(&mut self, pairs: &Vec<(Entity, RollSafeId)>)
        ensures
            final(self).free() == old(self).free(),
            final(self).next() == old(self).next(),
            final(self).table() == table_of(pairs@),
    {
        table_clear(&mut self.id_to_entity_id);
        let mut i: usize = 0;
        while i < pairs.len()
            invariant
                i <= pairs@.len(),
                self.free() == old(self).free(),
                self.next() == old(self).next(),
                self.table() == table_of(pairs@.take(i as int)),
            decreases pairs@.len() - i,
        {
            let (e, id) = pairs[i];
            proof {
                assert(pairs@.take(i + 1).drop_last() == pairs@.take(i as int));
            }
            table_insert(&mut self.id_to_entity_id, id.0, e);
            i = i + 1;
        }
        proof {
            assert(pairs@.take(pairs@.len() as int) == pairs@);
        }
    }
}

impl Default for IdManager {
    fn default() -> (r: IdManager)
        ensures
            r.next() == 0,
            r.free() == Seq::<usize>::empty(),
            r.table() == Map::<usize, Entity>::empty(),
    {
        IdManager::new()
    }
}

} // verus!
