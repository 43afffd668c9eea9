//! The store of entities and their hierarchy markers, with the identity
//! allocator it owns, and the primitives that keep parent and child links in
//! agreement.
use vstd::prelude::*;
use crate::components::{
    lemma_without, without, Entity, RollSafeChildren, RollSafeId, RollSafeParent,
};
use crate::id_manager::{table_of, IdManager};

verus! {

/// What one storage slot holds, as plain values.
pub struct SlotView {
    pub live: bool,
    pub id: Option<usize>,
    pub parent: Option<usize>,
    pub children: Option<Seq<usize>>,
}

/// The whole store as plain values: its slots, the identity-to-slot table,
/// the pool of released identities and the next fresh identity.
pub struct WorldView {
    pub slots: Seq<SlotView>,
    pub table: Map<usize, Entity>,
    pub free: Seq<usize>,
    pub next: nat,
}

/// A live slot that holds no marker.
pub open spec fn empty_slot() -> SlotView {
    SlotView { live: true, id: None, parent: None, children: None }
}

/// A destroyed slot.
pub open spec fn dead_slot() -> SlotView {
    SlotView { live: false, id: None, parent: None, children: None }
}

impl WorldView {
    pub open spec fn has(self, e: Entity) -> bool {
        e.0 < self.slots.len()
    }

    pub open spec fn live(self, e: Entity) -> bool {
        self.has(e) && self.slots[e.0 as int].live
    }

    pub open spec fn slot(self, e: Entity) -> SlotView {
        self.slots[e.0 as int]
    }

    /// The children listed by `e`, empty where it has no list.
    pub open spec fn children_seq(self, e: Entity) -> Seq<usize> {
        match self.slot(e).children {
            Some(s) => s,
            None => Seq::empty(),
        }
    }

    /// Whether `alloc_id` could hand out an identity now.
    pub open spec fn can_mint(self) -> bool {
        self.free.len() > 0 || self.next < usize::MAX
    }

    pub open spec fn set_slot(self, e: Entity, s: SlotView) -> WorldView {
        WorldView { slots: self.slots.update(e.0 as int, s), ..self }
    }

    /// Gives `e` the list `s`, or no list where `s` is empty.
    pub open spec fn set_children(self, e: Entity, s: Seq<usize>) -> WorldView {
        self.set_slot(
            e,
            SlotView { children: if s.len() == 0 { None } else { Some(s) }, ..self.slot(e) },
        )
    }

    pub open spec fn set_parent(self, e: Entity, p: Option<usize>) -> WorldView {
        self.set_slot(e, SlotView { parent: p, ..self.slot(e) })
    }

    /// The identity that the allocator hands out next.
    pub open spec fn fresh_id(self) -> usize {
        if self.free.len() > 0 {
            self.free.last()
        } else {
            self.next as usize
        }
    }

    /// Gives `e` an identity where it has none, and records it in the table.
    pub open spec fn with_id(self, e: Entity) -> WorldView {
        if self.slot(e).id is Some {
            self
        } else {
            let id = self.fresh_id();
            WorldView {
                slots: self.slots.update(e.0 as int, SlotView { id: Some(id), ..self.slot(e) }),
                table: self.table.insert(id, e),
                free: if self.free.len() > 0 {
                    self.free.drop_last()
                } else {
                    self.free
                },
                next: if self.free.len() > 0 {
                    self.next
                } else {
                    self.next + 1
                },
            }
        }
    }

    /// Strips the parent marker of `c` and takes `c` off its parent's list.
    pub open spec fn detach(self, c: Entity) -> WorldView {
        match self.slot(c).parent {
            None => self,
            Some(p) => {
                let v1 = self.set_parent(c, None);
                if self.table.contains_key(p) && self.slot(c).id is Some {
                    let q = self.table[p];
                    v1.set_children(q, without(v1.children_seq(q), self.slot(c).id->0))
                } else {
                    v1
                }
            },
        }
    }

    /// Makes `c` a child of `p`, listed at position `pos`.
    pub open spec fn attach(self, p: Entity, c: Entity, pos: int) -> WorldView {
        let v1 = self.set_parent(c, self.slot(p).id);
        v1.set_children(p, v1.children_seq(p).insert(pos, self.slot(c).id->0))
    }

    /// The list at slot `k` is sound: not empty, no identity twice, and each
    /// listed identity names a slot whose parent marker names `k`.
    pub open spec fn children_ok(self, k: int) -> bool {
        let s = self.slots[k].children->0;
        &&& s.len() > 0
        &&& s.no_duplicates()
        &&& self.slots[k].id is Some
        &&& forall|j: int|
            0 <= j < s.len() ==> {
                &&& #[trigger] self.table.contains_key(s[j])
                &&& self.slot(self.table[s[j]]).parent == self.slots[k].id
            }
    }

    /// The parent marker at slot `k` is sound: it names an identity that
    /// resolves to a slot whose list holds the identity of `k`.
    pub open spec fn parent_ok(self, k: int) -> bool {
        let p = self.slots[k].parent->0;
        &&& self.slots[k].id is Some
        &&& self.table.contains_key(p)
        &&& self.children_seq(self.table[p]).contains(self.slots[k].id->0)
    }

    /// The store with `p`'s list dropped and the parent markers stripped from
    /// the slots whose identity stands among the first `n` of that list.
    pub open spec fn clear_upto(self, p: Entity, n: int) -> WorldView {
        let s = self.children_seq(p);
        WorldView {
            slots: Seq::new(
                self.slots.len(),
                |k: int|
                    {
                        let sl = self.slots[k];
                        let sl1 = if k == p.0 {
                            SlotView { children: None, ..sl }
                        } else {
                            sl
                        };
                        if sl.id is Some && s.take(n).contains(sl.id->0) {
                            SlotView { parent: None, ..sl1 }
                        } else {
                            sl1
                        }
                    },
            ),
            ..self
        }
    }

    /// The store after `p` loses all its children.
    pub open spec fn clear(self, p: Entity) -> WorldView {
        if self.live(p) {
            self.clear_upto(p, self.children_seq(p).len() as int)
        } else {
            self
        }
    }

    /// The store with slot `e` destroyed and its identity, if any, released.
    pub open spec fn kill(self, e: Entity) -> WorldView {
        match self.slot(e).id {
            Some(i) => WorldView {
                slots: self.slots.update(e.0 as int, dead_slot()),
                table: self.table.remove(i),
                free: self.free.push(i),
                next: self.next,
            },
            None => WorldView { slots: self.slots.update(e.0 as int, dead_slot()), ..self },
        }
    }

    /// The invariant of the store.
    pub open spec fn wf(self) -> bool {
        &&& self.free.no_duplicates()
        &&& forall|j: int|
            0 <= j < self.free.len() ==> {
                &&& #[trigger] self.free[j] < self.next
                &&& !self.table.contains_key(self.free[j])
            }
        &&& forall|i: usize|
            #[trigger] self.table.contains_key(i) ==> {
                &&& i < self.next
                &&& self.live(self.table[i])
                &&& self.slot(self.table[i]).id == Some(i)
            }
        &&& forall|k: int|
            0 <= k < self.slots.len() && (#[trigger] self.slots[k]).id is Some ==> {
                &&& self.slots[k].live
                &&& self.table.contains_key(self.slots[k].id->0)
                &&& self.table[self.slots[k].id->0].0 == k
            }
        &&& forall|k: int|
            0 <= k < self.slots.len() && !(#[trigger] self.slots[k]).live ==> {
                &&& self.slots[k].parent is None
                &&& self.slots[k].children is None
            }
        &&& forall|k: int|
            0 <= k < self.slots.len() && (#[trigger] self.slots[k]).children is Some
                ==> self.children_ok(k)
        &&& forall|k: int|
            0 <= k < self.slots.len() && (#[trigger] self.slots[k]).parent is Some
                ==> self.parent_ok(k)
    }
}

/// Minting an identity for a live slot keeps the store well formed.
pub proof fn lemma_with_id(v: WorldView, e: Entity)
    requires
        v.wf(),
        v.live(e),
        v.can_mint(),
    ensures
        v.with_id(e).wf(),
        v.with_id(e).slot(e).id is Some,
        v.with_id(e).slots.len() == v.slots.len(),
        forall|k: int| 0 <= k < v.slots.len() && k != e.0 ==> v.with_id(e).slots[k] == v.slots[k],
        v.with_id(e).slot(e).live,
        v.with_id(e).slot(e).parent == v.slot(e).parent,
        v.with_id(e).slot(e).children == v.slot(e).children,
        v.slot(e).id is Some ==> v.with_id(e) == v,
{
    if v.slot(e).id is None {
        let w = v.with_id(e);
        let id = v.fresh_id();
        assert(!v.table.contains_key(id)) by {
            if v.free.len() > 0 {
                assert(v.free[v.free.len() - 1] == v.free.last());
            } else if v.table.contains_key(id) {
                assert(id < v.next);
            }
        }
        assert forall|j: int| 0 <= j < w.free.len() implies {
            &&& #[trigger] w.free[j] < w.next
            &&& !w.table.contains_key(w.free[j])
        } by {
            assert(w.free[j] == v.free[j]);
            if v.free.len() > 0 {
                assert(v.free[j] != v.free[v.free.len() - 1]);
            }
        }
        assert forall|i: usize| #[trigger] w.table.contains_key(i) implies {
            &&& i < w.next
            &&& w.live(w.table[i])
            &&& w.slot(w.table[i]).id == Some(i)
        } by {
            if i != id {
                let t = v.table[i];
                assert(v.live(t));
                assert(t != e);
            } else {
                if v.free.len() > 0 {
                    assert(v.free[v.free.len() - 1] == v.free.last());
                }
            }
        }
        assert forall|k: int| 0 <= k < w.slots.len() && (#[trigger] w.slots[k]).id is Some implies {
            &&& w.slots[k].live
            &&& w.table.contains_key(w.slots[k].id->0)
            &&& w.table[w.slots[k].id->0].0 == k
        } by {
            if k != e.0 {
                assert(w.slots[k] == v.slots[k]);
            }
        }
        assert forall|k: int| 0 <= k < w.slots.len() && (#[trigger] w.slots[k]).children is Some
            implies w.children_ok(k) by {
            assert(w.slots[k] == v.slots[k]);
            assert(v.children_ok(k));
            let s = w.slots[k].children->0;
            assert forall|j: int| 0 <= j < s.len() implies {
                &&& #[trigger] w.table.contains_key(s[j])
                &&& w.slot(w.table[s[j]]).parent == w.slots[k].id
            } by {
                assert(v.table.contains_key(s[j]));
                let t = v.table[s[j]];
                assert(v.live(t));
            }
            assert(w.children_ok(k));
        }
        assert forall|k: int| 0 <= k < w.slots.len() && (#[trigger] w.slots[k]).parent is Some
            implies w.parent_ok(k) by {
            assert(w.slots[k] == v.slots[k]);
            assert(v.parent_ok(k));
            let t = v.table[v.slots[k].parent->0];
            assert(v.live(t));
            assert(w.children_seq(t) == v.children_seq(t));
        }
        assert forall|k: int| 0 <= k < w.slots.len() && !(#[trigger] w.slots[k]).live implies {
            &&& w.slots[k].parent is None
            &&& w.slots[k].children is None
        } by {
            assert(w.slots[k] == v.slots[k]);
        }
    }
}

/// No list holds the identity of a slot that has no parent marker.
pub proof fn lemma_root_unlisted(v: WorldView, c: Entity, k: int)
    requires
        v.wf(),
        v.live(c),
        v.slot(c).id is Some,
        v.slot(c).parent is None,
        0 <= k < v.slots.len(),
    ensures
        !v.children_seq(Entity(k as usize)).contains(v.slot(c).id->0),
{
    let e = Entity(k as usize);
    if v.children_seq(e).contains(v.slot(c).id->0) {
        let s = v.children_seq(e);
        let j = choose|j: int| 0 <= j < s.len() && s[j] == v.slot(c).id->0;
        assert(v.slots[k].children is Some);
        assert(v.children_ok(k));
        assert(v.table.contains_key(s[j]));
        assert(v.slots[c.0 as int].id is Some);
    }
}

/// Taking a slot off its parent keeps the store well formed.
pub proof fn lemma_detach(v: WorldView, c: Entity)
    requires
        v.wf(),
        v.live(c),
    ensures
        v.detach(c).wf(),
        v.detach(c).slot(c).parent is None,
        v.detach(c).slots.len() == v.slots.len(),
        v.detach(c).table == v.table,
        v.detach(c).free == v.free,
        v.detach(c).next == v.next,
        forall|k: int|
            0 <= k < v.slots.len() ==> {
                &&& (#[trigger] v.detach(c).slots[k]).live == v.slots[k].live
                &&& v.detach(c).slots[k].id == v.slots[k].id
            },
{
    if v.slot(c).parent is Some {
        let p = v.slot(c).parent->0;
        assert(v.parent_ok(c.0 as int));
        let cid = v.slot(c).id->0;
        let q = v.table[p];
        let v1 = v.set_parent(c, None);
        let w = v.detach(c);
        assert(v.live(q));
        let s = v1.children_seq(q);
        assert(s == v.children_seq(q));
        assert(w == v1.set_children(q, without(s, cid)));
        lemma_without(s, cid);
        if v.slot(q).children is Some {
            assert(v.children_ok(q.0 as int));
        }
        assert forall|k: int| 0 <= k < w.slots.len() && (#[trigger] w.slots[k]).id is Some implies {
            &&& w.slots[k].live
            &&& w.table.contains_key(w.slots[k].id->0)
            &&& w.table[w.slots[k].id->0].0 == k
        } by {
            assert(w.slots[k].id == v.slots[k].id);
        }
        assert forall|k: int| 0 <= k < w.slots.len() && !(#[trigger] w.slots[k]).live implies {
            &&& w.slots[k].parent is None
            &&& w.slots[k].children is None
        } by {
            assert(w.slots[k] == v.slots[k]);
        }
        assert forall|i: usize| #[trigger] w.table.contains_key(i) implies {
            &&& i < w.next
            &&& w.live(w.table[i])
            &&& w.slot(w.table[i]).id == Some(i)
        } by {
            let t = v.table[i];
            assert(v.live(t));
        }
        assert forall|k: int| 0 <= k < w.slots.len() && (#[trigger] w.slots[k]).children is Some
            implies w.children_ok(k) by {
            assert(v.slots[k].children is Some);
            assert(v.children_ok(k));
            let sk = w.slots[k].children->0;
            if k == q.0 {
                assert forall|j: int| 0 <= j < sk.len() implies {
                    &&& #[trigger] w.table.contains_key(sk[j])
                    &&& w.slot(w.table[sk[j]]).parent == w.slots[k].id
                } by {
                    assert(without(s, cid).contains(sk[j]));
                    let i = choose|i: int| 0 <= i < s.len() && s[i] == sk[j];
                    assert(v.table.contains_key(s[i]));
                    let t = v.table[sk[j]];
                    assert(v.live(t));
                    assert(t != c);
                }
            } else {
                assert(w.slots[k].children == v.slots[k].children);
                assert forall|j: int| 0 <= j < sk.len() implies {
                    &&& #[trigger] w.table.contains_key(sk[j])
                    &&& w.slot(w.table[sk[j]]).parent == w.slots[k].id
                } by {
                    assert(v.table.contains_key(sk[j]));
                    let t = v.table[sk[j]];
                    assert(v.live(t));
                    if t == c {
                        assert(v.slots[k].id == Some(p));
                        assert(v.table[p].0 == k);
                    }
                }
            }
            assert(w.children_ok(k));
        }
        assert forall|k: int| 0 <= k < w.slots.len() && (#[trigger] w.slots[k]).parent is Some
            implies w.parent_ok(k) by {
            assert(k != c.0);
            assert(w.slots[k].parent == v.slots[k].parent);
            assert(v.parent_ok(k));
            let t = v.table[v.slots[k].parent->0];
            assert(v.live(t));
            let kid = v.slots[k].id->0;
            if t == q {
                assert(kid != cid) by {
                    assert(v.table[kid].0 == k);
                    assert(v.table[cid] == c);
                }
                assert(without(s, cid).contains(kid));
            } else {
                assert(w.children_seq(t) == v.children_seq(t));
            }
        }
        assert(w.wf());
    }
}

proof fn lemma_attach_children_ok(v: WorldView, p: Entity, c: Entity, pos: int, k: int)
    requires
        v.wf(),
        v.live(p),
        v.live(c),
        p != c,
        v.slot(p).id is Some,
        v.slot(c).id is Some,
        v.slot(c).parent is None,
        0 <= pos <= v.children_seq(p).len(),
        0 <= k < v.slots.len(),
        v.attach(p, c, pos).slots[k].children is Some,
    ensures
        v.attach(p, c, pos).children_ok(k),
{
    let cid = v.slot(c).id->0;
    let w = v.attach(p, c, pos);
    let s = v.children_seq(p);
    let s2 = s.insert(pos, cid);
    lemma_root_unlisted(v, c, p.0 as int);
    let sk = w.slots[k].children->0;
    if k == p.0 {
        if v.slots[k].children is Some {
            assert(v.children_ok(k));
        }
        assert(sk == s2);
        assert forall|j: int| 0 <= j < sk.len() implies {
            &&& #[trigger] w.table.contains_key(sk[j])
            &&& w.slot(w.table[sk[j]]).parent == w.slots[k].id
        } by {
            if j != pos {
                let i = if j < pos { j } else { j - 1 };
                assert(sk[j] == s[i]);
                assert(v.table.contains_key(s[i]));
                let t = v.table[sk[j]];
                assert(v.live(t));
                assert(t != c);
            } else {
                assert(sk[j] == cid);
            }
        }
        assert(sk.no_duplicates()) by {
            assert forall|a: int, b: int| 0 <= a < sk.len() && 0 <= b < sk.len() && a != b
                implies sk[a] != sk[b] by {
                if a != pos && b != pos {
                    let ia = if a < pos { a } else { a - 1 };
                    let ib = if b < pos { b } else { b - 1 };
                    assert(sk[a] == s[ia]);
                    assert(sk[b] == s[ib]);
                }
            }
        }
    } else {
        assert(v.slots[k].children is Some);
        assert(v.children_ok(k));
        lemma_root_unlisted(v, c, k);
        assert forall|j: int| 0 <= j < sk.len() implies {
            &&& #[trigger] w.table.contains_key(sk[j])
            &&& w.slot(w.table[sk[j]]).parent == w.slots[k].id
        } by {
            assert(v.table.contains_key(sk[j]));
            let t = v.table[sk[j]];
            assert(v.live(t));
            assert(sk[j] != cid);
        }
    }
    assert(w.children_ok(k));
}

/// Listing a parentless slot under another keeps the store well formed.
pub proof fn lemma_attach(v: WorldView, p: Entity, c: Entity, pos: int)
    requires
        v.wf(),
        v.live(p),
        v.live(c),
        p != c,
        v.slot(p).id is Some,
        v.slot(c).id is Some,
        v.slot(c).parent is None,
        0 <= pos <= v.children_seq(p).len(),
    ensures
        v.attach(p, c, pos).wf(),
        v.attach(p, c, pos).slots.len() == v.slots.len(),
        v.attach(p, c, pos).table == v.table,
        v.attach(p, c, pos).free == v.free,
        v.attach(p, c, pos).next == v.next,
        forall|k: int|
            0 <= k < v.slots.len() ==> {
                &&& (#[trigger] v.attach(p, c, pos).slots[k]).live == v.slots[k].live
                &&& v.attach(p, c, pos).slots[k].id == v.slots[k].id
            },
{
    let pid = v.slot(p).id->0;
    let cid = v.slot(c).id->0;
    let w = v.attach(p, c, pos);
    let s = v.children_seq(p);
    let s2 = s.insert(pos, cid);
    lemma_root_unlisted(v, c, p.0 as int);
    assert(w.slots[p.0 as int].children == Some(s2));
    assert forall|j: int| 0 <= j < s2.len() implies (#[trigger] s2[j] == cid) == (j == pos) by {
        if j < pos {
            assert(s2[j] == s[j]);
        } else if j > pos {
            assert(s2[j] == s[j - 1]);
        }
    }
    assert forall|k: int| 0 <= k < w.slots.len() && (#[trigger] w.slots[k]).id is Some implies {
        &&& w.slots[k].live
        &&& w.table.contains_key(w.slots[k].id->0)
        &&& w.table[w.slots[k].id->0].0 == k
    } by {
        assert(w.slots[k].id == v.slots[k].id);
    }
    assert forall|k: int| 0 <= k < w.slots.len() && !(#[trigger] w.slots[k]).live implies {
        &&& w.slots[k].parent is None
        &&& w.slots[k].children is None
    } by {
        assert(w.slots[k] == v.slots[k]);
    }
    assert forall|i: usize| #[trigger] w.table.contains_key(i) implies {
        &&& i < w.next
        &&& w.live(w.table[i])
        &&& w.slot(w.table[i]).id == Some(i)
    } by {
        let t = v.table[i];
        assert(v.live(t));
    }
    assert forall|k: int| 0 <= k < w.slots.len() && (#[trigger] w.slots[k]).children is Some
        implies w.children_ok(k) by {
        lemma_attach_children_ok(v, p, c, pos, k);
    }
    assert forall|k: int| 0 <= k < w.slots.len() && (#[trigger] w.slots[k]).parent is Some
        implies w.parent_ok(k) by {
        if k == c.0 {
            assert(s2[pos] == cid);
            assert(w.children_seq(p) == s2);
        } else {
            assert(v.parent_ok(k));
            let t = v.table[v.slots[k].parent->0];
            assert(v.live(t));
            let kid = v.slots[k].id->0;
            if t == p {
                let i = choose|i: int| 0 <= i < s.len() && s[i] == kid;
                let j = if i < pos { i } else { i + 1 };
                assert(s2[j] == kid);
            } else {
                assert(w.children_seq(t) == v.children_seq(t));
            }
        }
    }
    assert(w.wf());
}

/// Dropping a list and stripping its children's parent markers keeps the
/// store well formed.
pub proof fn lemma_clear(v: WorldView, p: Entity)
    requires
        v.wf(),
    ensures
        v.clear(p).wf(),
        v.clear(p).table == v.table,
        v.clear(p).free == v.free,
        v.clear(p).next == v.next,
        v.clear(p).slots.len() == v.slots.len(),
{
    if v.live(p) {
        let s = v.children_seq(p);
        let w = v.clear(p);
        assert(s.take(s.len() as int) == s);
        assert forall|k: int| 0 <= k < w.slots.len() implies {
            &&& (#[trigger] w.slots[k]).live == v.slots[k].live
            &&& w.slots[k].id == v.slots[k].id
        } by {}
        assert forall|k: int| 0 <= k < w.slots.len() && (#[trigger] w.slots[k]).id is Some implies {
            &&& w.slots[k].live
            &&& w.table.contains_key(w.slots[k].id->0)
            &&& w.table[w.slots[k].id->0].0 == k
        } by {
            assert(w.slots[k].id == v.slots[k].id);
        }
        assert forall|k: int| 0 <= k < w.slots.len() && !(#[trigger] w.slots[k]).live implies {
            &&& w.slots[k].parent is None
            &&& w.slots[k].children is None
        } by {
            assert(w.slots[k].live == v.slots[k].live);
        }
        assert forall|i: usize| #[trigger] w.table.contains_key(i) implies {
            &&& i < w.next
            &&& w.live(w.table[i])
            &&& w.slot(w.table[i]).id == Some(i)
        } by {
            let t = v.table[i];
            assert(v.live(t));
            assert(w.slots[t.0 as int].live == v.slots[t.0 as int].live);
        }
        assert forall|k: int| 0 <= k < w.slots.len() && (#[trigger] w.slots[k]).children is Some
            implies w.children_ok(k) by {
            assert(k != p.0);
            assert(w.slots[k].children == v.slots[k].children);
            assert(v.children_ok(k));
            let sk = w.slots[k].children->0;
            assert forall|j: int| 0 <= j < sk.len() implies {
                &&& #[trigger] w.table.contains_key(sk[j])
                &&& w.slot(w.table[sk[j]]).parent == w.slots[k].id
            } by {
                assert(v.table.contains_key(sk[j]));
                let t = v.table[sk[j]];
                assert(v.live(t));
                if s.contains(sk[j]) {
                    assert(v.slots[p.0 as int].children is Some);
                    assert(v.children_ok(p.0 as int));
                    let i = choose|i: int| 0 <= i < s.len() && s[i] == sk[j];
                    assert(v.table.contains_key(s[i]));
                    assert(v.slots[k].id == v.slots[p.0 as int].id);
                    assert(v.table[v.slots[k].id->0].0 == k);
                    assert(v.table[v.slots[p.0 as int].id->0].0 == p.0);
                }
                assert(w.slots[t.0 as int].parent == v.slots[t.0 as int].parent);
            }
            assert(w.children_ok(k));
        }
        assert forall|k: int| 0 <= k < w.slots.len() && (#[trigger] w.slots[k]).parent is Some
            implies w.parent_ok(k) by {
            assert(v.slots[k].parent is Some);
            assert(v.parent_ok(k));
            let kid = v.slots[k].id->0;
            assert(!s.contains(kid));
            let t = v.table[v.slots[k].parent->0];
            assert(v.live(t));
            assert(t != p);
            assert(w.slots[t.0 as int].children == v.slots[t.0 as int].children);
        }
        assert(w.wf());
    }
}

/// The host store: entity slots with their markers, and the allocator.
pub struct World {
    alive: Vec<bool>,
    ids: Vec<Option<RollSafeId>>,
    parents: Vec<Option<RollSafeParent>>,
    children: Vec<Option<RollSafeChildren>>,
    id_manager: IdManager,
}

pub open spec fn opt_id(x: Option<RollSafeId>) -> Option<usize> {
    match x {
        Some(i) => Some(i.0),
        None => None,
    }
}

pub open spec fn opt_parent(x: Option<RollSafeParent>) -> Option<usize> {
    match x {
        Some(p) => Some(p.0.0),
        None => None,
    }
}

pub open spec fn opt_children(x: Option<RollSafeChildren>) -> Option<Seq<usize>> {
    match x {
        Some(c) => Some(c@),
        None => None,
    }
}

impl View for World {
    type V = WorldView;

    closed spec fn view(&self) -> WorldView {
        WorldView {
            slots: Seq::new(
                self.alive@.len(),
                |k: int|
                    SlotView {
                        live: self.alive@[k],
                        id: opt_id(self.ids@[k]),
                        parent: opt_parent(self.parents@[k]),
                        children: opt_children(self.children@[k]),
                    },
            ),
            table: self.id_manager.table(),
            free: self.id_manager.free(),
            next: self.id_manager.next(),
        }
    }
}

impl World {
    /// The store is well formed.
    pub open spec fn wf(&self) -> bool {
        &&& self.shape_ok()
        &&& self@.wf()
    }

    /// The marker vectors run in step with the slots.
    pub closed spec fn shape_ok(&self) -> bool {
        &&& self.ids@.len() == self.alive@.len()
        &&& self.parents@.len() == self.alive@.len()
        &&& self.children@.len() == self.alive@.len()
    }

    /// A store whose view is well formed is well formed.
    pub proof fn lemma_wf_from_view(&self)
        requires
            self.shape_ok(),
            self@.wf(),
        ensures
            self.wf(),
    {
    }

    /// A well-formed store has a well-formed view.
    pub proof fn lemma_view_wf(&self)
        requires
            self.wf(),
        ensures
            self@.wf(),
            self.shape_ok(),
    {
    }

    /// An empty store.
    pub fn new() -> (r: World)
        ensures
            r.wf(),
            r@.slots == Seq::<SlotView>::empty(),
            r@.table == Map::<usize, Entity>::empty(),
            r@.free == Seq::<usize>::empty(),
            r@.next == 0,
    {
        let r = World {
            alive: Vec::new(),
            ids: Vec::new(),
            parents: Vec::new(),
            children: Vec::new(),
            id_manager: IdManager::new(),
        };
        assert(r@.slots =~= Seq::<SlotView>::empty());
        r
    }

    /// Creates a live slot that holds no marker.
    pub fn spawn_empty(&mut self) -> (r: Entity)
        requires
            old(self).wf(),
            old(self)@.slots.len() < usize::MAX,
        ensures
            final(self).wf(),
            r.0 == old(self)@.slots.len(),
            final(self)@ == (WorldView { slots: old(self)@.slots.push(empty_slot()), ..old(self)@ }),
    {
        let r = Entity(self.alive.len());
        self.alive.push(true);
        self.ids.push(None);
        self.parents.push(None);
        self.children.push(None);
        assert(self@.slots =~= old(self)@.slots.push(empty_slot()));
        proof {
            let v = old(self)@;
            let w = self@;
            assert forall|k: int| 0 <= k < v.slots.len() && (#[trigger] w.slots[k]).children is Some
                implies w.children_ok(k) by {
                assert(w.slots[k] == v.slots[k]);
                assert(v.children_ok(k));
                let s = w.slots[k].children->0;
                assert forall|j: int| 0 <= j < s.len() implies {
                    &&& #[trigger] w.table.contains_key(s[j])
                    &&& w.slot(w.table[s[j]]).parent == w.slots[k].id
                } by {
                    assert(v.table.contains_key(s[j]));
                    let t = v.table[s[j]];
                    assert(v.live(t));
                    assert(w.slots[t.0 as int] == v.slots[t.0 as int]);
                }
                assert(w.children_ok(k));
            }
            assert forall|k: int| 0 <= k < v.slots.len() && (#[trigger] w.slots[k]).parent is Some
                implies w.parent_ok(k) by {
                assert(w.slots[k] == v.slots[k]);
                assert(v.parent_ok(k));
            }
        }
        r
    }

    /// Whether `e` is a live slot.
    pub fn is_alive(&self, e: Entity) -> (r: bool)
        requires
            self.shape_ok(),
        ensures
            r == self@.live(e),
    {
        e.0 < self.alive.len() && self.alive[e.0]
    }

    /// The identity that `e` carries.
    pub fn id(&self, e: Entity) -> (r: Option<RollSafeId>)
        requires
            self.shape_ok(),
        ensures
            opt_id(r) == (if self@.has(e) { self@.slot(e).id } else { None }),
    {
        if e.0 < self.ids.len() {
            self.ids[e.0]
        } else {
            None
        }
    }

    /// The parent marker of `e`.
    pub fn parent(&self, e: Entity) -> (r: Option<RollSafeParent>)
        requires
            self.shape_ok(),
        ensures
            opt_parent(r) == (if self@.has(e) { self@.slot(e).parent } else { None }),
    {
        if e.0 < self.parents.len() {
            self.parents[e.0]
        } else {
            None
        }
    }

    /// The children marker of `e`.
    pub fn children(&self, e: Entity) -> (r: Option<&RollSafeChildren>)
        requires
            self.shape_ok(),
        ensures
            match r {
                Some(c) => self@.has(e) && self@.slot(e).children == Some(c@),
                None => !self@.has(e) || self@.slot(e).children is None,
            },
    {
        if e.0 < self.children.len() {
            match &self.children[e.0] {
                Some(c) => Some(c),
                None => None,
            }
        } else {
            None
        }
    }

    /// Whether the parent marker of `c` names the identity of `p`.
    pub fn is_child_of(&self, c: Entity, p: Entity) -> (r: bool)
        requires
            self.shape_ok(),
            self@.has(c),
            self@.has(p),
        ensures
            r == (self@.slot(p).id is Some && self@.slot(c).parent == self@.slot(p).id),
    {
        match (self.ids[p.0], self.parents[c.0]) {
            (Some(pid), Some(cp)) => cp.0.0 == pid.0,
            (Some(_), None) => false,
            (None, _) => false,
        }
    }

    /// The slot that carries `id`.
    pub fn resolve(&self, id: RollSafeId) -> (r: Option<Entity>)
        ensures
            r == (if self@.table.contains_key(id.0) {
                Some(self@.table[id.0])
            } else {
                None
            }),
    {
        self.id_manager.lookup_entity(id)
    }

    /// The identity of `e`, minted from the allocator where it has none yet.
    pub fn get_or_assign_new_id(&mut self, e: Entity) -> (r: RollSafeId)
        requires
            old(self).wf(),
            old(self)@.live(e),
            old(self)@.can_mint() || old(self)@.slot(e).id is Some,
        ensures
            final(self).wf(),
            final(self)@ == old(self)@.with_id(e),
            final(self)@.slot(e).id == Some(r.0),
            old(self)@.slot(e).id is Some ==> old(self)@.slot(e).id == Some(r.0),
    {
        if let Some(id) = self.ids[e.0] {
            assert(old(self)@.slots[e.0 as int].id == Some(id.0));
            return id;
        }
        let id = self.id_manager.alloc_id();
        self.ids.set(e.0, Some(id));
        self.id_manager.register(id, e);
        proof {
            let v = old(self)@;
            assert(self@.slots =~= v.with_id(e).slots);
            assert(self@.free =~= v.with_id(e).free);
            lemma_with_id(v, e);
        }
        id
    }

    /// Gives `q` the list it has without `cid`, or no list where none is left.
    fn remove_from_children(&mut self, q: Entity, cid: RollSafeId)
        requires
            old(self).ids@.len() == old(self).alive@.len(),
            old(self).parents@.len() == old(self).alive@.len(),
            old(self).children@.len() == old(self).alive@.len(),
            q.0 < old(self).alive@.len(),
        ensures
            final(self).ids@.len() == final(self).alive@.len(),
            final(self).parents@.len() == final(self).alive@.len(),
            final(self).children@.len() == final(self).alive@.len(),
            final(self)@ == old(self)@.set_children(q, without(old(self)@.children_seq(q), cid.0)),
    {
        let next: Option<RollSafeChildren> = match &self.children[q.0] {
            Some(list) => {
                let l = list.without(cid);
                if l.len() == 0 {
                    None
                } else {
                    Some(l)
                }
            },
            None => None,
        };
        proof {
            let v = old(self)@;
            reveal(Seq::filter);
            assert(v.slot(q).children is None ==> without(v.children_seq(q), cid.0).len() == 0);
        }
        self.children.set(q.0, next);
        proof {
            let v = old(self)@;
            assert(self@.slots =~= v.set_children(q, without(v.children_seq(q), cid.0)).slots);
        }
    }

    /// Strips the parent marker of `child` and takes it off its former parent's list.
    pub fn remove_parent(&mut self, child: Entity)
        requires
            old(self).wf(),
        ensures
            final(self).wf(),
            final(self)@ == (if old(self)@.live(child) {
                old(self)@.detach(child)
            } else {
                old(self)@
            }),
    {
        if !self.is_alive(child) {
            return;
        }
        proof {
            lemma_detach(old(self)@, child);
        }
        match self.parents[child.0] {
            None => {},
            Some(par) => {
                self.parents.set(child.0, None);
                proof {
                    let v = old(self)@;
                    assert(self@.slots =~= v.set_parent(child, None).slots);
                    assert(v.parent_ok(child.0 as int));
                }
                let found = self.id_manager.lookup_entity(par.0);
                match (found, self.ids[child.0]) {
                    (Some(q), Some(cid)) => {
                        proof {
                            assert(old(self)@.live(q));
                        }
                        self.remove_from_children(q, cid);
                    },
                    _ => {},
                }
            },
        }
    }

    /// Makes `c`, a slot without parent, a child of `p`, listed at `pos`.
    pub(crate) fn attach(&mut self, p: Entity, c: Entity, pos: usize)
        requires
            old(self).wf(),
            old(self)@.live(p),
            old(self)@.live(c),
            p != c,
            old(self)@.slot(p).id is Some,
            old(self)@.slot(c).id is Some,
            old(self)@.slot(c).parent is None,
            pos <= old(self)@.children_seq(p).len(),
        ensures
            final(self).wf(),
            final(self)@ == old(self)@.attach(p, c, pos as int),
    {
        proof {
            lemma_attach(old(self)@, p, c, pos as int);
        }
        let pid = match self.ids[p.0] {
            Some(i) => i,
            None => RollSafeId(0),
        };
        let cid = match self.ids[c.0] {
            Some(i) => i,
            None => RollSafeId(0),
        };
        self.parents.set(c.0, Some(RollSafeParent(pid)));
        proof {
            let v = old(self)@;
            assert(self@.slots =~= v.set_parent(c, v.slot(p).id).slots);
        }
        let list = match &self.children[p.0] {
            Some(l) => l.inserted(pos, cid),
            None => RollSafeChildren::single(cid),
        };
        self.children.set(p.0, Some(list));
        proof {
            let v = old(self)@;
            let v1 = v.set_parent(c, v.slot(p).id);
            assert(v1.children_seq(p).insert(pos as int, cid.0).len() > 0);
            assert(v1.slot(p).children is None ==> v1.children_seq(p).insert(pos as int, cid.0)
                =~= seq![cid.0]);
            assert(self@.slots =~= v.attach(p, c, pos as int).slots);
        }
    }

    /// Drops `parent`'s list and strips the parent marker of every slot it listed.
    pub fn clear_children(&mut self, parent: Entity)
        requires
            old(self).wf(),
        ensures
            final(self).wf(),
            final(self)@ == old(self)@.clear(parent),
    {
        proof {
            lemma_clear(old(self)@, parent);
        }
        if !self.is_alive(parent) {
            return;
        }
        let ghost v = self@;
        let mut taken: Option<RollSafeChildren> = None;
        self.children.set_and_swap(parent.0, &mut taken);
        proof {
            assert(self@.slots =~= v.clear_upto(parent, 0).slots);
        }
        match taken {
            None => {
                proof {
                    assert(v.clear_upto(parent, 0) =~= v.clear(parent));
                }
            },
            Some(list) => {
                let n = list.len();
                assert(list@ == v.children_seq(parent));
                assert(v.slots[parent.0 as int].children is Some);
                assert(v.children_ok(parent.0 as int));
                let mut j: usize = 0;
                while j < n
                    invariant
                        n == list@.len(),
                        list@ == v.children_seq(parent),
                        v.wf(),
                        v.live(parent),
                        v.children_ok(parent.0 as int),
                        j <= n,
                        self.ids@.len() == self.alive@.len(),
                        self.parents@.len() == self.alive@.len(),
                        self.children@.len() == self.alive@.len(),
                        self@ == v.clear_upto(parent, j as int),
                    decreases n - j,
                {
                    let x = list.get(j);
                    assert(v.table.contains_key(list@[j as int]));
                    assert(self@.table == v.table);
                    assert(self@.slots.len() == self.alive@.len());
                    let ghost before = self@;
                    let e = match self.id_manager.lookup_entity(x) {
                        Some(e) => e,
                        None => parent,
                    };
                    assert(v.live(e));
                    self.parents.set(e.0, None);
                    proof {
                        let s = v.children_seq(parent);
                        assert(s.take(j + 1) == s.take(j as int).push(x.0));
                        assert(self@.slots =~= before.slots.update(
                            e.0 as int,
                            SlotView { parent: None, ..before.slots[e.0 as int] },
                        ));
                        assert forall|k: int| 0 <= k < v.slots.len() && v.slots[k].id == Some(x.0)
                            implies k == e.0 by {}
                        let t1 = s.take(j + 1);
                        let t0 = s.take(j as int);
                        assert(t1[j as int] == x.0);
                        assert(v.slots[e.0 as int].id == Some(x.0));
                        assert forall|y: usize| t1.contains(y) <==> (t0.contains(y) || y == x.0) by {
                            if t1.contains(y) {
                                let i = choose|i: int| 0 <= i < t1.len() && t1[i] == y;
                                if i < j {
                                    assert(t0[i] == y);
                                }
                            }
                            if t0.contains(y) {
                                let i = choose|i: int| 0 <= i < t0.len() && t0[i] == y;
                                assert(t1[i] == y);
                            }
                        }
                        assert forall|k: int| 0 <= k < v.slots.len() implies self@.slots[k]
                            == v.clear_upto(parent, j + 1).slots[k] by {
                            if k != e.0 {
                                assert(before.slots[k] == v.clear_upto(parent, j as int).slots[k]);
                            }
                        }
                        assert(self@.slots =~= v.clear_upto(parent, j + 1).slots);
                    }
                    j = j + 1;
                }
            },
        }
    }

    /// Destroys the live slot `e` and releases its identity; its relatives'
    /// markers are left as they are.
    pub(crate) fn destroy_slot(&mut self, e: Entity)
        requires
            old(self).shape_ok(),
            old(self)@.live(e),
        ensures
            final(self)@ == old(self)@.kill(e),
            final(self).shape_ok(),
    {
        let id = self.ids[e.0];
        self.alive.set(e.0, false);
        self.ids.set(e.0, None);
        self.parents.set(e.0, None);
        self.children.set(e.0, None);
        match id {
            Some(i) => {
                self.id_manager.free_id(i);
            },
            None => {},
        }
        proof {
            assert(self@.slots =~= old(self)@.slots.update(e.0 as int, dead_slot()));
        }
    }

    /// Whether `n` more identities can be minted without the counter overflowing.
    pub fn has_room_for(&self, n: usize) -> (r: bool)
        ensures
            r == (self@.next + n < usize::MAX),
    {
        let next = self.id_manager.next_id();
        next < usize::MAX && n < usize::MAX - next
    }

    /// Rebuilds the identity-to-slot table from a scan of the identity markers.
    pub fn update_id_entity_map(&mut self)
        requires
            old(self).wf(),
        ensures
            final(self).wf(),
            final(self)@ == old(self)@,
    {
        let ghost v = self@;
        let mut pairs: Vec<(Entity, RollSafeId)> = Vec::new();
        let n = self.ids.len();
        let mut k: usize = 0;
        while k < n
            invariant
                self@ == v,
                self.wf(),
                n == v.slots.len(),
                k <= n,
                table_of(pairs@) == Map::new(
                    |i: usize| v.table.contains_key(i) && v.table[i].0 < k,
                    |i: usize| v.table[i],
                ),
            decreases n - k,
        {
            match self.ids[k] {
                Some(id) => {
                    let ghost prev = pairs@;
                    pairs.push((Entity(k), id));
                    proof {
                        assert(pairs@.drop_last() == prev);
                        assert(v.slots[k as int].id == Some(id.0));
                        assert(table_of(pairs@) =~= Map::new(
                            |i: usize| v.table.contains_key(i) && v.table[i].0 < k + 1,
                            |i: usize| v.table[i],
                        ));
                    }
                },
                None => {
                    proof {
                        assert forall|i: usize| v.table.contains_key(i) implies v.table[i].0 != k by {
                            assert(v.live(v.table[i]));
                            assert(v.slots[v.table[i].0 as int].id == Some(i));
                        }
                        assert(table_of(pairs@) =~= Map::new(
                            |i: usize| v.table.contains_key(i) && v.table[i].0 < k + 1,
                            |i: usize| v.table[i],
                        ));
                    }
                },
            }
            k = k + 1;
        }
        proof {
            assert forall|i: usize| v.table.contains_key(i) implies v.table[i].0 < n by {
                assert(v.live(v.table[i]));
            }
            assert(table_of(pairs@) =~= v.table);
        }
        self.id_manager.rebuild(&pairs);
        proof {
            assert(self@.slots =~= v.slots);
        }
    }

    /// The allocator.
    pub fn id_manager(&self) -> (r: &IdManager)
        ensures
            r.table() == self@.table,
            r.free() == self@.free,
            r.next() == self@.next,
    {
        &self.id_manager
    }
}

} // verus!
