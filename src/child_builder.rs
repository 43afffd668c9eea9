//! The operations that add, remove, reorder and replace children, each keeping
//! parent markers and children lists in agreement.
use vstd::prelude::*;
use crate::components::Entity;
use crate::world::{lemma_attach, lemma_detach, lemma_with_id, World, WorldView};

verus! {

/// The parent marker of `c` names the identity of `p`.
pub open spec fn under(v: WorldView, c: Entity, p: Entity) -> bool {
    v.slot(p).id is Some && v.slot(c).parent == v.slot(p).id
}

/// Detaches, in turn, each slot of `batch` that is live; where `keep` is set,
/// a slot already under `p` stays where it is.
pub open spec fn detach_all(v: WorldView, p: Entity, keep: bool, batch: Seq<Entity>) -> WorldView
    decreases batch.len(),
{
    if batch.len() == 0 {
        v
    } else {
        let w = detach_all(v, p, keep, batch.drop_last());
        let c = batch.last();
        if w.live(c) && !(keep && under(w, c, p)) {
            w.detach(c)
        } else {
            w
        }
    }
}

/// Attaches, in turn, each live parentless slot of `batch` under `p`, the
/// first at `off` from the end of the list that `p` had before, each next
/// one after the previous.
pub open spec fn attach_all(v: WorldView, p: Entity, batch: Seq<Entity>, off: int) -> WorldView
    decreases batch.len(),
{
    if batch.len() == 0 {
        v
    } else {
        let w = attach_all(v, p, batch.drop_last(), off);
        let c = batch.last();
        if !w.live(c) || w.slot(c).parent is Some || c == p {
            w
        } else {
            let w1 = w.with_id(p).with_id(c);
            w1.attach(p, c, w1.children_seq(p).len() + off)
        }
    }
}

/// The store after the live slots of `batch` become children of `p`.
/// Inserting (`at` is `Some`): each is first taken off its former parent,
/// `p` included, then all are listed, in the order of their first
/// occurrence, at position `at` of what is left of `p`'s list (at its end
/// where `at` is past the end). Appending (`at` is `None`): a slot already
/// under `p` keeps its place; each other one is taken off its former parent
/// and appended, in the order of first occurrence.
pub open spec fn splice_children(v: WorldView, p: Entity, at: Option<int>, batch: Seq<Entity>) -> WorldView {
    if !v.live(p) {
        v
    } else {
        let d = detach_all(v, p, at is None, batch);
        let len = d.children_seq(p).len() as int;
        let k = match at {
            Some(i) => if i < len {
                i
            } else {
                len
            },
            None => len,
        };
        attach_all(d, p, batch, k - len)
    }
}

/// Detaches, in turn, each live slot of `batch` whose parent marker names `p`.
pub open spec fn remove_all(v: WorldView, p: Entity, batch: Seq<Entity>) -> WorldView
    decreases batch.len(),
{
    if batch.len() == 0 {
        v
    } else {
        let w = remove_all(v, p, batch.drop_last());
        let c = batch.last();
        if w.live(p) && w.live(c) && w.slot(p).id is Some && w.slot(c).parent == w.slot(p).id {
            w.detach(c)
        } else {
            w
        }
    }
}

pub proof fn lemma_detach_all(v: WorldView, p: Entity, keep: bool, batch: Seq<Entity>)
    requires
        v.wf(),
    ensures
        detach_all(v, p, keep, batch).wf(),
        detach_all(v, p, keep, batch).slots.len() == v.slots.len(),
        detach_all(v, p, keep, batch).next == v.next,
        forall|k: int|
            0 <= k < v.slots.len() ==> (#[trigger] detach_all(v, p, keep, batch).slots[k]).live
                == v.slots[k].live,
    decreases batch.len(),
{
    if batch.len() > 0 {
        lemma_detach_all(v, p, keep, batch.drop_last());
        let w = detach_all(v, p, keep, batch.drop_last());
        if w.live(batch.last()) {
            lemma_detach(w, batch.last());
        }
    }
}

/// Adding a parentless slot appends its identity, minted where it had none,
/// to `p`'s list.
pub proof fn lemma_add_new(v: WorldView, p: Entity, c: Entity)
    requires
        v.wf(),
        v.live(p),
        v.live(c),
        p != c,
        v.slot(c).parent is None,
        v.next + 1 < usize::MAX,
    ensures
        ({
            let r = splice_children(v, p, None, seq![c]);
            &&& r.live(c)
            &&& r.slot(p).id is Some
            &&& r.slot(c).id is Some
            &&& r.slot(c).parent == r.slot(p).id
            &&& r.children_seq(p) == v.children_seq(p).push(r.slot(c).id->0)
        }),
{
    let b = seq![c];
    assert(b.drop_last() == Seq::<Entity>::empty());
    assert(b.last() == c);
    assert(detach_all(v, p, true, Seq::<Entity>::empty()) == v);
    assert(detach_all(v, p, true, b) == v);
    lemma_with_id(v, p);
    let w0 = v.with_id(p);
    lemma_with_id(w0, c);
    let w1 = w0.with_id(c);
    let l = w1.children_seq(p);
    assert(l == v.children_seq(p));
    assert(attach_all(v, p, Seq::<Entity>::empty(), 0) == v);
    let r = w1.attach(p, c, l.len() as int);
    assert(attach_all(v, p, b, 0) == r);
    lemma_attach(w1, p, c, l.len() as int);
    assert(l.insert(l.len() as int, w1.slot(c).id->0) == l.push(w1.slot(c).id->0));
    assert(r.slots[c.0 as int].live);
}

impl World {
    /// Makes the live slots of `children` children of `parent`, spliced at
    /// `at` (see `splice_children`).
    fn splice(&mut self, parent: Entity, at: Option<usize>, children: &[Entity])
        requires
            old(self).wf(),
            !children@.contains(parent),
            old(self)@.next + children@.len() < usize::MAX,
        ensures
            final(self).wf(),
            final(self)@ == splice_children(
                old(self)@,
                parent,
                match at {
                    Some(i) => Some(i as int),
                    None => None,
                },
                children@,
            ),
    {
        if !self.is_alive(parent) {
            return;
        }
        proof {
            self.lemma_view_wf();
        }
        let ghost v = self@;
        let n = children.len();
        let mut i: usize = 0;
        while i < n
            invariant
                n == children@.len(),
                i <= n,
                self.wf(),
                self@ == detach_all(v, parent, at is None, children@.take(i as int)),
                self@.live(parent),
                v.wf(),
            decreases n - i,
        {
            let c = children[i];
            proof {
                assert(children@.take(i + 1).drop_last() == children@.take(i as int));
            }
            if self.is_alive(c) {
                let keep = match at {
                    None => self.is_child_of(c, parent),
                    Some(_) => false,
                };
                if !keep {
                    let ghost before = self@;
                    self.remove_parent(c);
                    proof {
                        lemma_detach(before, c);
                    }
                }
            }
            i = i + 1;
        }
        proof {
            assert(children@.take(n as int) == children@);
            lemma_detach_all(v, parent, at is None, children@);
        }
        let ghost d = self@;
        let len: usize = match self.children(parent) {
            Some(l) => l.len(),
            None => 0,
        };
        let k: usize = match at {
            Some(idx) => if idx < len {
                idx
            } else {
                len
            },
            None => len,
        };
        let ghost off: int = k - len;
        let mut i: usize = 0;
        while i < n
            invariant
                n == children@.len(),
                i <= n,
                k <= len,
                off == k - len,
                len == d.children_seq(parent).len(),
                !children@.contains(parent),
                self.wf(),
                self@ == attach_all(d, parent, children@.take(i as int), off),
                self@.live(parent),
                self@.children_seq(parent).len() >= len,
                self@.next + (if self@.slot(parent).id is Some {
                    0int
                } else {
                    1
                }) <= v.next + i + 1,
                v.next + n < usize::MAX,
            decreases n - i,
        {
            let c = children[i];
            proof {
                assert(children@.take(i + 1).drop_last() == children@.take(i as int));
                assert(children@[i as int] != parent);
            }
            let has_parent = match self.parent(c) {
                Some(_) => true,
                None => false,
            };
            if self.is_alive(c) && !has_parent {
                let ghost w = self@;
                proof {
                    self.lemma_view_wf();
                }
                self.get_or_assign_new_id(parent);
                proof {
                    lemma_with_id(w, parent);
                }
                let ghost w0 = self@;
                self.get_or_assign_new_id(c);
                proof {
                    lemma_with_id(w0, c);
                }
                let cur: usize = match self.children(parent) {
                    Some(l) => l.len(),
                    None => 0,
                };
                proof {
                    assert(self@.children_seq(parent).len() == w.children_seq(parent).len());
                }
                self.attach(parent, c, k + (cur - len));
                proof {
                    lemma_attach(w0.with_id(c), parent, c, k + (cur - len));
                    let s = w0.with_id(c).children_seq(parent);
                    assert(self@.children_seq(parent) == s.insert(k + (cur - len), w0.with_id(c).slot(c).id->0));
                }
            }
            i = i + 1;
        }
        proof {
            assert(children@.take(n as int) == children@);
        }
    }

    /// Inserts the live slots of `children` at position `index` of `parent`'s
    /// list, taking each off its former parent first; an index past the end
    /// of what is left of the list appends.
    pub fn insert_children(&mut self, parent: Entity, index: usize, children: &[Entity])
        requires
            old(self).wf(),
            !children@.contains(parent),
            old(self)@.next + children@.len() < usize::MAX,
        ensures
            final(self).wf(),
            final(self)@ == splice_children(old(self)@, parent, Some(index as int), children@),
    {
        self.splice(parent, Some(index), children);
    }

    /// Appends the live slots of `children` to `parent`'s list, taking each
    /// off its former parent first; one already under `parent` keeps its place.
    pub fn push_children(&mut self, parent: Entity, children: &[Entity])
        requires
            old(self).wf(),
            !children@.contains(parent),
            old(self)@.next + children@.len() < usize::MAX,
        ensures
            final(self).wf(),
            final(self)@ == splice_children(old(self)@, parent, None, children@),
    {
        self.splice(parent, None, children);
    }

    /// Makes `child` the last child of `parent`, taking it off its former
    /// parent first; where `child` is already under `parent`, nothing changes.
    pub fn add_child(&mut self, parent: Entity, child: Entity)
        requires
            old(self).wf(),
            child != parent,
            old(self)@.next + 1 < usize::MAX,
        ensures
            final(self).wf(),
            final(self)@ == splice_children(old(self)@, parent, None, seq![child]),
    {
        let batch: Vec<Entity> = vec![child];
        proof {
            assert(batch@ == seq![child]);
            assert(!batch@.contains(parent)) by {
                if batch@.contains(parent) {
                    let j = choose|j: int| 0 <= j < batch@.len() && batch@[j] == parent;
                }
            }
        }
        self.splice(parent, None, batch.as_slice());
    }

    /// Creates a slot listed as the last child of `parent`.
    pub fn spawn_child(&mut self, parent: Entity) -> (r: Entity)
        requires
            old(self).wf(),
            old(self)@.live(parent),
            old(self)@.slots.len() < usize::MAX,
            old(self)@.next + 1 < usize::MAX,
        ensures
            final(self).wf(),
            r.0 == old(self)@.slots.len(),
            final(self)@.live(r),
            final(self)@.slot(parent).id is Some,
            final(self)@.slot(r).id is Some,
            final(self)@.slot(r).parent == final(self)@.slot(parent).id,
            final(self)@.children_seq(parent) == old(self)@.children_seq(parent).push(
                final(self)@.slot(r).id->0,
            ),
    {
        let r = self.spawn_empty();
        proof {
            let v = old(self)@;
            assert(self@.slots[parent.0 as int] == v.slots[parent.0 as int]);
            lemma_add_new(self@, parent, r);
        }
        self.add_child(parent, r);
        r
    }

    /// Makes `parent` the parent of `child`: the same as `add_child(parent, child)`.
    pub fn set_parent(&mut self, child: Entity, parent: Entity)
        requires
            old(self).wf(),
            child != parent,
            old(self)@.next + 1 < usize::MAX,
        ensures
            final(self).wf(),
            final(self)@ == splice_children(old(self)@, parent, None, seq![child]),
    {
        self.add_child(parent, child);
    }

    /// Takes the slots of `children` that are listed under `parent` off its
    /// list and strips their parent markers; others are left alone.
    pub fn remove_children(&mut self, parent: Entity, children: &[Entity])
        requires
            old(self).wf(),
        ensures
            final(self).wf(),
            final(self)@ == remove_all(old(self)@, parent, children@),
    {
        let ghost v = self@;
        let n = children.len();
        let mut i: usize = 0;
        while i < n
            invariant
                n == children@.len(),
                i <= n,
                self.wf(),
                self@ == remove_all(v, parent, children@.take(i as int)),
            decreases n - i,
        {
            let c = children[i];
            proof {
                assert(children@.take(i + 1).drop_last() == children@.take(i as int));
            }
            if self.is_alive(parent) && self.is_alive(c) {
                let pid = self.id(parent);
                let cpar = self.parent(c);
                match (pid, cpar) {
                    (Some(pid), Some(cp)) => {
                        if cp.0.0 == pid.0 {
                            self.remove_parent(c);
                        }
                    },
                    _ => {},
                }
            }
            i = i + 1;
        }
        proof {
            assert(children@.take(n as int) == children@);
        }
    }

    /// Makes `parent`'s children exactly the live slots of `children`, in
    /// order: its former children lose their parent marker first.
    pub fn replace_children(&mut self, parent: Entity, children: &[Entity])
        requires
            old(self).wf(),
            !children@.contains(parent),
            old(self)@.next + children@.len() < usize::MAX,
        ensures
            final(self).wf(),
            final(self)@ == splice_children(old(self)@.clear(parent), parent, None, children@),
    {
        self.clear_children(parent);
        self.splice(parent, None, children);
    }
}

} // verus!
