//! Destroying an entity together with everything listed below it.
use vstd::prelude::*;
use crate::components::{lemma_without, without, Entity};
use crate::world::{dead_slot, lemma_detach, SlotView, World, WorldView};

verus! {

/// `b` is listed by `a`: an identity in `a`'s list resolves to `b`.
pub open spec fn listed_by(v: WorldView, a: Entity, b: Entity) -> bool {
    exists|j: int|
        0 <= j < v.children_seq(a).len() && v.table.contains_key(v.children_seq(a)[j])
            && #[trigger] v.table[v.children_seq(a)[j]] == b
}

/// `path` starts at `root` and each slot on it is listed by the one before.
pub open spec fn is_path(v: WorldView, root: Entity, path: Seq<Entity>) -> bool {
    &&& path.len() > 0
    &&& path[0] == root
    &&& forall|i: int| 0 <= i < path.len() - 1 ==> listed_by(v, #[trigger] path[i], path[i + 1])
}

/// `e` is reachable from `root` through the lists.
pub open spec fn reachable(v: WorldView, root: Entity, e: Entity) -> bool {
    exists|path: Seq<Entity>| #[trigger] is_path(v, root, path) && path.last() == e
}

proof fn lemma_path_extend(v: WorldView, root: Entity, path: Seq<Entity>, t: Entity)
    requires
        is_path(v, root, path),
        listed_by(v, path.last(), t),
    ensures
        is_path(v, root, path.push(t)),
        path.push(t).last() == t,
{
    let q = path.push(t);
    assert forall|i: int| 0 <= i < q.len() - 1 implies listed_by(v, #[trigger] q[i], q[i + 1]) by {
        if i < path.len() - 1 {
            assert(q[i] == path[i] && q[i + 1] == path[i + 1]);
        } else {
            assert(q[i] == path.last());
        }
    }
}

/// The number of live slots.
pub open spec fn live_count(s: Seq<SlotView>) -> nat
    decreases s.len(),
{
    if s.len() == 0 {
        0
    } else {
        live_count(s.drop_last()) + if s.last().live {
            1nat
        } else {
            0nat
        }
    }
}

proof fn lemma_live_count_kill(s: Seq<SlotView>, k: int)
    requires
        0 <= k < s.len(),
        s[k].live,
    ensures
        live_count(s.update(k, dead_slot())) + 1 == live_count(s),
    decreases s.len(),
{
    let t = s.update(k, dead_slot());
    if k < s.len() - 1 {
        assert(t.drop_last() == s.drop_last().update(k, dead_slot()));
        lemma_live_count_kill(s.drop_last(), k);
    } else {
        assert(t.drop_last() == s.drop_last());
    }
}

/// Slot `k` was live in `v0` and is destroyed in `cur`.
pub open spec fn died(v0: WorldView, cur: WorldView, k: int) -> bool {
    v0.slots[k].live && !cur.slots[k].live
}

/// What `rollsafe_despawn_recursive(target)` leaves, `w`, of the store `v`:
/// `target` is destroyed; every slot listed by a destroyed slot is destroyed;
/// every other destroyed slot had a destroyed parent; every destroyed slot
/// is reachable from `target` through the lists of the store once `target`
/// is taken off its parent; the
/// survivors are as they were once `target` was taken off its parent; the
/// identities of the destroyed slots no longer resolve and follow the
/// released ones in the pool.
pub open spec fn despawned(v: WorldView, w: WorldView, target: Entity) -> bool {
    let v0 = if v.live(target) {
        v.detach(target)
    } else {
        v
    };
    &&& w.slots.len() == v.slots.len()
    &&& w.next == v.next
    &&& !w.live(target)
    &&& forall|k: int|
        0 <= k < v.slots.len() ==> {
            &&& (#[trigger] w.slots[k]).live ==> w.slots[k] == v0.slots[k]
            &&& !w.slots[k].live ==> w.slots[k] == dead_slot()
        }
    &&& forall|k: int|
        0 <= k < v.slots.len() && #[trigger] died(v, w, k) ==> {
            &&& (k != target.0 ==> {
                &&& v.slots[k].parent is Some
                &&& !w.live(v.table[v.slots[k].parent->0])
            })
            &&& forall|j: int|
                0 <= j < v.children_seq(Entity(k as usize)).len() ==> !w.live(
                    v.table[#[trigger] v.children_seq(Entity(k as usize))[j]],
                )
        }
    &&& forall|k: int|
        0 <= k < v.slots.len() && #[trigger] died(v, w, k) ==> reachable(
            v0,
            target,
            Entity(k as usize),
        )
    &&& forall|i: usize|
        #[trigger] w.table.contains_key(i) <==> (v.table.contains_key(i) && w.live(v.table[i]))
    &&& forall|i: usize| #[trigger] w.table.contains_key(i) ==> w.table[i] == v.table[i]
    &&& w.free.len() >= v.free.len()
    &&& w.free.take(v.free.len() as int) == v.free
    &&& forall|j: int|
        v.free.len() <= j < w.free.len() ==> released_by_death(v, w, #[trigger] w.free[j])
    &&& forall|k: int|
        0 <= k < v.slots.len() && #[trigger] died(v, w, k) && v.slots[k].id is Some
            ==> w.free.contains(v.slots[k].id->0)
}

/// `x` is the identity of a slot live in `v0` and destroyed in `cur`.
pub open spec fn released_by_death(v0: WorldView, cur: WorldView, x: usize) -> bool {
    exists|k: int| 0 <= k < v0.slots.len() && #[trigger] died(v0, cur, k) && v0.slots[k].id == Some(x)
}

/// What holds of the store `cur` part way through destroying the tree under
/// `root`, against the store `v0` in which `root` had just been detached,
/// while `stack` holds the slots still to visit.
pub open spec fn destroying(v0: WorldView, cur: WorldView, root: Entity, stack: Seq<Entity>) -> bool {
    &&& v0.wf()
    &&& v0.live(root)
    &&& (!cur.live(root) || stack.contains(root))
    &&& forall|j: int| 0 <= j < stack.len() ==> reachable(v0, root, #[trigger] stack[j])
    &&& forall|k: int|
        0 <= k < v0.slots.len() && #[trigger] died(v0, cur, k) ==> reachable(
            v0,
            root,
            Entity(k as usize),
        )
    &&& v0.slot(root).parent is None
    &&& cur.slots.len() == v0.slots.len()
    &&& cur.next == v0.next
    &&& forall|k: int|
        0 <= k < v0.slots.len() ==> {
            &&& (#[trigger] cur.slots[k]).live ==> cur.slots[k] == v0.slots[k]
            &&& !cur.slots[k].live ==> cur.slots[k] == dead_slot()
        }
    &&& forall|k: int|
        0 <= k < v0.slots.len() && #[trigger] died(v0, cur, k) ==> {
            &&& (k != root.0 ==> {
                &&& v0.slots[k].parent is Some
                &&& !cur.live(v0.table[v0.slots[k].parent->0])
            })
            &&& forall|j: int|
                0 <= j < v0.children_seq(Entity(k as usize)).len() ==> {
                    let t = v0.table[#[trigger] v0.children_seq(Entity(k as usize))[j]];
                    !cur.live(t) || stack.contains(t)
                }
        }
    &&& forall|j: int|
        0 <= j < stack.len() ==> {
            let s = #[trigger] stack[j];
            s == root || (v0.live(s) && v0.slot(s).parent is Some && !cur.live(
                v0.table[v0.slot(s).parent->0],
            ))
        }
    &&& forall|i: usize|
        #[trigger] cur.table.contains_key(i) <==> (v0.table.contains_key(i) && cur.live(
            v0.table[i],
        ))
    &&& forall|i: usize| #[trigger] cur.table.contains_key(i) ==> cur.table[i] == v0.table[i]
    &&& cur.free.len() >= v0.free.len()
    &&& cur.free.take(v0.free.len() as int) == v0.free
    &&& cur.free.no_duplicates()
    &&& forall|j: int|
        v0.free.len() <= j < cur.free.len() ==> released_by_death(v0, cur, #[trigger] cur.free[j])
    &&& forall|k: int|
        0 <= k < v0.slots.len() && #[trigger] died(v0, cur, k) && v0.slots[k].id is Some
            ==> cur.free.contains(v0.slots[k].id->0)
    &&& forall|j: int|
        0 <= j < cur.free.len() ==> {
            &&& #[trigger] cur.free[j] < cur.next
            &&& !cur.table.contains_key(cur.free[j])
        }
}

/// `e` is the slot that an identity listed by `at` resolves to in `before`.
pub open spec fn found_below(v0: WorldView, before: WorldView, at: Entity, e: Entity) -> bool {
    exists|i: int|
        0 <= i < v0.children_seq(at).len() && before.table.contains_key(v0.children_seq(at)[i])
            && e == v0.table[v0.children_seq(at)[i]]
}

/// Destroying the live slot `at`, popped from the stack, after pushing the
/// live slots that it lists, keeps the invariant of the walk.
proof fn lemma_destroy_step(
    v0: WorldView,
    before: WorldView,
    root: Entity,
    st0: Seq<Entity>,
    at: Entity,
    pushed: Seq<Entity>,
)
    requires
        destroying(v0, before, root, st0.push(at)),
        before.live(at),
        forall|j: int|
            0 <= j < v0.children_seq(at).len() && before.table.contains_key(
                #[trigger] v0.children_seq(at)[j],
            ) ==> pushed.contains(v0.table[v0.children_seq(at)[j]]),
        forall|j: int| 0 <= j < pushed.len() ==> found_below(v0, before, at, #[trigger] pushed[j]),
    ensures
        destroying(v0, before.kill(at), root, st0 + pushed),
{
    let after = before.kill(at);
    let stack = st0 + pushed;
    let old_stack = st0.push(at);
    let a = at.0 as int;
    assert(before.slots[a] == v0.slots[a]);
    assert(v0.live(at));
    assert(v0.children_seq(at) == before.children_seq(at));
    assert(reachable(v0, root, at)) by {
        assert(old_stack[old_stack.len() - 1] == at);
    }
    let pa = choose|path: Seq<Entity>| #[trigger] is_path(v0, root, path) && path.last() == at;
    assert forall|j: int| 0 <= j < stack.len() implies reachable(v0, root, #[trigger] stack[j]) by {
        if j < st0.len() {
            assert(stack[j] == old_stack[j]);
        } else {
            let t = pushed[j - st0.len()];
            assert(stack[j] == t);
            assert(found_below(v0, before, at, pushed[j - st0.len()]));
            let i = choose|i: int|
                0 <= i < v0.children_seq(at).len() && before.table.contains_key(
                    v0.children_seq(at)[i],
                ) && t == v0.table[v0.children_seq(at)[i]];
            assert(v0.table.contains_key(v0.children_seq(at)[i]));
            assert(listed_by(v0, at, t));
            lemma_path_extend(v0, root, pa, t);
        }
    }
    assert forall|k: int| 0 <= k < v0.slots.len() && #[trigger] died(v0, after, k) implies reachable(
        v0,
        root,
        Entity(k as usize),
    ) by {
        if k == a {
            assert(Entity(k as usize) == at);
        } else {
            assert(died(v0, before, k));
        }
    }
    assert forall|k: int| 0 <= k < v0.slots.len() implies {
        &&& (#[trigger] after.slots[k]).live ==> after.slots[k] == v0.slots[k]
        &&& !after.slots[k].live ==> after.slots[k] == dead_slot()
    } by {
        if k != a {
            assert(after.slots[k] == before.slots[k]);
        }
    }
    assert(!after.live(root) || stack.contains(root)) by {
        if after.live(root) {
            assert(root != at);
            assert(old_stack.contains(root));
            let j = choose|j: int| 0 <= j < old_stack.len() && old_stack[j] == root;
            assert(j < st0.len());
            assert(stack[j] == root);
        }
    }
    assert forall|k: int| 0 <= k < v0.slots.len() && #[trigger] died(v0, after, k) implies {
        &&& (k != root.0 ==> {
            &&& v0.slots[k].parent is Some
            &&& !after.live(v0.table[v0.slots[k].parent->0])
        })
        &&& forall|j: int|
            0 <= j < v0.children_seq(Entity(k as usize)).len() ==> {
                let t = v0.table[#[trigger] v0.children_seq(Entity(k as usize))[j]];
                !after.live(t) || stack.contains(t)
            }
    } by {
        if k == a {
            if k != root.0 {
                let j = old_stack.len() - 1;
                assert(old_stack[j] == at);
            }
            assert forall|j: int| 0 <= j < v0.children_seq(Entity(k as usize)).len() implies {
                let t = v0.table[#[trigger] v0.children_seq(Entity(k as usize))[j]];
                !after.live(t) || stack.contains(t)
            } by {
                assert(Entity(k as usize) == at);
                let x = v0.children_seq(at)[j];
                let t = v0.table[x];
                if before.table.contains_key(x) {
                    assert(pushed.contains(t));
                    let i = choose|i: int| 0 <= i < pushed.len() && pushed[i] == t;
                    assert(stack[st0.len() + i] == t);
                } else {
                    assert(v0.slots[a].children is Some);
                    assert(v0.children_ok(a));
                    assert(v0.table.contains_key(x));
                    assert(!before.live(t));
                    assert(t != at);
                }
            }
        } else {
            assert(died(v0, before, k));
            assert forall|j: int| 0 <= j < v0.children_seq(Entity(k as usize)).len() implies {
                let t = v0.table[#[trigger] v0.children_seq(Entity(k as usize))[j]];
                !after.live(t) || stack.contains(t)
            } by {
                let t = v0.table[v0.children_seq(Entity(k as usize))[j]];
                if after.live(t) {
                    assert(t != at);
                    assert(before.live(t));
                    assert(old_stack.contains(t));
                    let i = choose|i: int| 0 <= i < old_stack.len() && old_stack[i] == t;
                    assert(i < st0.len());
                    assert(stack[i] == t);
                }
            }
        }
    }
    assert forall|j: int| 0 <= j < stack.len() implies {
        let s = #[trigger] stack[j];
        s == root || (v0.live(s) && v0.slot(s).parent is Some && !after.live(
            v0.table[v0.slot(s).parent->0],
        ))
    } by {
        if j < st0.len() {
            assert(stack[j] == old_stack[j]);
        } else {
            let s = pushed[j - st0.len()];
            assert(stack[j] == s);
            assert(found_below(v0, before, at, pushed[j - st0.len()]));
            let i = choose|i: int|
                0 <= i < v0.children_seq(at).len() && before.table.contains_key(
                    v0.children_seq(at)[i],
                ) && s == v0.table[v0.children_seq(at)[i]];
            assert(v0.slots[a].children is Some);
            assert(v0.children_ok(a));
            let x = v0.children_seq(at)[i];
            assert(v0.table.contains_key(x));
            assert(v0.live(s));
            assert(v0.slot(s).parent == v0.slots[a].id);
            let aid = v0.slots[a].id->0;
            assert(v0.table[aid].0 == a);
        }
    }
    assert forall|i: usize| #[trigger] after.table.contains_key(i) <==> (v0.table.contains_key(i)
        && after.live(v0.table[i])) by {
        if v0.table.contains_key(i) && v0.table[i] == at {
            assert(v0.slots[a].id == Some(i));
        }
        if v0.table.contains_key(i) && v0.table[i] != at {
            assert(v0.live(v0.table[i]));
        }
    }
    if before.slots[a].id is Some {
        let aid = before.slots[a].id->0;
        assert(v0.table.contains_key(aid));
        assert(before.table.contains_key(aid));
        assert(aid < v0.next);
        assert(after.free == before.free.push(aid));
        assert(after.free.take(v0.free.len() as int) == before.free.take(v0.free.len() as int));
        assert forall|j: int| 0 <= j < after.free.len() implies {
            &&& #[trigger] after.free[j] < after.next
            &&& !after.table.contains_key(after.free[j])
        } by {
            if j < before.free.len() {
                assert(after.free[j] == before.free[j]);
            }
        }
        assert(after.free.no_duplicates()) by {
            assert forall|x: int, y: int| 0 <= x < after.free.len() && 0 <= y < after.free.len() && x != y
                implies after.free[x] != after.free[y] by {
                if x == before.free.len() {
                    assert(!before.table.contains_key(before.free[y]));
                } else if y == before.free.len() {
                    assert(!before.table.contains_key(before.free[x]));
                }
            }
        }
        assert forall|k: int|
            0 <= k < v0.slots.len() && #[trigger] died(v0, after, k) && v0.slots[k].id is Some
                implies after.free.contains(v0.slots[k].id->0) by {
            if k == a {
                assert(after.free[before.free.len() as int] == aid);
            } else {
                assert(died(v0, before, k));
                let x = v0.slots[k].id->0;
                let i = choose|i: int| 0 <= i < before.free.len() && before.free[i] == x;
                assert(after.free[i] == x);
            }
        }
        assert forall|j: int| v0.free.len() <= j < after.free.len() implies released_by_death(
            v0,
            after,
            #[trigger] after.free[j],
        ) by {
            if j == before.free.len() {
                assert(died(v0, after, a));
            } else {
                assert(after.free[j] == before.free[j]);
                assert(released_by_death(v0, before, before.free[j]));
                let k = choose|k: int|
                    0 <= k < v0.slots.len() && died(v0, before, k) && v0.slots[k].id == Some(
                        before.free[j],
                    );
                assert(died(v0, after, k));
            }
        }
    } else {
        assert(after.free == before.free);
        assert(after.table == before.table);
        assert forall|k: int|
            0 <= k < v0.slots.len() && #[trigger] died(v0, after, k) && v0.slots[k].id is Some
                implies after.free.contains(v0.slots[k].id->0) by {
            if k == a {
                assert(before.slots[a].id == v0.slots[a].id);
            } else {
                assert(died(v0, before, k));
            }
        }
        assert forall|j: int| v0.free.len() <= j < after.free.len() implies released_by_death(
            v0,
            after,
            #[trigger] after.free[j],
        ) by {
            assert(released_by_death(v0, before, before.free[j]));
            let k = choose|k: int|
                0 <= k < v0.slots.len() && died(v0, before, k) && v0.slots[k].id == Some(
                    before.free[j],
                );
            assert(died(v0, after, k));
        }
    }
    assert(destroying(v0, after, root, stack));
}

proof fn lemma_destroy_end_children(v0: WorldView, cur: WorldView, root: Entity, k: int)
    requires
        destroying(v0, cur, root, Seq::empty()),
        0 <= k < cur.slots.len(),
        cur.slots[k].children is Some,
    ensures
        cur.children_ok(k),
{
    assert(cur.slots[k].live);
    assert(cur.slots[k] == v0.slots[k]);
    assert(v0.children_ok(k));
    let sk = cur.slots[k].children->0;
    assert forall|j: int| 0 <= j < sk.len() implies {
        &&& #[trigger] cur.table.contains_key(sk[j])
        &&& cur.slot(cur.table[sk[j]]).parent == cur.slots[k].id
    } by {
        assert(v0.table.contains_key(sk[j]));
        let t = v0.table[sk[j]];
        assert(v0.live(t));
        if !cur.live(t) {
            assert(died(v0, cur, t.0 as int));
            assert(t != root);
            assert(v0.slot(t).parent == v0.slots[k].id);
            let p = v0.slots[t.0 as int].parent->0;
            assert(v0.slots[k].id == Some(p));
            assert(v0.table[p].0 == k);
            assert(cur.live(v0.table[p]));
            assert(!cur.live(v0.table[v0.slots[t.0 as int].parent->0]));
        }
        assert(cur.live(t));
        assert(cur.table.contains_key(sk[j]));
        assert(cur.table[sk[j]] == t);
        assert(cur.slots[t.0 as int] == v0.slots[t.0 as int]);
        assert(v0.slot(t).parent == v0.slots[k].id);
    }
    assert(cur.children_ok(k));
}

/// Popping a destroyed slot off the stack keeps the invariant of the walk.
proof fn lemma_destroy_skip(v0: WorldView, cur: WorldView, root: Entity, st0: Seq<Entity>, at: Entity)
    requires
        destroying(v0, cur, root, st0.push(at)),
        !cur.live(at),
    ensures
        destroying(v0, cur, root, st0),
{
    let old_stack = st0.push(at);
    assert forall|j: int| 0 <= j < st0.len() implies reachable(v0, root, #[trigger] st0[j]) by {
        assert(old_stack[j] == st0[j]);
    }
    assert forall|t: Entity| #[trigger] old_stack.contains(t) && t != at implies st0.contains(t) by {
        let i = choose|i: int| 0 <= i < old_stack.len() && old_stack[i] == t;
        assert(i < st0.len());
        assert(st0[i] == t);
    }
    assert forall|j: int| 0 <= j < st0.len() implies {
        let s = #[trigger] st0[j];
        s == root || (v0.live(s) && v0.slot(s).parent is Some && !cur.live(
            v0.table[v0.slot(s).parent->0],
        ))
    } by {
        assert(old_stack[j] == st0[j]);
    }
    assert forall|k: int| 0 <= k < v0.slots.len() && #[trigger] died(v0, cur, k) implies {
        &&& (k != root.0 ==> {
            &&& v0.slots[k].parent is Some
            &&& !cur.live(v0.table[v0.slots[k].parent->0])
        })
        &&& forall|j: int|
            0 <= j < v0.children_seq(Entity(k as usize)).len() ==> {
                let t = v0.table[#[trigger] v0.children_seq(Entity(k as usize))[j]];
                !cur.live(t) || st0.contains(t)
            }
    } by {
        assert forall|j: int| 0 <= j < v0.children_seq(Entity(k as usize)).len() implies {
            let t = v0.table[#[trigger] v0.children_seq(Entity(k as usize))[j]];
            !cur.live(t) || st0.contains(t)
        } by {
            let t = v0.table[v0.children_seq(Entity(k as usize))[j]];
            if cur.live(t) {
                assert(old_stack.contains(t));
            }
        }
    }
    if cur.live(root) {
        assert(old_stack.contains(root));
    }
}

/// Once no slot is left to visit, the store is well formed again.
proof fn lemma_destroy_end(v0: WorldView, cur: WorldView, root: Entity)
    requires
        destroying(v0, cur, root, Seq::empty()),
    ensures
        cur.wf(),
{
    assert forall|i: usize| #[trigger] cur.table.contains_key(i) implies {
        &&& i < cur.next
        &&& cur.live(cur.table[i])
        &&& cur.slot(cur.table[i]).id == Some(i)
    } by {
        let t = v0.table[i];
        assert(v0.live(t));
        assert(cur.slots[t.0 as int] == v0.slots[t.0 as int]);
    }
    assert forall|k: int| 0 <= k < cur.slots.len() && (#[trigger] cur.slots[k]).id is Some implies {
        &&& cur.slots[k].live
        &&& cur.table.contains_key(cur.slots[k].id->0)
        &&& cur.table[cur.slots[k].id->0].0 == k
    } by {
        assert(cur.slots[k].live);
        assert(cur.slots[k] == v0.slots[k]);
        let i = v0.slots[k].id->0;
        assert(v0.table.contains_key(i));
        assert(v0.table[i].0 == k);
        assert(cur.live(v0.table[i]));
    }
    assert forall|k: int| 0 <= k < cur.slots.len() && !(#[trigger] cur.slots[k]).live implies {
        &&& cur.slots[k].parent is None
        &&& cur.slots[k].children is None
    } by {}
    assert forall|k: int| 0 <= k < cur.slots.len() && (#[trigger] cur.slots[k]).children is Some
        implies cur.children_ok(k) by {
        lemma_destroy_end_children(v0, cur, root, k);
    }
    assert forall|k: int| 0 <= k < cur.slots.len() && (#[trigger] cur.slots[k]).parent is Some
        implies cur.parent_ok(k) by {
        assert(cur.slots[k].live);
        assert(cur.slots[k] == v0.slots[k]);
        assert(v0.parent_ok(k));
        let p = v0.slots[k].parent->0;
        let q = v0.table[p];
        assert(v0.live(q));
        let kid = v0.slots[k].id->0;
        assert(v0.table[kid].0 == k);
        if !cur.live(q) {
            assert(died(v0, cur, q.0 as int));
            let s = v0.children_seq(q);
            let j = choose|j: int| 0 <= j < s.len() && s[j] == kid;
            assert(q == Entity(q.0 as usize));
            assert(v0.table[s[j]] == Entity(k as usize));
            assert(!cur.live(v0.table[s[j]]) || Seq::<Entity>::empty().contains(v0.table[s[j]]));
        }
        assert(cur.slots[q.0 as int] == v0.slots[q.0 as int]);
    }
    assert(cur.wf());
}

/// The walk's end state, against the store before `target` was detached.
proof fn lemma_despawned(v: WorldView, cur: WorldView, target: Entity)
    requires
        v.wf(),
        v.live(target),
        destroying(v.detach(target), cur, target, Seq::empty()),
    ensures
        despawned(v, cur, target),
{
    let v0 = v.detach(target);
    lemma_detach(v, target);
    assert(!cur.live(target)) by {
        if cur.live(target) {
            assert(Seq::<Entity>::empty().contains(target));
        }
    }
    assert forall|k: int| 0 <= k < v.slots.len() && k != target.0 implies v0.slots[k].parent
        == v.slots[k].parent by {}
    let tid = v.slot(target).id;
    assert forall|k: int| 0 <= k < v.slots.len() && #[trigger] died(v, cur, k) implies {
        &&& (k != target.0 ==> {
            &&& v.slots[k].parent is Some
            &&& !cur.live(v.table[v.slots[k].parent->0])
        })
        &&& forall|j: int|
            0 <= j < v.children_seq(Entity(k as usize)).len() ==> !cur.live(
                v.table[#[trigger] v.children_seq(Entity(k as usize))[j]],
            )
    } by {
        assert(died(v0, cur, k));
        let e = Entity(k as usize);
        assert forall|j: int| 0 <= j < v.children_seq(e).len() implies !cur.live(
            v.table[#[trigger] v.children_seq(e)[j]],
        ) by {
            let x = v.children_seq(e)[j];
            assert(v.slots[k].children is Some);
            assert(v.children_ok(k));
            assert(v.table.contains_key(x));
            if v.table[x] != target {
                let t = v.table[x];
                assert(v.live(t));
                assert(v.slot(t).id == Some(x));
                if v0.children_seq(e) == v.children_seq(e) {
                    assert(v0.children_seq(e)[j] == x);
                } else {
                    assert(v.slot(target).parent is Some);
                    assert(v.parent_ok(target.0 as int));
                    assert(x != tid->0) by {
                        if x == tid->0 {
                            assert(v.slots[target.0 as int].id == tid);
                            assert(v.table[tid->0].0 == target.0);
                        }
                    }
                    let p = v.slot(target).parent->0;
                    let q = v.table[p];
                    assert(e == q);
                    lemma_without(v.children_seq(q), tid->0);
                    assert(v0.children_seq(e) == without(v.children_seq(q), tid->0));
                    assert(v0.children_seq(e).contains(x));
                    let i = choose|i: int| 0 <= i < v0.children_seq(e).len() && v0.children_seq(e)[i] == x;
                    assert(v0.children_seq(e)[i] == x);
                }
            }
        }
    }
    assert forall|k: int|
        0 <= k < v.slots.len() && #[trigger] died(v, cur, k) && v.slots[k].id is Some
            implies cur.free.contains(v.slots[k].id->0) by {
        assert(died(v0, cur, k));
    }
    assert forall|k: int| 0 <= k < v.slots.len() && #[trigger] died(v, cur, k) implies reachable(
        v0,
        target,
        Entity(k as usize),
    ) by {
        assert(died(v0, cur, k));
    }
    assert forall|j: int| v.free.len() <= j < cur.free.len() implies released_by_death(
        v,
        cur,
        #[trigger] cur.free[j],
    ) by {
        assert(released_by_death(v0, cur, cur.free[j]));
        let k = choose|k: int|
            0 <= k < v0.slots.len() && #[trigger] died(v0, cur, k) && v0.slots[k].id == Some(cur.free[j]);
        assert(died(v, cur, k));
    }
}

impl World {
    /// Destroys `target` and every slot listed below it, after taking
    /// `target` off its parent's list, and releases their identities.
    pub fn rollsafe_despawn_recursive(&mut self, target: Entity)
        requires
            old(self).wf(),
        ensures
            final(self).wf(),
            despawned(old(self)@, final(self)@, target),
    {
        proof {
            self.lemma_view_wf();
        }
        let ghost v = self@;
        if !self.is_alive(target) {
            proof {
                assert forall|k: int| 0 <= k < v.slots.len() implies {
                    &&& (#[trigger] v.slots[k]).live ==> v.slots[k] == v.slots[k]
                    &&& !v.slots[k].live ==> v.slots[k] == dead_slot()
                } by {
                    if !v.slots[k].live && v.slots[k].id is Some {
                        assert(v.slots[k].live);
                    }
                }
                assert(v.free.take(v.free.len() as int) == v.free);
                assert forall|i: usize| #[trigger] v.table.contains_key(i) implies v.live(v.table[i]) by {}
            }
            return;
        }
        self.remove_parent(target);
        proof {
            lemma_detach(v, target);
        }
        let ghost v0 = self@;
        let mut stack: Vec<Entity> = Vec::new();
        stack.push(target);
        proof {
            assert(stack@[0] == target);
            assert forall|k: int| 0 <= k < v0.slots.len() implies {
                &&& (#[trigger] v0.slots[k]).live ==> v0.slots[k] == v0.slots[k]
                &&& !v0.slots[k].live ==> v0.slots[k] == dead_slot()
            } by {
                if !v0.slots[k].live && v0.slots[k].id is Some {
                    assert(v0.slots[k].live);
                }
            }
            assert(v0.free.take(v0.free.len() as int) == v0.free);
            assert forall|i: usize| #[trigger] v0.table.contains_key(i) implies v0.live(v0.table[i]) by {}
            assert(is_path(v0, target, seq![target]));
            assert(seq![target].last() == target);
            assert(reachable(v0, target, stack@[0]));
            assert(destroying(v0, v0, target, stack@));
        }
        while stack.len() > 0
            invariant
                self.shape_ok(),
                destroying(v0, self@, target, stack@),
            decreases live_count(self@.slots), stack@.len(),
        {
            let ghost st_before = stack@;
            let at = match stack.pop() {
                Some(e) => e,
                None => target,
            };
            let ghost st0 = stack@;
            proof {
                assert(st_before == st0.push(at));
            }
            if self.is_alive(at) {
                let ghost before = self@;
                let ghost mut pushed: Seq<Entity> = Seq::empty();
                proof {
                    assert(before.slots[at.0 as int] == v0.slots[at.0 as int]);
                }
                match self.children(at) {
                    Some(list) => {
                        let n = list.len();
                        let mut j: usize = 0;
                        while j < n
                            invariant
                                n == list@.len(),
                                j <= n,
                                list@ == v0.children_seq(at),
                                self@ == before,
                                destroying(v0, before, target, st0.push(at)),
                                stack@ == st0 + pushed,
                                forall|i: int|
                                    0 <= i < j && before.table.contains_key(
                                        #[trigger] v0.children_seq(at)[i],
                                    ) ==> pushed.contains(v0.table[v0.children_seq(at)[i]]),
                                forall|i: int|
                                    0 <= i < pushed.len() ==> found_below(v0, before, at, #[trigger] pushed[i]),
                            decreases n - j,
                        {
                            let x = list.get(j);
                            match self.resolve(x) {
                                Some(e) => {
                                    stack.push(e);
                                    proof {
                                        let old_pushed = pushed;
                                        pushed = pushed.push(e);
                                        assert(pushed[pushed.len() - 1] == e);
                                        assert forall|i: int|
                                            0 <= i < j + 1 && before.table.contains_key(
                                                #[trigger] v0.children_seq(at)[i],
                                            ) implies pushed.contains(v0.table[v0.children_seq(at)[i]]) by {
                                            if i < j {
                                                let w = choose|w: int| 0 <= w < old_pushed.len() && old_pushed[w] == v0.table[v0.children_seq(at)[i]];
                                                assert(pushed[w] == old_pushed[w]);
                                            }
                                        }
                                        assert forall|i: int| 0 <= i < pushed.len() implies found_below(
                                            v0,
                                            before,
                                            at,
                                            #[trigger] pushed[i],
                                        ) by {
                                            if i < old_pushed.len() {
                                                assert(pushed[i] == old_pushed[i]);
                                                assert(found_below(v0, before, at, old_pushed[i]));
                                            } else {
                                                assert(before.table.contains_key(v0.children_seq(at)[j as int]));
                                                assert(pushed[i] == v0.table[v0.children_seq(at)[j as int]]);
                                            }
                                        }
                                        assert(stack@ == st0 + pushed);
                                    }
                                },
                                None => {},
                            }
                            j = j + 1;
                        }
                    },
                    None => {},
                }
                self.destroy_slot(at);
                proof {
                    lemma_destroy_step(v0, before, target, st0, at, pushed);
                    lemma_live_count_kill(before.slots, at.0 as int);
                    assert(self@.slots == before.slots.update(at.0 as int, dead_slot()));
                }
            } else {
                proof {
                    lemma_destroy_skip(v0, self@, target, st0, at);
                }
            }
        }
        proof {
            assert(stack@ == Seq::<Entity>::empty());
            lemma_destroy_end(v0, self@, target);
            self.lemma_wf_from_view();
            lemma_despawned(v, self@, target);
        }
    }
}

} // verus!
