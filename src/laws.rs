//! What holds of every store that the library's operations produce.
use vstd::prelude::*;
use crate::components::Entity;
use crate::child_builder::{attach_all, detach_all, lemma_detach_all, splice_children, under};
use crate::despawn::{despawned, died, is_path, listed_by};
use crate::world::{lemma_attach, lemma_clear, lemma_detach, lemma_with_id, WorldView};

verus! {

/// A parent marker names an identity that resolves to a live slot whose list
/// holds the child's identity exactly once; and every identity listed by a
/// live slot resolves to a live slot whose parent marker names that slot.
/// Every operation of `World` keeps `wf`, so this holds after any sequence of
/// them.
pub proof fn lemma_parent_child_agreement(v: WorldView, c: Entity, e: Entity, j: int)
    requires
        v.wf(),
    ensures
        v.live(c) && v.slot(c).parent is Some ==> {
            let q = v.table[v.slot(c).parent->0];
            &&& v.table.contains_key(v.slot(c).parent->0)
            &&& v.live(q)
            &&& v.slot(c).id is Some
            &&& v.children_seq(q).contains(v.slot(c).id->0)
            &&& v.children_seq(q).no_duplicates()
        },
        v.live(e) && 0 <= j < v.children_seq(e).len() ==> {
            let x = v.children_seq(e)[j];
            &&& v.table.contains_key(x)
            &&& v.live(v.table[x])
            &&& v.slot(v.table[x]).parent == v.slot(e).id
        },
{
    if v.live(c) && v.slot(c).parent is Some {
        assert(v.parent_ok(c.0 as int));
        let q = v.table[v.slot(c).parent->0];
        assert(v.live(q));
        if v.slot(q).children is Some {
            assert(v.children_ok(q.0 as int));
        }
    }
    if v.live(e) && 0 <= j < v.children_seq(e).len() {
        assert(v.children_ok(e.0 as int));
        assert(v.table.contains_key(v.children_seq(e)[j]));
    }
}

/// No live slot holds an empty list, and no parent marker names a released
/// identity.
pub proof fn lemma_no_dangling_empties(v: WorldView, e: Entity)
    requires
        v.wf(),
    ensures
        v.live(e) && v.slot(e).children is Some ==> v.slot(e).children->0.len() > 0,
        v.live(e) && v.slot(e).parent is Some ==> !v.free.contains(v.slot(e).parent->0),
{
    if v.live(e) && v.slot(e).children is Some {
        assert(v.children_ok(e.0 as int));
    }
    if v.live(e) && v.slot(e).parent is Some {
        assert(v.parent_ok(e.0 as int));
        let p = v.slot(e).parent->0;
        if v.free.contains(p) {
            let j = choose|j: int| 0 <= j < v.free.len() && v.free[j] == p;
        }
    }
}

/// After a recursive destroy of `root`, no slot reachable from `root` through
/// the lists is live, and the identity of every destroyed slot is in the
/// pool of released identities and no longer resolves.
pub proof fn lemma_recursive_destroy_complete(
    v: WorldView,
    w: WorldView,
    root: Entity,
    path: Seq<Entity>,
    k: int,
)
    requires
        v.wf(),
        v.live(root),
        despawned(v, w, root),
    ensures
        is_path(v, root, path) ==> !w.live(path.last()),
        0 <= k < v.slots.len() && died(v, w, k) && v.slots[k].id is Some ==> {
            &&& w.free.contains(v.slots[k].id->0)
            &&& !w.table.contains_key(v.slots[k].id->0)
        },
    decreases path.len(),
{
    if is_path(v, root, path) && path.len() > 1 {
        let prefix = path.drop_last();
        assert(is_path(v, root, prefix)) by {
            assert forall|i: int| 0 <= i < prefix.len() - 1 implies listed_by(
                v,
                #[trigger] prefix[i],
                prefix[i + 1],
            ) by {
                assert(prefix[i] == path[i]);
                assert(prefix[i + 1] == path[i + 1]);
            }
        }
        lemma_recursive_destroy_complete(v, w, root, prefix, k);
        let a = prefix.last();
        let b = path.last();
        assert(a == path[path.len() - 2]);
        assert(listed_by(v, path[path.len() - 2], path[path.len() - 1]));
        let j = choose|j: int|
            0 <= j < v.children_seq(a).len() && v.table.contains_key(v.children_seq(a)[j])
                && #[trigger] v.table[v.children_seq(a)[j]] == b;
        assert(v.children_seq(a).len() > 0);
        assert(v.live(a)) by {
            if path.len() > 2 {
                let z = path[path.len() - 3];
                assert(listed_by(v, path[path.len() - 3], path[path.len() - 2]));
                let j2 = choose|j2: int|
                    0 <= j2 < v.children_seq(z).len() && v.table.contains_key(v.children_seq(z)[j2])
                        && #[trigger] v.table[v.children_seq(z)[j2]] == a;
                assert(v.live(v.table[v.children_seq(z)[j2]]));
            }
        }
        assert(died(v, w, a.0 as int));
        assert(Entity(a.0 as usize) == a);
    }
    if 0 <= k < v.slots.len() && died(v, w, k) && v.slots[k].id is Some {
        let i = v.slots[k].id->0;
        assert(v.table.contains_key(i));
        assert(v.table[i].0 == k);
    }
}

proof fn lemma_detach_keeps(v: WorldView, p: Entity, c: Entity)
    requires
        v.wf(),
        v.live(c),
        v.live(p),
        v.children_seq(p).len() == 0,
    ensures
        v.detach(c).children_seq(p).len() == 0,
        v.detach(c).slot(c).parent is None,
        forall|k: int|
            0 <= k < v.slots.len() && v.slots[k].parent is None ==> (#[trigger] v.detach(c).slots[k]).parent
                is None,
{
    lemma_detach(v, c);
    if v.slot(c).parent is Some {
        assert(v.parent_ok(c.0 as int));
        let q = v.table[v.slot(c).parent->0];
        assert(q != p);
    }
}

proof fn lemma_detach_all_roots(v: WorldView, p: Entity, b: Seq<Entity>)
    requires
        v.wf(),
        v.live(p),
        v.children_seq(p).len() == 0,
    ensures
        detach_all(v, p, true, b).children_seq(p).len() == 0,
        forall|i: int|
            0 <= i < b.len() && v.live(b[i]) ==> (#[trigger] detach_all(v, p, true, b).slot(
                b[i],
            )).parent is None,
    decreases b.len(),
{
    lemma_detach_all(v, p, true, b);
    if b.len() > 0 {
        let b0 = b.drop_last();
        lemma_detach_all_roots(v, p, b0);
        lemma_detach_all(v, p, true, b0);
        let d0 = detach_all(v, p, true, b0);
        let c = b.last();
        assert(d0.live(p));
        if d0.live(c) {
            assert(!under(d0, c, p)) by {
                if under(d0, c, p) {
                    assert(d0.parent_ok(c.0 as int));
                    let pid = d0.slot(p).id->0;
                    assert(d0.slots[p.0 as int].id == Some(pid));
                    assert(d0.table[pid].0 == p.0);
                    assert(d0.children_seq(p).contains(d0.slot(c).id->0));
                }
            }
            lemma_detach_keeps(d0, p, c);
        }
        assert forall|i: int| 0 <= i < b.len() && v.live(b[i]) implies (#[trigger] detach_all(
            v,
            p,
            true,
            b,
        ).slot(b[i])).parent is None by {
            if i < b.len() - 1 {
                assert(b0[i] == b[i]);
                assert(d0.slot(b0[i]).parent is None);
                assert(d0.live(b[i]));
            } else {
                assert(d0.live(c));
            }
        }
    }
}

proof fn lemma_attach_all_list(d: WorldView, p: Entity, xs: Seq<Entity>, n: int)
    requires
        d.wf(),
        d.live(p),
        d.children_seq(p).len() == 0,
        xs.no_duplicates(),
        !xs.contains(p),
        forall|i: int| 0 <= i < xs.len() ==> d.live(#[trigger] xs[i]),
        forall|i: int| 0 <= i < xs.len() ==> (#[trigger] d.slot(xs[i])).parent is None,
        d.next + xs.len() < usize::MAX,
        0 <= n <= xs.len(),
    ensures
        ({
            let a = attach_all(d, p, xs.take(n), 0);
            &&& a.wf()
            &&& a.live(p)
            &&& forall|k: int| 0 <= k < d.slots.len() ==> (#[trigger] a.slots[k]).live == d.slots[k].live
            &&& a.slots.len() == d.slots.len()
            &&& a.next + (if a.slot(p).id is Some {
                0int
            } else {
                1
            }) <= d.next + n + 1
            &&& forall|i: int| n <= i < xs.len() ==> (#[trigger] a.slot(xs[i])).parent is None
            &&& a.children_seq(p).len() == n
            &&& forall|i: int| 0 <= i < n ==> (#[trigger] a.slot(xs[i])).id is Some
            &&& forall|i: int|
                0 <= i < n ==> #[trigger] a.children_seq(p)[i] == a.slot(xs[i]).id->0
        }),
    decreases n,
{
    if n == 0 {
        assert(xs.take(0) == Seq::<Entity>::empty());
    } else {
        lemma_attach_all_list(d, p, xs, n - 1);
        let a = attach_all(d, p, xs.take(n - 1), 0);
        let c = xs[n - 1];
        assert(xs.take(n).drop_last() == xs.take(n - 1));
        assert(xs.take(n).last() == c);
        assert(a.live(c));
        assert(c != p) by {
            if c == p {
                assert(xs.contains(p));
            }
        }
        assert(a.slot(c).parent is None);
        lemma_with_id(a, p);
        let w0 = a.with_id(p);
        lemma_with_id(w0, c);
        let w1 = w0.with_id(c);
        let len = w1.children_seq(p).len();
        assert(len == n - 1);
        lemma_attach(w1, p, c, len as int);
        let a2 = w1.attach(p, c, len as int);
        assert(attach_all(d, p, xs.take(n), 0) == a2);
        let cid = w1.slot(c).id->0;
        assert(a2.children_seq(p) == w1.children_seq(p).insert(len as int, cid));
        assert forall|i: int| 0 <= i < n implies #[trigger] a2.children_seq(p)[i] == a2.slot(
            xs[i],
        ).id->0 by {
            if i < n - 1 {
                assert(a.children_seq(p)[i] == a.slot(xs[i]).id->0);
                assert(xs[i] != c);
                assert(a.slot(xs[i]).id is Some);
            }
        }
        assert forall|i: int| 0 <= i < n implies (#[trigger] a2.slot(xs[i])).id is Some by {
            if i < n - 1 {
                assert(a.slot(xs[i]).id is Some);
            }
        }
        assert forall|i: int| n <= i < xs.len() implies (#[trigger] a2.slot(xs[i])).parent is None by {
            assert(xs[i] != c);
            assert(a.slot(xs[i]).parent is None);
        }
    }
}

proof fn lemma_detach_all_parentless(v: WorldView, p: Entity, b: Seq<Entity>)
    requires
        v.wf(),
    ensures
        forall|i: int|
            0 <= i < b.len() && v.live(b[i]) ==> (#[trigger] detach_all(v, p, false, b).slot(
                b[i],
            )).parent is None,
    decreases b.len(),
{
    lemma_detach_all(v, p, false, b);
    if b.len() > 0 {
        let b0 = b.drop_last();
        lemma_detach_all_parentless(v, p, b0);
        lemma_detach_all(v, p, false, b0);
        let d0 = detach_all(v, p, false, b0);
        let c = b.last();
        if d0.live(c) {
            lemma_detach(d0, c);
        }
        assert forall|i: int| 0 <= i < b.len() && v.live(b[i]) implies (#[trigger] detach_all(
            v,
            p,
            false,
            b,
        ).slot(b[i])).parent is None by {
            if i < b.len() - 1 {
                assert(b0[i] == b[i]);
                assert(d0.slot(b0[i]).parent is None);
                assert(d0.live(b[i]));
            } else {
                assert(d0.live(c));
            }
        }
    }
}

proof fn lemma_attach_all_splice(d: WorldView, p: Entity, xs: Seq<Entity>, k: int, n: int)
    requires
        d.wf(),
        d.live(p),
        0 <= k <= d.children_seq(p).len(),
        xs.no_duplicates(),
        !xs.contains(p),
        forall|i: int| 0 <= i < xs.len() ==> d.live(#[trigger] xs[i]),
        forall|i: int| 0 <= i < xs.len() ==> (#[trigger] d.slot(xs[i])).parent is None,
        d.next + xs.len() < usize::MAX,
        0 <= n <= xs.len(),
    ensures
        ({
            let l = d.children_seq(p);
            let a = attach_all(d, p, xs.take(n), k - l.len());
            let s = a.children_seq(p);
            &&& a.wf()
            &&& a.live(p)
            &&& forall|j: int| 0 <= j < d.slots.len() ==> (#[trigger] a.slots[j]).live == d.slots[j].live
            &&& a.slots.len() == d.slots.len()
            &&& a.next + (if a.slot(p).id is Some {
                0int
            } else {
                1
            }) <= d.next + n + 1
            &&& forall|i: int| n <= i < xs.len() ==> (#[trigger] a.slot(xs[i])).parent is None
            &&& forall|i: int| 0 <= i < n ==> (#[trigger] a.slot(xs[i])).id is Some
            &&& s.len() == l.len() + n
            &&& forall|i: int| 0 <= i < k ==> #[trigger] s[i] == l[i]
            &&& forall|i: int| 0 <= i < n ==> #[trigger] s[k + i] == a.slot(xs[i]).id->0
            &&& forall|i: int| k <= i < l.len() ==> #[trigger] s[i + n] == l[i]
        }),
    decreases n,
{
    let l = d.children_seq(p);
    let off = k - l.len();
    if n == 0 {
        assert(xs.take(0) == Seq::<Entity>::empty());
    } else {
        lemma_attach_all_splice(d, p, xs, k, n - 1);
        let a = attach_all(d, p, xs.take(n - 1), off);
        let c = xs[n - 1];
        assert(xs.take(n).drop_last() == xs.take(n - 1));
        assert(xs.take(n).last() == c);
        assert(a.live(c));
        assert(c != p) by {
            if c == p {
                assert(xs.contains(p));
            }
        }
        assert(a.slot(c).parent is None);
        lemma_with_id(a, p);
        let w0 = a.with_id(p);
        lemma_with_id(w0, c);
        let w1 = w0.with_id(c);
        let s0 = w1.children_seq(p);
        assert(s0 == a.children_seq(p));
        let pos = s0.len() + off;
        assert(pos == k + n - 1);
        lemma_attach(w1, p, c, pos);
        let a2 = w1.attach(p, c, pos);
        assert(attach_all(d, p, xs.take(n), off) == a2);
        let cid = w1.slot(c).id->0;
        let s = a2.children_seq(p);
        assert(s == s0.insert(pos, cid));
        assert forall|i: int| 0 <= i < k implies #[trigger] s[i] == l[i] by {
            assert(s[i] == s0[i]);
        }
        assert forall|i: int| k <= i < l.len() implies #[trigger] s[i + n] == l[i] by {
            assert(a.children_seq(p)[i + (n - 1)] == l[i]);
            assert(s[i + n] == s0[i + (n - 1)]);
        }
        assert forall|i: int| 0 <= i < n implies #[trigger] s[k + i] == a2.slot(xs[i]).id->0 by {
            if i < n - 1 {
                assert(s[k + i] == s0[k + i]);
                assert(xs[i] != c);
                assert(a.slot(xs[i]).id is Some);
            }
        }
        assert forall|i: int| 0 <= i < n implies (#[trigger] a2.slot(xs[i])).id is Some by {
            if i < n - 1 {
                assert(a.slot(xs[i]).id is Some);
            }
        }
        assert forall|i: int| n <= i < xs.len() implies (#[trigger] a2.slot(xs[i])).parent is None by {
            assert(xs[i] != c);
            assert(a.slot(xs[i]).parent is None);
        }
    }
}

/// Inserting `xs` at `index` of `p`'s list gives, where `l` is what is left
/// of that list once each slot of `xs` is taken off its parent and `k` is
/// `index` or the end of `l`: the first `k` of `l`, then the identities of
/// `xs` in the order given, then the rest of `l`.
pub proof fn lemma_insert_list(v: WorldView, p: Entity, index: int, xs: Seq<Entity>)
    requires
        v.wf(),
        v.live(p),
        0 <= index,
        !xs.contains(p),
        xs.no_duplicates(),
        forall|i: int| 0 <= i < xs.len() ==> v.live(#[trigger] xs[i]),
        v.next + xs.len() < usize::MAX,
    ensures
        ({
            let l = detach_all(v, p, false, xs).children_seq(p);
            let k = if index < l.len() {
                index
            } else {
                l.len() as int
            };
            let w = splice_children(v, p, Some(index), xs);
            let s = w.children_seq(p);
            &&& s.len() == l.len() + xs.len()
            &&& forall|i: int| 0 <= i < k ==> #[trigger] s[i] == l[i]
            &&& forall|i: int|
                0 <= i < xs.len() ==> {
                    &&& (#[trigger] w.slot(xs[i])).id is Some
                    &&& s[k + i] == w.slot(xs[i]).id->0
                    &&& w.slot(xs[i]).parent == w.slot(p).id
                }
            &&& forall|i: int| k <= i < l.len() ==> #[trigger] s[i + xs.len()] == l[i]
        }),
{
    lemma_detach_all(v, p, false, xs);
    lemma_detach_all_parentless(v, p, xs);
    let d = detach_all(v, p, false, xs);
    let l = d.children_seq(p);
    let k = if index < l.len() { index } else { l.len() as int };
    assert(d.live(p));
    assert forall|i: int| 0 <= i < xs.len() implies d.live(#[trigger] xs[i]) by {
        assert(v.live(xs[i]));
    }
    assert forall|i: int| 0 <= i < xs.len() implies (#[trigger] d.slot(xs[i])).parent is None by {
        assert(v.live(xs[i]));
    }
    lemma_attach_all_splice(d, p, xs, k, xs.len() as int);
    assert(xs.take(xs.len() as int) == xs);
    let w = attach_all(d, p, xs, k - l.len());
    assert(splice_children(v, p, Some(index), xs) == w);
    assert forall|i: int| 0 <= i < xs.len() implies (#[trigger] w.slot(xs[i])).parent == w.slot(p).id by {
        let x = w.children_seq(p)[k + i];
        assert(w.slots[p.0 as int].children is Some);
        assert(w.children_ok(p.0 as int));
        assert(w.table.contains_key(x));
        assert(w.slots[xs[i].0 as int].id == Some(x));
        assert(w.table[x].0 == xs[i].0);
    }
}

/// Replacing the children of `p` by `xs` and then reading `p`'s list gives
/// the identities of `xs`, in the order given, whatever `p` had before.
pub proof fn lemma_replace_round_trip(v: WorldView, p: Entity, xs: Seq<Entity>)
    requires
        v.wf(),
        v.live(p),
        !xs.contains(p),
        xs.no_duplicates(),
        forall|i: int| 0 <= i < xs.len() ==> v.live(#[trigger] xs[i]),
        v.next + xs.len() < usize::MAX,
    ensures
        ({
            let w = splice_children(v.clear(p), p, None, xs);
            &&& w.children_seq(p).len() == xs.len()
            &&& forall|i: int|
                0 <= i < xs.len() ==> {
                    &&& (#[trigger] w.slot(xs[i])).id is Some
                    &&& w.children_seq(p)[i] == w.slot(xs[i]).id->0
                }
        }),
{
    lemma_clear(v, p);
    let c0 = v.clear(p);
    assert(c0.slots[p.0 as int].children is None);
    assert(c0.live(p));
    assert forall|i: int| 0 <= i < xs.len() implies c0.live(#[trigger] xs[i]) by {
        assert(v.live(xs[i]));
    }
    lemma_detach_all(c0, p, true, xs);
    lemma_detach_all_roots(c0, p, xs);
    let d = detach_all(c0, p, true, xs);
    assert(d.live(p));
    assert forall|i: int| 0 <= i < xs.len() implies d.live(#[trigger] xs[i]) by {
        assert(c0.live(xs[i]));
    }
    assert forall|i: int| 0 <= i < xs.len() implies (#[trigger] d.slot(xs[i])).parent is None by {
        assert(c0.live(xs[i]));
    }
    lemma_attach_all_list(d, p, xs, xs.len() as int);
    assert(xs.take(xs.len() as int) == xs);
    let w = attach_all(d, p, xs, 0);
    assert(splice_children(c0, p, None, xs) == w);
}

/// Adding a child that is already under `p` changes nothing.
proof fn lemma_add_present(r: WorldView, p: Entity, c: Entity)
    requires
        r.live(p),
        r.live(c),
        under(r, c, p),
    ensures
        splice_children(r, p, None, seq![c]) == r,
{
    let b = seq![c];
    assert(b.drop_last() == Seq::<Entity>::empty());
    assert(b.last() == c);
    assert(detach_all(r, p, true, Seq::<Entity>::empty()) == r);
    assert(detach_all(r, p, true, b) == r);
    assert(attach_all(r, p, Seq::<Entity>::empty(), 0) == r);
    assert(attach_all(r, p, b, 0) == r);
}

/// Adding the same child to the same parent twice in a row leaves the store
/// as adding it once does.
pub proof fn lemma_add_child_idempotent(v: WorldView, p: Entity, c: Entity)
    requires
        v.wf(),
        p != c,
        v.next + 1 < usize::MAX,
    ensures
        splice_children(splice_children(v, p, None, seq![c]), p, None, seq![c])
            == splice_children(v, p, None, seq![c]),
{
    let b = seq![c];
    assert(b.drop_last() == Seq::<Entity>::empty());
    assert(b.last() == c);
    assert(detach_all(v, p, true, Seq::<Entity>::empty()) == v);
    if v.live(p) && v.live(c) {
        if under(v, c, p) {
            lemma_add_present(v, p, c);
        } else {
            let d = v.detach(c);
            assert(detach_all(v, p, true, b) == d);
            lemma_detach(v, c);
            lemma_with_id(d, p);
            let w0 = d.with_id(p);
            lemma_with_id(w0, c);
            let w1 = w0.with_id(c);
            let len = w1.children_seq(p).len() as int;
            assert(attach_all(d, p, Seq::<Entity>::empty(), 0) == d);
            let r = w1.attach(p, c, len);
            assert(attach_all(d, p, b, 0) == r);
            assert(splice_children(v, p, None, b) == r);
            lemma_attach(w1, p, c, len);
            assert(r.slots[p.0 as int].live && r.slots[c.0 as int].live);
            assert(r.slot(p).id == w1.slot(p).id);
            assert(under(r, c, p));
            lemma_add_present(r, p, c);
        }
    } else if v.live(p) {
        assert(detach_all(v, p, true, b) == v);
        assert(attach_all(v, p, Seq::<Entity>::empty(), 0) == v);
        assert(attach_all(v, p, b, 0) == v);
    }
}

} // verus!
