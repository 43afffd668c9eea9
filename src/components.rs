//! The per-entity markers that model the hierarchy.
use vstd::prelude::*;
use smallvec::SmallVec;

verus! {

/// A handle to a storage slot of the host store.
#[derive(Clone, Copy, Debug, PartialEq, Eq, Structural)]
pub struct Entity(pub usize);

/// The stable identity attached to an entity once it takes part in the hierarchy.
#[derive(Clone, Copy, Debug, PartialEq, Eq, Structural)]
pub struct RollSafeId(pub usize);

/// Names the parent of the entity that carries it.
#[derive(Clone, Copy, Debug, PartialEq, Eq, Structural)]
pub struct RollSafeParent(pub RollSafeId);

impl RollSafeParent {
    /// Gets the identity of the parent.
    pub fn get(&self) -> (r: RollSafeId)
        ensures
            r == self.0,
    {
        self.0
    }

    /// Gets the parent identity as a slice of length one.
    pub fn as_slice(&self) -> (r: &[RollSafeId])
        ensures
            r@ == seq![self.0],
    {
        core::slice::from_ref(&self.0)
    }
}

/// Relies on `core::slice::from_ref`: a slice of length one holding the referenced value.
pub assume_specification<T>[ core::slice::from_ref::<T> ](s: &T) -> (r: &[T])
    ensures
        r@ == seq![*s],
;

/// A small inline list of identities, kept in a `SmallVec`. Verus cannot
/// declare `SmallVec` itself (its `Array` bound is refused), so the vector is
/// held here out of Verus's sight and read only through the wrappers below.
#[verifier::external_body]
#[derive(Debug)]
pub struct IdList {
    v: SmallVec<[RollSafeId; 8]>,
}

/// What a list of identities holds, in order.
pub uninterp spec fn ids_of(l: IdList) -> Seq<usize>;

/// Relies on `SmallVec::new`: the new list is empty.
#[verifier::external_body]
fn ids_new() -> (r: IdList)
    ensures
        ids_of(r) == Seq::<usize>::empty(),
{
    IdList { v: SmallVec::new() }
}

/// Relies on `SmallVec::len`: the number of elements stored.
#[verifier::external_body]
fn ids_len(l: &IdList) -> (r: usize)
    ensures
        r == ids_of(*l).len(),
{
    l.v.len()
}

/// Relies on indexing a `SmallVec` (through its slice): the element at `i`.
#[verifier::external_body]
fn ids_get(l: &IdList, i: usize) -> (r: RollSafeId)
    requires
        i < ids_of(*l).len(),
    ensures
        r.0 == ids_of(*l)[i as int],
{
    l.v[i]
}

/// Relies on `SmallVec::push`: appends the value at the end (it fails only
/// where the capacity would overflow memory, as `Vec::push` does).
#[verifier::external_body]
fn ids_push(l: &mut IdList, x: RollSafeId)
    ensures
        ids_of(*final(l)) == ids_of(*old(l)).push(x.0),
{
    l.v.push(x)
}

/// Relies on `SmallVec::insert`: puts the value at `i`, shifting what follows;
/// it panics where `i` is past the end.
#[verifier::external_body]
fn ids_insert(l: &mut IdList, i: usize, x: RollSafeId)
    requires
        i <= ids_of(*old(l)).len(),
    ensures
        ids_of(*final(l)) == ids_of(*old(l)).insert(i as int, x.0),
{
    l.v.insert(i, x)
}

/// The ordered identities of an entity's children.
///
/// A list held by a live entity is never empty and never holds an identity twice.
#[derive(Debug)]
pub struct RollSafeChildren(pub(crate) IdList);

impl View for RollSafeChildren {
    type V = Seq<usize>;

    closed spec fn view(&self) -> Seq<usize> {
        ids_of(self.0)
    }
}

/// `s` without the value `x`, the rest kept in order.
pub open spec fn without(s: Seq<usize>, x: usize) -> Seq<usize> {
    s.filter(|y: usize| y != x)
}

/// What `without` keeps: every value of `s` but `x`, and no value twice where
/// `s` held none twice.
pub proof fn lemma_without(s: Seq<usize>, x: usize)
    ensures
        forall|y: usize| #[trigger] without(s, x).contains(y) <==> (s.contains(y) && y != x),
        s.no_duplicates() ==> without(s, x).no_duplicates(),
        !s.contains(x) ==> without(s, x) == s,
    decreases s.len(),
{
    reveal(Seq::filter);
    if s.len() > 0 {
        let d = s.drop_last();
        lemma_without(d, x);
        let f = without(s, x);
        assert(f == if s.last() != x { without(d, x).push(s.last()) } else { without(d, x) });
        assert forall|y: usize| #[trigger] f.contains(y) <==> (s.contains(y) && y != x) by {
            if s.contains(y) && y != x {
                let i = choose|i: int| 0 <= i < s.len() && s[i] == y;
                if i < s.len() - 1 {
                    assert(d[i] == y);
                    assert(without(d, x).contains(y));
                    let j = choose|j: int| 0 <= j < without(d, x).len() && without(d, x)[j] == y;
                    assert(f[j] == y);
                } else {
                    assert(f[f.len() - 1] == y);
                }
            }
            if f.contains(y) {
                let j = choose|j: int| 0 <= j < f.len() && f[j] == y;
                if s.last() != x && j == f.len() - 1 {
                    assert(s[s.len() - 1] == y);
                } else {
                    assert(without(d, x)[j] == y);
                    assert(without(d, x).contains(y));
                    let i = choose|i: int| 0 <= i < d.len() && d[i] == y;
                    assert(s[i] == y);
                }
            }
        }
        if s.no_duplicates() {
            assert(d.no_duplicates());
            if s.last() != x {
                assert(!d.contains(s.last())) by {
                    if d.contains(s.last()) {
                        let i = choose|i: int| 0 <= i < d.len() && d[i] == s.last();
                        assert(s[i] == s[s.len() - 1]);
                    }
                }
                assert(!without(d, x).contains(s.last()));
            }
        }
        if !s.contains(x) {
            assert(!d.contains(x)) by {
                if d.contains(x) {
                    let i = choose|i: int| 0 <= i < d.len() && d[i] == x;
                    assert(s[i] == x);
                }
            }
            assert(s.last() != x) by {
                assert(s[s.len() - 1] == s.last());
            }
            assert(s == d.push(s.last()));
        }
    }
}

impl RollSafeChildren {
    /// A list holding the one identity `id`.
    pub fn single(id: RollSafeId) -> (r: RollSafeChildren)
        ensures
            r@ == seq![id.0],
    {
        let mut v = ids_new();
        ids_push(&mut v, id);
        RollSafeChildren(v)
    }

    /// The number of children.
    pub fn len(&self) -> (r: usize)
        ensures
            r == self@.len(),
    {
        ids_len(&self.0)
    }

    /// The identity of the child at position `i`.
    pub fn get(&self, i: usize) -> (r: RollSafeId)
        requires
            i < self@.len(),
        ensures
            r.0 == self@[i as int],
    {
        ids_get(&self.0, i)
    }

    /// Whether `id` is listed.
    pub fn contains(&self, id: RollSafeId) -> (r: bool)
        ensures
            r == self@.contains(id.0),
    {
        let n = ids_len(&self.0);
        let mut i: usize = 0;
        while i < n
            invariant
                n == self@.len(),
                i <= n,
                forall|j: int| 0 <= j < i ==> self@[j] != id.0,
            decreases n - i,
        {
            if ids_get(&self.0, i).0 == id.0 {
                return true;
            }
            i = i + 1;
        }
        false
    }

    /// The identities in order, as a vector.
    pub fn to_vec(&self) -> (r: Vec<RollSafeId>)
        ensures
            r@.len() == self@.len(),
            forall|j: int| 0 <= j < r@.len() ==> r@[j].0 == self@[j],
    {
        let n = ids_len(&self.0);
        let mut r: Vec<RollSafeId> = Vec::new();
        let mut i: usize = 0;
        while i < n
            invariant
                n == self@.len(),
                i <= n,
                r@.len() == i,
                forall|j: int| 0 <= j < i ==> r@[j].0 == self@[j],
            decreases n - i,
        {
            r.push(ids_get(&self.0, i));
            i = i + 1;
        }
        r
    }

    /// A copy of the list without the identity `id`.
    pub fn without(&self, id: RollSafeId) -> (r: RollSafeChildren)
        ensures
            r@ == without(self@, id.0),
    {
        let n = ids_len(&self.0);
        let mut v = ids_new();
        let mut i: usize = 0;
        while i < n
            invariant
                n == self@.len(),
                i <= n,
                ids_of(v) == without(self@.take(i as int), id.0),
            decreases n - i,
        {
            let x = ids_get(&self.0, i);
            if x.0 != id.0 {
                ids_push(&mut v, x);
            }
            proof {
                assert(self@.take(i + 1).drop_last() == self@.take(i as int));
                reveal(Seq::filter);
            }
            i = i + 1;
        }
        proof {
            assert(self@.take(n as int) == self@);
        }
        RollSafeChildren(v)
    }

    /// A copy of the list with `id` put at position `i`.
    pub fn inserted(&self, i: usize, id: RollSafeId) -> (r: RollSafeChildren)
        requires
            i <= self@.len(),
        ensures
            r@ == self@.insert(i as int, id.0),
    {
        let n = ids_len(&self.0);
        let mut v = ids_new();
        let mut j: usize = 0;
        while j < n
            invariant
                n == self@.len(),
                j <= n,
                ids_of(v) == self@.take(j as int),
            decreases n - j,
        {
            let x = ids_get(&self.0, j);
            proof {
                assert(self@.take(j + 1) == self@.take(j as int).push(x.0));
            }
            ids_push(&mut v, x);
            j = j + 1;
        }
        proof {
            assert(self@.take(n as int) == self@);
        }
        ids_insert(&mut v, i, id);
        RollSafeChildren(v)
    }
}

} // verus!
