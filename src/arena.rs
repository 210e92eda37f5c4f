use crate::addr::Addr;
use vstd::prelude::*;

verus! {

/// Slot storage for values of type `T` with a LIFO free list of handles
/// awaiting reuse. Slots are only ever appended or overwritten.
pub struct Arena<T: Copy> {
    arena: Vec<T>,
    free_idx: Vec<Addr<T>>,
}

impl<T: Copy> Arena<T> {
    /// The values in the slots; the handle with index `i` names `slots()[i - 1]`.
    pub closed spec fn slots(&self) -> Seq<T> {
        self.arena@
    }

    /// The freed handles, the most recently freed last.
    pub closed spec fn free_list(&self) -> Seq<Addr<T>> {
        self.free_idx@
    }

    /// `h` names a slot of this arena.
    pub open spec fn valid(&self, h: Addr<T>) -> bool {
        !h.null_spec() && h.id() <= self.slots().len()
    }

    /// The value in the slot that `h` names.
    pub open spec fn slot(&self, h: Addr<T>) -> T {
        self.slots()[h.id() - 1]
    }

    /// Every handle on the free list names a slot.
    pub open spec fn wf(&self) -> bool {
        forall|i: int| 0 <= i < self.free_list().len() ==> self.valid(#[trigger] self.free_list()[i])
    }

    /// No handle stands twice on the free list.
    pub open spec fn free_distinct(&self) -> bool {
        forall|i: int, j: int|
            0 <= i < j < self.free_list().len() ==> #[trigger] self.free_list()[i].id()
                != #[trigger] self.free_list()[j].id()
    }

    /// `post` and `r` are what allocating `val` in `pre` gives: the most recently
    /// freed handle, its slot overwritten, when there is one; else a new slot at
    /// the end.
    pub open spec fn allocated(pre: Self, val: T, post: Self, r: Addr<T>) -> bool {
        if pre.free_list().len() > 0 {
            &&& r == pre.free_list().last()
            &&& post.free_list() == pre.free_list().drop_last()
            &&& post.slots() == pre.slots().update(r.id() - 1, val)
        } else {
            &&& r.id() == pre.slots().len() + 1
            &&& post.free_list() == pre.free_list()
            &&& post.slots() == pre.slots().push(val)
        }
    }

    /// `post` is what freeing `h` in `pre` gives: `h` pushed on the free list,
    /// the slots untouched.
    pub open spec fn freed(pre: Self, h: Addr<T>, post: Self) -> bool {
        &&& post.free_list() == pre.free_list().push(h)
        &&& post.slots() == pre.slots()
    }

    /// An empty arena; `initial_capacity` is only a hint for the storage.
    pub fn new(initial_capacity: usize) -> (r: Self)
        ensures
            r.wf(),
            r.slots() == Seq::<T>::empty(),
            r.free_list() == Seq::<Addr<T>>::empty(),
    {
        Self { arena: Vec::with_capacity(initial_capacity), free_idx: Vec::new() }
    }

    /// Stores `val` and returns its handle, reusing the most recently freed
    /// handle if there is one.
    pub fn allocate(&mut self, val: T) -> (r: Addr<T>)
        requires
            old(self).wf(),
        ensures
            final(self).wf(),
            final(self).valid(r),
            final(self).slot(r) == val,
            Self::allocated(*old(self), val, *final(self), r),
    {
        if let Some(addr) = self.free_idx.pop() {
            assert(old(self).valid(old(self).free_list().last()));
            let i: usize = addr.index() - 1;
            self.arena.set(i, val);
            addr
        } else {
            self.arena.push(val);
            Addr::new(self.arena.len())
        }
    }

    /// Pushes `addr` on the free list. The slot keeps its value until a later
    /// allocation reuses it.
    pub fn free(&mut self, addr: Addr<T>)
        requires
            old(self).wf(),
            old(self).valid(addr),
        ensures
            final(self).wf(),
            Self::freed(*old(self), addr, *final(self)),
    {
        self.free_idx.push(addr);
    }

    /// The value in the slot that `addr` names.
    pub fn get(&self, addr: Addr<T>) -> (r: &T)
        requires
            self.valid(addr),
        ensures
            *r == self.slot(addr),
    {
        &self.arena[addr.index() - 1]
    }

    /// The slot that `addr` names, to be changed in place.
    pub fn get_mut(&mut self, addr: Addr<T>) -> (r: &mut T)
        requires
            old(self).valid(addr),
        ensures
            *r == old(self).slot(addr),
            final(self).slots() == old(self).slots().update(addr.id() - 1, *final(r)),
            final(self).free_list() == old(self).free_list(),
    {
        &mut self.arena[addr.index() - 1]
    }
}

/// What holds after the first `n` of a run of allocations: the handles handed
/// out so far are non-null, distinct, name slots, and none of them is still on
/// the free list, which stays well-formed and without repeats.
proof fn lemma_allocations_prefix<T: Copy>(
    states: Seq<Arena<T>>,
    vals: Seq<T>,
    hs: Seq<Addr<T>>,
    n: int,
)
    requires
        states.len() == vals.len() + 1,
        hs.len() == vals.len(),
        0 <= n <= vals.len(),
        states[0].wf(),
        states[0].free_distinct(),
        forall|i: int|
            0 <= i < vals.len() ==> #[trigger] Arena::allocated(
                states[i],
                vals[i],
                states[i + 1],
                hs[i],
            ),
    ensures
        states[n].wf(),
        states[n].free_distinct(),
        forall|i: int| 0 <= i < n ==> #[trigger] states[n].valid(hs[i]),
        forall|i: int, j: int| 0 <= i < j < n ==> #[trigger] hs[i].id() != #[trigger] hs[j].id(),
        forall|i: int, k: int|
            0 <= i < n && 0 <= k < states[n].free_list().len() ==> #[trigger] hs[i].id()
                != #[trigger] states[n].free_list()[k].id(),
    decreases n,
{
    if n > 0 {
        let m = n - 1;
        lemma_allocations_prefix(states, vals, hs, m);
        let pre = states[m];
        let post = states[n];
        assert(Arena::allocated(states[m], vals[m], states[m + 1], hs[m]));
        if pre.free_list().len() > 0 {
            let last = pre.free_list().len() - 1;
            assert(pre.valid(pre.free_list()[last]));
            assert forall|k: int| 0 <= k < post.free_list().len() implies post.valid(
                #[trigger] post.free_list()[k],
            ) by {
                assert(post.free_list()[k] == pre.free_list()[k]);
                assert(pre.valid(pre.free_list()[k]));
            }
            assert forall|i: int, j: int| 0 <= i < j < n implies #[trigger] hs[i].id()
                != #[trigger] hs[j].id() by {
                if j == m {
                    assert(hs[i].id() != pre.free_list()[last].id());
                }
            }
            assert forall|i: int, k: int|
                0 <= i < n && 0 <= k < post.free_list().len() implies #[trigger] hs[i].id()
                != #[trigger] post.free_list()[k].id() by {
                assert(post.free_list()[k] == pre.free_list()[k]);
                if i < m {
                    assert(hs[i].id() != pre.free_list()[k].id());
                } else {
                    assert(pre.free_list()[k].id() != pre.free_list()[last].id());
                }
            }
            assert forall|i: int| 0 <= i < n implies #[trigger] post.valid(hs[i]) by {
                if i < m {
                    assert(pre.valid(hs[i]));
                }
            }
        } else {
            assert forall|i: int| 0 <= i < n implies #[trigger] post.valid(hs[i]) by {
                if i < m {
                    assert(pre.valid(hs[i]));
                }
            }
            assert forall|i: int, j: int| 0 <= i < j < n implies #[trigger] hs[i].id()
                != #[trigger] hs[j].id() by {
                if j == m {
                    assert(pre.valid(hs[i]));
                }
            }
        }
    }
}

/// Allocations with no free in between hand out handles that are non-null
/// and pairwise distinct. `states[i]` is the arena before the `i`-th
/// allocation, which stores `vals[i]` and returns `hs[i]`; the run starts from
/// a well-formed arena whose free list holds no handle twice.
pub proof fn lemma_allocations_distinct<T: Copy>(
    states: Seq<Arena<T>>,
    vals: Seq<T>,
    hs: Seq<Addr<T>>,
)
    requires
        states.len() == vals.len() + 1,
        hs.len() == vals.len(),
        states[0].wf(),
        states[0].free_distinct(),
        forall|i: int|
            0 <= i < vals.len() ==> #[trigger] Arena::allocated(
                states[i],
                vals[i],
                states[i + 1],
                hs[i],
            ),
    ensures
        forall|i: int| 0 <= i < hs.len() ==> !(#[trigger] hs[i].null_spec()),
        forall|i: int, j: int|
            0 <= i < hs.len() && 0 <= j < hs.len() && i != j ==> #[trigger] hs[i].id()
                != #[trigger] hs[j].id(),
{
    let n = vals.len() as int;
    lemma_allocations_prefix(states, vals, hs, n);
    assert forall|i: int| 0 <= i < hs.len() implies !(#[trigger] hs[i].null_spec()) by {
        assert(states[n].valid(hs[i]));
    }
    assert forall|i: int, j: int|
        0 <= i < hs.len() && 0 <= j < hs.len() && i != j implies #[trigger] hs[i].id()
        != #[trigger] hs[j].id() by {
        if i > j {
            assert(hs[j].id() != hs[i].id());
        }
    }
}

/// Freed handles are reused last in, first out: allocating `a` gives `ha`,
/// freeing `ha` and then allocating `b` gives `ha` again, now holding `b`.
pub proof fn lemma_free_then_allocate_reuses<T: Copy>(
    s0: Arena<T>,
    s1: Arena<T>,
    s2: Arena<T>,
    s3: Arena<T>,
    a: T,
    b: T,
    ha: Addr<T>,
    hb: Addr<T>,
)
    requires
        Arena::allocated(s0, a, s1, ha),
        Arena::freed(s1, ha, s2),
        Arena::allocated(s2, b, s3, hb),
    ensures
        hb == ha,
        s3.slots() == s1.slots().update(ha.id() - 1, b),
        s3.free_list() == s1.free_list(),
{
    assert(s2.free_list().last() == ha);
    assert(s3.free_list() =~= s1.free_list());
}

} // verus!
