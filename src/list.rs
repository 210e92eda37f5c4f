use crate::addr::Addr;
use crate::arena::Arena;
use crate::links::ListLinks;
use vstd::prelude::*;

verus! {

broadcast use {Addr::lemma_id_injective, Addr::lemma_from_id_id};

/// An intrusive doubly linked list over the elements of an `Arena<T>`. It
/// holds only its head and tail handles; the links live in the elements.
pub struct List<T: Copy + ListLinks> {
    head: Addr<T>,
    tail: Addr<T>,
    nodes: Ghost<Seq<Addr<T>>>,
}

impl<T: Copy + ListLinks> View for List<T> {
    type V = Seq<Addr<T>>;

    /// The handles of the members, head first.
    closed spec fn view(&self) -> Seq<Addr<T>> {
        self.nodes@
    }
}

impl<T: Copy + ListLinks<EnclosingType = T>> List<T> {
    /// The head handle.
    pub closed spec fn front(&self) -> Addr<T> {
        self.head
    }

    /// The tail handle.
    pub closed spec fn back(&self) -> Addr<T> {
        self.tail
    }

    /// What the `prev` link of the `i`-th member of `s` must be.
    pub open spec fn prev_of(s: Seq<Addr<T>>, i: int) -> Addr<T> {
        if i == 0 {
            Addr::null_value()
        } else {
            s[i - 1]
        }
    }

    /// What the `next` link of the `i`-th member of `s` must be.
    pub open spec fn next_of(s: Seq<Addr<T>>, i: int) -> Addr<T> {
        if i == s.len() - 1 {
            Addr::null_value()
        } else {
            s[i + 1]
        }
    }

    /// The list is empty exactly when head and tail are null; otherwise they
    /// are its first and last members. The members are distinct slots of
    /// `arena`, each linked to its neighbours, with null links at the ends.
    pub open spec fn wf(&self, arena: &Arena<T>) -> bool {
        let s = self@;
        &&& s.len() == 0 ==> self.front().null_spec() && self.back().null_spec()
        &&& s.len() > 0 ==> self.front() == s[0] && self.back() == s.last()
        &&& s.no_duplicates()
        &&& forall|i: int| 0 <= i < s.len() ==> arena.valid(#[trigger] s[i])
        &&& forall|i: int|
            0 <= i < s.len() ==> (#[trigger] arena.slot(s[i])).prev_link() == Self::prev_of(s, i)
        &&& forall|i: int|
            0 <= i < s.len() ==> (#[trigger] arena.slot(s[i])).next_link() == Self::next_of(s, i)
    }

    /// `post` is `pre` with only the links of the elements at `members` changed.
    pub open spec fn relinked(pre: &Arena<T>, post: &Arena<T>, members: Seq<Addr<T>>) -> bool {
        &&& post.free_list() == pre.free_list()
        &&& post.slots().len() == pre.slots().len()
        &&& forall|h: Addr<T>|
            pre.valid(h) ==> (#[trigger] post.slot(h)).unlinked() == pre.slot(h).unlinked()
        &&& forall|h: Addr<T>|
            pre.valid(h) && !members.contains(h) ==> #[trigger] post.slot(h) == pre.slot(h)
    }

    /// The handles met by following `next` links from `from`, for at most `n`
    /// steps; the walk stops at a handle that names no slot, such as null.
    pub open spec fn walk_next(arena: &Arena<T>, from: Addr<T>, n: nat) -> Seq<Addr<T>>
        decreases n,
    {
        if n == 0 || !arena.valid(from) {
            Seq::empty()
        } else {
            seq![from] + Self::walk_next(arena, arena.slot(from).next_link(), (n - 1) as nat)
        }
    }

    /// The handles met by following `prev` links from `from`, for at most `n`
    /// steps; the walk stops at a handle that names no slot, such as null.
    pub open spec fn walk_prev(arena: &Arena<T>, from: Addr<T>, n: nat) -> Seq<Addr<T>>
        decreases n,
    {
        if n == 0 || !arena.valid(from) {
            Seq::empty()
        } else {
            seq![from] + Self::walk_prev(arena, arena.slot(from).prev_link(), (n - 1) as nat)
        }
    }

    /// The head handle.
    pub fn head(&self) -> (r: Addr<T>)
        ensures
            r == self.front(),
    {
        self.head
    }

    /// The tail handle.
    pub fn tail(&self) -> (r: Addr<T>)
        ensures
            r == self.back(),
    {
        self.tail
    }

    /// An empty list.
    pub fn new() -> (r: Self)
        ensures
            r@ == Seq::<Addr<T>>::empty(),
            forall|arena: &Arena<T>| r.wf(arena),
    {
        Self { head: Addr::null(), tail: Addr::null(), nodes: Ghost(Seq::empty()) }
    }

    /// Links the element at `addr` in as the new head.
    pub fn push_front(&mut self, arena: &mut Arena<T>, addr: Addr<T>)
        requires
            old(self).wf(old(arena)),
            old(arena).valid(addr),
            !old(self)@.contains(addr),
        ensures
            final(self).wf(final(arena)),
            final(self)@ == seq![addr] + old(self)@,
            Self::relinked(old(arena), final(arena), final(self)@),
    {
        let ghost s = self@;
        let elem = arena.get_mut(addr);
        elem.set_prev(Addr::null());
        elem.set_next(self.head);
        if !self.head.is_null() {
            arena.get_mut(self.head).set_prev(addr);
        }
        self.head = addr;
        if self.tail.is_null() {
            self.tail = addr
        }
        self.nodes = Ghost(seq![addr] + s);
        proof {
            let t = self@;
            assert forall|i: int| 0 <= i < t.len() implies arena.valid(#[trigger] t[i]) by {
                if i > 0 {
                    assert(t[i] == s[i - 1]);
                }
            }
            assert forall|i: int|
                0 <= i < t.len() implies (#[trigger] arena.slot(t[i])).prev_link() == Self::prev_of(
                t,
                i,
            ) && arena.slot(t[i]).next_link() == Self::next_of(t, i) by {
                if i > 0 {
                    assert(t[i] == s[i - 1]);
                    assert(old(arena).slot(s[i - 1]).prev_link() == Self::prev_of(s, i - 1));
                    assert(old(arena).slot(s[i - 1]).next_link() == Self::next_of(s, i - 1));
                }
            }
            assert forall|h: Addr<T>|
                old(arena).valid(h) && !t.contains(h) implies #[trigger] arena.slot(h)
                == old(arena).slot(h) by {
                assert(t[0] == addr);
                if s.len() > 0 {
                    assert(t[1] == s[0]);
                }
            }
        }
    }

    /// Links the element at `addr` in as the new tail.
    pub fn push_back(&mut self, arena: &mut Arena<T>, addr: Addr<T>)
        requires
            old(self).wf(old(arena)),
            old(arena).valid(addr),
            !old(self)@.contains(addr),
        ensures
            final(self).wf(final(arena)),
            final(self)@ == old(self)@.push(addr),
            Self::relinked(old(arena), final(arena), final(self)@),
    {
        let ghost s = self@;
        let elem = arena.get_mut(addr);
        elem.set_prev(self.tail);
        elem.set_next(Addr::null());
        if !self.tail.is_null() {
            arena.get_mut(self.tail).set_next(addr);
        }
        self.tail = addr;
        if self.head.is_null() {
            self.head = addr
        }
        self.nodes = Ghost(s.push(addr));
        proof {
            let t = self@;
            let n = s.len() as int;
            assert forall|i: int| 0 <= i < t.len() implies arena.valid(#[trigger] t[i]) by {
                if i < n {
                    assert(t[i] == s[i]);
                }
            }
            assert forall|i: int|
                0 <= i < t.len() implies (#[trigger] arena.slot(t[i])).prev_link() == Self::prev_of(
                t,
                i,
            ) && arena.slot(t[i]).next_link() == Self::next_of(t, i) by {
                if i < n {
                    assert(t[i] == s[i]);
                    assert(old(arena).slot(s[i]).prev_link() == Self::prev_of(s, i));
                    assert(old(arena).slot(s[i]).next_link() == Self::next_of(s, i));
                }
            }
            assert forall|h: Addr<T>|
                old(arena).valid(h) && !t.contains(h) implies #[trigger] arena.slot(h)
                == old(arena).slot(h) by {
                assert(t[n] == addr);
                if n > 0 {
                    assert(t[n - 1] == s[n - 1]);
                }
            }
        }
    }

    /// Unlinks the element at `addr`, joining its neighbours, and resets its
    /// own links to null. Its slot stays allocated.
    pub fn remove(&mut self, arena: &mut Arena<T>, addr: Addr<T>)
        requires
            old(self).wf(old(arena)),
            old(self)@.contains(addr),
        ensures
            final(self).wf(final(arena)),
            final(self)@ == old(self)@.remove(old(self)@.index_of(addr)),
            Self::relinked(old(arena), final(arena), old(self)@),
            final(arena).slot(addr).prev_link().null_spec(),
            final(arena).slot(addr).next_link().null_spec(),
    {
        let ghost s = self@;
        let ghost k = s.index_of(addr);
        assert(0 <= k < s.len() && s[k] == addr);
        assert(arena.valid(s[k]));
        assert(arena.slot(s[k]).prev_link() == Self::prev_of(s, k));
        assert(arena.slot(s[k]).next_link() == Self::next_of(s, k));
        let (prev, next) = arena.get(addr).get_links();
        if prev.is_null() {
            self.head = next;
        } else {
            assert(arena.valid(s[k - 1]));
            arena.get_mut(prev).set_next(next);
        }
        if next.is_null() {
            self.tail = prev;
        } else {
            assert(arena.valid(s[k + 1]));
            arena.get_mut(next).set_prev(prev);
        }
        let elem = arena.get_mut(addr);
        elem.set_next(Addr::null());
        elem.set_prev(Addr::null());
        self.nodes = Ghost(s.remove(k));
        proof {
            let t = self@;
            assert forall|i: int| 0 <= i < t.len() implies arena.valid(#[trigger] t[i]) by {
                if i < k {
                    assert(t[i] == s[i]);
                } else {
                    assert(t[i] == s[i + 1]);
                }
            }
            assert forall|i: int|
                0 <= i < t.len() implies (#[trigger] arena.slot(t[i])).prev_link() == Self::prev_of(
                t,
                i,
            ) && arena.slot(t[i]).next_link() == Self::next_of(t, i) by {
                if i < k {
                    assert(t[i] == s[i]);
                    assert(old(arena).slot(s[i]).prev_link() == Self::prev_of(s, i));
                    assert(old(arena).slot(s[i]).next_link() == Self::next_of(s, i));
                } else {
                    assert(t[i] == s[i + 1]);
                    assert(old(arena).slot(s[i + 1]).prev_link() == Self::prev_of(s, i + 1));
                    assert(old(arena).slot(s[i + 1]).next_link() == Self::next_of(s, i + 1));
                }
            }
            assert forall|h: Addr<T>|
                old(arena).valid(h) && !s.contains(h) implies #[trigger] arena.slot(h)
                == old(arena).slot(h) by {
                assert(s[k] == addr);
                if k > 0 {
                    assert(s[k - 1] == prev);
                }
                if k < s.len() - 1 {
                    assert(s[k + 1] == next);
                }
            }
            assert(t.no_duplicates());
        }
    }

    /// The members' handles, read by following `next` links from the head.
    pub fn handles(&self, arena: &Arena<T>) -> (r: Vec<Addr<T>>)
        requires
            self.wf(arena),
        ensures
            r@ == self@,
    {
        let ghost s = self@;
        let mut v: Vec<Addr<T>> = Vec::new();
        let mut cur = self.head;
        let ghost mut i: int = 0;
        while !cur.is_null()
            invariant
                self.wf(arena),
                s == self@,
                0 <= i <= s.len(),
                v@ == s.subrange(0, i),
                cur == (if i < s.len() {
                    s[i]
                } else {
                    Addr::null_value()
                }),
            decreases s.len() - i,
        {
            assert(arena.valid(s[i]));
            assert(arena.slot(s[i]).next_link() == Self::next_of(s, i));
            v.push(cur);
            cur = arena.get(cur).get_links().1;
            proof {
                assert(v@ =~= s.subrange(0, i + 1));
                i = i + 1;
            }
        }
        proof {
            if i < s.len() {
                assert(arena.valid(s[i]));
            }
            assert(v@ =~= s);
        }
        v
    }

    /// The members' handles, read by following `prev` links from the tail.
    pub fn handles_rev(&self, arena: &Arena<T>) -> (r: Vec<Addr<T>>)
        requires
            self.wf(arena),
        ensures
            r@ == self@.reverse(),
    {
        let ghost s = self@;
        let ghost n = s.len() as int;
        let mut v: Vec<Addr<T>> = Vec::new();
        let mut cur = self.tail;
        let ghost mut i: int = 0;
        while !cur.is_null()
            invariant
                self.wf(arena),
                s == self@,
                n == s.len(),
                0 <= i <= n,
                v@ == s.reverse().subrange(0, i),
                cur == (if i < n {
                    s[n - 1 - i]
                } else {
                    Addr::null_value()
                }),
            decreases n - i,
        {
            assert(arena.valid(s[n - 1 - i]));
            assert(arena.slot(s[n - 1 - i]).prev_link() == Self::prev_of(s, n - 1 - i));
            v.push(cur);
            cur = arena.get(cur).get_links().0;
            proof {
                assert(v@ =~= s.reverse().subrange(0, i + 1));
                i = i + 1;
            }
        }
        proof {
            if i < n {
                assert(arena.valid(s[n - 1 - i]));
            }
            assert(v@ =~= s.reverse());
        }
        v
    }

    /// Walking `next` links from the `k`-th member (from null when `k` is the
    /// length) meets the members from the `k`-th on, then stops.
    proof fn lemma_walk_next_suffix(&self, arena: &Arena<T>, k: int, n: nat)
        requires
            self.wf(arena),
            0 <= k <= self@.len(),
            n >= self@.len() - k,
        ensures
            Self::walk_next(
                arena,
                if k < self@.len() {
                    self@[k]
                } else {
                    Addr::null_value()
                },
                n,
            ) == self@.subrange(k, self@.len() as int),
        decreases self@.len() - k,
    {
        let s = self@;
        if k < s.len() {
            assert(arena.valid(s[k]));
            assert(arena.slot(s[k]).next_link() == Self::next_of(s, k));
            self.lemma_walk_next_suffix(arena, k + 1, (n - 1) as nat);
            assert(s.subrange(k, s.len() as int) =~= seq![s[k]] + s.subrange(k + 1, s.len() as int));
        } else {
            assert(s.subrange(k, s.len() as int) =~= Seq::<Addr<T>>::empty());
        }
    }

    /// Walking `prev` links from the `k`-th member (from null when `k` is -1)
    /// meets the members from the `k`-th down to the first, then stops.
    proof fn lemma_walk_prev_prefix(&self, arena: &Arena<T>, k: int, n: nat)
        requires
            self.wf(arena),
            -1 <= k < self@.len(),
            n >= k + 1,
        ensures
            Self::walk_prev(
                arena,
                if k >= 0 {
                    self@[k]
                } else {
                    Addr::null_value()
                },
                n,
            ) == self@.subrange(0, k + 1).reverse(),
        decreases k + 1,
    {
        let s = self@;
        if k >= 0 {
            assert(arena.valid(s[k]));
            assert(arena.slot(s[k]).prev_link() == Self::prev_of(s, k));
            self.lemma_walk_prev_prefix(arena, k - 1, (n - 1) as nat);
            assert(s.subrange(0, k + 1).reverse() =~= seq![s[k]] + s.subrange(0, k).reverse());
        } else {
            assert(s.subrange(0, k + 1).reverse() =~= Seq::<Addr<T>>::empty());
        }
    }

    /// In every well-formed list, following `next` links from the head and
    /// following `prev` links from the tail both stop at null, after meeting
    /// the same handles in opposite orders: the members, head first and tail
    /// first.
    pub proof fn lemma_traversals_agree(&self, arena: &Arena<T>, n: nat)
        requires
            self.wf(arena),
            n >= self@.len(),
        ensures
            Self::walk_next(arena, self.front(), n) == self@,
            Self::walk_prev(arena, self.back(), n) == self@.reverse(),
            Self::walk_prev(arena, self.back(), n) == Self::walk_next(
                arena,
                self.front(),
                n,
            ).reverse(),
    {
        let s = self@;
        self.lemma_walk_next_suffix(arena, 0, n);
        self.lemma_walk_prev_prefix(arena, s.len() - 1, n);
        assert(s.subrange(0, s.len() as int) =~= s);
    }

    /// Removing every member, one `remove` at a time, leaves the list empty:
    /// head and tail null, and a walk from the head meets nothing.
    /// `lists[i]` and `arenas[i]` are the states before the `i`-th removal,
    /// which removes `hs[i]`.
    pub proof fn lemma_remove_all(lists: Seq<Self>, arenas: Seq<Arena<T>>, hs: Seq<Addr<T>>)
        requires
            lists.len() == hs.len() + 1,
            arenas.len() == hs.len() + 1,
            hs.len() == lists[0]@.len(),
            forall|i: int|
                0 <= i < hs.len() ==> (#[trigger] lists[i])@.contains(hs[i]) && lists[i + 1]@
                    == lists[i]@.remove(lists[i]@.index_of(hs[i])),
            lists[hs.len() as int].wf(&arenas[hs.len() as int]),
        ensures
            lists[hs.len() as int]@.len() == 0,
            lists[hs.len() as int].front().null_spec(),
            lists[hs.len() as int].back().null_spec(),
            Self::walk_next(&arenas[hs.len() as int], lists[hs.len() as int].front(), 1)
                == Seq::<Addr<T>>::empty(),
    {
        let n = hs.len() as int;
        assert forall|k: int| 0 <= k <= n implies #[trigger] lists[k]@.len() == lists[0]@.len()
            - k by {
            lemma_remove_all_count(lists, hs, k);
        }
        assert(lists[n]@.len() == 0);
    }
}

/// After `k` removals of members, the list is `k` shorter.
proof fn lemma_remove_all_count<T: Copy + ListLinks<EnclosingType = T>>(
    lists: Seq<List<T>>,
    hs: Seq<Addr<T>>,
    k: int,
)
    requires
        lists.len() == hs.len() + 1,
        0 <= k <= hs.len(),
        forall|i: int|
            0 <= i < hs.len() ==> (#[trigger] lists[i])@.contains(hs[i]) && lists[i + 1]@
                == lists[i]@.remove(lists[i]@.index_of(hs[i])),
    ensures
        lists[k]@.len() == lists[0]@.len() - k,
    decreases k,
{
    if k > 0 {
        lemma_remove_all_count(lists, hs, k - 1);
        let s = lists[k - 1]@;
        assert(s.contains(hs[k - 1]));
        let j = s.index_of(hs[k - 1]);
        assert(0 <= j < s.len() && s[j] == hs[k - 1]);
    }
}

} // verus!
