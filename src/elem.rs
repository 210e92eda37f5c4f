use crate::addr::Addr;
use crate::arena::Arena;
use crate::links::ListLinks;
use crate::list::List;
use vstd::prelude::*;

verus! {

broadcast use {Addr::lemma_id_injective, Addr::lemma_from_id_id};

/// A list element that carries an `i32` and its own links, kept as the
/// indices of the `Addr<Elem>` handles they stand for (0 for null): Verus
/// does not take a struct that holds a handle tagged with its own type.
#[derive(Clone, Copy)]
pub struct Elem {
    pub val: i32,
    pub prev: usize,
    pub next: usize,
}

impl Elem {
    /// An element holding `val`, linked to nothing.
    pub fn new(val: i32) -> (r: Self)
        ensures
            r.val == val,
            r.prev == 0,
            r.next == 0,
    {
        Self { val, prev: 0, next: 0 }
    }

    /// The handle of the next element (null at the tail).
    pub fn next_addr(&self) -> (r: Addr<Elem>)
        ensures
            r == self.next_link(),
    {
        Addr::from_index(self.next)
    }

    /// The handle of the previous element (null at the head).
    pub fn prev_addr(&self) -> (r: Addr<Elem>)
        ensures
            r == self.prev_link(),
    {
        Addr::from_index(self.prev)
    }
}

impl ListLinks for Elem {
    type EnclosingType = Elem;

    open spec fn prev_link(&self) -> Addr<Elem> {
        Addr::from_id(self.prev)
    }

    open spec fn next_link(&self) -> Addr<Elem> {
        Addr::from_id(self.next)
    }

    open spec fn unlinked(&self) -> Elem {
        Elem { val: self.val, prev: 0, next: 0 }
    }

    fn get_links(&self) -> (r: (Addr<Elem>, Addr<Elem>)) {
        (Addr::from_index(self.prev), Addr::from_index(self.next))
    }

    fn set_prev(&mut self, addr: Addr<Elem>) {
        proof {
            Addr::lemma_from_id(addr);
        }
        self.prev = addr.index();
    }

    fn set_next(&mut self, addr: Addr<Elem>) {
        proof {
            Addr::lemma_from_id(addr);
        }
        self.next = addr.index();
    }
}

/// The values of the members of `list`, head first, read by following `next`
/// links from the head.
pub fn values(list: &List<Elem>, arena: &Arena<Elem>) -> (r: Vec<i32>)
    requires
        list.wf(arena),
    ensures
        r@ == list@.map_values(|h: Addr<Elem>| arena.slot(h).val),
{
    let ghost s = list@;
    let mut vals: Vec<i32> = Vec::new();
    let mut e = list.head();
    let ghost mut i: int = 0;
    while !e.is_null()
        invariant
            list.wf(arena),
            s == list@,
            0 <= i <= s.len(),
            vals@ == s.subrange(0, i).map_values(|h: Addr<Elem>| arena.slot(h).val),
            e == (if i < s.len() {
                s[i]
            } else {
                Addr::null_value()
            }),
        decreases s.len() - i,
    {
        assert(arena.valid(s[i]));
        assert(arena.slot(s[i]).next_link() == List::<Elem>::next_of(s, i));
        let elem = arena.get(e);
        vals.push(elem.val);
        e = elem.next_addr();
        proof {
            assert(vals@ =~= s.subrange(0, i + 1).map_values(|h: Addr<Elem>| arena.slot(h).val));
            i = i + 1;
        }
    }
    proof {
        if i < s.len() {
            assert(arena.valid(s[i]));
        }
        assert(s.subrange(0, i) =~= s);
    }
    vals
}

} // verus!
