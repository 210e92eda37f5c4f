use std::marker::PhantomData;
use vstd::prelude::*;

verus! {

/// A 1-based index into the slots of an `Arena<T>`, tagged with the element
/// type. The index 0 is the null handle.
#[derive(Copy)]
pub struct Addr<T: Copy> {
    index: usize,
    phantom: PhantomData<T>,
}

impl<T: Copy> Clone for Addr<T> {
    fn clone(&self) -> (r: Self)
        ensures
            r == *self,
    {
        *self
    }
}

impl<T: Copy> Addr<T> {
    /// The handle's index (0 for the null handle).
    pub closed spec fn id(self) -> nat {
        self.index as nat
    }

    /// The handle with index `index` (the null handle for 0).
    pub closed spec fn from_id(index: usize) -> Self {
        Self { index, phantom: PhantomData }
    }

    /// The null handle, as a value in specifications.
    pub open spec fn null_value() -> Self {
        Self::from_id(0)
    }

    /// The handle is the null handle.
    pub open spec fn null_spec(self) -> bool {
        self.id() == 0
    }

    /// The handle with the given (non-zero) index.
    pub fn new(index: usize) -> (r: Self)
        requires
            index != 0,
        ensures
            r.id() == index,
    {
        Self { index: index, phantom: PhantomData }
    }

    /// The null handle.
    pub fn null() -> (r: Self)
        ensures
            r.id() == 0,
            r == Self::null_value(),
    {
        Self { index: 0, phantom: PhantomData }
    }

    /// The handle is the null handle.
    pub fn is_null(&self) -> (r: bool)
        ensures
            r == self.null_spec(),
    {
        self.index == 0
    }

    /// The handle's index (0 for the null handle).
    pub fn index(&self) -> (r: usize)
        ensures
            r == self.id(),
    {
        self.index
    }

    /// The handle with index `index`, null for 0.
    pub fn from_index(index: usize) -> (r: Self)
        ensures
            r == Self::from_id(index),
            r.id() == index,
    {
        Self { index, phantom: PhantomData }
    }

    /// A handle is the one built from its index.
    pub proof fn lemma_from_id(a: Self)
        ensures
            Self::from_id(a.id() as usize) == a,
    {
        assert(Self::from_id(a.id() as usize).phantom == a.phantom);
    }

    /// The handle built from an index has that index.
    pub broadcast proof fn lemma_from_id_id(index: usize)
        ensures
            (#[trigger] Self::from_id(index)).id() == index,
    {
    }

    /// Two handles with one index are the same value.
    pub broadcast proof fn lemma_id_injective(a: Self, b: Self)
        ensures
            #[trigger] a.id() == #[trigger] b.id() <==> a == b,
    {
        assert(a.phantom == b.phantom);
    }
}

} // verus!
