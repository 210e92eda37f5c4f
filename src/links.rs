use crate::addr::Addr;
use vstd::prelude::*;

verus! {

/// What a value needs to be threaded into a `List`: its `prev` and `next`
/// handles can be read together and set one at a time. `EnclosingType` is the
/// type that the handles point to; a list of `T` asks that it be `T` itself.
pub trait ListLinks: Sized {
    type EnclosingType: Copy;

    /// The `prev` handle.
    spec fn prev_link(&self) -> Addr<Self::EnclosingType>;

    /// The `next` handle.
    spec fn next_link(&self) -> Addr<Self::EnclosingType>;

    /// This value with both links null: all that setting a link leaves alone.
    spec fn unlinked(&self) -> Self;

    /// Both links, `prev` first.
    fn get_links(&self) -> (r: (Addr<Self::EnclosingType>, Addr<Self::EnclosingType>))
        ensures
            r.0 == self.prev_link(),
            r.1 == self.next_link(),
    ;

    /// Sets the `prev` link, leaving the rest of the value alone.
    fn set_prev(&mut self, addr: Addr<Self::EnclosingType>)
        ensures
            final(self).prev_link() == addr,
            final(self).next_link() == old(self).next_link(),
            final(self).unlinked() == old(self).unlinked(),
    ;

    /// Sets the `next` link, leaving the rest of the value alone.
    fn set_next(&mut self, addr: Addr<Self::EnclosingType>)
        ensures
            final(self).prev_link() == old(self).prev_link(),
            final(self).next_link() == addr,
            final(self).unlinked() == old(self).unlinked(),
    ;
}

} // verus!
