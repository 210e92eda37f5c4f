//! Pointer-free intrusive doubly linked lists threaded through a slot arena.
//!
//! An [`Arena`] stores values in slots and hands out integer [`Addr`] handles
//! (0 is the null handle). A [`List`] keeps only its head and tail handles and
//! links the elements through the `prev` / `next` handles that each element
//! carries itself, read and written through the [`ListLinks`] capability.

pub mod addr;
pub mod arena;
pub mod elem;
pub mod links;
pub mod list;

pub use addr::Addr;
pub use arena::Arena;
pub use elem::{values, Elem};
pub use links::ListLinks;
pub use list::List;
