//! An owned heap cell that can be lent out for writing while it is being
//! filled, then taken back as unique ownership.
use vstd::prelude::*;

verus! {

/// A heap slot whose contents are written through a borrowed view before the
/// slot is taken back by its owner.
pub struct AliasedBox<T> {
    slot: Box<T>,
}

impl<T> AliasedBox<T> {
    /// What the slot holds.
    pub closed spec fn view(&self) -> T {
        *self.slot
    }

    /// A slot holding `value`.
    pub fn new(value: T) -> (r: AliasedBox<T>)
        ensures
            r.view() == value,
    {
        AliasedBox { slot: Box::new(value) }
    }

    /// A view of the slot to write through; what is written there is what the
    /// slot holds afterwards.
    pub fn ptr(&mut self) -> (r: &mut T)
        ensures
            *r == old(self).view(),
            final(self).view() == *final(r),
    {
        &mut *self.slot
    }

    /// Takes the slot back as a unique box.
    pub fn assume_unique(self) -> (r: Box<T>)
        ensures
            *r == self.view(),
    {
        self.slot
    }
}

} // verus!
