//! A bump arena: items are added at the end and stay where they are.
use vstd::prelude::*;

verus! {

/// An arena that owns the items allocated in it.
pub struct Arena<T> {
    items: Vec<T>,
}

impl<T> View for Arena<T> {
    type V = Seq<T>;

    /// The items in the order in which they were allocated.
    closed spec fn view(&self) -> Seq<T> {
        self.items@
    }
}

impl<T> Arena<T> {
    /// An arena without items.
    pub fn new() -> (arena: Self)
        ensures
            arena@ == Seq::<T>::empty(),
    {
        Arena { items: Vec::new() }
    }

    /// Moves `item` into the arena, behind the items that are there, and
    /// hands out the place where it now lives.
    pub fn allocate(&mut self, item: T) -> (place: &mut T)
        ensures
            *place == item,
            final(self)@ == old(self)@.push(*final(place)),
    {
        self.items.push(item);
        let last = self.items.len() - 1;
        let place = &mut self.items[last];
        proof {
            assert(old(self)@.push(item).update(last as int, *final(place)) =~= old(self)@.push(
                *final(place),
            ));
        }
        place
    }
}

} // verus!
