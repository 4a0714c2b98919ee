//! The slots of a ring.
use std::sync::Mutex;

use vstd::prelude::*;

use crate::sync::{element_mut, UnsafeCell};

verus! {

/// A row of slots, each vacant at first, with a record of those that were vacated for
/// good.
///
/// The record can be written in no other way than by vacating a slot.
#[verifier::reject_recursive_types(C)]
pub struct Slots<C> {
    cells: Vec<C>,
    vacated: Ghost<Seq<usize>>,
}

/// The cell was made by a call of `make` on what a call of `value` gave.
pub open spec fn made_new<V, L, N: Fn(V) -> L, Z: Fn() -> V>(
    make: &N,
    value: &Z,
    cell: UnsafeCell<L>,
) -> bool {
    exists|v: V| #[trigger] value.ensures((), v) && make.ensures((v,), cell.lock())
}

impl<C> Slots<C> {
    /// The cells of the slots.
    pub closed spec fn cells(&self) -> Seq<C> {
        self.cells@
    }

    /// The slots that were vacated for good, in the order in which they were.
    pub closed spec fn vacated(&self) -> Seq<usize> {
        self.vacated@
    }

    /// A row of slots, each made by a call of `make` on what a call of `value` gave.
    pub fn new<V, L, N: Fn(V) -> L, Z: Fn() -> V>(make: &N, value: &Z, len: usize) -> (slots: Slots<
        UnsafeCell<L>,
    >)
        requires
            value.requires(()),
            forall|v: V| #[trigger] value.ensures((), v) ==> make.requires((v,)),
        ensures
            slots.cells().len() == len,
            forall|i: int|
                0 <= i < len ==> made_new(make, value, #[trigger] slots.cells()[i]),
            slots.vacated() == Seq::<usize>::empty(),
    {
        let mut cells: Vec<UnsafeCell<L>> = Vec::with_capacity(len);
        while cells.len() < len
            invariant
                value.requires(()),
                forall|v: V| #[trigger] value.ensures((), v) ==> make.requires((v,)),
                cells.len() <= len,
                forall|i: int| 0 <= i < cells.len() ==> made_new(make, value, #[trigger] cells@[i]),
            decreases len - cells.len(),
        {
            let v = value();
            cells.push(UnsafeCell::new(make, v));
        }
        Slots { cells, vacated: Ghost(Seq::empty()) }
    }

    /// The cell of a slot.
    pub fn cell(&self, slot: usize) -> (cell: &C)
        requires
            slot < self.cells().len(),
        ensures
            *cell == self.cells()[slot as int],
    {
        &self.cells[slot]
    }

}

impl<T> Slots<UnsafeCell<Mutex<Option<T>>>> {
    /// Drops what a slot holds and leaves a vacant cell in its place. Where there is no
    /// such slot, nothing happens.
    pub(crate) fn vacate(&mut self, slot: usize)
        ensures
            slot < old(self).cells().len() ==> {
                &&& final(self).vacated() == old(self).vacated().push(slot)
                &&& final(self).cells() == old(self).cells().update(
                    slot as int,
                    final(self).cells()[slot as int],
                )
                &&& final(self).cells()[slot as int].made_with(None)
            },
            slot >= old(self).cells().len() ==> {
                &&& final(self).vacated() == old(self).vacated()
                &&& final(self).cells() == old(self).cells()
            },
        opens_invariants none
        no_unwind
    {
        if let Some(cell) = element_mut(&mut self.cells, slot) {
            *cell = UnsafeCell::vacant();
            self.vacated = Ghost(self.vacated@.push(slot));
        }
    }
}

} // verus!
