//! An arena of values with stable indices.

use vstd::prelude::*;

verus! {

#[derive(Debug)]
enum Entry<T> {
    Vacant(usize),
    Occupied(T),
}

/// An arena of values. A value keeps the index it was inserted at until it is removed;
/// the indices of removed values are used again, the one freed last first.
///
/// The view is the sequence of the slots: `Some(value)` for a slot that holds a value,
/// `None` for a vacant one.
#[derive(Debug)]
pub struct Slab<T> {
    next_vacant: usize,
    entries: Vec<Entry<T>>,
}

impl<T> Slab<T> {
    /// The slots of the slab.
    pub closed spec fn view(&self) -> Seq<Option<T>> {
        Seq::new(
            self.entries@.len(),
            |i: int|
                match self.entries@[i] {
                    Entry::Vacant(_) => None,
                    Entry::Occupied(value) => Some(value),
                },
        )
    }

    /// The index that the next inserted value gets.
    pub closed spec fn spec_next_index(&self) -> usize {
        if self.next_vacant != usize::MAX {
            self.next_vacant
        } else {
            self.entries@.len() as usize
        }
    }

    /// Where a vacant slot points: the vacant slot that is filled after it.
    spec fn link(&self, i: int) -> usize {
        match self.entries@[i] {
            Entry::Vacant(next) => next,
            Entry::Occupied(_) => usize::MAX,
        }
    }

    /// The invariant of a slab: the vacant slots form a list that starts at the next
    /// index and ends with `usize::MAX`.
    pub closed spec fn wf(&self) -> bool {
        &&& self.entries@.len() <= usize::MAX
        &&& self.next_vacant == usize::MAX || (self.next_vacant < self.entries@.len()
            && self.entries@[self.next_vacant as int] is Vacant)
        &&& forall|i: int|
            0 <= i < self.entries@.len() && #[trigger] self.link(i) != usize::MAX ==> {
                &&& self.link(i) < self.entries@.len()
                &&& self.entries@[self.link(i) as int] is Vacant
                &&& self.link(i) != self.next_vacant
            }
        &&& forall|i: int, j: int|
            0 <= i < self.entries@.len() && 0 <= j < self.entries@.len() && i != j
                && #[trigger] self.link(i) == #[trigger] self.link(j) ==> self.link(i)
                == usize::MAX
    }

    /// Whether the slot at `index` holds a value.
    pub open spec fn occupied(&self, index: int) -> bool {
        0 <= index < self@.len() && self@[index] is Some
    }

    /// The next index is a vacant slot, or one past the last slot.
    pub proof fn lemma_next_index(&self)
        requires
            self.wf(),
        ensures
            0 <= self.spec_next_index() <= self@.len(),
            !self.occupied(self.spec_next_index() as int),
    {
    }

    /// An empty slab.
    pub fn new() -> (r: Slab<T>)
        ensures
            r.wf(),
            r@.len() == 0,
    {
        Slab { next_vacant: usize::MAX, entries: Vec::new() }
    }

    /// The index that the next inserted value gets.
    #[verifier::when_used_as_spec(spec_next_index)]
    pub fn next_index(&self) -> (r: usize)
        requires
            self.wf(),
        ensures
            r == self.spec_next_index(),
    {
        if self.next_vacant == usize::MAX {
            self.entries.len()
        } else {
            self.next_vacant
        }
    }

    /// The number of slots, vacant ones included.
    pub fn len(&self) -> (r: usize)
        ensures
            r == self@.len(),
    {
        self.entries.len()
    }

    /// Puts `value` into a vacant slot, or into a new slot if there is none, and returns
    /// the slot's index.
    pub fn insert(&mut self, value: T) -> (index: usize)
        requires
            old(self).wf(),
        ensures
            final(self).wf(),
            index == old(self).spec_next_index(),
            index < old(self)@.len() ==> final(self)@ == old(self)@.update(
                index as int,
                Some(value),
            ),
            index == old(self)@.len() ==> final(self)@ == old(self)@.push(Some(value)),
            final(self).occupied(index as int),
    {
        if self.next_vacant == usize::MAX {
            self.entries.push(Entry::Occupied(value));
            let len = self.entries.len();
            proof {
                assert(self@ =~= old(self)@.push(Some(value)));
                assert forall|i: int| 0 <= i < old(self).entries@.len() implies self.link(i)
                    == old(self).link(i) by {}
            }
            len - 1
        } else {
            let index = self.next_vacant;
            let next = match self.entries[index] {
                Entry::Vacant(next) => next,
                Entry::Occupied(_) => usize::MAX,
            };
            self.entries[index] = Entry::Occupied(value);
            self.next_vacant = next;
            proof {
                assert(self@ =~= old(self)@.update(index as int, Some(value)));
                assert(old(self).link(index as int) == next);
                assert forall|i: int|
                    0 <= i < self.entries@.len() && i != index implies self.link(i) == old(
                    self,
                ).link(i) by {}
            }
            index
        }
    }

    /// The value at `index`.
    pub fn get(&self, index: usize) -> (r: &T)
        requires
            self.occupied(index as int),
        ensures
            Some(*r) == self@[index as int],
    {
        match &self.entries[index] {
            Entry::Occupied(value) => value,
            Entry::Vacant(_) => vstd::pervasive::unreached(),
        }
    }

    /// Puts `value` in place of the value at `index`, and returns the value that was there.
    pub fn replace(&mut self, index: usize, value: T) -> (r: T)
        requires
            old(self).wf(),
            old(self).occupied(index as int),
        ensures
            final(self).wf(),
            Some(r) == old(self)@[index as int],
            final(self)@ == old(self)@.update(index as int, Some(value)),
            final(self).spec_next_index() == old(self).spec_next_index(),
    {
        let mut entry = Entry::Occupied(value);
        core::mem::swap(&mut self.entries[index], &mut entry);
        proof {
            assert(self@ =~= old(self)@.update(index as int, Some(value)));
            assert forall|i: int| 0 <= i < self.entries@.len() implies self.link(i) == old(
                self,
            ).link(i) by {}
        }
        match entry {
            Entry::Occupied(old_value) => old_value,
            Entry::Vacant(_) => vstd::pervasive::unreached(),
        }
    }

    /// Takes the value at `index` out of the slab. The slot becomes vacant, and is the
    /// next one to be filled.
    pub fn remove(&mut self, index: usize) -> (r: T)
        requires
            old(self).wf(),
            old(self).occupied(index as int),
        ensures
            final(self).wf(),
            Some(r) == old(self)@[index as int],
            final(self)@ == old(self)@.update(index as int, None),
            final(self).spec_next_index() == index,
    {
        let mut entry = Entry::Vacant(self.next_vacant);
        core::mem::swap(&mut self.entries[index], &mut entry);
        self.next_vacant = index;
        proof {
            assert(self@ =~= old(self)@.update(index as int, None));
            assert(self.link(index as int) == old(self).next_vacant);
            assert forall|i: int|
                0 <= i < self.entries@.len() && i != index implies self.link(i) == old(
                self,
            ).link(i) by {}
        }
        match entry {
            Entry::Occupied(value) => value,
            Entry::Vacant(_) => vstd::pervasive::unreached(),
        }
    }
}

} // verus!
