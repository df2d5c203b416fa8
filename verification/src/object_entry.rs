//! A plain per-type list of objects, kept in insertion order.

use vstd::prelude::*;

verus! {

/// The objects of one type, in the order in which they were added.
pub struct ObjectSpaceEntry<T> {
    object_list: Vec<T>,
}

impl<T> View for ObjectSpaceEntry<T> {
    type V = Seq<T>;

    closed spec fn view(&self) -> Seq<T> {
        self.object_list@
    }
}

impl<T> ObjectSpaceEntry<T> {
    /// An empty list.
    pub fn new() -> (r: ObjectSpaceEntry<T>)
        ensures
            r@ == Seq::<T>::empty(),
    {
        ObjectSpaceEntry { object_list: Vec::new() }
    }

    /// Appends `obj` at the end.
    pub fn add(&mut self, obj: T)
        ensures
            final(self)@ == old(self)@.push(obj),
    {
        self.object_list.push(obj);
    }

    /// The object that was added first, if any.
    pub fn get(&self) -> (r: Option<&T>)
        ensures
            self@.len() == 0 ==> r is None,
            self@.len() > 0 ==> r == Some(&self@[0]),
    {
        if self.object_list.len() == 0 {
            None
        } else {
            Some(&self.object_list[0])
        }
    }

    /// References to all objects, in insertion order.
    pub fn get_all(&self) -> (r: Vec<&T>)
        ensures
            r@.len() == self@.len(),
            forall|i: int| 0 <= i < r@.len() ==> *#[trigger] r@[i] == self@[i],
    {
        let mut result: Vec<&T> = Vec::new();
        let mut i: usize = 0;
        while i < self.object_list.len()
            invariant
                i <= self.object_list@.len(),
                result@.len() == i,
                forall|j: int| 0 <= j < i ==> *#[trigger] result@[j] == self.object_list@[j],
            decreases self.object_list@.len() - i,
        {
            result.push(&self.object_list[i]);
            i = i + 1;
        }
        result
    }

    /// Removes and returns the object that was added last.
    pub fn remove(&mut self) -> (r: Option<T>)
        ensures
            old(self)@.len() == 0 ==> r is None && final(self)@ == old(self)@,
            old(self)@.len() > 0 ==> r == Some(old(self)@.last()) && final(self)@
                == old(self)@.drop_last(),
    {
        self.object_list.pop()
    }

    /// Removes all objects and returns them in insertion order.
    pub fn remove_all(&mut self) -> (r: Vec<T>)
        ensures
            r@ == old(self)@,
            final(self)@ == Seq::<T>::empty(),
    {
        let mut result: Vec<T> = Vec::new();
        std::mem::swap(&mut result, &mut self.object_list);
        result
    }

    /// The number of objects held.
    pub fn len(&self) -> (r: usize)
        ensures
            r == self@.len(),
    {
        self.object_list.len()
    }
}

} // verus!
