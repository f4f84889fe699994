//! A growable list of patterns: the children of a pattern-tree node.

use vstd::prelude::*;
use crate::pattern::Pattern;

verus! {

/// The children of a pattern, in the order they are searched.
pub struct PatternVec {
    pub items: Vec<Pattern>,
}

impl View for PatternVec {
    type V = Seq<Pattern>;

    open spec fn view(&self) -> Seq<Pattern> {
        self.items@
    }
}

impl PatternVec {
    /// An empty list.
    pub fn new() -> (r: PatternVec)
        ensures
            r@ == Seq::<Pattern>::empty(),
    {
        PatternVec { items: Vec::new() }
    }

    /// The number of patterns.
    pub fn len(&self) -> (r: usize)
        ensures
            r == self@.len(),
    {
        self.items.len()
    }

    /// Whether the list is empty.
    pub fn is_empty(&self) -> (r: bool)
        ensures
            r == (self@.len() == 0),
    {
        self.items.len() == 0
    }

    /// The pattern at `i`.
    pub fn get(&self, i: usize) -> (r: &Pattern)
        requires
            i < self@.len(),
        ensures
            *r == self@[i as int],
    {
        &self.items[i]
    }

    /// The pattern at `i`, to change in place.
    pub fn get_mut(&mut self, i: usize) -> (r: &mut Pattern)
        requires
            i < old(self)@.len(),
        ensures
            *r == old(self)@[i as int],
            final(self)@ == old(self)@.update(i as int, *final(r)),
    {
        &mut self.items[i]
    }

    /// Add `value` at the end.
    pub fn push(&mut self, value: Pattern)
        ensures
            final(self)@ == old(self)@.push(value),
    {
        self.items.push(value);
    }

    /// Remove element `i`, moving the last element into its place.
    pub fn swap_remove(&mut self, i: usize) -> (r: Pattern)
        requires
            i < old(self)@.len(),
        ensures
            r == old(self)@[i as int],
            final(self)@ == old(self)@.update(i as int, old(self)@.last()).drop_last(),
    {
        self.items.swap_remove(i)
    }

    /// Move every element of `other` onto the end, leaving it empty.
    pub fn append(&mut self, other: &mut PatternVec)
        ensures
            final(self)@ == old(self)@ + old(other)@,
            final(other)@ == Seq::<Pattern>::empty(),
    {
        self.items.append(&mut other.items);
    }

    /// Drop every element.
    pub fn clear(&mut self)
        ensures
            final(self)@ == Seq::<Pattern>::empty(),
    {
        self.items.clear();
    }
}

} // verus!
