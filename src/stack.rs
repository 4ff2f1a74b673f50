//! The operand stack: a last-in-first-out sequence of machine words.
use crate::word::Word;
use vstd::prelude::*;

verus! {

/// The operand stack. Its view lists the words from the bottom up, so the top
/// is the last element. Depth checks are the caller's business: each method
/// asks in `requires` for the depth it needs.
pub struct Stack {
    items: Vec<Word>,
}

impl View for Stack {
    type V = Seq<Word>;

    closed spec fn view(&self) -> Seq<Word> {
        self.items@
    }
}

/// The element at depth `i` (0 is the top) of a stack view.
pub open spec fn at_depth(s: Seq<Word>, i: int) -> Word {
    s[s.len() - 1 - i]
}

/// A stack view with the top and the element at depth `i` exchanged.
pub open spec fn swapped(s: Seq<Word>, i: int) -> Seq<Word> {
    s.update(s.len() - 1, at_depth(s, i)).update(s.len() - 1 - i, s.last())
}

impl Stack {
    pub fn new() -> (r: Stack)
        ensures
            r@ == Seq::<Word>::empty(),
    {
        Stack { items: Vec::new() }
    }

    pub fn len(&self) -> (r: usize)
        ensures
            r == self@.len(),
    {
        self.items.len()
    }

    /// Puts `w` on top.
    pub fn push(&mut self, w: Word)
        ensures
            final(self)@ == old(self)@.push(w),
    {
        self.items.push(w);
    }

    /// Removes and returns the top.
    pub fn pop(&mut self) -> (r: Word)
        requires
            old(self)@.len() > 0,
        ensures
            r == old(self)@.last(),
            final(self)@ == old(self)@.drop_last(),
    {
        self.items.pop().unwrap()
    }

    /// The word at depth `index` (0 is the top), left in place.
    pub fn get(&self, index: usize) -> (r: Word)
        requires
            index < self@.len(),
        ensures
            r == at_depth(self@, index as int),
    {
        self.items[self.items.len() - 1 - index]
    }

    /// Exchanges the top with the word at depth `index`.
    pub fn swap_top(&mut self, index: usize)
        requires
            index < old(self)@.len(),
        ensures
            final(self)@ == swapped(old(self)@, index as int),
    {
        let n = self.items.len();
        let top = self.items[n - 1];
        let other = self.items[n - 1 - index];
        self.items.set(n - 1, other);
        self.items.set(n - 1 - index, top);
    }
}

} // verus!
