//! Bounded last-in first-out stack.
use vstd::prelude::*;

verus! {

/// Bounded stack: inserts and removes at the same end. A full stack holds
/// `CAP` items.
pub struct Stack<T, const CAP: usize> {
    items: Vec<T>,
}

impl<T, const CAP: usize> View for Stack<T, CAP> {
    type V = Seq<T>;

    /// The items, oldest first.
    closed spec fn view(&self) -> Seq<T> {
        self.items@
    }
}

impl<T, const CAP: usize> Stack<T, CAP> {
    /// The stack never holds more than `CAP` items.
    pub open spec fn wf(&self) -> bool {
        self@.len() <= CAP
    }

    /// An empty stack.
    pub fn new() -> (s: Self)
        ensures
            s.wf(),
            s@ == Seq::<T>::empty(),
    {
        Stack { items: Vec::new() }
    }

    /// Push one item; returns it back if the stack is full.
    pub fn try_push(&mut self, value: T) -> (r: Result<(), T>)
        requires
            old(self).wf(),
        ensures
            final(self).wf(),
            r == if old(self)@.len() == CAP {
                Err(value)
            } else {
                Ok::<(), T>(())
            },
            final(self)@ == if old(self)@.len() == CAP {
                old(self)@
            } else {
                old(self)@.push(value)
            },
    {
        if self.items.len() == CAP {
            return Err(value);
        }
        self.items.push(value);
        Ok(())
    }

    /// Pop the most recently pushed item, or `None` if empty.
    pub fn try_pop(&mut self) -> (r: Option<T>)
        requires
            old(self).wf(),
        ensures
            final(self).wf(),
            r == if old(self)@.len() == 0 {
                None
            } else {
                Some(old(self)@.last())
            },
            final(self)@ == if old(self)@.len() == 0 {
                old(self)@
            } else {
                old(self)@.drop_last()
            },
    {
        self.items.pop()
    }

    /// The most recently pushed item, without removing it.
    pub fn peek(&self) -> (r: Option<&T>)
        ensures
            match r {
                Some(v) => self@.len() > 0 && *v == self@.last(),
                None => self@.len() == 0,
            },
    {
        let n: usize = self.items.len();
        if n == 0 {
            None
        } else {
            Some(&self.items[n - 1])
        }
    }

    /// Number of items currently stored.
    pub fn len(&self) -> (r: usize)
        ensures
            r == self@.len(),
    {
        self.items.len()
    }

    /// Capacity (always `CAP`).
    pub fn capacity(&self) -> (r: usize)
        ensures
            r == CAP,
    {
        CAP
    }

    /// Empty check.
    pub fn is_empty(&self) -> (r: bool)
        ensures
            r == (self@.len() == 0),
    {
        self.items.len() == 0
    }

    /// Full check: occupancy may equal `CAP`.
    pub fn is_full(&self) -> (r: bool)
        ensures
            r == (self@.len() == CAP),
    {
        self.items.len() == CAP
    }
}

impl<T, const CAP: usize> Default for Stack<T, CAP> {
    fn default() -> (s: Self)
        ensures
            s.wf(),
            s@ == Seq::<T>::empty(),
    {
        Self::new()
    }
}


/// `push; pop` is the identity, and gives back what was pushed.
pub proof fn law_push_pop_is_identity<T>(s: Seq<T>, v: T)
    ensures
        s.push(v).last() == v,
        s.push(v).drop_last() == s,
{
    assert(s.push(v).drop_last() =~= s);
}

/// `pop; push` is the identity on a nonempty stack.
pub proof fn law_pop_push_is_identity<T>(s: Seq<T>)
    requires
        s.len() > 0,
    ensures
        s.drop_last().push(s.last()) == s,
{
    assert(s.drop_last().push(s.last()) =~= s);
}

} // verus!
