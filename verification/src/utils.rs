//! A queue of bounded length.

use std::collections::VecDeque;
use vstd::prelude::*;

verus! {

/// The newest `bound` items of `items`, in their order; all of them if there are no more
/// than `bound`.
pub open spec fn newest<T>(items: Seq<T>, bound: nat) -> Seq<T> {
    if items.len() > bound {
        items.skip(items.len() - bound)
    } else {
        items
    }
}

/// The oldest `bound` items of `items`, in their order; all of them if there are no more
/// than `bound`.
pub open spec fn oldest<T>(items: Seq<T>, bound: nat) -> Seq<T> {
    if items.len() > bound {
        items.take(bound as int)
    } else {
        items
    }
}

/// A queue that forgets its oldest items once it holds more than a fixed number of them.
pub struct BoundedDeque<T> {
    pub deque: VecDeque<T>,
    pub max_len: usize,
}

impl<T> View for BoundedDeque<T> {
    type V = Seq<T>;

    /// The items held, oldest first.
    open spec fn view(&self) -> Seq<T> {
        self.deque@
    }
}

impl<T> BoundedDeque<T> {
    /// The number of items the queue is meant to hold at most.
    pub open spec fn bound(&self) -> nat {
        self.max_len as nat
    }

    pub fn new(max_len: usize) -> (queue: BoundedDeque<T>)
        ensures
            queue@ == Seq::<T>::empty(),
            queue.bound() == max_len,
    {
        BoundedDeque { deque: VecDeque::new(), max_len }
    }

    /// Appends all of `other` at the back, then drops items from the front until no more
    /// than the bound are left.
    pub fn append(&mut self, other: Vec<T>)
        ensures
            final(self)@ == newest(old(self)@ + other@, old(self).bound()),
            final(self).bound() == old(self).bound(),
            final(self)@.len() <= final(self).bound(),
    {
        let ghost before = self.deque@;
        let ghost added = other@;
        for value in it: other
            invariant
                it.seq() == added,
                self.deque@ == before + added.take(it.index() as int),
                self.max_len == old(self).max_len,
        {
            self.deque.push_back(value);
            assert(added.take(it.index() as int).push(value) =~= added.take(it.index() + 1));
        }
        assert(added.take(added.len() as int) =~= added);
        let ghost all = before + added;
        while self.deque.len() > self.max_len
            invariant
                self.max_len == old(self).max_len,
                all.len() >= self.deque@.len(),
                self.deque@.len() >= self.max_len || self.deque@.len() == all.len(),
                self.deque@ == all.skip(all.len() - self.deque@.len()),
            decreases self.deque@.len(),
        {
            self.deque.pop_front();
            assert(self.deque@ =~= all.skip(all.len() - self.deque@.len()));
        }
        assert(all.skip(0) =~= all);
    }

    /// Adds `value` at the back, then drops items from the front until no more than the
    /// bound are left: a queue that holds as many items as the bound loses its front item,
    /// and a queue with the bound 0 keeps nothing.
    pub fn push_back(&mut self, value: T)
        ensures
            final(self).bound() == old(self).bound(),
            final(self)@ == newest(old(self)@.push(value), old(self).bound()),
            final(self)@.len() <= final(self).bound(),
    {
        let ghost all = self.deque@.push(value);
        self.deque.push_back(value);
        while self.deque.len() > self.max_len
            invariant
                self.max_len == old(self).max_len,
                all.len() >= self.deque@.len(),
                self.deque@.len() >= self.max_len || self.deque@.len() == all.len(),
                self.deque@ == all.skip(all.len() - self.deque@.len()),
            decreases self.deque@.len(),
        {
            self.deque.pop_front();
            assert(self.deque@ =~= all.skip(all.len() - self.deque@.len()));
        }
        assert(all.skip(0) =~= all);
    }

    /// Adds `value` at the front, then drops items from the back until no more than the
    /// bound are left: a queue that holds as many items as the bound loses its back item,
    /// and a queue with the bound 0 keeps nothing.
    pub fn push_front(&mut self, value: T)
        ensures
            final(self).bound() == old(self).bound(),
            final(self)@ == oldest(seq![value] + old(self)@, old(self).bound()),
            final(self)@.len() <= final(self).bound(),
    {
        let ghost all = seq![value] + self.deque@;
        self.deque.push_front(value);
        while self.deque.len() > self.max_len
            invariant
                self.max_len == old(self).max_len,
                all.len() >= self.deque@.len(),
                self.deque@.len() >= self.max_len || self.deque@.len() == all.len(),
                self.deque@ == all.take(self.deque@.len() as int),
            decreases self.deque@.len(),
        {
            self.deque.pop_back();
            assert(self.deque@ =~= all.take(self.deque@.len() as int));
        }
        assert(all.take(all.len() as int) =~= all);
    }
}

} // verus!
