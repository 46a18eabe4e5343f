//! A queue that forgets its oldest item when it is full.

use std::collections::VecDeque;
use vstd::prelude::*;

verus! {

/// A queue that is meant to hold `max_size` items at most: an item that
/// comes in when the queue holds exactly that many pushes the oldest out.
pub struct BoundedQueue<T> {
    queue: VecDeque<T>,
    max_size: usize,
}

/// The items of a queue after `item` has come in, where `limit` is the
/// size at which the oldest item goes.
pub open spec fn enqueued<T>(items: Seq<T>, limit: nat, item: T) -> Seq<T> {
    if items.len() == limit && items.len() > 0 {
        items.subrange(1, items.len() as int).push(item)
    } else {
        items.push(item)
    }
}

/// A queue that starts within a limit of one or more stays within it.
pub proof fn lemma_enqueued_stays_bounded<T>(items: Seq<T>, limit: nat, item: T)
    requires
        limit >= 1,
        items.len() <= limit,
    ensures
        enqueued(items, limit, item).len() <= limit,
        enqueued(items, limit, item).last() == item,
{
}

impl<T> BoundedQueue<T> {
    /// The items of the queue, oldest first.
    pub closed spec fn view(&self) -> Seq<T> {
        self.queue@
    }

    /// The size at which the oldest item goes.
    pub closed spec fn limit(&self) -> nat {
        self.max_size as nat
    }

    /// An empty queue for `max_size` items.
    pub fn new(max_size: usize) -> (queue: Self)
        ensures
            queue@ == Seq::<T>::empty(),
            queue.limit() == max_size,
    {
        BoundedQueue { queue: VecDeque::with_capacity(max_size), max_size }
    }

    /// Puts `item` at the back. Where the queue holds exactly as many
    /// items as it is meant to, the oldest goes first.
    pub fn enqueue(&mut self, item: T)
        ensures
            final(self)@ == enqueued(old(self)@, old(self).limit(), item),
            final(self).limit() == old(self).limit(),
    {
        if self.queue.len() == self.max_size {
            let _ = self.queue.pop_front();
        }
        self.queue.push_back(item);
    }

    /// Takes the oldest item out.
    pub fn dequeue(&mut self) -> (item: Option<T>)
        ensures
            final(self).limit() == old(self).limit(),
            match item {
                Some(x) => old(self)@.len() > 0 && x == old(self)@[0] && final(self)@ == old(
                    self,
                )@.subrange(1, old(self)@.len() as int),
                None => old(self)@.len() == 0 && final(self)@ == old(self)@,
            },
    {
        self.queue.pop_front()
    }

    /// The oldest item.
    pub fn peek(&self) -> (item: Option<&T>)
        ensures
            match item {
                Some(x) => self@.len() > 0 && *x == self@[0],
                None => self@.len() == 0,
            },
    {
        if self.queue.len() > 0 {
            Some(&self.queue[0])
        } else {
            None
        }
    }

    /// The item at the place `index`, counted from the oldest.
    pub fn get(&self, index: usize) -> (item: Option<&T>)
        ensures
            match item {
                Some(x) => index < self@.len() && *x == self@[index as int],
                None => index >= self@.len(),
            },
    {
        if index < self.queue.len() {
            Some(&self.queue[index])
        } else {
            None
        }
    }

    /// The number of items.
    pub fn len(&self) -> (len: usize)
        ensures
            len == self@.len(),
    {
        self.queue.len()
    }

    /// Whether the queue holds nothing.
    pub fn is_empty(&self) -> (empty: bool)
        ensures
            empty == (self@.len() == 0),
    {
        self.queue.len() == 0
    }
}

} // verus!
