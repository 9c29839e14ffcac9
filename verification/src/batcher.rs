//! The state of the queue through which sessions hand work to the single
//! inference worker.
//!
//! The queue is either alive or dead. While alive it collects items in
//! arrival order and hands all of them out at once; once dead it holds
//! nothing and ignores new items, so that the batch it hands out is empty. Callers that share a queue between threads
//! guard it with a lock and park on a condition while `must_wait` holds.

use vstd::prelude::*;

verus! {

/// Mathematical content of a [`Batcher`].
pub struct BatcherView<T> {
    /// The pending items, oldest first.
    pub queue: Seq<T>,
    /// Whether new items are still accepted.
    pub alive: bool,
}

/// A batching queue.
pub struct Batcher<T> {
    queue: Vec<T>,
    alive: bool,
}

impl<T> View for Batcher<T> {
    type V = BatcherView<T>;

    closed spec fn view(&self) -> BatcherView<T> {
        BatcherView { queue: self.queue@, alive: self.alive }
    }
}

impl<T> BatcherView<T> {
    /// A consumer has nothing to take and no reason to give up: the queue is
    /// empty and still alive.
    pub open spec fn must_wait(self) -> bool {
        self.queue.len() == 0 && self.alive
    }

    /// A dead queue holds nothing.
    pub open spec fn wf(self) -> bool {
        !self.alive ==> self.queue.len() == 0
    }
}

impl<T> Batcher<T> {
    /// An empty queue that accepts items.
    pub fn new() -> (r: Self)
        ensures
            r@.queue == Seq::<T>::empty(),
            r@.alive,
            r@.wf(),
    {
        Batcher { queue: Vec::new(), alive: true }
    }

    /// Appends `val` if the queue is alive; a dead queue drops it and stays
    /// empty.
    pub fn enq(&mut self, val: T)
        requires
            old(self)@.wf(),
        ensures
            final(self)@.alive == old(self)@.alive,
            old(self)@.alive ==> final(self)@.queue == old(self)@.queue.push(val),
            !old(self)@.alive ==> final(self)@.queue == Seq::<T>::empty(),
            final(self)@.wf(),
    {
        if self.alive {
            self.queue.push(val);
        }
    }

    /// Whether a consumer should block before calling [`Batcher::deq`].
    pub fn must_wait(&self) -> (r: bool)
        ensures
            r == self@.must_wait(),
    {
        self.queue.len() == 0 && self.alive
    }

    /// Whether the queue is well formed. Every queue that `new` made and
    /// the operations changed is.
    pub fn is_wf(&self) -> (r: bool)
        ensures
            r == self@.wf(),
    {
        self.alive || self.queue.len() == 0
    }

    /// Whether the queue still accepts items.
    pub fn is_alive(&self) -> (r: bool)
        ensures
            r == self@.alive,
    {
        self.alive
    }

    /// Takes every pending item, oldest first, and leaves the queue empty.
    ///
    /// A consumer waits while `must_wait` holds and takes the batch when it
    /// holds no longer. The batch is empty exactly if the queue is dead: a
    /// queue that is alive never hands out an empty batch.
    pub fn deq(&mut self) -> (r: Vec<T>)
        requires
            old(self)@.wf(),
            !old(self)@.must_wait(),
        ensures
            r@ == old(self)@.queue,
            final(self)@.queue == Seq::<T>::empty(),
            final(self)@.alive == old(self)@.alive,
            final(self)@.wf(),
            r@.len() == 0 <==> !final(self)@.alive,
    {
        let mut taken: Vec<T> = Vec::new();
        std::mem::swap(&mut self.queue, &mut taken);
        taken
    }

    /// Marks the queue dead and discards whatever was pending.
    pub fn shutdown(&mut self)
        ensures
            !final(self)@.alive,
            final(self)@.queue == Seq::<T>::empty(),
            final(self)@.wf(),
    {
        self.queue.clear();
        self.alive = false;
    }
}

} // verus!
