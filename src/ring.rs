//! A fixed-capacity circular buffer that keeps the most recent items of a
//! stream.
use vstd::prelude::*;

verus! {

/// The last `n` items of `s`, or all of them where there are fewer.
pub open spec fn last_n<T>(s: Seq<T>, n: nat) -> Seq<T> {
    if s.len() <= n {
        s
    } else {
        s.subrange(s.len() - n, s.len() as int)
    }
}

/// Keeps the last `capacity()` items pushed. Until it is full, items are
/// appended; after that each push overwrites the oldest item, at the cursor,
/// and moves the cursor on.
pub struct CircularBuffer<T> {
    capacity: usize,
    items: Vec<T>,
    cursor: usize,
    pushed: Ghost<Seq<T>>,
}

impl<T> CircularBuffer<T> {
    /// The most items kept.
    pub closed spec fn capacity(&self) -> nat {
        self.capacity as nat
    }

    /// Every item pushed so far, oldest first.
    pub closed spec fn pushed(&self) -> Seq<T> {
        self.pushed@
    }

    /// The items kept, oldest first: from the cursor to the end of the
    /// storage, then from its start to the cursor.
    pub closed spec fn ordered(&self) -> Seq<T> {
        self.items@.subrange(self.cursor as int, self.items@.len() as int) + self.items@.subrange(
            0,
            self.cursor as int,
        )
    }

    /// The buffer's invariant: it keeps exactly the last `capacity()` items.
    pub closed spec fn wf(&self) -> bool {
        &&& self.capacity >= 1
        &&& self.items@.len() <= self.capacity
        &&& self.cursor < self.capacity
        &&& self.cursor <= self.items@.len()
        &&& (self.items@.len() < self.capacity ==> self.cursor == 0)
        &&& self.ordered() == last_n(self.pushed@, self.capacity as nat)
    }

    /// An empty buffer that keeps up to `capacity` items.
    pub fn new(capacity: usize) -> (r: Self)
        requires
            capacity >= 1,
        ensures
            r.wf(),
            r.capacity() == capacity,
            r.pushed() == Seq::<T>::empty(),
    {
        let r = CircularBuffer {
            capacity,
            items: Vec::with_capacity(capacity),
            cursor: 0,
            pushed: Ghost(Seq::empty()),
        };
        assert(r.ordered() =~= Seq::<T>::empty());
        r
    }

    /// The number of items kept.
    pub fn len(&self) -> (r: usize)
        requires
            self.wf(),
        ensures
            r == self.ordered().len(),
            r == last_n(self.pushed(), self.capacity()).len(),
    {
        self.items.len()
    }

    /// Adds `x` as the most recent item, dropping the oldest one where the
    /// buffer is full.
    pub fn push(&mut self, x: T)
        requires
            old(self).wf(),
        ensures
            final(self).wf(),
            final(self).capacity() == old(self).capacity(),
            final(self).pushed() == old(self).pushed().push(x),
    {
        let ghost old_ordered = self.ordered();
        let ghost old_pushed = self.pushed@;
        self.pushed = Ghost(self.pushed@.push(x));
        if self.items.len() < self.capacity {
            self.items.push(x);
            proof {
                assert(self.ordered() =~= self.items@);
                if old_pushed.len() > self.capacity {
                    assert(old_ordered.len() == self.capacity);
                }
                assert(old_ordered =~= old_pushed);
                assert(self.items@ =~= last_n(self.pushed@, self.capacity as nat));
            }
        } else {
            let c = self.cursor;
            let ghost old_items = self.items@;
            self.items.set(c, x);
            self.cursor = if c + 1 == self.capacity {
                0
            } else {
                c + 1
            };
            assert(old_ordered.len() == self.capacity);
            assert(old_pushed.len() >= self.capacity);
            assert(self.ordered() =~= old_ordered.drop_first().push(x));
            assert(last_n(self.pushed@, self.capacity as nat) =~= last_n(
                old_pushed,
                self.capacity as nat,
            ).drop_first().push(x));
        }
    }

    /// The items kept, oldest first.
    pub fn into_ordered(self) -> (r: Vec<T>)
        requires
            self.wf(),
        ensures
            r@ == last_n(self.pushed(), self.capacity()),
    {
        let mut front = self.items;
        let mut back = front.split_off(self.cursor);
        back.append(&mut front);
        back
    }
}

} // verus!
