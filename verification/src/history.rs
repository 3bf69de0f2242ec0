//! A bounded history: the most recent items recorded, oldest first.
//!
//! Recording into a full history drops its oldest item first, so the history always holds
//! the last `capacity` items recorded (or all of them, while fewer were recorded).
use vstd::prelude::*;

verus! {

/// The last `n` items of `s` (all of `s` when it has at most `n`).
pub open spec fn last_n<T>(s: Seq<T>, n: nat) -> Seq<T> {
    if s.len() <= n {
        s
    } else {
        s.skip(s.len() - n)
    }
}

/// The most recent items recorded, oldest first, at most `capacity` of them.
#[derive(Debug, Clone)]
pub struct History<T> {
    items: Vec<T>,
    capacity: usize,
}

impl<T> View for History<T> {
    type V = Seq<T>;

    closed spec fn view(&self) -> Seq<T> {
        self.items@
    }
}

impl<T> History<T> {
    /// Maximum number of items kept.
    pub closed spec fn spec_capacity(&self) -> nat {
        self.capacity as nat
    }

    /// The history holds no more than its capacity.
    pub closed spec fn wf(&self) -> bool {
        self.items@.len() <= self.capacity
    }

    /// An empty history keeping at most `capacity` items.
    pub fn new(capacity: usize) -> (res: Self)
        ensures
            res.wf(),
            res@ == Seq::<T>::empty(),
            res.spec_capacity() == capacity,
    {
        History { items: Vec::with_capacity(capacity), capacity }
    }

    /// Record `item`; when the history is full its oldest item is dropped first.
    pub fn push(&mut self, item: T)
        requires
            old(self).wf(),
            old(self).spec_capacity() > 0,
        ensures
            final(self).wf(),
            final(self).spec_capacity() == old(self).spec_capacity(),
            final(self)@ == (if old(self)@.len() >= old(self).spec_capacity() {
                old(self)@.drop_first()
            } else {
                old(self)@
            }).push(item),
            final(self)@ == last_n(old(self)@.push(item), old(self).spec_capacity()),
    {
        let ghost before = self.items@;
        if self.items.len() >= self.capacity {
            self.items.remove(0);
        }
        self.items.push(item);
        proof {
            let all = before.push(item);
            if before.len() >= self.capacity {
                assert(self.items@ =~= all.skip(all.len() - self.capacity));
            }
        }
    }

    /// Number of items held.
    pub fn len(&self) -> (res: usize)
        ensures
            res == self@.len(),
    {
        self.items.len()
    }

    /// Maximum number of items kept.
    pub fn capacity(&self) -> (res: usize)
        ensures
            res == self.spec_capacity(),
    {
        self.capacity
    }

    /// The items held, oldest first.
    pub fn as_slice(&self) -> (res: &[T])
        ensures
            res@ == self@,
    {
        self.items.as_slice()
    }

    /// Forget every item.
    pub fn clear(&mut self)
        requires
            old(self).wf(),
        ensures
            final(self).wf(),
            final(self).spec_capacity() == old(self).spec_capacity(),
            final(self)@ == Seq::<T>::empty(),
    {
        self.items.clear();
    }
}

/// Keeping the last `n` items after each recording is the same as keeping the last `n` of
/// everything recorded: a history of capacity `n` fed `all` then `x` holds the last `n` items
/// of `all` followed by `x`.
pub proof fn lemma_last_n_push<T>(all: Seq<T>, x: T, n: nat)
    requires
        n > 0,
    ensures
        last_n(last_n(all, n).push(x), n) == last_n(all.push(x), n),
{
    let w = last_n(all, n);
    if all.len() <= n {
        assert(w == all);
    } else {
        assert(last_n(w.push(x), n) =~= last_n(all.push(x), n));
    }
}

} // verus!
