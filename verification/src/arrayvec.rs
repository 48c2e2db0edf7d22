//! A strictly fixed-capacity vector: handy wherever a bounded buffer is
//! wanted and a reallocation is not.

use vstd::prelude::*;

verus! {

/// A vector that holds at most `CAP` elements; pushing beyond the
/// capacity is refused (or silently dropped, for the forgiving `push`).
pub struct ArrayVec<T, const CAP: usize> {
    data: Vec<T>,
}

impl<T, const CAP: usize> ArrayVec<T, CAP> {
    /// The stored elements, oldest first.
    pub closed spec fn view(self) -> Seq<T> {
        self.data@
    }

    pub open spec fn wf(self) -> bool {
        self.view().len() <= CAP
    }

    /// An empty vector.
    pub fn new() -> (v: ArrayVec<T, CAP>)
        ensures
            v.wf(),
            v.view().len() == 0,
    {
        ArrayVec { data: Vec::new() }
    }

    /// Drop every element.
    pub fn clear(&mut self)
        ensures
            final(self).wf(),
            final(self).view().len() == 0,
    {
        *self = Self::new();
    }

    pub fn len(&self) -> (r: usize)
        ensures
            r == self.view().len(),
    {
        self.data.len()
    }

    pub fn is_empty(&self) -> (r: bool)
        ensures
            r <==> self.view().len() == 0,
    {
        self.data.len() == 0
    }

    pub fn is_full(&self) -> (r: bool)
        requires
            self.wf(),
        ensures
            r <==> self.view().len() == CAP,
    {
        self.spare_capacity() == 0
    }

    /// How many more elements fit.
    pub fn spare_capacity(&self) -> (r: usize)
        requires
            self.wf(),
        ensures
            r == CAP - self.view().len(),
    {
        CAP - self.data.len()
    }

    /// Append `value`, or hand it back when the vector is full.
    pub fn try_push(&mut self, value: T) -> (r: Result<(), T>)
        requires
            old(self).wf(),
        ensures
            final(self).wf(),
            old(self).view().len() < CAP ==> r is Ok && final(self).view() == old(self).view().push(value),
            old(self).view().len() >= CAP ==> (r matches Err(v) && v == value) && final(self).view() == old(self).view(),
    {
        if self.data.len() < CAP {
            self.data.push(value);
            Ok(())
        } else {
            Err(value)
        }
    }

    /// Append `value`, silently dropping it when the vector is full.
    pub fn push(&mut self, value: T)
        requires
            old(self).wf(),
        ensures
            final(self).wf(),
            old(self).view().len() < CAP ==> final(self).view() == old(self).view().push(value),
            old(self).view().len() >= CAP ==> final(self).view() == old(self).view(),
    {
        let _ = self.try_push(value);
    }

    /// Remove and return the most recently pushed element.
    pub fn pop(&mut self) -> (r: Option<T>)
        requires
            old(self).wf(),
        ensures
            final(self).wf(),
            old(self).view().len() == 0 ==> r is None && final(self).view() == old(self).view(),
            old(self).view().len() > 0 ==> (r matches Some(v) && v == old(self).view().last())
                && final(self).view() == old(self).view().drop_last(),
    {
        self.data.pop()
    }

    /// The element at `i`.
    pub fn get(&self, i: usize) -> (r: &T)
        requires
            i < self.view().len(),
        ensures
            *r == self.view()[i as int],
    {
        &self.data[i]
    }

    /// Append elements from `items` in order until the vector is full;
    /// whatever does not fit is dropped.
    pub fn extend(&mut self, items: Vec<T>)
        requires
            old(self).wf(),
        ensures
            final(self).wf(),
            final(self).view() == old(self).view() + items@.take(
                vstd::math::min(CAP - old(self).view().len(), items@.len() as int),
            ),
    {
        let ghost v0 = self.data@;
        let ghost q0 = items@;
        let mut items = items;
        proof {
            assert(self.data@ =~= v0 + q0.take(0));
        }
        let ghost mut n: int = 0;
        while items.len() > 0 && self.data.len() < CAP
            invariant
                0 <= n <= q0.len(),
                items@ == q0.skip(n),
                self.data@ == v0 + q0.take(n),
                v0.len() + n <= CAP,
                v0.len() <= CAP,
            decreases items@.len(),
        {
            let x = items.remove(0);
            proof {
                assert(x == q0[n]);
                assert(items@ =~= q0.skip(n + 1));
            }
            self.data.push(x);
            proof {
                n = n + 1;
                assert(self.data@ =~= v0 + q0.take(n));
            }
        }
        proof {
            let room = vstd::math::min(CAP - v0.len(), q0.len() as int);
            assert(n == room);
            assert(q0.take(n) == q0.take(room));
        }
    }
}

} // verus!
