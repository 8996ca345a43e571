use vstd::prelude::*;

verus! {

/// A bounded stack: pushes beyond the capacity drop the oldest element.
pub struct RingVec<T> {
    buffer: Vec<T>,
    size: usize,
}

impl<T> View for RingVec<T> {
    type V = Seq<T>;

    closed spec fn view(&self) -> Seq<T> {
        self.buffer@
    }
}

impl<T> RingVec<T> {
    pub closed spec fn capacity(&self) -> int {
        self.size as int
    }

    pub closed spec fn wf(&self) -> bool {
        self.buffer@.len() <= self.size
    }

    pub fn new(size: usize) -> (r: RingVec<T>)
        ensures
            r.wf(),
            r@ == Seq::<T>::empty(),
            r.capacity() == size as int,
    {
        RingVec { buffer: Vec::new(), size }
    }

    /// Push on top; when full, the element at the bottom goes.
    pub fn push(&mut self, item: T)
        requires
            old(self).wf(),
        ensures
            final(self).wf(),
            final(self).capacity() == old(self).capacity(),
            final(self)@ == if old(self).capacity() == 0 {
                old(self)@
            } else if old(self)@.len() < old(self).capacity() {
                old(self)@.push(item)
            } else {
                old(self)@.drop_first().push(item)
            },
    {
        if self.size == 0 {
            return ;
        }
        if self.buffer.len() >= self.size {
            self.buffer.remove(0);
            proof {
                assert(self.buffer@ =~= old(self)@.drop_first());
            }
        }
        self.buffer.push(item);
    }

    /// Pop the most recently pushed element.
    pub fn pop(&mut self) -> (r: Option<T>)
        requires
            old(self).wf(),
        ensures
            final(self).wf(),
            final(self).capacity() == old(self).capacity(),
            match r {
                Some(item) => old(self)@.len() > 0 && item == old(self)@.last() && final(self)@
                    == old(self)@.drop_last(),
                None => old(self)@.len() == 0 && final(self)@ == old(self)@,
            },
    {
        self.buffer.pop()
    }
}

} // verus!
