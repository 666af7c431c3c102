//! Byte accounting for a memory allocator: the allocator in front of the
//! system's keeps a running count of the bytes it has handed out.
use vstd::prelude::*;

verus! {

/// `a + b` for `a` and `b` within one wrap-around of the machine's range,
/// wrapped into it.
pub open spec fn wrap_add(a: int, b: int) -> usize {
    if a + b > usize::MAX {
        (a + b - usize::MAX - 1) as usize
    } else if a + b < 0 {
        (a + b + usize::MAX + 1) as usize
    } else {
        (a + b) as usize
    }
}

/// An allocator that counts the bytes it hands out, in front of `inner`,
/// which does the allocating. The count wraps around as the machine's
/// arithmetic does.
pub struct Allocator<T> {
    inner: T,
    allocated_bytes: usize,
}

impl<T> Allocator<T> {
    pub closed spec fn count(&self) -> usize {
        self.allocated_bytes
    }

    pub closed spec fn wrapped(&self) -> T {
        self.inner
    }

    /// The allocator that does the allocating.
    pub fn inner(&self) -> (r: &T)
        ensures
            *r == self.wrapped(),
    {
        &self.inner
    }

    /// An allocator that has handed out nothing yet.
    pub fn new(inner: T) -> (a: Allocator<T>)
        ensures
            a.count() == 0,
            a.wrapped() == inner,
    {
        Allocator { inner, allocated_bytes: 0 }
    }

    /// The bytes handed out and not given back.
    pub fn allocated_bytes(&self) -> (n: usize)
        ensures
            n == self.count(),
    {
        self.allocated_bytes
    }

    /// Counts an allocation of `size` bytes, fresh or zeroed.
    pub fn record_alloc(&mut self, size: usize)
        ensures
            final(self).count() == wrap_add(old(self).count() as int, size as int),
            final(self).wrapped() == old(self).wrapped(),
    {
        self.allocated_bytes = self.allocated_bytes.wrapping_add(size);
    }

    /// Counts the return of `size` bytes.
    pub fn record_dealloc(&mut self, size: usize)
        ensures
            final(self).count() == wrap_add(old(self).count() as int, -(size as int)),
            final(self).wrapped() == old(self).wrapped(),
    {
        self.allocated_bytes = self.allocated_bytes.wrapping_sub(size);
    }

    /// Counts the resizing of a block of `old_size` bytes to `new_size`.
    pub fn record_realloc(&mut self, old_size: usize, new_size: usize)
        ensures
            final(self).count() == wrap_add(old(self).count() as int, wrap_add(new_size as int, -(old_size as int)) as int),
            final(self).wrapped() == old(self).wrapped(),
    {
        self.allocated_bytes = self.allocated_bytes.wrapping_add(new_size.wrapping_sub(old_size));
    }
}

} // verus!
