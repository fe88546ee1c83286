//! Scratch memory accounting.
use vstd::prelude::*;
use core::marker::PhantomData;

verus! {

/// Chunk of scratch memory obtained once for an operation, holding `capacity` items.
pub struct MemoryAllocation<T: Copy> {
    capacity: usize,
    marker: PhantomData<T>,
}

/// Chunk of memory, from which slices are carved in order.
pub struct Memory<T: Copy> {
    /// Capacity.
    capacity: usize,
    marker: PhantomData<T>,
}

impl<T: Copy> MemoryAllocation<T> {
    /// Number of items of the allocation.
    pub closed spec fn spec_capacity(&self) -> nat {
        self.capacity as nat
    }

    /// Allocate memory for `capacity` items.
    pub fn new(capacity: usize) -> (r: Self)
        ensures
            r.spec_capacity() == capacity,
    {
        MemoryAllocation { capacity, marker: PhantomData }
    }

    /// Get memory.
    pub fn memory(&mut self) -> (r: Memory<T>)
        ensures
            r.spec_capacity() == old(self).spec_capacity(),
            *final(self) == *old(self),
    {
        Memory { capacity: self.capacity, marker: PhantomData }
    }
}

impl<T: Copy> Memory<T> {
    /// Number of items still available.
    pub closed spec fn spec_capacity(&self) -> nat {
        self.capacity as nat
    }

    /// Number of items still available.
    pub fn capacity(&self) -> (r: usize)
        ensures
            r == self.spec_capacity(),
    {
        self.capacity
    }

    /// Allocate a slice with a given value.
    ///
    /// Returns the remaining chunk of memory.
    pub fn allocate_slice_fill(&mut self, n: usize, val: T) -> (r: (Vec<T>, Memory<T>))
        requires
            n <= old(self).spec_capacity(),
        ensures
            r.0@ == Seq::new(n as nat, |i: int| val),
            r.1.spec_capacity() == old(self).spec_capacity() - n,
            *final(self) == *old(self),
    {
        let mut v: Vec<T> = Vec::with_capacity(n);
        let mut i: usize = 0;
        while i < n
            invariant
                i <= n,
                v@ == Seq::new(i as nat, |j: int| val),
            decreases n - i,
        {
            v.push(val);
            i = i + 1;
            proof {
                assert(v@ =~= Seq::new(i as nat, |j: int| val));
            }
        }
        (v, Memory { capacity: self.capacity - n, marker: PhantomData })
    }

    /// Allocate a slice by copying another slice.
    ///
    /// Returns the remaining chunk of memory.
    pub fn allocate_slice_copy(&mut self, source: &[T]) -> (r: (Vec<T>, Memory<T>))
        requires
            source@.len() <= old(self).spec_capacity(),
        ensures
            r.0@ == source@,
            r.1.spec_capacity() == old(self).spec_capacity() - source@.len(),
            *final(self) == *old(self),
    {
        let n = source.len();
        let mut v: Vec<T> = Vec::with_capacity(n);
        let mut i: usize = 0;
        while i < n
            invariant
                i <= n,
                n == source@.len(),
                v@ == source@.subrange(0, i as int),
            decreases n - i,
        {
            v.push(source[i]);
            i = i + 1;
            proof {
                assert(v@ =~= source@.subrange(0, i as int));
            }
        }
        proof {
            assert(source@.subrange(0, n as int) =~= source@);
        }
        (v, Memory { capacity: self.capacity - n, marker: PhantomData })
    }

    /// Allocate a slice by copying a Smaller slice and filling the remainder with a value.
    ///
    /// Returns the remaining chunk of memory.
    pub fn allocate_slice_copy_fill(&mut self, n: usize, source: &[T], val: T) -> (r: (
        Vec<T>,
        Memory<T>,
    ))
        requires
            n >= source@.len(),
            n <= old(self).spec_capacity(),
        ensures
            r.0@ == source@ + Seq::new((n - source@.len()) as nat, |i: int| val),
            r.1.spec_capacity() == old(self).spec_capacity() - n,
            *final(self) == *old(self),
    {
        let (mut v, _rest) = self.allocate_slice_copy(source);
        let mut i: usize = source.len();
        while i < n
            invariant
                source@.len() <= i <= n,
                v@ == source@ + Seq::new((i - source@.len()) as nat, |j: int| val),
            decreases n - i,
        {
            v.push(val);
            i = i + 1;
            proof {
                assert(v@ =~= source@ + Seq::new((i - source@.len()) as nat, |j: int| val));
            }
        }
        (v, Memory { capacity: self.capacity - n, marker: PhantomData })
    }
}

/// Sum of two capacities, which must not overflow.
pub fn add_capacity(a: usize, b: usize) -> (r: usize)
    requires
        a + b <= usize::MAX,
    ensures
        r == a + b,
{
    a + b
}

} // verus!
