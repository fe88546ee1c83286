//! Word buffer.
use vstd::prelude::*;
use crate::arch::word::{DoubleWord, Word};
use crate::primitive::{double_word, word_base, WORD_BITS_USIZE};

verus! {

/// Buffer of words allocated on heap. It's like a `Vec<Word>` with functionalities specialized for words.
///
/// UBig operations are usually performed by creating a Buffer with appropriate capacity, filling it
/// in with Words, and then converting to UBig.
///
/// The buffer keeps track of the capacity that was requested for it; pushing beyond that capacity
/// is not allowed.
pub struct Buffer {
    words: Vec<Word>,
    capacity: usize,
}

impl View for Buffer {
    type V = Seq<Word>;

    closed spec fn view(&self) -> Seq<Word> {
        self.words@
    }
}

/// `min(a, b)` over naturals.
pub open spec fn spec_min(a: nat, b: nat) -> nat {
    if a <= b { a } else { b }
}

/// Maximum number of `Word`s in a buffer.
pub open spec fn spec_max_capacity() -> nat {
    (usize::MAX / 64) as nat
}

/// Default capacity for a given number of words: `2 + 0.125 * num_words` extra space.
pub open spec fn spec_default_capacity(num_words: nat) -> nat {
    spec_min(num_words + num_words / 8 + 2, spec_max_capacity())
}

/// Largest capacity still considered compact: `4 + 0.25 * num_words` overhead.
pub open spec fn spec_max_compact_capacity(num_words: nat) -> nat {
    spec_min(num_words + num_words / 4 + 4, spec_max_capacity())
}

impl Buffer {
    /// Maximum number of `Word`s.
    ///
    /// This ensures that the number of **bits** fits in `usize`, which is useful for bit count
    /// operations, and for radix conversions (even base 2 can be represented).
    pub const MAX_CAPACITY: usize = usize::MAX / WORD_BITS_USIZE;

    /// Well-formedness: the content fits in the capacity, which fits in the maximum.
    pub closed spec fn wf(&self) -> bool {
        &&& self.words@.len() <= self.capacity
        &&& self.capacity <= spec_max_capacity()
    }

    /// The capacity of the buffer.
    pub closed spec fn spec_capacity(&self) -> nat {
        self.capacity as nat
    }

    /// Default capacity for a given number of `Word`s.
    /// It should be between `num_words` and `max_compact_capacity(num_words).
    ///
    /// Requires that `num_words <= MAX_CAPACITY`.
    ///
    /// Provides `2 + 0.125 * num_words` extra space.
    pub fn default_capacity(num_words: usize) -> (r: usize)
        requires
            num_words <= spec_max_capacity(),
        ensures
            r == spec_default_capacity(num_words as nat),
    {
        let c = num_words + num_words / 8 + 2;
        if c < Self::MAX_CAPACITY { c } else { Self::MAX_CAPACITY }
    }

    /// Maximum capacity for a given number of `Word`s to be considered as `compact`.
    ///
    /// Requires that `num_words <= Buffer::MAX_CAPACITY`.
    ///
    /// Allows `4 + 0.25 * num_words` overhead.
    pub fn max_compact_capacity(num_words: usize) -> (r: usize)
        requires
            num_words <= spec_max_capacity(),
        ensures
            r == spec_max_compact_capacity(num_words as nat),
    {
        let c = num_words + num_words / 4 + 4;
        if c < Self::MAX_CAPACITY { c } else { Self::MAX_CAPACITY }
    }

    /// Return buffer capacity.
    pub fn capacity(&self) -> (r: usize)
        requires
            self.wf(),
        ensures
            r == self.spec_capacity(),
            self@.len() <= self.spec_capacity() <= spec_max_capacity(),
    {
        self.capacity
    }

    /// Return the length of words contained in the buffer
    pub fn len(&self) -> (r: usize)
        requires
            self.wf(),
        ensures
            r == self@.len(),
            self@.len() <= self.spec_capacity() <= spec_max_capacity(),
    {
        self.words.len()
    }

    /// Creates a `Buffer` with at least specified capacity.
    ///
    /// It leaves some extra space for future growth, and it allocates several words
    /// even if `num_words` is zero.
    pub fn allocate(num_words: usize) -> (r: Self)
        requires
            num_words <= spec_max_capacity(),
        ensures
            r.wf(),
            r@ == Seq::<Word>::empty(),
            r.spec_capacity() == spec_default_capacity(num_words as nat),
    {
        Self::allocate_exact(Self::default_capacity(num_words))
    }

    /// Creates a `Buffer` with exactly specified capacity (in words).
    pub fn allocate_exact(capacity: usize) -> (r: Self)
        requires
            capacity <= spec_max_capacity(),
        ensures
            r.wf(),
            r@ == Seq::<Word>::empty(),
            r.spec_capacity() == capacity,
    {
        Buffer { words: Vec::with_capacity(capacity), capacity }
    }

    /// Change capacity to the given value.
    fn reallocate_raw(&mut self, capacity: usize)
        requires
            old(self).wf(),
            old(self)@.len() <= capacity <= spec_max_capacity(),
        ensures
            final(self).wf(),
            final(self)@ == old(self)@,
            final(self).spec_capacity() == capacity,
    {
        let additional = capacity - self.words.len();
        self.words.reserve(additional);
        self.capacity = capacity;
    }

    /// Change capacity to store `num_words` plus some extra space for future growth.
    fn reallocate(&mut self, num_words: usize)
        requires
            old(self).wf(),
            old(self)@.len() <= num_words <= spec_max_capacity(),
        ensures
            final(self).wf(),
            final(self)@ == old(self)@,
            final(self).spec_capacity() == spec_default_capacity(num_words as nat),
    {
        let c = Self::default_capacity(num_words);
        self.reallocate_raw(c);
    }

    /// Ensure there is enough capacity in the buffer for `num_words`,
    /// reallocate if necessary.
    pub fn ensure_capacity(&mut self, num_words: usize)
        requires
            old(self).wf(),
            num_words <= spec_max_capacity(),
        ensures
            final(self).wf(),
            final(self)@ == old(self)@,
            final(self).spec_capacity() >= num_words,
            num_words > old(self).spec_capacity() ==> final(self).spec_capacity()
                == spec_default_capacity(num_words as nat),
            num_words <= old(self).spec_capacity() ==> final(self).spec_capacity()
                == old(self).spec_capacity(),
    {
        if num_words > self.capacity {
            self.reallocate(num_words);
        }
    }

    /// Ensure there is enough capacity that is not less than the given value,
    /// reallocate if necessary.
    pub fn ensure_capacity_exact(&mut self, capacity: usize)
        requires
            old(self).wf(),
            capacity <= spec_max_capacity(),
        ensures
            final(self).wf(),
            final(self)@ == old(self)@,
            final(self).spec_capacity() >= capacity,
            capacity > old(self).spec_capacity() ==> final(self).spec_capacity() == capacity,
            capacity <= old(self).spec_capacity() ==> final(self).spec_capacity()
                == old(self).spec_capacity(),
    {
        if capacity > self.capacity {
            self.reallocate_raw(capacity);
        }
    }

    /// Makes sure that the capacity is compact for existing data.
    pub fn shrink_to_fit(&mut self)
        requires
            old(self).wf(),
        ensures
            final(self).wf(),
            final(self)@ == old(self)@,
            old(self).spec_capacity() > spec_max_compact_capacity(old(self)@.len()) ==> final(self).spec_capacity() == spec_default_capacity(old(self)@.len()),
            old(self).spec_capacity() <= spec_max_compact_capacity(old(self)@.len()) ==> final(self).spec_capacity() == old(self).spec_capacity(),
    {
        let len = self.words.len();
        if self.capacity > Self::max_compact_capacity(len) {
            self.reallocate(len);
        }
    }

    /// Append a Word to the buffer; there must be room for it.
    pub fn push(&mut self, word: Word)
        requires
            old(self).wf(),
            old(self)@.len() < old(self).spec_capacity(),
        ensures
            final(self).wf(),
            final(self)@ == old(self)@.push(word),
            final(self).spec_capacity() == old(self).spec_capacity(),
    {
        self.words.push(word);
    }

    /// Append a Word and reallocate if necessary. No-op if word is 0.
    pub fn push_resizing(&mut self, word: Word)
        requires
            old(self).wf(),
            old(self)@.len() < spec_max_capacity(),
        ensures
            final(self).wf(),
            word == 0 ==> final(self)@ == old(self)@ && final(self).spec_capacity() == old(
                self,
            ).spec_capacity(),
            word != 0 ==> final(self)@ == old(self)@.push(word),
    {
        if word != 0 {
            let n = self.words.len() + 1;
            self.ensure_capacity(n);
            self.push(word);
        }
    }

    /// Append `n` zeros; there must be room for them.
    pub fn push_zeros(&mut self, n: usize)
        requires
            old(self).wf(),
            old(self)@.len() + n <= old(self).spec_capacity(),
        ensures
            final(self).wf(),
            final(self)@ == old(self)@ + Seq::new(n as nat, |i: int| 0u64),
            final(self).spec_capacity() == old(self).spec_capacity(),
    {
        let ghost start = self.words@;
        let mut i: usize = 0;
        while i < n
            invariant
                i <= n,
                start.len() + n <= self.capacity,
                self.words@ == start + Seq::new(i as nat, |j: int| 0u64),
                self.capacity == old(self).spec_capacity(),
            decreases n - i,
        {
            self.words.push(0);
            i = i + 1;
            proof {
                assert(self.words@ =~= start + Seq::new(i as nat, |j: int| 0u64));
            }
        }
    }

    /// Insert `n` zeros in front; there must be room for them.
    pub fn push_zeros_front(&mut self, n: usize)
        requires
            old(self).wf(),
            old(self)@.len() + n <= old(self).spec_capacity(),
        ensures
            final(self).wf(),
            final(self)@ == Seq::new(n as nat, |i: int| 0u64) + old(self)@,
            final(self).spec_capacity() == old(self).spec_capacity(),
    {
        let ghost start = self.words@;
        let mut i: usize = 0;
        while i < n
            invariant
                i <= n,
                start.len() + n <= self.capacity,
                self.words@ == Seq::new(i as nat, |j: int| 0u64) + start,
                self.capacity == old(self).spec_capacity(),
            decreases n - i,
        {
            self.words.insert(0, 0);
            i = i + 1;
            proof {
                assert(self.words@ =~= Seq::new(i as nat, |j: int| 0u64) + start);
            }
        }
    }

    /// Append words by copying from slice; there must be room for them.
    pub fn push_slice(&mut self, words: &[Word])
        requires
            old(self).wf(),
            old(self)@.len() + words@.len() <= old(self).spec_capacity(),
        ensures
            final(self).wf(),
            final(self)@ == old(self)@ + words@,
            final(self).spec_capacity() == old(self).spec_capacity(),
    {
        let ghost start = self.words@;
        let mut i: usize = 0;
        while i < words.len()
            invariant
                i <= words@.len(),
                start.len() + words@.len() <= self.capacity,
                self.words@ == start + words@.subrange(0, i as int),
                self.capacity == old(self).spec_capacity(),
            decreases words@.len() - i,
        {
            self.words.push(words[i]);
            i = i + 1;
            proof {
                assert(self.words@ =~= start + words@.subrange(0, i as int));
            }
        }
        proof {
            assert(words@.subrange(0, words@.len() as int) =~= words@);
        }
    }

    /// Pop leading zero words.
    pub fn pop_zeros(&mut self)
        requires
            old(self).wf(),
        ensures
            final(self).wf(),
            final(self).spec_capacity() == old(self).spec_capacity(),
            final(self)@ == old(self)@.subrange(0, final(self)@.len() as int),
            final(self)@.len() > 0 ==> final(self)@.last() != 0,
            forall|i: int| final(self)@.len() <= i < old(self)@.len() ==> old(self)@[i] == 0,
    {
        while self.words.len() > 0 && self.words[self.words.len() - 1] == 0
            invariant
                self.capacity == old(self).spec_capacity(),
                self.wf(),
                self.words@.len() <= old(self)@.len(),
                self.words@ == old(self)@.subrange(0, self.words@.len() as int),
                forall|i: int| self.words@.len() <= i < old(self)@.len() ==> old(self)@[i] == 0,
            decreases self.words@.len(),
        {
            self.words.pop();
        }
    }

    /// Truncate length to `len`; the current length must be at least `len`.
    pub fn truncate(&mut self, len: usize)
        requires
            old(self).wf(),
            old(self)@.len() >= len,
        ensures
            final(self).wf(),
            final(self)@ == old(self)@.subrange(0, len as int),
            final(self).spec_capacity() == old(self).spec_capacity(),
    {
        self.words.truncate(len);
    }

    /// Erase first n elements; the length must be at least `n`.
    pub fn erase_front(&mut self, n: usize)
        requires
            old(self).wf(),
            old(self)@.len() >= n,
        ensures
            final(self).wf(),
            final(self)@ == old(self)@.subrange(n as int, old(self)@.len() as int),
            final(self).spec_capacity() == old(self).spec_capacity(),
    {
        let ghost start = self.words@;
        let mut i: usize = 0;
        while i < n
            invariant
                i <= n <= start.len(),
                self.words@ == start.subrange(i as int, start.len() as int),
                self.capacity == old(self).spec_capacity(),
            decreases n - i,
        {
            self.words.remove(0);
            i = i + 1;
            proof {
                assert(self.words@ =~= start.subrange(i as int, start.len() as int));
            }
        }
    }

    /// Get the first double word of the buffer, assuming the buffer has at least two words.
    pub fn lowest_dword(&self) -> (r: DoubleWord)
        requires
            self.wf(),
            self@.len() >= 2,
        ensures
            r == self@[1] * word_base() + self@[0],
    {
        double_word(self.words[0], self.words[1])
    }

    /// Make the data in this [Buffer] a copy of another slice.
    ///
    /// It reallocates if capacity is too small.
    pub fn clone_from_slice(&mut self, src: &[Word])
        requires
            old(self).wf(),
            src@.len() <= spec_max_capacity(),
        ensures
            final(self).wf(),
            final(self)@ == src@,
            old(self).spec_capacity() >= src@.len() ==> final(self).spec_capacity() == old(self).spec_capacity(),
            old(self).spec_capacity() < src@.len() ==> final(self).spec_capacity()
                == spec_default_capacity(src@.len()),
    {
        if self.capacity >= src.len() {
            // direct copy if the capacity is enough
            self.words.clear();
            self.push_slice(src);
        } else {
            *self = Self::from_slice(src);
        }
    }

    /// Create a buffer holding a copy of the words, sized as `Buffer::allocate(words.len())`.
    pub fn from_slice(words: &[Word]) -> (r: Self)
        requires
            words@.len() <= spec_max_capacity(),
        ensures
            r.wf(),
            r@ == words@,
            r.spec_capacity() == spec_default_capacity(words@.len()),
    {
        let mut buffer = Buffer::allocate(words.len());
        buffer.push_slice(words);
        buffer
    }

    /// The words of the buffer as a slice.
    pub fn as_slice(&self) -> (r: &[Word])
        requires
            self.wf(),
        ensures
            r@ == self@,
    {
        self.words.as_slice()
    }

    /// Replace the word at index `i`.
    pub fn set(&mut self, i: usize, word: Word)
        requires
            old(self).wf(),
            i < old(self)@.len(),
        ensures
            final(self).wf(),
            final(self)@ == old(self)@.update(i as int, word),
            final(self).spec_capacity() == old(self).spec_capacity(),
    {
        self.words.set(i, word);
    }

    /// Give up the buffer and keep its words.
    pub fn into_words(self) -> (r: Vec<Word>)
        requires
            self.wf(),
        ensures
            r@ == self@,
    {
        self.words
    }
}

} // verus!
