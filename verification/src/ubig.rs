//! Unsigned big integer.
use vstd::prelude::*;
use crate::arch::word::{DoubleWord, Word};
use crate::buffer::{Buffer, spec_max_capacity};
use crate::primitive::{split_dword, double_word, word_base};
use crate::words::{
    words_val, is_normalized, trim_len, lemma_trim_len, lemma_words_val_single,
    lemma_words_val_push, lemma_word_pow, lemma_normalized_unique, lemma_words_val_bound,
    lemma_words_val_trim,
};

verus! {

/// An unsigned arbitrary precision integer.
///
/// The number is stored as little-endian [Word]s with no leading zero words;
/// zero has no words at all.
#[derive(Debug)]
pub struct UBig {
    words: Vec<Word>,
}

impl PartialEq for UBig {
    fn eq(&self, other: &Self) -> (r: bool) {
        self.check_same(other)
    }
}

impl vstd::std_specs::cmp::PartialEqSpecImpl for UBig {
    open spec fn obeys_eq_spec() -> bool {
        true
    }

    open spec fn eq_spec(&self, other: &Self) -> bool {
        self@ == other@
    }
}

impl Eq for UBig {
}

impl View for UBig {
    type V = nat;

    closed spec fn view(&self) -> nat {
        words_val(self.words@)
    }
}

impl UBig {
    #[verifier::type_invariant]
    closed spec fn inv(self) -> bool {
        &&& is_normalized(self.words@)
        &&& self.words@.len() <= spec_max_capacity()
    }

    /// The words of the number, least significant first, without leading zero words.
    pub closed spec fn spec_words(&self) -> Seq<Word> {
        self.words@
    }

    /// Get the words of the number; zero has none.
    pub fn as_words(&self) -> (r: &[Word])
        ensures
            r@ == self.spec_words(),
            is_normalized(r@),
            r@.len() <= spec_max_capacity(),
            words_val(r@) == self@,
    {
        proof {
            use_type_invariant(self);
        }
        self.words.as_slice()
    }

    /// Build the number whose words are given, ignoring leading zero words.
    pub fn from_words(words: &[Word]) -> (r: UBig)
        requires
            words@.len() <= spec_max_capacity(),
        ensures
            r@ == words_val(words@),
            r.spec_words() == words@.subrange(0, trim_len(words@) as int),
    {
        let mut v: Vec<Word> = Vec::with_capacity(words.len());
        let mut i: usize = 0;
        while i < words.len()
            invariant
                i <= words@.len(),
                v@ == words@.subrange(0, i as int),
            decreases words@.len() - i,
        {
            v.push(words[i]);
            i = i + 1;
            proof {
                assert(v@ =~= words@.subrange(0, i as int));
            }
        }
        proof {
            assert(v@ =~= words@);
        }
        Self::from_vec(v)
    }

    /// Build the number from a vector of words, dropping leading zero words.
    pub fn from_vec(mut v: Vec<Word>) -> (r: UBig)
        requires
            v@.len() <= spec_max_capacity(),
        ensures
            r@ == words_val(v@),
            r.spec_words() == v@.subrange(0, trim_len(v@) as int),
    {
        let ghost orig = v@;
        while v.len() > 0 && v[v.len() - 1] == 0
            invariant
                v@.len() <= orig.len(),
                v@ == orig.subrange(0, v@.len() as int),
                trim_len(v@) == trim_len(orig),
            decreases v@.len(),
        {
            proof {
                assert(v@.drop_last() =~= orig.subrange(0, v@.len() - 1));
            }
            v.pop();
        }
        proof {
            lemma_trim_len(orig);
            assert(trim_len(v@) == v@.len());
            assert(v@ =~= orig.subrange(0, trim_len(orig) as int));
        }
        UBig { words: v }
    }

    /// Build the number from a buffer, dropping leading zero words.
    pub fn from_buffer(mut buffer: Buffer) -> (r: UBig)
        requires
            buffer.wf(),
        ensures
            r@ == words_val(buffer@),
    {
        let _ = buffer.len();
        let words = buffer.into_words();
        Self::from_vec(words)
    }

    /// The number 0.
    pub fn zero() -> (r: UBig)
        ensures
            r@ == 0,
            r.spec_words() == Seq::<Word>::empty(),
    {
        UBig { words: Vec::new() }
    }

    /// The number 1.
    pub fn one() -> (r: UBig)
        ensures
            r@ == 1,
            r.spec_words() == seq![1u64],
    {
        Self::from_word(1)
    }

    /// The number given by a single word.
    pub fn from_word(w: Word) -> (r: UBig)
        ensures
            r@ == w,
            w != 0 ==> r.spec_words() == seq![w],
            w == 0 ==> r.spec_words() == Seq::<Word>::empty(),
    {
        let mut v: Vec<Word> = Vec::new();
        if w != 0 {
            v.push(w);
        }
        proof {
            lemma_words_val_single(w);
            if w != 0 {
                assert(v@ =~= seq![w]);
            }
        }
        UBig { words: v }
    }

    /// The number given by a double word.
    pub fn from_dword(dw: DoubleWord) -> (r: UBig)
        ensures
            r@ == dw,
            r.spec_words().len() <= 2,
    {
        let (lo, hi) = split_dword(dw);
        let mut v: Vec<Word> = Vec::new();
        v.push(lo);
        v.push(hi);
        proof {
            assert(v@ =~= seq![lo].push(hi));
            lemma_words_val_single(lo);
            lemma_words_val_push(seq![lo], hi);
            lemma_word_pow(0);
            crate::words::lemma_trim_len(v@);
        }
        Self::from_vec(v)
    }

    /// Number of words of the number.
    pub fn len(&self) -> (r: usize)
        ensures
            r == self.spec_words().len(),
            r <= spec_max_capacity(),
    {
        proof {
            use_type_invariant(self);
        }
        self.words.len()
    }

    /// The value as a double word, when the number has at most two words.
    pub fn as_dword(&self) -> (r: Option<DoubleWord>)
        ensures
            r is Some <==> self.spec_words().len() <= 2,
            r matches Some(v) ==> v == self@,
            r is None ==> self@ > u128::MAX,
    {
        proof {
            use_type_invariant(self);
        }
        let n = self.words.len();
        proof {
            lemma_word_pow(0);
            lemma_word_pow(1);
            lemma_word_pow(2);
            let s = self.words@;
            if n >= 1 {
                assert(s.subrange(1, s.len() as int).len() == n - 1);
            }
            if n == 1 {
                assert(s =~= seq![s[0]]);
                lemma_words_val_single(s[0]);
            }
            if n == 2 {
                assert(s =~= seq![s[0]].push(s[1]));
                lemma_words_val_single(s[0]);
                lemma_words_val_push(seq![s[0]], s[1]);
            }
            if n > 2 {
                crate::words::lemma_words_val_lower(s);
                crate::words::lemma_word_pow_monotone(2, (n - 1) as nat);
                crate::primitive::lemma_pow2_widths();
            }
        }
        if n == 0 {
            Some(0)
        } else if n == 1 {
            Some(self.words[0] as DoubleWord)
        } else if n == 2 {
            Some(double_word(self.words[0], self.words[1]))
        } else {
            None
        }
    }

    /// Check whether the value is 0.
    pub fn is_zero(&self) -> (r: bool)
        ensures
            r == (self@ == 0),
    {
        proof {
            use_type_invariant(self);
            lemma_zero_iff_empty(self.words@);
        }
        self.words.len() == 0
    }

    /// Check whether the value is 1.
    pub fn is_one(&self) -> (r: bool)
        ensures
            r == (self@ == 1),
    {
        proof {
            use_type_invariant(self);
            lemma_words_val_single(1);
            if self@ == 1 {
                lemma_normalized_unique(self.words@, seq![1u64]);
            }
            if self.words@.len() == 1 && self.words@[0] == 1 {
                assert(self.words@ =~= seq![1u64]);
            }
        }
        self.words.len() == 1 && self.words[0] == 1
    }

    /// A copy of the number.
    pub fn copy(&self) -> (r: UBig)
        ensures
            r@ == self@,
            r.spec_words() == self.spec_words(),
    {
        proof {
            use_type_invariant(self);
        }
        let v = self.words.clone();
        proof {
            assert(v@ =~= self.words@);
        }
        UBig { words: v }
    }

    /// Copy the words into a buffer with room for `extra` more words.
    pub fn to_buffer(&self, extra: usize) -> (r: Buffer)
        requires
            self.spec_words().len() + extra <= spec_max_capacity(),
        ensures
            r.wf(),
            r@ == self.spec_words(),
            r.spec_capacity() >= self.spec_words().len() + extra,
    {
        proof {
            use_type_invariant(self);
        }
        let mut b = Buffer::allocate(self.words.len() + extra);
        b.push_slice(self.words.as_slice());
        b
    }

    /// Value of the normalized words is the value of the number; equal values have equal words.
    pub fn check_same(&self, other: &UBig) -> (r: bool)
        ensures
            r == (self@ == other@),
            r ==> self.spec_words() == other.spec_words(),
    {
        proof {
            use_type_invariant(self);
            use_type_invariant(other);
            if self@ == other@ {
                lemma_normalized_unique(self.words@, other.words@);
            }
        }
        if self.words.len() != other.words.len() {
            return false;
        }
        let mut i: usize = 0;
        while i < self.words.len()
            invariant
                i <= self.words@.len(),
                self.words@.len() == other.words@.len(),
                forall|j: int| 0 <= j < i ==> self.words@[j] == other.words@[j],
                self@ == other@ ==> self.words@ == other.words@,
            decreases self.words@.len() - i,
        {
            if self.words[i] != other.words[i] {
                return false;
            }
            i = i + 1;
        }
        proof {
            assert(self.words@ =~= other.words@);
        }
        true
    }
}

/// A normalized sequence has value zero exactly when it is empty.
pub proof fn lemma_zero_iff_empty(s: Seq<Word>)
    requires
        is_normalized(s),
    ensures
        words_val(s) == 0 <==> s.len() == 0,
{
    if s.len() > 0 {
        crate::words::lemma_words_val_lower(s);
        lemma_word_pow((s.len() - 1) as nat);
    }
}

} // verus!
