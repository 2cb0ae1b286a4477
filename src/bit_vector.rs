use vstd::prelude::*;

verus! {

/// Number of bits packed into one storage word.
pub const WORD_BITS: usize = 64;

/// Whether bit `b` of word `w` is one.
pub open spec fn word_bit(w: u64, b: u64) -> bool {
    (w >> b) & 1u64 == 1u64
}

/// The number of `true` entries of `s`.
pub open spec fn count_true(s: Seq<bool>) -> nat
    decreases s.len(),
{
    if s.len() == 0 {
        0
    } else {
        count_true(s.drop_last()) + if s.last() { 1nat } else { 0nat }
    }
}

/// A fixed-capacity array of bits, packed 64 to a word: bit `i` lives in
/// word `i / 64` at offset `i % 64`.
pub struct BitVector {
    field: Vec<u64>,
}

proof fn lemma_set_bit(w: u64, b: u64, c: u64)
    requires
        b < 64,
        c < 64,
    ensures
        word_bit(w | (1u64 << b), c) == (if c == b { true } else { word_bit(w, c) }),
{
    assert(word_bit(w | (1u64 << b), c) == (if c == b { true } else { word_bit(w, c) }))
        by (bit_vector)
        requires
            b < 64,
            c < 64,
    ;
}

proof fn lemma_clear_bit(w: u64, b: u64, c: u64)
    requires
        b < 64,
        c < 64,
    ensures
        word_bit(w & !(1u64 << b), c) == (if c == b { false } else { word_bit(w, c) }),
{
    assert(word_bit(w & !(1u64 << b), c) == (if c == b { false } else { word_bit(w, c) }))
        by (bit_vector)
        requires
            b < 64,
            c < 64,
    ;
}

proof fn lemma_get_bit(w: u64, b: u64)
    requires
        b < 64,
    ensures
        (w & (1u64 << b) > 0) == word_bit(w, b),
{
    assert((w & (1u64 << b) > 0) == word_bit(w, b)) by (bit_vector)
        requires
            b < 64,
    ;
}

proof fn lemma_full_words(b: u64)
    requires
        b < 64,
    ensures
        word_bit(0xffff_ffff_ffff_ffffu64, b),
        !word_bit(0u64, b),
{
    assert(word_bit(0xffff_ffff_ffff_ffffu64, b)) by (bit_vector)
        requires
            b < 64,
    ;
    assert(!word_bit(0u64, b)) by (bit_vector)
        requires
            b < 64,
    ;
}

impl View for BitVector {
    type V = Seq<bool>;

    closed spec fn view(&self) -> Seq<bool> {
        Seq::new(
            (self.field@.len() * 64) as nat,
            |i: int| word_bit(self.field@[i / 64], (i % 64) as u64),
        )
    }
}

impl BitVector {
    /// Capacity in bits fits the index type.
    pub open spec fn wf(&self) -> bool {
        self@.len() <= usize::MAX
    }

    /// A vector of `capacity_words` words whose bits all equal `set`.
    pub fn new(capacity_words: usize, set: bool) -> (r: BitVector)
        requires
            capacity_words * 64 <= usize::MAX,
        ensures
            r.wf(),
            r@ == Seq::new((capacity_words * 64) as nat, |i: int| set),
    {
        let word: u64 = if set { 0xffff_ffff_ffff_ffff } else { 0 };
        let field = vec![word; capacity_words];
        let r = BitVector { field };
        proof {
            assert forall|i: int| 0 <= i < r@.len() implies r@[i] == set by {
                lemma_full_words((i % 64) as u64);
            }
            assert(r@ =~= Seq::new((capacity_words * 64) as nat, |i: int| set));
        }
        r
    }

    /// Capacity in bits.
    pub fn capacity_bits(&self) -> (r: usize)
        requires
            self.wf(),
        ensures
            r == self@.len(),
    {
        self.field.len() * WORD_BITS
    }

    /// Sets bit `bit_number` to one.
    pub fn set_bit(&mut self, bit_number: usize)
        requires
            bit_number < old(self)@.len(),
        ensures
            final(self)@ == old(self)@.update(bit_number as int, true),
    {
        let w = bit_number / WORD_BITS;
        let b = (bit_number % WORD_BITS) as u64;
        let old_word = self.field[w];
        self.field.set(w, old_word | (1u64 << b));
        proof {
            let s = old(self)@.update(bit_number as int, true);
            assert forall|i: int| 0 <= i < s.len() implies self@[i] == s[i] by {
                lemma_set_bit(old_word, b, (i % 64) as u64);
                lemma_set_bit(old(self).field@[i / 64], b, (i % 64) as u64);
            }
            assert(self@ =~= s);
        }
    }

    /// Clears bit `bit_number` to zero.
    pub fn clear_bit(&mut self, bit_number: usize)
        requires
            bit_number < old(self)@.len(),
        ensures
            final(self)@ == old(self)@.update(bit_number as int, false),
    {
        let w = bit_number / WORD_BITS;
        let b = (bit_number % WORD_BITS) as u64;
        let old_word = self.field[w];
        self.field.set(w, old_word & !(1u64 << b));
        proof {
            let s = old(self)@.update(bit_number as int, false);
            assert forall|i: int| 0 <= i < s.len() implies self@[i] == s[i] by {
                lemma_clear_bit(old_word, b, (i % 64) as u64);
                lemma_clear_bit(old(self).field@[i / 64], b, (i % 64) as u64);
            }
            assert(self@ =~= s);
        }
    }

    /// Reads bit `bit_number`.
    pub fn get_bit(&self, bit_number: usize) -> (r: bool)
        requires
            bit_number < self@.len(),
        ensures
            r == self@[bit_number as int],
    {
        let w = bit_number / WORD_BITS;
        let b = (bit_number % WORD_BITS) as u64;
        proof {
            lemma_get_bit(self.field@[w as int], b);
        }
        self.field[w] & (1u64 << b) > 0
    }

    /// The number of one bits in the whole vector.
    pub fn count_set_bits(&self) -> (r: usize)
        requires
            self.wf(),
        ensures
            r == count_true(self@),
    {
        let n = self.capacity_bits();
        let mut sum: usize = 0;
        let mut x: usize = 0;
        while x < n
            invariant
                n == self@.len(),
                x <= n,
                sum == count_true(self@.subrange(0, x as int)),
                sum <= x,
            decreases n - x,
        {
            proof {
                assert(self@.subrange(0, x + 1).drop_last() =~= self@.subrange(0, x as int));
            }
            if self.get_bit(x) {
                sum = sum + 1;
            }
            x = x + 1;
        }
        proof {
            assert(self@.subrange(0, n as int) =~= self@);
        }
        sum
    }
}

/// Counting over a sequence with one entry replaced.
pub proof fn lemma_count_update(s: Seq<bool>, i: int, v: bool)
    requires
        0 <= i < s.len(),
    ensures
        count_true(s.update(i, v)) + (if s[i] { 1int } else { 0int })
            == count_true(s) + (if v { 1int } else { 0int }),
    decreases s.len(),
{
    let t = s.update(i, v);
    if i == s.len() - 1 {
        assert(t.drop_last() =~= s.drop_last());
    } else {
        assert(t.drop_last() =~= s.drop_last().update(i, v));
        lemma_count_update(s.drop_last(), i, v);
    }
}

/// A sequence of only `false` entries counts zero.
pub proof fn lemma_count_all_false(n: nat)
    ensures
        count_true(Seq::new(n, |i: int| false)) == 0,
    decreases n,
{
    if n > 0 {
        assert(Seq::new(n, |i: int| false).drop_last() =~= Seq::new((n - 1) as nat, |i: int| false));
        lemma_count_all_false((n - 1) as nat);
    }
}

/// A vector made with every bit clear counts no set bit; setting one bit of
/// it makes the count exactly one.
pub proof fn lemma_fresh_clear_count(capacity_words: nat, i: int)
    requires
        0 <= i < capacity_words * 64,
    ensures
        count_true(Seq::new(capacity_words * 64, |j: int| false)) == 0,
        count_true(Seq::new(capacity_words * 64, |j: int| false).update(i, true)) == 1,
{
    let s = Seq::new(capacity_words * 64, |j: int| false);
    lemma_count_all_false(capacity_words * 64);
    lemma_count_update(s, i, true);
}

/// Clearing a bit that is already clear leaves the vector, and so its count,
/// unchanged.
pub proof fn lemma_clear_idempotent(s: Seq<bool>, i: int)
    requires
        0 <= i < s.len(),
        !s[i],
    ensures
        s.update(i, false) == s,
        count_true(s.update(i, false)) == count_true(s),
{
    assert(s.update(i, false) =~= s);
}

/// A bit reads back as the value last written to it: one after setting,
/// zero after clearing; the other bits keep their values.
pub proof fn lemma_write_read(s: Seq<bool>, i: int, j: int)
    requires
        0 <= i < s.len(),
        0 <= j < s.len(),
    ensures
        s.update(i, true)[i],
        !s.update(i, false)[i],
        j != i ==> s.update(i, true)[j] == s[j] && s.update(i, false)[j] == s[j],
{
}

} // verus!
