//! Positionwise comparison of two words: which positions agree, and how
//! many, packed into a small bitmask.

use vstd::prelude::*;

use crate::chars::Word;
use crate::chars::WORD_SIZE;

verus! {

broadcast use crate::chars::lemma_word_view;

/// The agreement mask of two words over their first `n` positions: bit
/// `i` is set exactly when the words agree at position `i`.
pub open spec fn diff_mask_upto(a: Seq<u8>, b: Seq<u8>, n: int) -> u8
    decreases n,
{
    if n <= 0 {
        0
    } else {
        diff_mask_upto(a, b, n - 1) | (if a[n - 1] == b[n - 1] {
            (1u8 << ((n - 1) as u8)) as u8
        } else {
            0u8
        })
    }
}

/// Whether bit `i` of mask `m` is set.
pub open spec fn mask_bit(m: u8, i: int) -> bool {
    m & (1u8 << (i as u8)) != 0
}

/// How many of the low `n` bits of `m` are set.
pub open spec fn mask_count_upto(m: u8, n: int) -> nat
    decreases n,
{
    if n <= 0 {
        0
    } else {
        mask_count_upto(m, n - 1) + (if mask_bit(m, n - 1) {
            1nat
        } else {
            0nat
        })
    }
}

/// Which positions of two words hold the same letter, as a bitmask
/// over the word positions.
#[derive(Copy, Clone, Hash, Eq, PartialEq, Debug, Structural)]
pub struct Difference {
    /// Bit `i` is set exactly when the words agreed at position `i`.
    pub m: u8,
}

impl Difference {
    /// Compares two words position by position.
    pub fn from(a: &Word, b: &Word) -> (r: Difference)
        ensures
            r.m == diff_mask_upto(a@, b@, WORD_SIZE as int),
    {
        let mut m: u8 = 0;
        let mut i: usize = 0;
        while i < WORD_SIZE
            invariant
                0 <= i <= WORD_SIZE,
                m == diff_mask_upto(a@, b@, i as int),
            decreases WORD_SIZE - i,
        {
            if a.at(i).ord() == b.at(i).ord() {
                m = m | (1u8 << (i as u8));
            } else {
                proof {
                    assert(m | 0u8 == m) by (bit_vector);
                }
            }
            i = i + 1;
        }
        Difference { m }
    }

    /// Whether the words agreed at position `i`.
    pub fn at(&self, i: usize) -> (r: bool)
        requires
            i < WORD_SIZE,
        ensures
            r == mask_bit(self.m, i as int),
    {
        self.m & (1u8 << (i as u8)) != 0
    }

    /// How many positions held different letters.
    pub fn number_different(&self) -> (r: usize)
        ensures
            r == WORD_SIZE - mask_count_upto(self.m, WORD_SIZE as int),
    {
        WORD_SIZE - self.number_same()
    }

    /// How many positions held the same letter.
    pub fn number_same(&self) -> (r: usize)
        ensures
            r == mask_count_upto(self.m, WORD_SIZE as int),
            r <= WORD_SIZE,
    {
        let mut count: usize = 0;
        let mut i: usize = 0;
        while i < WORD_SIZE
            invariant
                0 <= i <= WORD_SIZE,
                count == mask_count_upto(self.m, i as int),
                count <= i,
            decreases WORD_SIZE - i,
        {
            if self.m & (1u8 << (i as u8)) != 0 {
                count = count + 1;
            }
            i = i + 1;
        }
        count
    }
}

} // verus!
