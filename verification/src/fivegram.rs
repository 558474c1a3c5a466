use vstd::prelude::*;
use crate::ascii_bit_set::{
    all_letters, bit_of, is_letter, lemma_bits_of_and, lemma_nonzero_has_bit, ALPHABET,
    FIRST_LETTER,
};

verus! {

/// The number of letters in a word.
pub const WORD_LEN: usize = 5;

/// The number that stands in a slot for the letter of rank `l`: one more than
/// the rank. Zero is kept for an empty slot.
pub open spec fn letter_code(l: u8) -> u32 {
    (l + 1) as u32
}

/// The number that stands in a slot for the letter that the byte `b` is.
pub open spec fn byte_code(b: u8) -> u32 {
    (b - FIRST_LETTER + 1) as u32
}

/// The five bits of `w` that make up slot `pos`.
pub open spec fn slot_of(w: u32, pos: u32) -> u32 {
    (w >> (5 * pos) as u32) & 31
}

proof fn lemma_or_slot(w: u32, c: u32, p: u32, q: u32)
    by (bit_vector)
    requires
        c < 32,
        p < 5,
        q < 5,
    ensures
        ((w | (c << (5 * p) as u32)) >> (5 * q) as u32) & 31 == if q == p {
            ((w >> (5 * q) as u32) & 31) | c
        } else {
            (w >> (5 * q) as u32) & 31
        },
        (w | (c << (5 * p) as u32)) >> 25 == w >> 25,
{
}

proof fn lemma_or_zero(c: u32)
    by (bit_vector)
    ensures
        0u32 | c == c,
{
}

proof fn lemma_zero_slots(q: u32)
    by (bit_vector)
    requires
        q < 5,
    ensures
        (0u32 >> (5 * q) as u32) & 31 == 0,
        0u32 >> 25 == 0,
{
}

proof fn lemma_submask(a: u32, b: u32)
    by (bit_vector)
    ensures
        (a & b == b) == (b & !a == 0),
{
}

/// Bit-packed word of five letters: slot `pos` is bits `5 * pos` to
/// `5 * pos + 4`, and holds 0 while empty, else the letter's place in the
/// alphabet from 1.
#[derive(Copy, Clone)]
pub struct Fivegram {
    pub word: u32,
}

impl Default for Fivegram {
    fn default() -> (res: Self)
        ensures
            res.word == 0,
            res.encodes(Seq::<u8>::empty()),
    {
        let res = Fivegram { word: 0 };
        proof {
            assert forall|q: u32| q < 5 implies #[trigger] res.slot(q) == 0 by {
                lemma_zero_slots(q);
            }
            lemma_zero_slots(0);
        }
        res
    }
}

impl Fivegram {
    /// What slot `pos` holds.
    pub open spec fn slot(self, pos: u32) -> u32 {
        slot_of(self.word, pos)
    }

    /// Whether the letter of rank `l` stands at `pos`.
    pub open spec fn has_at(self, l: u8, pos: int) -> bool {
        0 <= pos < WORD_LEN && self.slot(pos as u32) == letter_code(l)
    }

    /// Whether this is the packed form of `bytes`: their letters in the first
    /// slots, the other slots empty, and nothing above the slots.
    pub open spec fn encodes(self, bytes: Seq<u8>) -> bool {
        &&& bytes.len() <= WORD_LEN
        &&& forall|q: u32| q < bytes.len() ==> #[trigger] self.slot(q) == byte_code(bytes[q as int])
        &&& forall|q: u32| bytes.len() <= q < 5 ==> #[trigger] self.slot(q) == 0
        &&& self.word >> 25 == 0
    }

    /// Puts the letter of rank `l` into slot `pos`, on top of what the slot
    /// holds.
    pub fn set_letter(&mut self, l: u8, pos: usize)
        requires
            l < ALPHABET,
            pos < WORD_LEN,
        ensures
            final(self).word == old(self).word | (letter_code(l) << (5 * pos) as u32),
            final(self).slot(pos as u32) == old(self).slot(pos as u32) | letter_code(l),
            old(self).slot(pos as u32) == 0 ==> final(self).has_at(l, pos as int),
            forall|q: u32| q < 5 && q != pos ==> #[trigger] final(self).slot(q) == old(self).slot(q),
            final(self).word >> 25 == old(self).word >> 25,
    {
        let code: u32 = (l + 1) as u32;
        let shift: u32 = 5 * (pos as u32);
        let ghost before = self.word;
        self.word = self.word | (code << shift);
        proof {
            assert forall|q: u32| q < 5 implies #[trigger] self.slot(q) == if q == pos {
                slot_of(before, q) | code
            } else {
                slot_of(before, q)
            } by {
                lemma_or_slot(before, code, pos as u32, q);
            }
            lemma_or_slot(before, code, pos as u32, 0);
            lemma_or_zero(code);
        }
    }

    /// Whether the letter of rank `l` stands at `pos`. Nothing stands beyond
    /// the fifth slot.
    pub fn has_letter(&self, l: u8, pos: usize) -> (res: bool)
        ensures
            res == self.has_at(l, pos as int),
    {
        if pos >= WORD_LEN {
            return false;
        }
        let code: u32 = l as u32 + 1;
        let shift: u32 = 5 * (pos as u32);
        (self.word >> shift) & 31 == code
    }

    /// The packed form of a word of up to five lower-case ASCII letters.
    pub fn from_letters(bytes: &[u8]) -> (res: Self)
        requires
            bytes@.len() <= WORD_LEN,
            all_letters(bytes@),
        ensures
            res.encodes(bytes@),
            forall|l: u8, pos: int|
                0 <= pos < bytes@.len() ==> (#[trigger] res.has_at(l, pos) <==> bytes@[pos]
                    == l + FIRST_LETTER),
            forall|l: u8, pos: int| bytes@.len() <= pos ==> !#[trigger] res.has_at(l, pos),
    {
        let mut res = Fivegram { word: 0 };
        let mut n: usize = 0;
        proof {
            assert forall|q: u32| q < 5 implies #[trigger] res.slot(q) == 0 by {
                lemma_zero_slots(q);
            }
            lemma_zero_slots(0);
        }
        while n < bytes.len()
            invariant
                n <= bytes.len() <= WORD_LEN,
                all_letters(bytes@),
                res.encodes(bytes@.take(n as int)),
            decreases bytes.len() - n,
        {
            let b: u8 = bytes[n];
            assert(is_letter(bytes@[n as int]));
            let ghost before = res;
            assert(before.slot(n as u32) == 0);
            res.set_letter(b - FIRST_LETTER, n);
            proof {
                let s0 = bytes@.take(n as int);
                let s1 = bytes@.take(n + 1);
                assert forall|q: u32| q < s1.len() implies #[trigger] res.slot(q) == byte_code(
                    s1[q as int],
                ) by {
                    if q < n {
                        assert(before.slot(q) == byte_code(s0[q as int]));
                    }
                }
            }
            n = n + 1;
        }
        proof {
            assert(bytes@.take(n as int) =~= bytes@);
            lemma_encodes_has_at(res, bytes@);
        }
        res
    }

    /// Whether every bit of `pattern` is set in this word too: each letter
    /// that `pattern` holds stands at the same place here.
    pub fn partial_match(&self, pattern: &Self) -> (res: bool)
        ensures
            res == (self.word & pattern.word == pattern.word),
            res == forall|k: u32|
                k < 32 && bit_of(pattern.word, k)
                    ==> bit_of(self.word, k),
    {
        proof {
            let a = self.word;
            let b = pattern.word;
            lemma_submask(a, b);
            lemma_nonzero_has_bit(b & !a);
            lemma_bits_of_and(b, a);
            if b & !a != 0 {
                let k = choose|k: u32| k < 32 && bit_of(b & !a, k);
                assert(bit_of(b, k) && !bit_of(a, k));
            } else {
                assert forall|k: u32| k < 32 && bit_of(b, k) implies bit_of(a, k) by {
                    if !bit_of(a, k) {
                        assert(bit_of(b & !a, k));
                    }
                }
            }
        }
        self.word & pattern.word == pattern.word
    }
}

/// Asking the packed form of a word for a letter, by its rank, at a place of
/// the word gives the word's own letter there, and no other; beyond the word
/// no letter stands.
pub proof fn lemma_encodes_has_at(gram: Fivegram, bytes: Seq<u8>)
    requires
        all_letters(bytes),
        gram.encodes(bytes),
    ensures
        forall|l: u8, pos: int|
            0 <= pos < bytes.len() ==> (#[trigger] gram.has_at(l, pos) <==> bytes[pos] == l
                + FIRST_LETTER),
        forall|l: u8, pos: int| bytes.len() <= pos ==> !#[trigger] gram.has_at(l, pos),
{
    assert forall|l: u8, pos: int| 0 <= pos < bytes.len() implies (#[trigger] gram.has_at(l, pos)
        <==> bytes[pos] == l + FIRST_LETTER) by {
        let q = pos as u32;
        assert(gram.slot(q) == byte_code(bytes[q as int]));
        assert(is_letter(bytes[pos]));
    }
    assert forall|l: u8, pos: int| bytes.len() <= pos implies !#[trigger] gram.has_at(l, pos) by {
        if pos < WORD_LEN {
            let q = pos as u32;
            assert(gram.slot(q) == 0);
        }
    }
}

} // verus!
