use vstd::prelude::*;

verus! {

/// The number of letters in the alphabet. A letter is known by its rank, from
/// 0 for `a` to 25 for `z`.
pub const ALPHABET: u8 = 26;

/// The byte of the first letter, `a`.
pub const FIRST_LETTER: u8 = 97;

/// The byte of the last letter, `z`.
pub const LAST_LETTER: u8 = 122;

/// Whether the byte `b` is one of the 26 lower-case ASCII letters.
pub open spec fn is_letter(b: u8) -> bool {
    FIRST_LETTER <= b && b <= LAST_LETTER
}

/// The rank of the letter that the byte `b` is.
pub open spec fn letter_rank(b: u8) -> u32 {
    (b - FIRST_LETTER) as u32
}

/// The byte of the letter of rank `l`.
pub open spec fn letter_byte(l: u8) -> u8 {
    (l + FIRST_LETTER) as u8
}

/// Whether every byte of `bytes` is a letter.
pub open spec fn all_letters(bytes: Seq<u8>) -> bool {
    forall|i: int| 0 <= i < bytes.len() ==> is_letter(#[trigger] bytes[i])
}

/// Bit `k` of `w`.
pub open spec fn bit_of(w: u32, k: u32) -> bool {
    (w >> k) & 1 == 1
}

proof fn lemma_or_bit(w: u32, i: u32, k: u32)
    by (bit_vector)
    requires
        i < 32,
        k < 32,
    ensures
        (((w | (1u32 << i)) >> k) & 1 == 1) == (k == i || ((w >> k) & 1 == 1)),
{
}

proof fn lemma_zero_bit(k: u32)
    by (bit_vector)
    requires
        k < 32,
    ensures
        (0u32 >> k) & 1 != 1,
{
}

proof fn lemma_and_bit(a: u32, b: u32, k: u32)
    by (bit_vector)
    requires
        k < 32,
    ensures
        (((a & b) >> k) & 1 == 1) == (((a >> k) & 1 == 1) && ((b >> k) & 1 == 1)),
        (((a & !b) >> k) & 1 == 1) == (((a >> k) & 1 == 1) && !((b >> k) & 1 == 1)),
        ((a >> k) & 1 == 1) ==> a != 0,
{
}

proof fn lemma_some_bit(x: u32)
    by (bit_vector)
    requires
        x != 0,
    ensures
        (x >> 0u32) & 1 == 1 || (x >> 1u32) & 1 == 1 || (x >> 2u32) & 1 == 1 || (x >> 3u32) & 1 == 1 || (x >> 4u32) & 1 == 1 || (x >> 5u32) & 1 == 1 || (x >> 6u32) & 1 == 1 || (x >> 7u32) & 1 == 1 || (x >> 8u32) & 1 == 1 || (x >> 9u32) & 1 == 1 || (x >> 10u32) & 1 == 1 || (x >> 11u32) & 1 == 1 || (x >> 12u32) & 1 == 1 || (x >> 13u32) & 1 == 1 || (x >> 14u32) & 1 == 1 || (x >> 15u32) & 1 == 1 || (x >> 16u32) & 1 == 1 || (x >> 17u32) & 1 == 1 || (x >> 18u32) & 1 == 1 || (x >> 19u32) & 1 == 1 || (x >> 20u32) & 1 == 1 || (x >> 21u32) & 1 == 1 || (x >> 22u32) & 1 == 1 || (x >> 23u32) & 1 == 1 || (x >> 24u32) & 1 == 1 || (x >> 25u32) & 1 == 1 || (x >> 26u32) & 1 == 1 || (x >> 27u32) & 1 == 1 || (x >> 28u32) & 1 == 1 || (x >> 29u32) & 1 == 1 || (x >> 30u32) & 1 == 1 || (x >> 31u32) & 1 == 1,
{
}

/// A word that is not zero has a bit set.
pub proof fn lemma_nonzero_has_bit(x: u32)
    ensures
        x != 0 <==> exists|k: u32| k < 32 && bit_of(x, k),
{
    if x != 0 {
        lemma_some_bit(x);
        let k = choose|k: u32| k < 32 && (x >> k) & 1 == 1;
        assert(bit_of(x, k));
    }
    if exists|k: u32| k < 32 && bit_of(x, k) {
        let k = choose|k: u32| k < 32 && bit_of(x, k);
        lemma_and_bit(x, x, k);
    }
}

/// The bits of `a & b` are those set in both, and the bits of `a & !b` those
/// set in `a` alone.
pub proof fn lemma_bits_of_and(a: u32, b: u32)
    ensures
        forall|k: u32| k < 32 ==> (#[trigger] bit_of(a & b, k) <==> bit_of(a, k) && bit_of(b, k)),
        forall|k: u32| k < 32 ==> (#[trigger] bit_of(a & !b, k) <==> bit_of(a, k) && !bit_of(b, k)),
{
    assert forall|k: u32| k < 32 implies (#[trigger] bit_of(a & b, k) <==> bit_of(a, k) && bit_of(
        b,
        k,
    )) by {
        lemma_and_bit(a, b, k);
    }
    assert forall|k: u32| k < 32 implies (#[trigger] bit_of(a & !b, k) <==> bit_of(a, k)
        && !bit_of(b, k)) by {
        lemma_and_bit(a, b, k);
    }
}

/// Lower-case ASCII bit-set: bit `k` says whether the letter of rank `k` is in
/// the set.
#[derive(Copy, Clone)]
pub struct AsciiBitSet {
    pub set: u32,
}

impl Default for AsciiBitSet {
    fn default() -> (res: Self)
        ensures
            res.set == 0,
            res@ == Set::<u8>::empty(),
            res.alphabetic(),
    {
        let res = AsciiBitSet { set: 0 };
        proof {
            assert forall|k: u32| k < 32 implies !#[trigger] bit_of(res.set, k) by {
                lemma_zero_bit(k);
            }
            assert forall|l: u8| !res.contains(l) by {
                if l < 32 {
                    lemma_zero_bit(l as u32);
                }
            }
            assert(res@ =~= Set::<u8>::empty());
        }
        res
    }
}

impl View for AsciiBitSet {
    type V = Set<u8>;

    /// The ranks of the letters in the set.
    open spec fn view(&self) -> Set<u8> {
        Set::new(|l: u8| self.contains(l))
    }
}

impl AsciiBitSet {
    /// Whether the letter of rank `l` is in the set: whether bit `l` is set.
    /// The set has 32 bits, and nothing beyond them is in it.
    pub open spec fn contains(self, l: u8) -> bool {
        l < 32 && bit_of(self.set, l as u32)
    }

    /// Whether no bit beyond the alphabet is set.
    pub open spec fn alphabetic(self) -> bool {
        forall|k: u32| ALPHABET <= k < 32 ==> !#[trigger] bit_of(self.set, k)
    }

    /// Whether the set holds the letters of `bytes` and nothing else: each of
    /// the 32 bits is set exactly if a byte of that rank occurs.
    pub open spec fn holds(self, bytes: Seq<u8>) -> bool {
        forall|k: u32|
            k < 32 ==> (#[trigger] bit_of(self.set, k) <==> exists|i: int|
                0 <= i < bytes.len() && letter_rank(#[trigger] bytes[i]) == k)
    }

    /// Adds the letter of rank `l`.
    pub fn set_letter(&mut self, l: u8)
        requires
            l < ALPHABET,
        ensures
            final(self).set == old(self).set | (1u32 << (l as u32)),
            forall|k: u32|
                k < 32 ==> (#[trigger] bit_of(final(self).set, k) <==> (k == l || bit_of(
                    old(self).set,
                    k,
                ))),
            final(self)@ == old(self)@.insert(l),
            forall|m: u8| final(self).contains(m) <==> m == l || old(self).contains(m),
            old(self).alphabetic() ==> final(self).alphabetic(),
    {
        let rank: u32 = l as u32;
        let ghost before = self.set;
        self.set = self.set | (1u32 << rank);
        proof {
            assert forall|k: u32| k < 32 implies (#[trigger] bit_of(self.set, k) <==> (k == rank
                || bit_of(before, k))) by {
                lemma_or_bit(before, rank, k);
            }
            assert(self@ =~= old(self)@.insert(l));
        }
    }

    /// The set of the letters that occur in `bytes`, which are lower-case
    /// ASCII letters.
    pub fn from_letters(bytes: &[u8]) -> (res: Self)
        requires
            all_letters(bytes@),
        ensures
            res.holds(bytes@),
            res.alphabetic(),
            forall|l: u8| l < 32 ==> (res.contains(l) <==> bytes@.contains(letter_byte(l))),
    {
        let mut set = AsciiBitSet { set: 0 };
        let mut n: usize = 0;
        proof {
            assert forall|k: u32| k < 32 implies !(#[trigger] bit_of(set.set, k)) by {
                lemma_zero_bit(k);
            }
        }
        while n < bytes.len()
            invariant
                n <= bytes.len(),
                all_letters(bytes@),
                set.holds(bytes@.take(n as int)),
            decreases bytes.len() - n,
        {
            let ghost before = set;
            let b: u8 = bytes[n];
            assert(is_letter(bytes@[n as int]));
            set.set_letter(b - FIRST_LETTER);
            proof {
                let s0 = bytes@.take(n as int);
                let s1 = bytes@.take(n + 1);
                assert forall|k: u32| k < 32 implies (#[trigger] bit_of(set.set, k) <==> exists|i: int|
                    0 <= i < s1.len() && letter_rank(#[trigger] s1[i]) == k) by {
                    if bit_of(set.set, k) {
                        if k == letter_rank(b) {
                            assert(letter_rank(s1[n as int]) == k);
                        } else {
                            assert(bit_of(before.set, k));
                            let i = choose|i: int|
                                0 <= i < s0.len() && letter_rank(#[trigger] s0[i]) == k;
                            assert(letter_rank(s1[i]) == k);
                        }
                    }
                    if exists|i: int| 0 <= i < s1.len() && letter_rank(#[trigger] s1[i]) == k {
                        let i = choose|i: int|
                            0 <= i < s1.len() && letter_rank(#[trigger] s1[i]) == k;
                        if i < n {
                            assert(letter_rank(s0[i]) == k);
                        }
                    }
                }
            }
            n = n + 1;
        }
        proof {
            assert(bytes@.take(n as int) =~= bytes@);
            lemma_holds_contains(set, bytes@);
            assert forall|k: u32| ALPHABET <= k < 32 implies !#[trigger] bit_of(set.set, k) by {
                if bit_of(set.set, k) {
                    let i = choose|i: int|
                        0 <= i < bytes@.len() && letter_rank(#[trigger] bytes@[i]) == k;
                    assert(is_letter(bytes@[i]));
                }
            }
        }
        set
    }

    /// Whether the letter of rank `letter` is in the set. A number beyond the
    /// set's 32 bits never is.
    pub fn has_letter(&self, letter: u8) -> (res: bool)
        ensures
            res == self.contains(letter),
            res == self@.contains(letter),
    {
        if letter >= 32 {
            return false;
        }
        let rank: u32 = letter as u32;
        (self.set >> rank) & 1 == 1
    }

    /// Whether the two sets share a letter.
    pub fn intersect(&self, set: &Self) -> (res: bool)
        ensures
            res == (self.set & set.set != 0),
            res == exists|k: u32| k < 32 && bit_of(self.set, k) && bit_of(set.set, k),
            res == exists|l: u8| self.contains(l) && set.contains(l),
            self.alphabetic() && set.alphabetic() ==> res == exists|l: u8|
                l < ALPHABET && self.contains(l) && set.contains(l),
    {
        proof {
            lemma_nonzero_has_bit(self.set & set.set);
            lemma_bits_of_and(self.set, set.set);
            if self.set & set.set != 0 {
                let k = choose|k: u32| k < 32 && bit_of(self.set & set.set, k);
                assert(bit_of(self.set, k) && bit_of(set.set, k));
                let l = k as u8;
                assert(self.contains(l) && set.contains(l));
                if self.alphabetic() {
                    assert(l < ALPHABET);
                }
            }
            if exists|k: u32| k < 32 && bit_of(self.set, k) && bit_of(set.set, k) {
                let k = choose|k: u32| k < 32 && bit_of(self.set, k) && bit_of(set.set, k);
                assert(bit_of(self.set & set.set, k));
            }
            if exists|l: u8| self.contains(l) && set.contains(l) {
                let l = choose|l: u8| self.contains(l) && set.contains(l);
                assert(bit_of(self.set & set.set, l as u32));
            }
        }
        self.set & set.set != 0
    }
}

/// A set that holds the letters of a word contains a letter, asked by its
/// rank, exactly if the word has the letter's byte.
pub proof fn lemma_holds_contains(set: AsciiBitSet, bytes: Seq<u8>)
    requires
        all_letters(bytes),
        set.holds(bytes),
    ensures
        forall|l: u8| l < 32 ==> (set.contains(l) <==> bytes.contains(letter_byte(l))),
{
    assert forall|l: u8| l < 32 implies (set.contains(l) <==> bytes.contains(letter_byte(l))) by {
        let k = l as u32;
        if set.contains(l) {
            assert(bit_of(set.set, k));
            let i = choose|i: int| 0 <= i < bytes.len() && letter_rank(#[trigger] bytes[i]) == k;
            assert(is_letter(bytes[i]));
            assert(bytes[i] == letter_byte(l));
        }
        if bytes.contains(letter_byte(l)) {
            let i = choose|i: int| 0 <= i < bytes.len() && bytes[i] == letter_byte(l);
            assert(is_letter(bytes[i]));
            assert(letter_rank(bytes[i]) == k);
            assert(bit_of(set.set, k));
        }
    }
}

} // verus!
