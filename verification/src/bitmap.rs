use vstd::prelude::*;

verus! {

/// A set of word identifiers as a dense bitmap, one bit per word of the
/// dictionary, kept in a `bitvec_simd::BitVec`. The verifier does not look
/// inside: what a bitmap holds is known only as `bitmap_bits`, and only as
/// far as the contracts of the calls below say, which are taken on trust.
/// None of these calls sets a bit above the length, and the field is private,
/// so the bits above the length stay clear: the count of set bits rests on
/// that.
#[verifier::external_body]
pub struct WordBitMap {
    bits: bitvec_simd::BitVec,
}

/// The bits of a bitmap, in order: as many as it was made with.
pub uninterp spec fn bitmap_bits(b: WordBitMap) -> Seq<bool>;

/// How many entries of `s` are true.
pub open spec fn count_true(s: Seq<bool>) -> nat
    decreases s.len(),
{
    if s.len() == 0 {
        0
    } else {
        count_true(s.drop_last()) + if s.last() {
            1nat
        } else {
            0nat
        }
    }
}

/// The bitwise conjunction of two sequences of one length.
pub open spec fn both(a: Seq<bool>, b: Seq<bool>) -> Seq<bool> {
    Seq::new(a.len(), |i: int| a[i] && b[i])
}

/// `BitVec::zeros`: a bitmap of `nbits` bits, all clear. To round up to whole
/// blocks of 256 bits the call first adds 256 to `nbits`, and that sum must
/// not overflow.
#[verifier::external_body]
fn bitmap_zeros(nbits: usize) -> (res: WordBitMap)
    requires
        nbits <= usize::MAX - 256,
    ensures
        bitmap_bits(res) == Seq::new(nbits as nat, |i: int| false),
{
    WordBitMap { bits: bitvec_simd::BitVec::zeros(nbits) }
}

/// `BitVec::set` below the length: bit `index` takes the value `flag`, the
/// others and the length stay.
#[verifier::external_body]
fn bitmap_set(b: &mut WordBitMap, index: usize, flag: bool)
    requires
        index < bitmap_bits(*old(b)).len(),
    ensures
        bitmap_bits(*final(b)) == bitmap_bits(*old(b)).update(index as int, flag),
{
    b.bits.set(index, flag)
}

/// `BitVec::get_unchecked`: the bit at `index`, which must lie below the
/// length.
#[verifier::external_body]
fn bitmap_get(b: &WordBitMap, index: usize) -> (res: bool)
    requires
        index < bitmap_bits(*b).len(),
    ensures
        res == bitmap_bits(*b)[index as int],
{
    b.bits.get_unchecked(index)
}

/// `BitVec::len`: the number of bits.
#[verifier::external_body]
fn bitmap_len(b: &WordBitMap) -> (res: usize)
    ensures
        res == bitmap_bits(*b).len(),
{
    b.bits.len()
}

/// `BitVec::and_inplace` on two bitmaps of one length: each bit of the first
/// becomes the conjunction of the two.
#[verifier::external_body]
fn bitmap_and_inplace(b: &mut WordBitMap, other: &WordBitMap)
    requires
        bitmap_bits(*old(b)).len() == bitmap_bits(*other).len(),
    ensures
        bitmap_bits(*final(b)) == both(bitmap_bits(*old(b)), bitmap_bits(*other)),
{
    b.bits.and_inplace(&other.bits)
}

/// `BitVec::count_ones`: the number of set bits. The call adds them up in a
/// `u32`, so the length must fit in one. It counts whole blocks, and agrees
/// with the count below the length because the calls wrapped here leave the
/// bits above the length clear.
#[verifier::external_body]
fn bitmap_count_ones(b: &WordBitMap) -> (res: usize)
    requires
        bitmap_bits(*b).len() <= u32::MAX,
    ensures
        res == count_true(bitmap_bits(*b)),
{
    b.bits.count_ones()
}

/// `BitVec::clone`: a bitmap with the same bits.
#[verifier::external_body]
fn bitmap_clone(b: &WordBitMap) -> (res: WordBitMap)
    ensures
        bitmap_bits(res) == bitmap_bits(*b),
{
    WordBitMap { bits: b.bits.clone() }
}

/// The largest number of words that a bitmap is made for.
pub const MAX_WORDS: usize = 0xffff_fe00;

impl View for WordBitMap {
    type V = Seq<bool>;

    open spec fn view(&self) -> Seq<bool> {
        bitmap_bits(*self)
    }
}

impl WordBitMap {
    /// The word identifiers in the set.
    pub open spec fn members(self) -> Set<int> {
        positions(self@)
    }

    /// The empty set over a dictionary of `len` words.
    pub fn empty(len: usize) -> (res: Self)
        requires
            len <= MAX_WORDS,
        ensures
            res@ == Seq::new(len as nat, |i: int| false),
            res.members() == Set::<int>::empty(),
    {
        let res = bitmap_zeros(len);
        assert(res.members() =~= Set::<int>::empty());
        res
    }

    /// The size of the dictionary that the set is over.
    pub fn len(&self) -> (res: usize)
        ensures
            res == self@.len(),
    {
        bitmap_len(self)
    }

    /// Adds the word `id`.
    pub fn insert(&mut self, id: usize)
        requires
            id < old(self)@.len(),
        ensures
            final(self)@ == old(self)@.update(id as int, true),
            final(self).members() == old(self).members().insert(id as int),
    {
        bitmap_set(self, id, true);
        assert(self.members() =~= old(self).members().insert(id as int));
    }

    /// Whether the word `id` is in the set. An identifier beyond the
    /// dictionary never is.
    pub fn contains(&self, id: usize) -> (res: bool)
        ensures
            res == self.members().contains(id as int),
    {
        if id < bitmap_len(self) {
            bitmap_get(self, id)
        } else {
            false
        }
    }

    /// Keeps the words that are in `other` too.
    pub fn and_inplace(&mut self, other: &WordBitMap)
        requires
            old(self)@.len() == other@.len(),
        ensures
            final(self)@ == both(old(self)@, other@),
            final(self).members() == old(self).members().intersect(other.members()),
    {
        bitmap_and_inplace(self, other);
        assert(self.members() =~= old(self).members().intersect(other.members()));
    }

    /// The number of words in the set.
    pub fn count_ones(&self) -> (res: usize)
        requires
            self@.len() <= MAX_WORDS,
        ensures
            res == count_true(self@),
            res == self.members().len(),
            res <= self@.len(),
    {
        proof {
            lemma_count_true_bound(self@);
            lemma_count_true_positions(self@);
        }
        bitmap_count_ones(self)
    }

    /// A copy of the set.
    pub fn duplicate(&self) -> (res: Self)
        ensures
            res@ == self@,
    {
        bitmap_clone(self)
    }

    /// The word identifiers in the set, ascending.
    pub fn to_ids(&self) -> (res: Vec<usize>)
        ensures
            forall|k: int| 0 <= k < res.len() ==> self.members().contains(#[trigger] res[k] as int),
            forall|i: int| self.members().contains(i) ==> exists|k: int|
                0 <= k < res.len() && #[trigger] res[k] == i,
            forall|j: int, k: int| 0 <= j < k < res.len() ==> res[j] < res[k],
    {
        let n = bitmap_len(self);
        let mut res: Vec<usize> = Vec::new();
        let mut i: usize = 0;
        while i < n
            invariant
                i <= n,
                n == self@.len(),
                forall|k: int|
                    0 <= k < res.len() ==> self.members().contains(#[trigger] res[k] as int)
                        && res[k] < i,
                forall|m: int|
                    0 <= m < i && self.members().contains(m) ==> exists|k: int|
                        0 <= k < res.len() && #[trigger] res[k] == m,
                forall|j: int, k: int| 0 <= j < k < res.len() ==> res[j] < res[k],
            decreases n - i,
        {
            if bitmap_get(self, i) {
                let ghost before = res@;
                res.push(i);
                assert forall|m: int| 0 <= m < i + 1 && self.members().contains(m) implies exists|
                    k: int,
                | 0 <= k < res.len() && #[trigger] res[k] == m by {
                    if m < i {
                        let k = choose|k: int| 0 <= k < before.len() && #[trigger] before[k] == m;
                        assert(res[k] == m);
                    } else {
                        assert(res[res.len() - 1] == m);
                    }
                }
            }
            i = i + 1;
        }
        res
    }
}

/// The positions of the true entries of `s`.
pub open spec fn positions(s: Seq<bool>) -> Set<int> {
    Set::new(|i: int| 0 <= i < s.len() && s[i])
}

/// The true entries are counted once each: their positions are a finite set
/// of as many elements as the count says.
pub proof fn lemma_count_true_positions(s: Seq<bool>)
    ensures
        positions(s).finite(),
        positions(s).len() == count_true(s),
    decreases s.len(),
{
    if s.len() == 0 {
        assert(positions(s) =~= Set::<int>::empty());
    } else {
        let front = s.drop_last();
        lemma_count_true_positions(front);
        if s.last() {
            assert(positions(s) =~= positions(front).insert(s.len() - 1));
        } else {
            assert(positions(s) =~= positions(front));
        }
    }
}

/// No more entries are true than there are entries.
pub proof fn lemma_count_true_bound(s: Seq<bool>)
    ensures
        count_true(s) <= s.len(),
    decreases s.len(),
{
    if s.len() > 0 {
        lemma_count_true_bound(s.drop_last());
    }
}

} // verus!
