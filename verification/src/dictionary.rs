use vstd::prelude::*;
use crate::ascii_bit_set::{is_letter, AsciiBitSet, FIRST_LETTER, LAST_LETTER};
use crate::bitmap::{WordBitMap, MAX_WORDS};
use crate::fivegram::{Fivegram, WORD_LEN};
use crate::predicate::{is_word, Predicate};

verus! {

/// Why a list of words is no dictionary.
#[derive(Debug, Copy, Clone, PartialEq, Eq)]
pub enum DictionaryError {
    /// The list is empty.
    EmptyDictionary,
    /// The entry `word` is not made of five letters.
    Decode { word: usize },
}

/// The letters of each entry of a list of words.
pub open spec fn letters_of(words: Seq<Vec<u8>>) -> Seq<Seq<u8>> {
    Seq::new(words.len(), |i: int| words[i]@)
}

/// Whether `word` is five letters.
pub fn check_word(word: &[u8]) -> (res: bool)
    ensures
        res == is_word(word@),
{
    if word.len() != WORD_LEN {
        return false;
    }
    let mut i: usize = 0;
    while i < WORD_LEN
        invariant
            i <= WORD_LEN,
            word@.len() == WORD_LEN,
            forall|k: int| 0 <= k < i ==> is_letter(#[trigger] word@[k]),
        decreases WORD_LEN - i,
    {
        if word[i] < FIRST_LETTER || word[i] > LAST_LETTER {
            assert(!is_letter(word@[i as int]));
            return false;
        }
        i = i + 1;
    }
    true
}

/// The words of the game, each with its letter set and its packed form. A
/// word's identifier is its place in the list.
pub struct Dictionary {
    words: Vec<Vec<u8>>,
    sets: Vec<AsciiBitSet>,
    grams: Vec<Fivegram>,
}

impl View for Dictionary {
    type V = Seq<Seq<u8>>;

    /// The words, by identifier.
    closed spec fn view(&self) -> Seq<Seq<u8>> {
        letters_of(self.words@)
    }
}

impl Dictionary {
    /// Whether the dictionary is not empty, every word is five letters, and
    /// the two encodings kept for each word are those of the word.
    pub closed spec fn wf(self) -> bool {
        &&& 0 < self.words@.len() <= MAX_WORDS
        &&& self.sets@.len() == self.words@.len()
        &&& self.grams@.len() == self.words@.len()
        &&& forall|i: int|
            0 <= i < self.words@.len() ==> {
                &&& is_word(#[trigger] self.words@[i]@)
                &&& self.sets@[i].holds(self.words@[i]@)
                &&& self.grams@[i].encodes(self.words@[i]@)
            }
    }

    /// The set of the words that meet `p`, as one flag per identifier.
    pub open spec fn matching(self, p: Predicate) -> Seq<bool> {
        Seq::new(self@.len(), |i: int| p.satisfied_by(self@[i]))
    }

    /// A dictionary is not empty, fits a bitmap, and holds words only.
    pub proof fn lemma_wf(self)
        requires
            self.wf(),
        ensures
            0 < self@.len() <= MAX_WORDS,
            forall|i: int| 0 <= i < self@.len() ==> is_word(#[trigger] self@[i]),
    {
    }

    /// The dictionary of `words`, in their order. An empty list is refused,
    /// and so is a list with an entry that is not five letters: the error
    /// names the first such entry.
    pub fn new(words: Vec<Vec<u8>>) -> (res: Result<Dictionary, DictionaryError>)
        requires
            words@.len() <= MAX_WORDS,
        ensures
            match res {
                Ok(d) => {
                    &&& d.wf()
                    &&& d@ == letters_of(words@)
                    &&& words@.len() > 0
                    &&& forall|i: int| 0 <= i < words@.len() ==> is_word(#[trigger] words@[i]@)
                },
                Err(DictionaryError::EmptyDictionary) => words@.len() == 0,
                Err(DictionaryError::Decode { word }) => {
                    &&& word < words@.len()
                    &&& !is_word(words@[word as int]@)
                    &&& forall|i: int| 0 <= i < word ==> is_word(#[trigger] words@[i]@)
                },
            },
    {
        let n = words.len();
        if n == 0 {
            return Err(DictionaryError::EmptyDictionary);
        }
        let mut sets: Vec<AsciiBitSet> = Vec::new();
        let mut grams: Vec<Fivegram> = Vec::new();
        let mut i: usize = 0;
        while i < n
            invariant
                i <= n,
                n == words@.len(),
                sets@.len() == i,
                grams@.len() == i,
                forall|k: int|
                    0 <= k < i ==> {
                        &&& is_word(#[trigger] words@[k]@)
                        &&& sets@[k].holds(words@[k]@)
                        &&& grams@[k].encodes(words@[k]@)
                    },
            decreases n - i,
        {
            let w = words[i].as_slice();
            if !check_word(w) {
                return Err(DictionaryError::Decode { word: i });
            }
            sets.push(AsciiBitSet::from_letters(w));
            grams.push(Fivegram::from_letters(w));
            i = i + 1;
        }
        Ok(Dictionary { words, sets, grams })
    }

    /// The number of words.
    pub fn len(&self) -> (res: usize)
        requires
            self.wf(),
        ensures
            res == self@.len(),
            0 < res <= MAX_WORDS,
    {
        self.words.len()
    }

    /// The word with the identifier `id`.
    pub fn word(&self, id: usize) -> (res: &[u8])
        requires
            self.wf(),
            id < self@.len(),
        ensures
            res@ == self@[id as int],
            is_word(res@),
    {
        self.words[id].as_slice()
    }
}

impl Predicate {
    /// Whether the word with the identifier `idx` meets the constraint.
    pub fn matches_index(&self, dict: &Dictionary, idx: usize) -> (res: bool)
        requires
            self.valid(),
            dict.wf(),
            idx < dict@.len(),
        ensures
            res == self.satisfied_by(dict@[idx as int]),
    {
        let res = self.matches(&dict.sets[idx], &dict.grams[idx]);
        assert(is_word(dict.words@[idx as int]@));
        assert(res == self.satisfied_by(dict.words@[idx as int]@));
        res
    }

    /// The set of the words of `dict` that meet the constraint.
    pub fn as_bitmap(&self, dict: &Dictionary) -> (res: WordBitMap)
        requires
            self.valid(),
            dict.wf(),
        ensures
            res@ == dict.matching(*self),
    {
        let n = dict.len();
        let mut ret = WordBitMap::empty(n);
        let mut idx: usize = 0;
        while idx < n
            invariant
                idx <= n,
                n == dict@.len(),
                dict.wf(),
                self.valid(),
                ret@.len() == n,
                forall|i: int|
                    0 <= i < n ==> #[trigger] ret@[i] == (i < idx && self.satisfied_by(dict@[i])),
            decreases n - idx,
        {
            if self.matches_index(dict, idx) {
                ret.insert(idx);
            }
            idx = idx + 1;
        }
        assert(ret@ =~= dict.matching(*self));
        ret
    }
}

} // verus!
