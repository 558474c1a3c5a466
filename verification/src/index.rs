use vstd::prelude::*;
use crate::bitmap::{WordBitMap, MAX_WORDS};
use crate::dictionary::{letters_of, Dictionary, DictionaryError};
use crate::predicate::{is_word, lemma_index_injective, Predicate, INDEX_SPACE};

verus! {

/// For every predicate the set of the words of a dictionary that meet it,
/// worked out once and read from then on.
pub struct PredicateIndex {
    dict: Dictionary,
    bins: Vec<Option<WordBitMap>>,
}

impl PredicateIndex {
    /// The dictionary that the index is over.
    pub closed spec fn dictionary(self) -> Dictionary {
        self.dict
    }

    /// Whether the index holds, for every predicate, exactly the words of
    /// its dictionary that meet it.
    pub closed spec fn wf(self) -> bool {
        &&& self.dict.wf()
        &&& self.bins@.len() == INDEX_SPACE
        &&& forall|p: Predicate|
            p.valid() ==> {
                &&& (#[trigger] self.bins@[p.index_spec()]) is Some
                &&& self.bins@[p.index_spec()]->0@ == self.dict.matching(p)
            }
    }

    /// The dictionary of an index is one.
    pub proof fn lemma_wf(self)
        requires
            self.wf(),
        ensures
            self.dictionary().wf(),
    {
    }

    /// The index over `words`. A list that is no dictionary is refused as a
    /// whole.
    pub fn build(words: Vec<Vec<u8>>) -> (res: Result<PredicateIndex, DictionaryError>)
        requires
            words@.len() <= MAX_WORDS,
        ensures
            match res {
                Ok(index) => {
                    &&& index.wf()
                    &&& index.dictionary()@ == letters_of(words@)
                    &&& words@.len() > 0
                    &&& forall|i: int| 0 <= i < words@.len() ==> is_word(#[trigger] words@[i]@)
                },
                Err(DictionaryError::EmptyDictionary) => words@.len() == 0,
                Err(DictionaryError::Decode { word }) => {
                    &&& word < words@.len()
                    &&& !is_word(words@[word as int]@)
                    &&& forall|i: int| 0 <= i < word ==> is_word(#[trigger] words@[i]@)
                },
            },
    {
        let dict = match Dictionary::new(words) {
            Ok(d) => d,
            Err(e) => {
                return Err(e);
            },
        };
        let mut bins: Vec<Option<WordBitMap>> = Vec::new();
        let mut i: usize = 0;
        while i < INDEX_SPACE
            invariant
                i <= INDEX_SPACE,
                bins@.len() == i,
                dict.wf(),
                forall|p: Predicate|
                    p.valid() && p.index_spec() < i ==> {
                        &&& (#[trigger] bins@[p.index_spec()]) is Some
                        &&& bins@[p.index_spec()]->0@ == dict.matching(p)
                    },
            decreases INDEX_SPACE - i,
        {
            let ghost before = bins@;
            match Predicate::from_index(i) {
                Some(q) => {
                    let bin = q.as_bitmap(&dict);
                    bins.push(Some(bin));
                    assert forall|p: Predicate| p.valid() && p.index_spec() < i + 1 implies {
                        &&& (#[trigger] bins@[p.index_spec()]) is Some
                        &&& bins@[p.index_spec()]->0@ == dict.matching(p)
                    } by {
                        if p.index_spec() == i {
                            lemma_index_injective(p, q);
                        } else {
                            assert(bins@[p.index_spec()] == before[p.index_spec()]);
                        }
                    }
                },
                None => {
                    bins.push(None);
                    assert forall|p: Predicate| p.valid() && p.index_spec() < i + 1 implies {
                        &&& (#[trigger] bins@[p.index_spec()]) is Some
                        &&& bins@[p.index_spec()]->0@ == dict.matching(p)
                    } by {
                        assert(bins@[p.index_spec()] == before[p.index_spec()]);
                    }
                },
            }
            i = i + 1;
        }
        Ok(PredicateIndex { dict, bins })
    }

    /// The dictionary that the index is over.
    pub fn dict(&self) -> (res: &Dictionary)
        requires
            self.wf(),
        ensures
            *res == self.dictionary(),
            res.wf(),
    {
        &self.dict
    }

    /// The set of the words that meet `p`: the word `w` is in it exactly if
    /// `p` holds of the word `w` itself.
    pub fn lookup(&self, p: &Predicate) -> (res: &WordBitMap)
        requires
            self.wf(),
            p.valid(),
        ensures
            res@ == self.dictionary().matching(*p),
            forall|w: int|
                res.members().contains(w) <==> 0 <= w < self.dictionary()@.len() && p.satisfied_by(
                    self.dictionary()@[w],
                ),
    {
        let i = p.index();
        assert(self.bins@[p.index_spec()] is Some);
        self.bins[i].as_ref().unwrap()
    }
}

} // verus!
