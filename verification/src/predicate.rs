use vstd::prelude::*;
use crate::ascii_bit_set::{
    all_letters, lemma_holds_contains, letter_byte, AsciiBitSet, ALPHABET,
};
use crate::fivegram::{lemma_encodes_has_at, Fivegram, WORD_LEN};

verus! {

/// The size of the space that predicate indices lie in.
pub const INDEX_SPACE: usize = 1024;

/// What the game says of one letter of a guess.
#[derive(Debug, Copy, Clone, PartialEq, Eq, Structural)]
pub enum LetterState {
    /// The letter is not in the word.
    Absent,
    /// The letter is in the word, but not at this place.
    Present,
    /// The letter is at this place.
    AtPos,
}

impl LetterState {
    /// The digit that stands for the state: 0, 1 or 2.
    pub open spec fn code(self) -> int {
        match self {
            LetterState::Absent => 0,
            LetterState::Present => 1,
            LetterState::AtPos => 2,
        }
    }

    /// The state that the digit `d` stands for.
    pub open spec fn of_digit(d: int) -> LetterState {
        if d == 0 {
            LetterState::Absent
        } else if d == 1 {
            LetterState::Present
        } else {
            LetterState::AtPos
        }
    }

    /// The state that the digit `d` stands for.
    pub fn from_digit(d: usize) -> (res: LetterState)
        requires
            d < 3,
        ensures
            res == LetterState::of_digit(d as int),
            res.code() == d,
    {
        if d == 0 {
            LetterState::Absent
        } else if d == 1 {
            LetterState::Present
        } else {
            LetterState::AtPos
        }
    }

    /// The state of the letter with the byte `byte` at place `pos` of a
    /// guess, when the hidden word is `word`.
    pub open spec fn observed(byte: u8, pos: int, word: Seq<u8>) -> LetterState {
        if word[pos] == byte {
            LetterState::AtPos
        } else if word.contains(byte) {
            LetterState::Present
        } else {
            LetterState::Absent
        }
    }
}

/// Whether `word` is five letters.
pub open spec fn is_word(word: Seq<u8>) -> bool {
    word.len() == WORD_LEN && all_letters(word)
}

/// One constraint on a word: a letter by its rank, a place, and the state of
/// the letter there.
#[derive(Debug, Copy, Clone)]
pub struct Predicate {
    pub letter: u8,
    pub state: LetterState,
    pub pos: u8,
}

proof fn lemma_pack(s: u8, p: u8, r: u8)
    by (bit_vector)
    requires
        s < 3,
        p < 5,
        r < 26,
    ensures
        (((s & 3) | ((p & 7) << 2)) as u16) | (((r & 31) as u16) << 5) == s as u16 + 4 * (p as u16)
            + 32 * (r as u16),
        ((s & 3) | ((p & 7) << 2)) == s + 4 * p,
{
}

proof fn lemma_unpack(i: u16)
    by (bit_vector)
    requires
        i < 1024,
    ensures
        (i & 3) as int + 4 * ((i >> 2) & 7) as int + 32 * (i >> 5) as int == i as int,
        i & 3 < 4,
        (i >> 2) & 7 < 8,
        i >> 5 < 32,
{
}

impl Predicate {
    /// Whether the letter is one of the alphabet and the place lies in a
    /// word.
    pub open spec fn valid(self) -> bool {
        self.letter < ALPHABET && self.pos < WORD_LEN
    }

    /// The predicate's index: the state in the two lowest bits, the place in
    /// the next three, the letter above them.
    pub open spec fn index_spec(self) -> int {
        self.state.code() + 4 * self.pos + 32 * self.letter
    }

    /// The byte of the predicate's letter.
    pub open spec fn byte(self) -> u8 {
        letter_byte(self.letter)
    }

    /// Whether `word`, given by its bytes, meets the constraint.
    pub open spec fn satisfied_by(self, word: Seq<u8>) -> bool {
        match self.state {
            LetterState::Absent => !word.contains(self.byte()),
            LetterState::Present => word.contains(self.byte()) && word[self.pos as int]
                != self.byte(),
            LetterState::AtPos => word[self.pos as int] == self.byte(),
        }
    }

    /// The predicate's index.
    pub fn index(&self) -> (res: usize)
        requires
            self.valid(),
        ensures
            res == self.index_spec(),
            res < INDEX_SPACE,
    {
        let s: u8 = match self.state {
            LetterState::Absent => 0,
            LetterState::Present => 1,
            LetterState::AtPos => 2,
        };
        let rank: u8 = self.letter;
        proof {
            lemma_pack(s, self.pos, rank);
        }
        let low: u16 = ((s & 3) | ((self.pos & 7) << 2)) as u16;
        let res: u16 = low | (((rank & 31) as u16) << 5);
        res as usize
    }

    /// The predicate with the index `index`, if there is one.
    pub fn from_index(index: usize) -> (res: Option<Predicate>)
        ensures
            match res {
                Some(p) => p.valid() && p.index_spec() == index,
                None => forall|p: Predicate| p.valid() ==> p.index_spec() != index,
            },
    {
        if index >= INDEX_SPACE {
            return None;
        }
        let i: u16 = index as u16;
        proof {
            lemma_unpack(i);
        }
        let s: u16 = i & 3;
        let pos: u16 = (i >> 2) & 7;
        let rank: u16 = i >> 5;
        if s >= 3 || pos >= 5 || rank >= 26 {
            return None;
        }
        let state = LetterState::from_digit(s as usize);
        Some(Predicate { letter: rank as u8, state, pos: pos as u8 })
    }

    /// Whether the word with the letter set `set` and the packed form `gram`
    /// meets the constraint.
    pub fn matches(&self, set: &AsciiBitSet, gram: &Fivegram) -> (res: bool)
        ensures
            res == match self.state {
                LetterState::Absent => !set.contains(self.letter),
                LetterState::Present => set.contains(self.letter) && !gram.has_at(
                    self.letter,
                    self.pos as int,
                ),
                LetterState::AtPos => gram.has_at(self.letter, self.pos as int),
            },
            forall|word: Seq<u8>|
                self.valid() && is_word(word) && set.holds(word) && gram.encodes(word) ==> res
                    == #[trigger] self.satisfied_by(word),
    {
        proof {
            assert forall|word: Seq<u8>|
                self.valid() && is_word(word) && set.holds(word) && gram.encodes(
                    word,
                ) implies set.contains(self.letter) == word.contains(self.byte()) && gram.has_at(
                self.letter,
                self.pos as int,
            ) == (word[self.pos as int] == self.byte()) by {
                lemma_holds_contains(*set, word);
                lemma_encodes_has_at(*gram, word);
            }
        }
        match self.state {
            LetterState::Absent => !set.has_letter(self.letter),
            LetterState::Present => set.has_letter(self.letter) && !gram.has_letter(
                self.letter,
                self.pos as usize,
            ),
            LetterState::AtPos => gram.has_letter(self.letter, self.pos as usize),
        }
    }
}

/// No two predicates share an index.
pub proof fn lemma_index_injective(p: Predicate, q: Predicate)
    requires
        p.valid(),
        q.valid(),
        p.index_spec() == q.index_spec(),
    ensures
        p == q,
{
}

/// Every index lies in the index space.
pub proof fn lemma_index_bounded(p: Predicate)
    requires
        p.valid(),
    ensures
        0 <= p.index_spec() < INDEX_SPACE,
{
}

/// Of the three states, a word meets exactly the one observed: for a letter
/// and a place, the three constraints exclude each other and leave no word
/// out.
pub proof fn lemma_states_exclusive(p: Predicate, word: Seq<u8>)
    requires
        p.valid(),
        is_word(word),
    ensures
        p.satisfied_by(word) <==> p.state == LetterState::observed(p.byte(), p.pos as int, word),
{
    if word[p.pos as int] == p.byte() {
        assert(word.contains(p.byte()));
    }
}

} // verus!
