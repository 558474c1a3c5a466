use vstd::prelude::*;
use crate::ascii_bit_set::{is_letter, FIRST_LETTER};
use crate::fivegram::WORD_LEN;
use crate::predicate::{is_word, lemma_states_exclusive, LetterState, Predicate};

verus! {

/// The number of feedback patterns of a word: three states at each of five
/// places.
pub const PATTERN_NUM: usize = 243;

/// Three to the power `i`.
pub open spec fn pow3(i: nat) -> nat
    decreases i,
{
    if i == 0 {
        1
    } else {
        3 * pow3((i - 1) as nat)
    }
}

/// Digit `i` of `j` written in base three, the lowest digit first.
pub open spec fn digit(j: int, i: int) -> int {
    (j / pow3(i as nat) as int) % 3
}

/// The state that pattern `j` gives to place `i`.
pub open spec fn state_at(j: int, i: int) -> LetterState {
    LetterState::of_digit(digit(j, i))
}

/// Pattern `j` of the guess `word`: at each place the rank of the guess's
/// letter with the state that the pattern gives to the place.
pub open spec fn pattern_of(word: Seq<u8>, j: int) -> Seq<Predicate> {
    Seq::new(
        WORD_LEN as nat,
        |i: int|
            (Predicate {
                letter: (word[i] - FIRST_LETTER) as u8,
                state: state_at(j, i),
                pos: i as u8,
            }),
    )
}

/// Whether `word` meets every predicate of `pattern`.
pub open spec fn pattern_holds(pattern: Seq<Predicate>, word: Seq<u8>) -> bool {
    forall|k: int| 0 <= k < pattern.len() ==> (#[trigger] pattern[k]).satisfied_by(word)
}

/// The number of the pattern that the game answers to `guess` when the hidden
/// word is `target`.
pub open spec fn feedback(guess: Seq<u8>, target: Seq<u8>) -> int {
    LetterState::observed(guess[0], 0, target).code() + 3 * LetterState::observed(
        guess[1],
        1,
        target,
    ).code() + 9 * LetterState::observed(guess[2], 2, target).code() + 27 * LetterState::observed(
        guess[3],
        3,
        target,
    ).code() + 81 * LetterState::observed(guess[4], 4, target).code()
}

/// The powers of three up to the number of patterns.
pub proof fn lemma_pow3_values()
    ensures
        pow3(0) == 1,
        pow3(1) == 3,
        pow3(2) == 9,
        pow3(3) == 27,
        pow3(4) == 81,
        pow3(5) == 243,
{
    reveal_with_fuel(pow3, 6);
}

/// The states of pattern `j`, by place.
pub fn pattern_states(j: usize) -> (res: Vec<LetterState>)
    requires
        j < PATTERN_NUM,
    ensures
        res@.len() == WORD_LEN,
        forall|i: int| 0 <= i < WORD_LEN ==> #[trigger] res@[i] == state_at(j as int, i),
{
    let mut states: Vec<LetterState> = Vec::new();
    let mut i: usize = 0;
    let mut power: usize = 1;
    proof {
        lemma_pow3_values();
    }
    while i < WORD_LEN
        invariant
            i <= WORD_LEN,
            i < WORD_LEN ==> power == pow3(i as nat),
            1 <= power <= 81,
            states@.len() == i,
            forall|k: int| 0 <= k < i ==> #[trigger] states@[k] == state_at(j as int, k),
        decreases WORD_LEN - i,
    {
        let d: usize = (j / power) % 3;
        states.push(LetterState::from_digit(d));
        proof {
            lemma_pow3_values();
        }
        i = i + 1;
        if i < WORD_LEN {
            power = power * 3;
        }
    }
    states
}

/// All patterns, in the order of their numbers.
pub fn all_patterns() -> (res: Vec<Vec<LetterState>>)
    ensures
        res@.len() == PATTERN_NUM,
        forall|j: int|
            0 <= j < PATTERN_NUM ==> {
                &&& (#[trigger] res@[j])@.len() == WORD_LEN
                &&& forall|i: int| 0 <= i < WORD_LEN ==> #[trigger] res@[j]@[i] == state_at(j, i)
            },
{
    let mut res: Vec<Vec<LetterState>> = Vec::new();
    let mut j: usize = 0;
    while j < PATTERN_NUM
        invariant
            j <= PATTERN_NUM,
            res@.len() == j,
            forall|m: int|
                0 <= m < j ==> {
                    &&& (#[trigger] res@[m])@.len() == WORD_LEN
                    &&& forall|i: int|
                        0 <= i < WORD_LEN ==> #[trigger] res@[m]@[i] == state_at(m, i)
                },
        decreases PATTERN_NUM - j,
    {
        res.push(pattern_states(j));
        j = j + 1;
    }
    res
}

/// The patterns of the guess `w`, in the order of their numbers.
pub fn word_patterns(w: &[u8]) -> (res: Vec<Vec<Predicate>>)
    requires
        is_word(w@),
    ensures
        res@.len() == PATTERN_NUM,
        forall|j: int| 0 <= j < PATTERN_NUM ==> (#[trigger] res@[j])@ == pattern_of(w@, j),
{
    let table = all_patterns();
    let mut res: Vec<Vec<Predicate>> = Vec::new();
    let mut j: usize = 0;
    while j < PATTERN_NUM
        invariant
            j <= PATTERN_NUM,
            is_word(w@),
            res@.len() == j,
            table@.len() == PATTERN_NUM,
            forall|m: int|
                0 <= m < PATTERN_NUM ==> {
                    &&& (#[trigger] table@[m])@.len() == WORD_LEN
                    &&& forall|i: int|
                        0 <= i < WORD_LEN ==> #[trigger] table@[m]@[i] == state_at(m, i)
                },
            forall|m: int| 0 <= m < j ==> (#[trigger] res@[m])@ == pattern_of(w@, m),
        decreases PATTERN_NUM - j,
    {
        let mut pattern: Vec<Predicate> = Vec::new();
        let mut pos: u8 = 0;
        assert(table@[j as int]@.len() == WORD_LEN);
        while pos < 5
            invariant
                pos <= 5,
                j < PATTERN_NUM,
                is_word(w@),
                table@.len() == PATTERN_NUM,
                table@[j as int]@.len() == WORD_LEN,
                forall|i: int|
                    0 <= i < WORD_LEN ==> #[trigger] table@[j as int]@[i] == state_at(j as int, i),
                pattern@.len() == pos,
                forall|i: int| 0 <= i < pos ==> #[trigger] pattern@[i] == pattern_of(w@, j as int)[i],
            decreases 5 - pos,
        {
            let state = table[j][pos as usize];
            assert(is_letter(w@[pos as int]));
            pattern.push(Predicate { letter: w[pos as usize] - FIRST_LETTER, state, pos });
            pos = pos + 1;
        }
        assert(pattern@ =~= pattern_of(w@, j as int));
        res.push(pattern);
        j = j + 1;
    }
    res
}

/// Every predicate of a word's pattern is valid, and its letter is the
/// word's letter at its place.
pub proof fn lemma_pattern_valid(guess: Seq<u8>, j: int)
    requires
        is_word(guess),
    ensures
        pattern_of(guess, j).len() == WORD_LEN,
        forall|k: int| 0 <= k < WORD_LEN ==> (#[trigger] pattern_of(guess, j)[k]).valid(),
        forall|k: int| 0 <= k < WORD_LEN ==> (#[trigger] pattern_of(guess, j)[k]).byte() == guess[k],
{
    assert forall|k: int| 0 <= k < WORD_LEN implies (#[trigger] pattern_of(guess, j)[k]).valid()
        && pattern_of(guess, j)[k].byte() == guess[k] by {
        assert(is_letter(guess[k]));
    }
}

/// The patterns of a guess part the words: a word meets exactly one of the
/// 243 patterns, the one that the game answers.
pub proof fn lemma_patterns_partition(guess: Seq<u8>, target: Seq<u8>, j: int)
    requires
        is_word(guess),
        is_word(target),
        0 <= j < PATTERN_NUM,
    ensures
        0 <= feedback(guess, target) < PATTERN_NUM,
        pattern_holds(pattern_of(guess, j), target) <==> j == feedback(guess, target),
{
    let pat = pattern_of(guess, j);
    let c0 = LetterState::observed(guess[0], 0, target).code();
    let c1 = LetterState::observed(guess[1], 1, target).code();
    let c2 = LetterState::observed(guess[2], 2, target).code();
    let c3 = LetterState::observed(guess[3], 3, target).code();
    let c4 = LetterState::observed(guess[4], 4, target).code();
    lemma_digits(j);
    lemma_base_three(c0, c1, c2, c3, c4);
    lemma_pattern_valid(guess, j);
    lemma_states_exclusive(pat[0], target);
    lemma_states_exclusive(pat[1], target);
    lemma_states_exclusive(pat[2], target);
    lemma_states_exclusive(pat[3], target);
    lemma_states_exclusive(pat[4], target);
    assert(pat[0].satisfied_by(target) <==> digit(j, 0) == c0);
    assert(pat[1].satisfied_by(target) <==> digit(j, 1) == c1);
    assert(pat[2].satisfied_by(target) <==> digit(j, 2) == c2);
    assert(pat[3].satisfied_by(target) <==> digit(j, 3) == c3);
    assert(pat[4].satisfied_by(target) <==> digit(j, 4) == c4);
}

/// The digits of a pattern's number are digits, and make up the number.
pub proof fn lemma_digits(j: int)
    requires
        0 <= j < PATTERN_NUM,
    ensures
        forall|i: int| 0 <= i < WORD_LEN ==> 0 <= #[trigger] digit(j, i) < 3,
        j == digit(j, 0) + 3 * digit(j, 1) + 9 * digit(j, 2) + 27 * digit(j, 3) + 81 * digit(j, 4),
{
    lemma_pow3_values();
    assert(digit(j, 0) == (j / 1) % 3);
    assert(digit(j, 1) == (j / 3) % 3);
    assert(digit(j, 2) == (j / 9) % 3);
    assert(digit(j, 3) == (j / 27) % 3);
    assert(digit(j, 4) == (j / 81) % 3);
}

/// Five digits are the digits of the number that they make up.
pub proof fn lemma_base_three(c0: int, c1: int, c2: int, c3: int, c4: int)
    requires
        0 <= c0 < 3,
        0 <= c1 < 3,
        0 <= c2 < 3,
        0 <= c3 < 3,
        0 <= c4 < 3,
    ensures
        ({
            let j = c0 + 3 * c1 + 9 * c2 + 27 * c3 + 81 * c4;
            &&& 0 <= j < PATTERN_NUM
            &&& digit(j, 0) == c0
            &&& digit(j, 1) == c1
            &&& digit(j, 2) == c2
            &&& digit(j, 3) == c3
            &&& digit(j, 4) == c4
        }),
{
    let j = c0 + 3 * c1 + 9 * c2 + 27 * c3 + 81 * c4;
    lemma_pow3_values();
    assert(digit(j, 0) == (j / 1) % 3);
    assert(digit(j, 1) == (j / 3) % 3);
    assert(digit(j, 2) == (j / 9) % 3);
    assert(digit(j, 3) == (j / 27) % 3);
    assert(digit(j, 4) == (j / 81) % 3);
}

} // verus!
