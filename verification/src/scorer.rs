use vstd::prelude::*;
use crate::bitmap::{count_true, WordBitMap, MAX_WORDS};
use crate::index::PredicateIndex;
use crate::patterns::{
    feedback, lemma_pattern_valid, lemma_patterns_partition, pattern_holds, pattern_of,
    word_patterns, PATTERN_NUM,
};
use crate::predicate::{is_word, Predicate};

verus! {

/// The flags of each of a list of sets.
pub open spec fn flags_of(sets: Seq<&WordBitMap>) -> Seq<Seq<bool>> {
    Seq::new(sets.len(), |k: int| sets[k]@)
}

/// Whether the sets are over dictionaries of one size.
pub open spec fn same_length(sets: Seq<Seq<bool>>) -> bool {
    forall|k: int| 0 <= k < sets.len() ==> (#[trigger] sets[k]).len() == sets[0].len()
}

/// The intersection of one set or more: a word is in it exactly if it is in
/// every one of them.
pub open spec fn meet(sets: Seq<Seq<bool>>) -> Seq<bool> {
    Seq::new(
        sets[0].len(),
        |i: int| forall|k: int| 0 <= k < sets.len() ==> (#[trigger] sets[k])[i],
    )
}

/// The words of a dictionary that meet every predicate of `pattern`, as one
/// flag per identifier.
pub open spec fn bin_of(index: PredicateIndex, pattern: Seq<Predicate>) -> Seq<bool> {
    Seq::new(
        index.dictionary()@.len(),
        |i: int| pattern_holds(pattern, index.dictionary()@[i]),
    )
}

/// The words of a dictionary to which the game answers pattern `j` when
/// `guess` is played, as one flag per identifier.
pub open spec fn answered(index: PredicateIndex, guess: Seq<u8>, j: int) -> Seq<bool> {
    Seq::new(
        index.dictionary()@.len(),
        |i: int| feedback(guess, index.dictionary()@[i]) == j,
    )
}

/// The pattern that the game answers to `guess` for each word of the
/// dictionary, by identifier.
pub open spec fn answers(index: PredicateIndex, guess: Seq<u8>) -> Seq<int> {
    Seq::new(index.dictionary()@.len(), |i: int| feedback(guess, index.dictionary()@[i]))
}

/// For each entry of `answers`, whether it is the pattern `j`.
pub open spec fn marks(answers: Seq<int>, j: int) -> Seq<bool> {
    Seq::new(answers.len(), |i: int| answers[i] == j)
}

/// How many entries of `answers` are the pattern `j`.
pub open spec fn tally(answers: Seq<int>, j: int) -> nat {
    count_true(marks(answers, j))
}

/// How many entries of `answers` are a pattern below `m`.
pub open spec fn tally_below(answers: Seq<int>, m: nat) -> nat
    decreases m,
{
    if m == 0 {
        0
    } else {
        tally_below(answers, (m - 1) as nat) + tally(answers, m - 1)
    }
}

/// The sum of the sizes.
pub open spec fn total(sizes: Seq<usize>) -> nat
    decreases sizes.len(),
{
    if sizes.len() == 0 {
        0
    } else {
        total(sizes.drop_last()) + sizes.last() as nat
    }
}

/// The intersection of the sets of `sets`, of which there is at least one.
/// None of them is changed.
pub fn intersect_sets(sets: &Vec<&WordBitMap>) -> (res: WordBitMap)
    requires
        sets@.len() > 0,
        same_length(flags_of(sets@)),
    ensures
        res@ == meet(flags_of(sets@)),
        forall|w: int|
            res.members().contains(w) <==> (forall|k: int|
                0 <= k < sets@.len() ==> (#[trigger] sets@[k]).members().contains(w)),
{
    let ghost flags = flags_of(sets@);
    let mut res = sets[0].duplicate();
    let mut k: usize = 1;
    assert(flags[0] == sets@[0]@);
    while k < sets.len()
        invariant
            1 <= k <= sets@.len(),
            flags == flags_of(sets@),
            same_length(flags),
            res@.len() == flags[0].len(),
            forall|i: int|
                0 <= i < res@.len() ==> (#[trigger] res@[i] <==> forall|m: int|
                    0 <= m < k ==> (#[trigger] flags[m])[i]),
        decreases sets@.len() - k,
    {
        let ghost before = res@;
        assert(flags[k as int] == sets@[k as int]@);
        assert(flags[k as int].len() == flags[0].len());
        res.and_inplace(sets[k]);
        proof {
            assert forall|i: int| 0 <= i < res@.len() implies (#[trigger] res@[i] <==> forall|
                m: int,
            |
                0 <= m < k + 1 ==> (#[trigger] flags[m])[i]) by {
                assert(res@[i] == (before[i] && flags[k as int][i]));
            }
        }
        k = k + 1;
    }
    proof {
        assert(res@ =~= meet(flags));
        assert forall|w: int|
            res.members().contains(w) <==> (forall|k: int|
                0 <= k < sets@.len() ==> (#[trigger] sets@[k]).members().contains(w)) by {
            if res.members().contains(w) {
                assert forall|k: int| 0 <= k < sets@.len() implies (#[trigger] sets@[k]).members().contains(
                    w,
                ) by {
                    assert(flags[k][w]);
                    assert(flags[k].len() == flags[0].len());
                }
            }
            if forall|k: int| 0 <= k < sets@.len() ==> (#[trigger] sets@[k]).members().contains(w) {
                assert(sets@[0].members().contains(w));
                assert forall|m: int| 0 <= m < sets@.len() implies (#[trigger] flags[m])[w] by {
                    assert(sets@[m].members().contains(w));
                }
            }
        }
    }
    res
}

/// The words that meet every predicate of `pattern`, which holds at least
/// one.
pub fn intersect(index: &PredicateIndex, pattern: &[Predicate]) -> (res: WordBitMap)
    requires
        index.wf(),
        pattern@.len() > 0,
        forall|k: int| 0 <= k < pattern@.len() ==> (#[trigger] pattern@[k]).valid(),
    ensures
        res@ == bin_of(*index, pattern@),
{
    let mut sets: Vec<&WordBitMap> = Vec::new();
    let mut k: usize = 0;
    while k < pattern.len()
        invariant
            k <= pattern@.len(),
            index.wf(),
            forall|m: int| 0 <= m < pattern@.len() ==> (#[trigger] pattern@[m]).valid(),
            sets@.len() == k,
            forall|m: int|
                0 <= m < k ==> (#[trigger] sets@[m])@ == index.dictionary().matching(pattern@[m]),
        decreases pattern@.len() - k,
    {
        assert(pattern@[k as int].valid());
        sets.push(index.lookup(&pattern[k]));
        k = k + 1;
    }
    proof {
        let flags = flags_of(sets@);
        assert forall|m: int| 0 <= m < flags.len() implies (#[trigger] flags[m]).len()
            == flags[0].len() by {
            assert(flags[m] == sets@[m]@);
            assert(flags[0] == sets@[0]@);
        }
    }
    let res = intersect_sets(&sets);
    proof {
        let flags = flags_of(sets@);
        let dict = index.dictionary();
        assert(flags[0] == sets@[0]@);
        assert forall|i: int| 0 <= i < dict@.len() implies res@[i] == pattern_holds(
            pattern@,
            dict@[i],
        ) by {
            if res@[i] {
                assert forall|m: int| 0 <= m < pattern@.len() implies (#[trigger] pattern@[m]).satisfied_by(
                    dict@[i],
                ) by {
                    assert(flags[m][i]);
                    assert(flags[m] == sets@[m]@);
                }
            }
            if pattern_holds(pattern@, dict@[i]) {
                assert forall|m: int| 0 <= m < flags.len() implies (#[trigger] flags[m])[i] by {
                    assert(flags[m] == sets@[m]@);
                    assert(pattern@[m].satisfied_by(dict@[i]));
                }
            }
        }
        assert(res@ =~= bin_of(*index, pattern@));
    }
    res
}

/// The sizes of the bins into which the guess `word` parts the dictionary:
/// for each pattern, by its number, how many words the game answers it to.
pub fn bin_sizes(index: &PredicateIndex, word: &[u8]) -> (res: Vec<usize>)
    requires
        index.wf(),
        is_word(word@),
    ensures
        res@.len() == PATTERN_NUM,
        forall|j: int|
            0 <= j < PATTERN_NUM ==> #[trigger] res@[j] == count_true(answered(*index, word@, j)),
        forall|j: int| 0 <= j < PATTERN_NUM ==> #[trigger] res@[j] <= index.dictionary()@.len(),
        total(res@) == index.dictionary()@.len(),
{
    let patterns = word_patterns(word);
    let mut res: Vec<usize> = Vec::new();
    let mut j: usize = 0;
    proof {
        index.lemma_wf();
        index.dictionary().lemma_wf();
    }
    while j < PATTERN_NUM
        invariant
            j <= PATTERN_NUM,
            index.wf(),
            is_word(word@),
            index.dictionary()@.len() <= MAX_WORDS,
            patterns@.len() == PATTERN_NUM,
            forall|m: int| 0 <= m < PATTERN_NUM ==> (#[trigger] patterns@[m])@ == pattern_of(word@, m),
            res@.len() == j,
            forall|m: int|
                0 <= m < j ==> #[trigger] res@[m] == count_true(answered(*index, word@, m)),
            forall|m: int| 0 <= m < j ==> #[trigger] res@[m] <= index.dictionary()@.len(),
        decreases PATTERN_NUM - j,
    {
        proof {
            lemma_pattern_valid(word@, j as int);
            assert(patterns@[j as int]@ == pattern_of(word@, j as int));
        }
        let bin = intersect(index, patterns[j].as_slice());
        proof {
            lemma_bin_answered(*index, word@, j as int);
        }
        res.push(bin.count_ones());
        j = j + 1;
    }
    proof {
        let given = answers(*index, word@);
        assert forall|m: int| 0 <= m < res@.len() implies #[trigger] res@[m] as nat == tally(
            given,
            m,
        ) by {
            assert(answered(*index, word@, m) =~= marks(given, m));
        }
        lemma_total_tally(res@, given);
        assert forall|i: int| 0 <= i < given.len() implies 0 <= #[trigger] given[i]
            < PATTERN_NUM by {
            lemma_patterns_partition(word@, index.dictionary()@[i], 0);
        }
        lemma_tally_all(given, PATTERN_NUM as nat);
    }
    res
}

/// One more answer adds one to the tally of its pattern and nothing to the
/// others.
pub proof fn lemma_tally_push(answers: Seq<int>, x: int, j: int)
    ensures
        tally(answers.push(x), j) == tally(answers, j) + if x == j {
            1nat
        } else {
            0nat
        },
{
    let flags = marks(answers.push(x), j);
    assert(flags.drop_last() =~= marks(answers, j));
    assert(flags.last() == (x == j));
}

/// One more answer adds one to the tally of the patterns below `m` if it is
/// one of them.
pub proof fn lemma_tally_below_push(answers: Seq<int>, x: int, m: nat)
    ensures
        tally_below(answers.push(x), m) == tally_below(answers, m) + if 0 <= x < m {
            1nat
        } else {
            0nat
        },
    decreases m,
{
    if m > 0 {
        lemma_tally_below_push(answers, x, (m - 1) as nat);
        lemma_tally_push(answers, x, m - 1);
    }
}

/// Where every answer is a pattern below `m`, the tallies of these patterns
/// add up to the number of answers.
pub proof fn lemma_tally_all(answers: Seq<int>, m: nat)
    requires
        forall|i: int| 0 <= i < answers.len() ==> 0 <= #[trigger] answers[i] < m,
    ensures
        tally_below(answers, m) == answers.len(),
    decreases answers.len(), m,
{
    if answers.len() == 0 {
        if m > 0 {
            lemma_tally_all(answers, (m - 1) as nat);
        }
    } else {
        let front = answers.drop_last();
        lemma_tally_all(front, m);
        lemma_tally_below_push(front, answers.last(), m);
        assert(front.push(answers.last()) =~= answers);
    }
}

/// Sizes that are the tallies of the patterns add up to the tally of them
/// all.
pub proof fn lemma_total_tally(sizes: Seq<usize>, answers: Seq<int>)
    requires
        forall|j: int| 0 <= j < sizes.len() ==> #[trigger] sizes[j] as nat == tally(answers, j),
    ensures
        total(sizes) == tally_below(answers, sizes.len()),
    decreases sizes.len(),
{
    if sizes.len() > 0 {
        let front = sizes.drop_last();
        assert forall|j: int| 0 <= j < front.len() implies #[trigger] front[j] as nat == tally(
            answers,
            j,
        ) by {
            assert(front[j] == sizes[j]);
        }
        lemma_total_tally(front, answers);
    }
}

/// Where the game answers one pattern to a guess whatever the word, that
/// pattern's bin is the whole dictionary and every other bin is empty.
pub proof fn lemma_single_bin(index: PredicateIndex, guess: Seq<u8>, only: int)
    requires
        index.wf(),
        is_word(guess),
        forall|i: int|
            0 <= i < index.dictionary()@.len() ==> feedback(guess, #[trigger] index.dictionary()@[i])
                == only,
    ensures
        count_true(answered(index, guess, only)) == index.dictionary()@.len(),
        forall|j: int| j != only ==> count_true(#[trigger] answered(index, guess, j)) == 0,
{
    lemma_count_true_uniform(answered(index, guess, only));
    assert forall|j: int| j != only implies count_true(#[trigger] answered(index, guess, j))
        == 0 by {
        lemma_count_true_uniform(answered(index, guess, j));
    }
}

/// A sequence of flags that are all set counts its length, and one of flags
/// that are all clear counts nothing.
pub proof fn lemma_count_true_uniform(s: Seq<bool>)
    ensures
        (forall|i: int| 0 <= i < s.len() ==> s[i]) ==> count_true(s) == s.len(),
        (forall|i: int| 0 <= i < s.len() ==> !s[i]) ==> count_true(s) == 0,
    decreases s.len(),
{
    if s.len() > 0 {
        lemma_count_true_uniform(s.drop_last());
    }
}

/// The words that meet pattern `j` of a guess are those to which the game
/// answers pattern `j`.
pub proof fn lemma_bin_answered(index: PredicateIndex, guess: Seq<u8>, j: int)
    requires
        index.wf(),
        is_word(guess),
        0 <= j < PATTERN_NUM,
    ensures
        bin_of(index, pattern_of(guess, j)) == answered(index, guess, j),
{
    index.lemma_wf();
    index.dictionary().lemma_wf();
    let dict = index.dictionary();
    assert forall|i: int| 0 <= i < dict@.len() implies pattern_holds(pattern_of(guess, j), dict@[i])
        == (feedback(guess, dict@[i]) == j) by {
        lemma_patterns_partition(guess, dict@[i], j);
    }
    assert(bin_of(index, pattern_of(guess, j)) =~= answered(index, guess, j));
}

/// The intersection does not depend on the order of the sets, nor on how
/// often one of them is given: two lists that hold the same sets have the
/// same intersection.
pub proof fn lemma_meet_order(a: Seq<Seq<bool>>, b: Seq<Seq<bool>>)
    requires
        a.len() > 0,
        b.len() > 0,
        same_length(a),
        same_length(b),
        forall|k: int| 0 <= k < a.len() ==> b.contains(#[trigger] a[k]),
        forall|k: int| 0 <= k < b.len() ==> a.contains(#[trigger] b[k]),
    ensures
        meet(a) == meet(b),
{
    assert(b.contains(a[0]));
    assert(a[0].len() == b[0].len());
    assert forall|i: int| 0 <= i < a[0].len() implies meet(a)[i] == meet(b)[i] by {
        if meet(a)[i] {
            assert forall|k: int| 0 <= k < b.len() implies (#[trigger] b[k])[i] by {
                assert(a.contains(b[k]));
                let m = choose|m: int| 0 <= m < a.len() && a[m] == b[k];
                assert(a[m][i]);
            }
        }
        if meet(b)[i] {
            assert forall|k: int| 0 <= k < a.len() implies (#[trigger] a[k])[i] by {
                assert(b.contains(a[k]));
                let m = choose|m: int| 0 <= m < b.len() && b[m] == a[k];
                assert(b[m][i]);
            }
        }
    }
    assert(meet(a) =~= meet(b));
}

/// Intersection is commutative and associative: three sets in another order
/// have the same intersection, and so have they taken two at a time, from
/// either end.
pub proof fn lemma_meet_three(a: Seq<bool>, b: Seq<bool>, c: Seq<bool>)
    requires
        a.len() == b.len(),
        b.len() == c.len(),
    ensures
        meet(seq![a, b, c]) == meet(seq![c, a, b]),
        meet(seq![a, b]) == meet(seq![b, a]),
        meet(seq![meet(seq![a, b]), c]) == meet(seq![a, b, c]),
        meet(seq![a, meet(seq![b, c])]) == meet(seq![a, b, c]),
{
    let abc = seq![a, b, c];
    let cab = seq![c, a, b];
    let ab = seq![a, b];
    let ba = seq![b, a];
    let bc = seq![b, c];
    assert forall|i: int| 0 <= i < a.len() implies meet(abc)[i] == (a[i] && b[i] && c[i]) by {
        if a[i] && b[i] && c[i] {
            assert forall|k: int| 0 <= k < abc.len() implies (#[trigger] abc[k])[i] by {}
        } else {
            assert(abc[0] == a && abc[1] == b && abc[2] == c);
        }
    }
    assert forall|i: int| 0 <= i < a.len() implies meet(cab)[i] == (a[i] && b[i] && c[i]) by {
        if a[i] && b[i] && c[i] {
            assert forall|k: int| 0 <= k < cab.len() implies (#[trigger] cab[k])[i] by {}
        } else {
            assert(cab[0] == c && cab[1] == a && cab[2] == b);
        }
    }
    assert forall|i: int| 0 <= i < a.len() implies meet(ab)[i] == (a[i] && b[i]) by {
        if a[i] && b[i] {
            assert forall|k: int| 0 <= k < ab.len() implies (#[trigger] ab[k])[i] by {}
        } else {
            assert(ab[0] == a && ab[1] == b);
        }
    }
    assert forall|i: int| 0 <= i < a.len() implies meet(ba)[i] == (a[i] && b[i]) by {
        if a[i] && b[i] {
            assert forall|k: int| 0 <= k < ba.len() implies (#[trigger] ba[k])[i] by {}
        } else {
            assert(ba[0] == b && ba[1] == a);
        }
    }
    assert forall|i: int| 0 <= i < a.len() implies meet(bc)[i] == (b[i] && c[i]) by {
        if b[i] && c[i] {
            assert forall|k: int| 0 <= k < bc.len() implies (#[trigger] bc[k])[i] by {}
        } else {
            assert(bc[0] == b && bc[1] == c);
        }
    }
    let left = seq![meet(ab), c];
    let right = seq![a, meet(bc)];
    assert forall|i: int| 0 <= i < a.len() implies meet(left)[i] == (a[i] && b[i] && c[i]) by {
        if a[i] && b[i] && c[i] {
            assert forall|k: int| 0 <= k < left.len() implies (#[trigger] left[k])[i] by {}
        } else {
            assert(left[0] == meet(ab) && left[1] == c);
        }
    }
    assert forall|i: int| 0 <= i < a.len() implies meet(right)[i] == (a[i] && b[i] && c[i]) by {
        if a[i] && b[i] && c[i] {
            assert forall|k: int| 0 <= k < right.len() implies (#[trigger] right[k])[i] by {}
        } else {
            assert(right[0] == a && right[1] == meet(bc));
        }
    }
    assert(meet(abc) =~= meet(cab));
    assert(meet(ab) =~= meet(ba));
    assert(meet(left) =~= meet(abc));
    assert(meet(right) =~= meet(abc));
}

} // verus!
