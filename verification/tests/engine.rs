use wordle_entropy::bitmap::WordBitMap;
use wordle_entropy::dictionary::{check_word, Dictionary, DictionaryError};
use wordle_entropy::index::PredicateIndex;
use wordle_entropy::patterns::{all_patterns, pattern_states, word_patterns};
use wordle_entropy::predicate::{LetterState, Predicate};
use wordle_entropy::scorer::{bin_sizes, intersect, intersect_sets};

fn words(list: &[&str]) -> Vec<Vec<u8>> {
    list.iter().map(|w| w.as_bytes().to_vec()).collect()
}

fn bitmap(len: usize, ids: &[usize]) -> WordBitMap {
    let mut b = WordBitMap::empty(len);
    for &id in ids {
        b.insert(id);
    }
    b
}

fn entropy_of(sizes: &[usize], n: usize) -> f32 {
    let n = n as f32;
    let mut sum = 0f32;
    for &b in sizes {
        if b > 0 {
            let b = b as f32;
            sum += -b * (b / n).log2();
        }
    }
    sum / n
}

#[test]
fn predicate_index_formula() {
    let p = Predicate { letter: 0, state: LetterState::Absent, pos: 0 };
    assert_eq!(p.index(), 0);
    let p = Predicate { letter: 0, state: LetterState::AtPos, pos: 0 };
    assert_eq!(p.index(), 2);
    let p = Predicate { letter: 2, state: LetterState::Present, pos: 3 };
    assert_eq!(p.index(), 1 | (3 << 2) | (2 << 5));
    let p = Predicate { letter: 2, state: LetterState::AtPos, pos: 3 };
    assert_eq!(p.index(), 78);
    let p = Predicate { letter: 25, state: LetterState::AtPos, pos: 4 };
    assert_eq!(p.index(), 2 | (4 << 2) | (25 << 5));
    assert_eq!(p.index(), 818);
}

#[test]
fn predicate_indices_do_not_collide() {
    let mut seen = vec![false; 1024];
    let mut count = 0;
    for letter in 0..26u8 {
        for state in [LetterState::Absent, LetterState::Present, LetterState::AtPos] {
            for pos in 0..5u8 {
                let p = Predicate { letter, state, pos };
                let i = p.index();
                assert!(i < 1024);
                assert!(!seen[i]);
                seen[i] = true;
                count += 1;
                let q = Predicate::from_index(i).unwrap();
                assert_eq!(q.letter, letter);
                assert_eq!(q.state, state);
                assert_eq!(q.pos, pos);
            }
        }
    }
    assert_eq!(count, 390);
    let decodable = (0..2000).filter(|&i| Predicate::from_index(i).is_some()).count();
    assert_eq!(decodable, 390);
}

#[test]
fn from_index_refuses_unused_indices() {
    assert!(Predicate::from_index(3).is_none());
    assert!(Predicate::from_index(5 << 2).is_none());
    assert!(Predicate::from_index(26 << 5).is_none());
    assert!(Predicate::from_index(1024).is_none());
}

#[test]
fn dictionary_refuses_empty_list() {
    assert_eq!(Dictionary::new(Vec::new()).err(), Some(DictionaryError::EmptyDictionary));
    assert_eq!(PredicateIndex::build(Vec::new()).err(), Some(DictionaryError::EmptyDictionary));
}

#[test]
fn dictionary_refuses_malformed_words() {
    let r = Dictionary::new(words(&["abcde", "abcd", "zzzzz"]));
    assert_eq!(r.err(), Some(DictionaryError::Decode { word: 1 }));
    let r = Dictionary::new(words(&["abcde", "abcdf", "abcdef"]));
    assert_eq!(r.err(), Some(DictionaryError::Decode { word: 2 }));
    let r = PredicateIndex::build(words(&["abcdE", "abcd1"]));
    assert_eq!(r.err(), Some(DictionaryError::Decode { word: 0 }));
    assert!(check_word("abcde".as_bytes()));
    assert!(!check_word("ab de".as_bytes()));
    assert!(!check_word("".as_bytes()));
}

#[test]
fn dictionary_keeps_words_in_order() {
    let d = Dictionary::new(words(&["abcde", "abcdf", "zzzzz"])).unwrap();
    assert_eq!(d.len(), 3);
    assert_eq!(d.word(0), "abcde".as_bytes());
    assert_eq!(d.word(2), "zzzzz".as_bytes());
}

#[test]
fn predicate_matches_three_word_dictionary() {
    let index = PredicateIndex::build(words(&["abcde", "abcdf", "zzzzz"])).unwrap();
    let p = Predicate { letter: 0, state: LetterState::AtPos, pos: 0 };
    assert_eq!(index.lookup(&p).to_ids(), vec![0, 1]);
    assert_eq!(p.as_bitmap(index.dict()).len(), 3);
    assert_eq!(p.as_bitmap(index.dict()).count_ones(), 2);
    assert!(p.matches_index(index.dict(), 0));
    assert!(p.matches_index(index.dict(), 1));
    assert!(!p.matches_index(index.dict(), 2));
    for pos in 0..5u8 {
        let p = Predicate { letter: 25, state: LetterState::Absent, pos };
        assert_eq!(index.lookup(&p).to_ids(), vec![0, 1]);
        assert_eq!(p.as_bitmap(index.dict()).to_ids(), vec![0, 1]);
    }
    let p = Predicate { letter: 4, state: LetterState::Present, pos: 0 };
    assert_eq!(index.lookup(&p).to_ids(), vec![0]);
    let p = Predicate { letter: 4, state: LetterState::Present, pos: 4 };
    assert_eq!(index.lookup(&p).to_ids(), Vec::<usize>::new());
}

#[test]
fn lookup_agrees_with_direct_evaluation() {
    let list = ["crane", "slate", "aabbb", "ccddd", "zzzzz", "early"];
    let index = PredicateIndex::build(words(&list)).unwrap();
    for i in 0..1024 {
        if let Some(p) = Predicate::from_index(i) {
            let bin = index.lookup(&p);
            assert_eq!(bin.len(), list.len());
            for w in 0..list.len() {
                assert_eq!(bin.contains(w), p.matches_index(index.dict(), w));
            }
            assert_eq!(bin.count_ones(), bin.to_ids().len());
        }
    }
}

#[test]
fn pattern_states_are_base_three_digits() {
    assert_eq!(pattern_states(0), vec![LetterState::Absent; 5]);
    assert_eq!(pattern_states(242), vec![LetterState::AtPos; 5]);
    assert_eq!(
        pattern_states(1 + 3 * 2 + 27),
        vec![
            LetterState::Present,
            LetterState::AtPos,
            LetterState::Absent,
            LetterState::Present,
            LetterState::Absent
        ]
    );
    let all = all_patterns();
    assert_eq!(all.len(), 243);
    for (j, states) in all.iter().enumerate() {
        assert_eq!(states, &pattern_states(j));
    }
}

#[test]
fn word_patterns_take_the_words_letters() {
    let pats = word_patterns("crane".as_bytes());
    assert_eq!(pats.len(), 243);
    let p = &pats[5];
    assert_eq!(p.len(), 5);
    assert_eq!(p[0].letter, 2);
    assert_eq!(p[0].state, LetterState::AtPos);
    assert_eq!(p[0].pos, 0);
    assert_eq!(p[1].letter, 17);
    assert_eq!(p[1].state, LetterState::Present);
    assert_eq!(p[1].pos, 1);
    assert_eq!(p[4].letter, 4);
    assert_eq!(p[4].state, LetterState::Absent);
    assert_eq!(p[4].pos, 4);
}

#[test]
fn word_patterns_of_abcde() {
    let r = word_patterns("abcde".as_bytes());
    assert_eq!(r.len(), 243);
    let states = |j: usize| r[j].iter().map(|p| p.state).collect::<Vec<_>>();
    assert_eq!(states(0), vec![LetterState::Absent; 5]);
    assert_eq!(states(242), vec![LetterState::AtPos; 5]);
    assert_eq!(
        states(5),
        vec![
            LetterState::AtPos,
            LetterState::Present,
            LetterState::Absent,
            LetterState::Absent,
            LetterState::Absent
        ]
    );
    for pattern in &r {
        assert_eq!(pattern.iter().map(|p| p.letter).collect::<Vec<_>>(), vec![0, 1, 2, 3, 4]);
        assert_eq!(pattern.iter().map(|p| p.pos).collect::<Vec<_>>(), vec![0, 1, 2, 3, 4]);
    }
}

#[test]
fn intersection_keeps_common_words() {
    let a = bitmap(8, &[0, 1, 2, 5, 7]);
    let b = bitmap(8, &[1, 2, 3, 7]);
    let c = bitmap(8, &[2, 4, 7]);
    assert_eq!(intersect_sets(&vec![&a, &b, &c]).to_ids(), vec![2, 7]);
    assert_eq!(intersect_sets(&vec![&a, &b, &c]).count_ones(), 2);
    assert_eq!(intersect_sets(&vec![&a]).to_ids(), vec![0, 1, 2, 5, 7]);
    assert_eq!(a.to_ids(), vec![0, 1, 2, 5, 7]);
}

#[test]
fn intersection_order_does_not_matter() {
    let a = bitmap(300, &[0, 1, 2, 5, 7, 255, 256, 299]);
    let b = bitmap(300, &[1, 2, 3, 7, 256, 299]);
    let c = bitmap(300, &[2, 4, 7, 100, 299]);
    let abc = intersect_sets(&vec![&a, &b, &c]).to_ids();
    let cab = intersect_sets(&vec![&c, &a, &b]).to_ids();
    assert_eq!(abc, vec![2, 7, 299]);
    assert_eq!(abc, cab);
    let ab = intersect_sets(&vec![&a, &b]);
    let bc = intersect_sets(&vec![&b, &c]);
    assert_eq!(intersect_sets(&vec![&ab, &c]).to_ids(), abc);
    assert_eq!(intersect_sets(&vec![&a, &bc]).to_ids(), abc);
}

#[test]
fn intersection_with_empty_set_is_empty() {
    let a = bitmap(8, &[0, 1, 2]);
    let e = WordBitMap::empty(8);
    assert_eq!(intersect_sets(&vec![&a, &e]).to_ids(), Vec::<usize>::new());
    assert_eq!(intersect_sets(&vec![&e]).count_ones(), 0);
}

#[test]
fn bitmap_operations() {
    let mut a = bitmap(10, &[3, 9]);
    assert_eq!(a.len(), 10);
    assert!(a.contains(3));
    assert!(!a.contains(4));
    assert!(!a.contains(10));
    assert_eq!(a.count_ones(), 2);
    let copy = a.duplicate();
    a.and_inplace(&bitmap(10, &[9]));
    assert_eq!(a.to_ids(), vec![9]);
    assert_eq!(copy.to_ids(), vec![3, 9]);
    assert_eq!(WordBitMap::empty(0).len(), 0);
}

#[test]
fn pattern_intersection_on_dictionary() {
    let index = PredicateIndex::build(words(&["abcde", "abcdf", "zzzzz"])).unwrap();
    let pats = word_patterns("abcde".as_bytes());
    assert_eq!(intersect(&index, &pats[242]).to_ids(), vec![0]);
    assert_eq!(intersect(&index, &pats[2 + 6 + 18 + 54]).to_ids(), vec![1]);
    assert_eq!(intersect(&index, &pats[0]).to_ids(), vec![2]);
    assert_eq!(intersect(&index, &pats[1]).to_ids(), Vec::<usize>::new());
    assert_eq!(intersect(&index, &pats[242][..1]).to_ids(), vec![0, 1]);
}

#[test]
fn patterns_part_the_dictionary() {
    let list = ["crane", "slate", "aabbb", "ccddd", "zzzzz", "early", "nacre"];
    let index = PredicateIndex::build(words(&list)).unwrap();
    for guess in list {
        let pats = word_patterns(guess.as_bytes());
        let mut seen = vec![0usize; list.len()];
        for pat in &pats {
            for w in intersect(&index, pat).to_ids() {
                seen[w] += 1;
            }
        }
        assert_eq!(seen, vec![1; list.len()]);
        let sizes = bin_sizes(&index, guess.as_bytes());
        assert_eq!(sizes.len(), 243);
        assert_eq!(sizes.iter().sum::<usize>(), list.len());
        assert_eq!(sizes[242], 1);
    }
}

#[test]
fn entropy_of_two_word_dictionary() {
    let index = PredicateIndex::build(words(&["aabbb", "ccddd"])).unwrap();
    let sizes = bin_sizes(&index, "aabbb".as_bytes());
    assert_eq!(sizes[242], 1);
    assert_eq!(sizes[0], 1);
    assert_eq!(sizes.iter().filter(|&&b| b > 0).count(), 2);
    assert_eq!(entropy_of(&sizes, 2), 1.0);
}

#[test]
fn entropy_is_zero_for_one_bin() {
    let index = PredicateIndex::build(words(&["aabbb", "ababb", "bbaab"])).unwrap();
    let sizes = bin_sizes(&index, "ccddd".as_bytes());
    assert_eq!(sizes[0], 3);
    assert_eq!(sizes.iter().sum::<usize>(), 3);
    assert_eq!(entropy_of(&sizes, 3), 0.0);
    let sizes = bin_sizes(&index, "aabbb".as_bytes());
    assert!(entropy_of(&sizes, 3) >= 0.0);
}
