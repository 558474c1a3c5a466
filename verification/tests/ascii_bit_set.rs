use wordle_entropy::ascii_bit_set::AsciiBitSet;

#[test]
fn ascii_bit_set_test_from_bytes() {
    let s = AsciiBitSet::from_letters("abcde".as_bytes());
    assert_eq!(s.set, 0b11111);

    let s = AsciiBitSet::from_letters("zyxwv".as_bytes());
    assert_eq!(s.set, 0b0011_1110_0000_0000_0000_0000_0000);

    let s = AsciiBitSet::from_letters("abcdefghijklmnopqrstuvwxyz".as_bytes());
    assert_eq!(s.set, 0b0011_1111_1111_1111_1111_1111_1111);
}

#[test]
fn ascii_bit_set_test_has_letter() {
    let mut s = AsciiBitSet::default();
    s.set_letter(b'a' - b'a');
    s.set_letter(b'z' - b'a');
    s.set_letter(b'k' - b'a');

    assert!(s.has_letter(b'a' - b'a'));
    assert!(s.has_letter(b'z' - b'a'));
    assert!(s.has_letter(b'k' - b'a'));
}

#[test]
fn test_intersect() {
    let l = AsciiBitSet::from_letters("abcde".as_bytes());
    let r = AsciiBitSet::from_letters("bdz".as_bytes());

    assert!(l.intersect(&r));
}

#[test]
fn has_letter_only_what_was_set() {
    let mut s = AsciiBitSet::default();
    assert_eq!(s.set, 0);
    s.set_letter(0);
    s.set_letter(10);
    assert_eq!(s.set, 1 | (1 << 10));
    for l in 0..32u8 {
        assert_eq!(s.has_letter(l), l == 0 || l == 10);
    }
    for l in 32..=255u8 {
        assert!(!s.has_letter(l));
    }
}

#[test]
fn intersect_of_disjoint_sets() {
    let l = AsciiBitSet::from_letters("abc".as_bytes());
    let r = AsciiBitSet::from_letters("xyz".as_bytes());
    assert!(!l.intersect(&r));
    assert!(!l.intersect(&AsciiBitSet::default()));
}

#[test]
fn letter_set_round_trip() {
    let word = "hello".as_bytes();
    let s = AsciiBitSet::from_letters(word);
    for l in 0..26u8 {
        assert_eq!(s.has_letter(l), word.contains(&(b'a' + l)));
    }
    assert!(s.has_letter(7));
    assert!(!s.has_letter(0));
}

#[test]
fn from_letters_ignores_count_and_place() {
    let a = AsciiBitSet::from_letters("aabbb".as_bytes());
    let b = AsciiBitSet::from_letters("ba".as_bytes());
    assert_eq!(a.set, 0b11);
    assert_eq!(a.set, b.set);
}

#[test]
fn from_letters_is_asked_by_rank() {
    let s = AsciiBitSet::from_letters("abcde".as_bytes());
    for l in 0..26u8 {
        assert_eq!(s.has_letter(l), l < 5);
    }
}

#[test]
fn intersect_is_symmetric() {
    let l = AsciiBitSet::from_letters("abcde".as_bytes());
    let r = AsciiBitSet::from_letters("bdz".as_bytes());
    assert_eq!(l.intersect(&r), r.intersect(&l));
    assert!(l.intersect(&l));
    assert!(!AsciiBitSet::default().intersect(&AsciiBitSet::default()));
}
