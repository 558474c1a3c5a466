use wordle_entropy::fivegram::Fivegram;

#[test]
fn fivegram_test_from_bytes() {
    let fg = Fivegram::from_letters("abcde".as_bytes());

    assert_eq!(fg.word, 0b00_00000_00101_00100_00011_00010_00001);
}

#[test]
fn fivegram_test_has_letter() {
    let fg = Fivegram::from_letters("abcde".as_bytes());

    assert!(fg.has_letter(b'a' - b'a', 0));
    assert!(fg.has_letter(b'b' - b'a', 1));
    assert!(fg.has_letter(b'c' - b'a', 2));
    assert!(fg.has_letter(b'd' - b'a', 3));
    assert!(fg.has_letter(b'e' - b'a', 4));
}

#[test]
fn test_matches_full() {
    let l = Fivegram::from_letters("abcde".as_bytes());
    let r = Fivegram::from_letters("abcde".as_bytes());

    assert!(l.partial_match(&r));
}

#[test]
fn test_matches_prefix() {
    let l = Fivegram::from_letters("abcde".as_bytes());
    let r = Fivegram::from_letters("abc".as_bytes());

    assert!(l.partial_match(&r));
}

#[test]
fn test_matches_with_holes() {
    let l = Fivegram::from_letters("abcde".as_bytes());
    let mut r = Fivegram::default();
    r.set_letter(b'b' - b'a', 1);
    r.set_letter(b'd' - b'a', 3);

    assert!(l.partial_match(&r));
}

#[test]
fn fivegram_round_trip() {
    let word = "zebra".as_bytes();
    let fg = Fivegram::from_letters(word);
    for pos in 0..5usize {
        for l in 0..26u8 {
            assert_eq!(fg.has_letter(l, pos), word[pos] - b'a' == l);
        }
    }
}

#[test]
fn has_letter_outside_the_word() {
    let fg = Fivegram::from_letters("abcde".as_bytes());
    assert!(fg.has_letter(0, 0));
    assert!(!fg.has_letter(0, 1));
    assert!(!fg.has_letter(1, 0));
    assert!(!fg.has_letter(0, 5));
    assert!(!fg.has_letter(0, 6));
    assert!(!fg.has_letter(0, usize::MAX));
    assert!(!fg.has_letter(b'a', 0));
    assert!(!fg.has_letter(255, 0));
    let short = Fivegram::from_letters("abc".as_bytes());
    assert!(short.has_letter(0, 0) && short.has_letter(1, 1) && short.has_letter(2, 2));
    for l in 0..26u8 {
        assert!(!short.has_letter(l, 3));
        assert!(!short.has_letter(l, 4));
    }
}

#[test]
fn set_letter_packs_at_the_slot() {
    let mut fg = Fivegram::default();
    assert_eq!(fg.word, 0);
    fg.set_letter(25, 4);
    assert_eq!(fg.word, 26 << 20);
    fg.set_letter(0, 0);
    assert_eq!(fg.word, (26 << 20) | 1);
}

#[test]
fn partial_match_fails_on_other_letter() {
    let l = Fivegram::from_letters("abcde".as_bytes());
    let r = Fivegram::from_letters("abd".as_bytes());
    assert!(!l.partial_match(&r));
}

#[test]
fn set_letter_adds_to_an_occupied_slot() {
    let mut fg = Fivegram::default();
    fg.set_letter(0, 2);
    fg.set_letter(1, 2);
    assert_eq!(fg.word, 3 << 10);
    assert!(fg.has_letter(2, 2));
    assert!(!fg.has_letter(0, 2));
}
