use ruzzle::codec::encode_word;
use ruzzle::lexicon::{Lexicon, WordSet, PREFIX_LOWER_BOUND, PREFIX_UPPER_BOUND};

#[test]
fn word_set_membership() {
    let mut s = WordSet::new();
    assert!(!s.contains(7));
    s.insert(7);
    s.insert(7);
    assert!(s.contains(7));
    assert!(!s.contains(8));
    let t = WordSet::from_words(&[1, 2, 3]);
    assert!(t.contains(1) && t.contains(2) && t.contains(3));
    assert!(!t.contains(4));
}

#[test]
fn records_read_big_endian() {
    let mut bytes: Vec<u8> = Vec::new();
    bytes.extend_from_slice(&34u64.to_be_bytes());
    bytes.extend_from_slice(&0x0102_0304_0506_0708u64.to_be_bytes());
    bytes.extend_from_slice(&[0xff, 0xff, 0xff]);
    let s = WordSet::from_be_bytes(&bytes);
    assert!(s.contains(34));
    assert!(s.contains(0x0102_0304_0506_0708));
    assert!(!s.contains(0x0807_0605_0403_0201));
    assert!(!s.contains(0xff_ffff));
    let empty = WordSet::from_be_bytes(&[1, 2, 3]);
    assert!(!empty.contains(0x0001_0203));
}

#[test]
fn lexicon_lookups() {
    let ab = encode_word(&[1, 2]);
    let a = encode_word(&[1]);
    let lex = Lexicon::new(WordSet::from_words(&[ab]), WordSet::from_words(&[a, ab]));
    assert!(lex.contains_word(ab));
    assert!(!lex.contains_word(a));
    assert!(lex.contains_prefix(a));
    assert_eq!(lex.prefix_lower, PREFIX_LOWER_BOUND);
    assert_eq!(lex.prefix_upper, PREFIX_UPPER_BOUND);
    assert_eq!((PREFIX_LOWER_BOUND, PREFIX_UPPER_BOUND), (2, 8));
}
