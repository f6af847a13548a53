use ruzzle::codec::{
    decode_word, encode_path, encode_str, encode_word, parse_to_str, parse_to_str_buf, path_to_vec,
    path_to_vec_buffered,
};

#[test]
fn encode_packs_five_bits_per_letter() {
    // "AB": (1 << 5) | 2
    assert_eq!(encode_word(&[1, 2]), 34);
    assert_eq!(encode_word(&[]), 0);
    assert_eq!(encode_word(&[26]), 26);
}

#[test]
fn word_round_trip_examples() {
    let words: Vec<Vec<u8>> = vec![
        vec![1],
        vec![1, 20],
        vec![26, 1, 13, 5],
        vec![1, 2, 3, 4, 5, 6, 7, 8, 9, 10, 11, 12],
        vec![26, 25, 24, 23, 22, 21, 20, 19, 18, 17, 16, 15],
    ];
    for w in words {
        assert_eq!(decode_word(encode_word(&w)), w);
    }
}

#[test]
fn decode_stops_at_zero_and_after_twelve() {
    assert_eq!(decode_word(0), Vec::<u8>::new());
    // a zero group in the middle ends the word
    let w = (1u64 << 10) | 3;
    assert_eq!(decode_word(w), vec![3]);
    // thirteen groups of ones: only the low twelve are read
    let mut all: u64 = 0;
    for _ in 0..12 {
        all = (all << 5) | 1;
    }
    all |= 1 << 60;
    assert_eq!(decode_word(all), vec![1; 12]);
}

#[test]
fn text_of_packed_word() {
    assert_eq!(parse_to_str(encode_word(&[1, 20])), "AT");
    assert_eq!(parse_to_str(encode_word(&[27, 28, 29])), "23-");
    assert_eq!(parse_to_str(0), "");
    assert_eq!(parse_to_str(31), "-");
}

#[test]
fn text_buffer_is_right_aligned() {
    let mut buf = [b'.'; 12];
    let start = parse_to_str_buf(encode_word(&[3, 1, 20]), &mut buf);
    assert_eq!(start, 9);
    assert_eq!(&buf[9..], b"CAT");
    assert_eq!(&buf[..9], b".........");
}

#[test]
fn path_round_trip_examples() {
    let paths: Vec<Vec<(u8, u8)>> = vec![
        vec![(0, 0)],
        vec![(0, 0), (1, 1), (2, 2), (3, 3)],
        vec![
            (3, 3), (3, 2), (3, 1), (3, 0), (2, 0), (2, 1),
            (2, 2), (2, 3), (1, 3), (1, 2), (1, 1), (1, 0),
        ],
    ];
    for p in paths {
        assert_eq!(path_to_vec(encode_path(&p, 4), 4), p);
    }
    let small = vec![(1, 0), (0, 1), (1, 1)];
    assert_eq!(path_to_vec(encode_path(&small, 2), 2), small);
}

#[test]
fn path_packing_uses_flag_and_index() {
    // cell 5 then cell 6 on a 4-wide grid: (16 | 5) << 5 | 16 | 6
    assert_eq!(encode_path(&[(1, 1), (1, 2)], 4), ((16 | 5) << 5) | 16 | 6);
    assert_eq!(path_to_vec(0, 4), Vec::<(u8, u8)>::new());
    // a clear flag bit ends the path
    assert_eq!(path_to_vec(((16 | 5) << 5) | 6, 4), Vec::<(u8, u8)>::new());
}

#[test]
fn path_buffer_is_right_aligned() {
    let mut buf = [(9u8, 9u8); 12];
    let p = encode_path(&[(0, 1), (1, 1)], 4);
    let start = path_to_vec_buffered(p, &mut buf, 4);
    assert_eq!(start, 10);
    assert_eq!(buf[10], (0, 1));
    assert_eq!(buf[11], (1, 1));
    assert_eq!(buf[9], (9, 9));
}

#[test]
fn text_words_encode() {
    assert_eq!(encode_str("AT"), Some(encode_word(&[1, 20])));
    assert_eq!(encode_str(""), Some(0));
    assert_eq!(encode_str("at"), None);
    assert_eq!(encode_str("A T"), None);
    assert_eq!(encode_str("ABCDEFGHIJKLM"), None);
    assert_eq!(encode_str("ÄB"), None);
    let longest = "ABCDEFGHIJKL";
    assert_eq!(parse_to_str(encode_str(longest).unwrap()), longest);
    assert_eq!(parse_to_str(encode_str("QUIZ").unwrap()), "QUIZ");
}
