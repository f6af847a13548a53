use ruzzle::board::{get_points, Board};
use ruzzle::codec::{decode_word, encode_path, encode_word, path_to_vec};
use ruzzle::grid::gen_graph;
use ruzzle::lexicon::{Lexicon, WordSet};
use ruzzle::report::{format_entries, format_entry, solve, sort_entries};
use ruzzle::search::{dfs, WordEntry};

/// A 4 by 4 board of the letters A..P with every point value 1.
fn alphabet_board(mults: Vec<u8>) -> Board {
    Board::new(4, (1..=16).collect(), vec![1; 16], mults)
}

fn no_pruning(words: &[u64]) -> Lexicon {
    Lexicon::with_window(WordSet::from_words(words), WordSet::new(), 1, 0)
}

fn letters_of(b: &Board, cells: &[usize]) -> Vec<u8> {
    cells.iter().map(|&c| b.letters[c]).collect()
}

fn coords(cells: &[usize], n: usize) -> Vec<(u8, u8)> {
    cells.iter().map(|&c| ((c / n) as u8, (c % n) as u8)).collect()
}

fn sorted(mut v: Vec<WordEntry>) -> Vec<WordEntry> {
    v.sort_by_key(|e| (e.word, e.score, e.path));
    v
}

#[test]
fn two_letter_word_scores_its_points() {
    // "AT" with A = 1 point and T = 1 point, no multipliers
    let b = Board::new(2, vec![1, 20, 3, 4], vec![1, 1, 4, 2], vec![1, 1, 1, 1]);
    let at = encode_word(&[1, 20]);
    let found = dfs(&b, &no_pruning(&[at]), &gen_graph(2));
    assert_eq!(found.len(), 1);
    assert_eq!(found[0].word, at);
    assert_eq!(found[0].score, 2);
    assert_eq!(path_to_vec(found[0].path, 2), vec![(0, 0), (0, 1)]);
}

#[test]
fn five_letter_word_gets_length_bonus() {
    let b = alphabet_board(vec![1; 16]);
    let cells = [0, 1, 2, 3, 7];
    let w = encode_word(&letters_of(&b, &cells));
    let found = dfs(&b, &no_pruning(&[w]), &gen_graph(4));
    assert_eq!(found.len(), 1);
    assert_eq!(found[0].score, 5 + 5);
    assert_eq!(found[0].path, encode_path(&coords(&cells, 4), 4));
}

#[test]
fn twelve_letter_word_gets_flat_bonus() {
    let cells = [0, 1, 2, 3, 7, 6, 5, 4, 8, 9, 10, 11];
    let b = alphabet_board(vec![1; 16]);
    let w = encode_word(&letters_of(&b, &cells));
    let found = dfs(&b, &no_pruning(&[w]), &gen_graph(4));
    assert_eq!(found.len(), 1);
    assert_eq!(found[0].score, 12 + 40);
    assert_eq!(found[0].path, encode_path(&coords(&cells, 4), 4));
    assert_eq!(decode_word(found[0].word).len(), 12);

    // a triple-word cell on the path, even the last one, triples the point sum
    let mut mults = vec![1; 16];
    mults[11] = 3;
    let b3 = alphabet_board(mults);
    let found = dfs(&b3, &no_pruning(&[w]), &gen_graph(4));
    assert_eq!(found[0].score, 12 * 3 + 40);
}

#[test]
fn triple_word_cell_applies_once() {
    let mut mults = vec![1; 16];
    mults[1] = 3;
    let b = alphabet_board(mults);
    let cells = [0, 1, 2];
    let w = encode_word(&letters_of(&b, &cells));
    let found = dfs(&b, &no_pruning(&[w]), &gen_graph(4));
    assert_eq!(found.len(), 1);
    assert_eq!(found[0].score, 3 * 3);
}

#[test]
fn multipliers_compound() {
    let mut mults = vec![1; 16];
    mults[1] = 2;
    mults[6] = 3;
    let b = alphabet_board(mults);
    let cells = [0, 1, 2, 6, 7];
    let w = encode_word(&letters_of(&b, &cells));
    let found = dfs(&b, &no_pruning(&[w]), &gen_graph(4));
    assert_eq!(found.len(), 1);
    assert_eq!(found[0].score, 5 * 6 + 5);
}

fn abcd_board() -> Board {
    let letters = vec![1, 2, 3, 4];
    let points = get_points(&letters, &vec![29; 4]);
    Board::new(2, letters, points, vec![1; 4])
}

#[test]
fn two_by_two_scenario() {
    let b = abcd_board();
    let ab = encode_word(&[1, 2]);
    let ad = encode_word(&[1, 4]);
    let abc = encode_word(&[1, 2, 3]);
    let a = encode_word(&[1]);
    let lex = Lexicon::new(WordSet::from_words(&[ab, ad, abc]), WordSet::from_words(&[a, ab, ad]));
    let found = sorted(dfs(&b, &lex, &gen_graph(2)));
    let expected = sorted(vec![
        WordEntry { word: ab, score: 1 + 4, path: encode_path(&[(0, 0), (0, 1)], 2) },
        WordEntry { word: ad, score: 1 + 2, path: encode_path(&[(0, 0), (1, 1)], 2) },
    ]);
    assert_eq!(found, expected);

    // with "ABC" in the prefix set the three-letter word is found too
    let lex = Lexicon::new(
        WordSet::from_words(&[ab, ad, abc]),
        WordSet::from_words(&[a, ab, ad, abc]),
    );
    let found = dfs(&b, &lex, &gen_graph(2));
    assert_eq!(found.len(), 3);
    let e = found.iter().find(|e| e.word == abc).unwrap();
    assert_eq!(e.score, 1 + 4 + 4);
    assert_eq!(path_to_vec(e.path, 2), vec![(0, 0), (0, 1), (1, 0)]);
}

#[test]
fn one_letter_words_are_never_matched() {
    let b = abcd_board();
    let a = encode_word(&[1]);
    let found = dfs(&b, &no_pruning(&[a]), &gen_graph(2));
    assert!(found.is_empty());
}

#[test]
fn no_words_gives_no_results() {
    let b = alphabet_board(vec![1; 16]);
    assert!(dfs(&b, &no_pruning(&[]), &gen_graph(4)).is_empty());
}

#[test]
fn pruning_with_all_prefixes_keeps_every_word() {
    // letters with repeats, so that several paths spell the same word
    let letters: Vec<u8> = vec![1, 2, 1, 3, 2, 1, 3, 2, 3, 1, 2, 1, 2, 3, 1, 2];
    let points = get_points(&letters, &vec![29; 16]);
    let b = Board::new(4, letters, points, vec![1; 16]);
    let words: Vec<Vec<u8>> = vec![
        vec![1, 2],
        vec![2, 1, 3],
        vec![1, 2, 1, 3, 2],
        vec![3, 2, 1, 2, 3, 1, 2, 1, 3],
        vec![1, 2, 3, 1, 2, 3],
    ];
    let mut prefixes: Vec<u64> = Vec::new();
    for w in &words {
        for k in 1..=w.len() {
            prefixes.push(encode_word(&w[..k]));
        }
    }
    let packed: Vec<u64> = words.iter().map(|w| encode_word(w)).collect();
    let pruned = Lexicon::new(WordSet::from_words(&packed), WordSet::from_words(&prefixes));
    let unpruned = Lexicon::with_window(WordSet::from_words(&packed), WordSet::from_words(&prefixes), 1, 0);
    let g = gen_graph(4);
    let with = sorted(dfs(&b, &pruned, &g));
    let without = sorted(dfs(&b, &unpruned, &g));
    assert!(!with.is_empty());
    assert_eq!(with, without);
}

#[test]
fn result_paths_are_simple_and_adjacent() {
    let letters: Vec<u8> = vec![1, 2, 1, 3, 2, 1, 3, 2, 3, 1, 2, 1, 2, 3, 1, 2];
    let b = Board::new(4, letters, vec![1; 16], vec![1; 16]);
    let words: Vec<u64> = vec![
        encode_word(&[1, 2]),
        encode_word(&[1, 2, 1]),
        encode_word(&[2, 1, 2, 1, 2]),
        encode_word(&[1, 2, 3, 2, 1, 2, 3]),
    ];
    let found = dfs(&b, &no_pruning(&words), &gen_graph(4));
    assert!(found.len() > 4);
    for e in &found {
        let p = path_to_vec(e.path, 4);
        assert!(p.len() >= 2 && p.len() <= 16);
        for i in 0..p.len() {
            for j in i + 1..p.len() {
                assert_ne!(p[i], p[j]);
            }
        }
        for w in p.windows(2) {
            let dr = (w[0].0 as i32 - w[1].0 as i32).abs();
            let dc = (w[0].1 as i32 - w[1].1 as i32).abs();
            assert!(dr <= 1 && dc <= 1);
        }
        let spelled: Vec<u8> = p.iter().map(|&(r, c)| b.letters[r as usize * 4 + c as usize]).collect();
        assert_eq!(encode_word(&spelled), e.word);
    }
}

#[test]
fn search_is_deterministic() {
    let letters: Vec<u8> = vec![1, 2, 1, 3, 2, 1, 3, 2, 3, 1, 2, 1, 2, 3, 1, 2];
    let b = Board::new(4, letters, vec![2; 16], vec![1, 2, 1, 3, 1, 1, 1, 1, 2, 1, 1, 1, 1, 1, 3, 1]);
    let words = vec![encode_word(&[1, 2]), encode_word(&[2, 1, 3, 2]), encode_word(&[3, 2, 1])];
    let first = sorted(dfs(&b, &no_pruning(&words), &gen_graph(4)));
    let second = sorted(dfs(&b, &no_pruning(&words), &gen_graph(4)));
    assert!(!first.is_empty());
    assert_eq!(first, second);
}

#[test]
fn sorting_by_descending_score() {
    let mut v = vec![
        WordEntry { word: 1, score: 3, path: 10 },
        WordEntry { word: 2, score: 9, path: 20 },
        WordEntry { word: 3, score: 3, path: 30 },
        WordEntry { word: 4, score: 12, path: 40 },
    ];
    sort_entries(&mut v);
    let order: Vec<u64> = v.iter().map(|e| e.word).collect();
    assert_eq!(order, vec![4, 2, 1, 3]);
    let mut empty: Vec<WordEntry> = Vec::new();
    sort_entries(&mut empty);
    assert!(empty.is_empty());
}

#[test]
fn entry_line_text() {
    let e = WordEntry {
        word: encode_word(&[1, 2]),
        score: 105,
        path: encode_path(&[(0, 0), (1, 1)], 2),
    };
    let mut out: Vec<u8> = b"> ".to_vec();
    format_entry(&mut out, &e, 2);
    assert_eq!(String::from_utf8(out).unwrap(), "> AB, 105, [(0, 0), (1, 1)]\n");
    let text = format_entries(&[e, WordEntry { word: 1, score: 0, path: encode_path(&[(1, 0)], 2) }], 2);
    assert_eq!(String::from_utf8(text).unwrap(), "AB, 105, [(0, 0), (1, 1)]\nA, 0, [(1, 0)]\n");
    let wide = WordEntry { word: 1, score: 7, path: encode_path(&[(3, 2), (2, 3)], 4) };
    assert_eq!(String::from_utf8(format_entries(&[wide], 4)).unwrap(), "A, 7, [(3, 2), (2, 3)]\n");
}

#[test]
fn solve_orders_results() {
    let b = abcd_board();
    let words: Vec<u64> = vec![
        encode_word(&[1, 2]),
        encode_word(&[1, 4]),
        encode_word(&[2, 3, 4]),
        encode_word(&[4, 3]),
    ];
    let lex = no_pruning(&words);
    let results = solve(&b, &lex);
    assert_eq!(results.len(), 4);
    for w in results.windows(2) {
        assert!(w[0].score >= w[1].score);
    }
    assert_eq!(results[0].word, encode_word(&[2, 3, 4]));
    assert_eq!(results[0].score, 4 + 4 + 2);
}
