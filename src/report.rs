//! The result list: ordering by score, and the text line of each entry.
use vstd::prelude::*;
use crate::board::Board;
use crate::codec::{
    coords_of, parse_to_str_buf, path_to_vec, symbol_bytes, unpack_path, unpack_word, MAX_WORD_LEN,
};
use crate::grid::{gen_graph, grid_graph, lemma_grid_graph_is_valid};
use crate::lexicon::Lexicon;
use crate::search::{dfs, found_entries, WordEntry};

verus! {

broadcast use vstd::seq_lib::group_to_multiset_ensures;

/// Scores never increase along `s`.
pub open spec fn sorted_by_score(s: Seq<WordEntry>) -> bool {
    forall|i: int, j: int| 0 <= i < j < s.len() ==> s[i].score >= s[j].score
}

/// Orders the entries by descending score.
pub fn sort_entries(entries: &mut Vec<WordEntry>)
    ensures
        final(entries)@.to_multiset() == old(entries)@.to_multiset(),
        sorted_by_score(final(entries)@),
{
    let mut out: Vec<WordEntry> = Vec::new();
    let mut i: usize = 0;
    while i < entries.len()
        invariant
            i <= entries@.len(),
            out@.to_multiset() == entries@.take(i as int).to_multiset(),
            sorted_by_score(out@),
        decreases entries@.len() - i,
    {
        let e = entries[i];
        let mut pos: usize = 0;
        while pos < out.len() && out[pos].score >= e.score
            invariant
                pos <= out@.len(),
                forall|k: int| 0 <= k < pos ==> out@[k].score >= e.score,
            decreases out@.len() - pos,
        {
            pos += 1;
        }
        let ghost before = out@;
        out.insert(pos, e);
        proof {
            assert(pos < before.len() ==> before[pos as int].score < e.score);
            assert forall|a: int, b: int| 0 <= a < b < out@.len() implies out@[a].score >= out@[b].score by {
                if b < pos {
                    assert(out@[a] == before[a] && out@[b] == before[b]);
                } else if b == pos {
                    assert(out@[a] == before[a]);
                } else if a < pos {
                    assert(out@[a] == before[a] && out@[b] == before[b - 1]);
                } else if a == pos {
                    assert(out@[b] == before[b - 1]);
                    assert(before[b - 1].score <= before[pos as int].score);
                } else {
                    assert(out@[a] == before[a - 1] && out@[b] == before[b - 1]);
                }
            }
            assert(entries@.take(i + 1) =~= entries@.take(i as int).push(e));
        }
        i += 1;
    }
    proof {
        assert(entries@.take(i as int) =~= entries@);
    }
    *entries = out;
}

/// The decimal digits of `v`, most significant first.
pub open spec fn decimal(v: nat) -> Seq<u8>
    decreases v,
{
    if v < 10 {
        seq![(48 + v) as u8]
    } else {
        decimal(v / 10).push((48 + v % 10) as u8)
    }
}

/// Appends the decimal digits of `v`.
fn push_decimal(out: &mut Vec<u8>, v: u64)
    ensures
        final(out)@ == old(out)@ + decimal(v as nat),
    decreases v,
{
    if v < 10 {
        out.push(48 + v as u8);
    } else {
        push_decimal(out, v / 10);
        out.push(48 + (v % 10) as u8);
        proof {
            assert(old(out)@ + decimal((v / 10) as nat) + seq![(48 + v % 10) as u8] =~= old(out)@
                + decimal(v as nat));
        }
    }
}

/// `(r, c)` written as text.
pub open spec fn coord_text(rc: (u8, u8)) -> Seq<u8> {
    seq![40u8] + decimal(rc.0 as nat) + seq![44u8, 32u8] + decimal(rc.1 as nat) + seq![41u8]
}

/// The positions of `s` as text, separated by a comma and a space.
pub open spec fn coords_text(s: Seq<(u8, u8)>) -> Seq<u8>
    decreases s.len(),
{
    if s.len() == 0 {
        Seq::empty()
    } else if s.len() == 1 {
        coord_text(s[0])
    } else {
        coords_text(s.drop_last()) + seq![44u8, 32u8] + coord_text(s.last())
    }
}

/// The text line of an entry: word, score and path, then a line break.
pub open spec fn entry_line(e: WordEntry, n: nat) -> Seq<u8> {
    symbol_bytes(unpack_word(e.word as nat, MAX_WORD_LEN as nat)) + seq![44u8, 32u8] + decimal(
        e.score as nat,
    ) + seq![44u8, 32u8, 91u8] + coords_text(coords_of(unpack_path(e.path as nat), n)) + seq![
        93u8,
        10u8,
    ]
}

/// Appends the text line of `e` for a grid `n` cells wide:
/// `WORD, score, [(r, c), (r, c), ...]` and a line break.
pub fn format_entry(out: &mut Vec<u8>, e: &WordEntry, n: usize)
    requires
        1 <= n,
    ensures
        final(out)@ == old(out)@ + entry_line(*e, n as nat),
{
    let mut word_buf = [0u8; 12];
    let max_bit = parse_to_str_buf(e.word, &mut word_buf);
    let mut i: usize = max_bit;
    while i < 12
        invariant
            max_bit <= i <= 12,
            word_buf@.len() == 12,
            word_buf@.subrange(max_bit as int, 12) == symbol_bytes(
                unpack_word(e.word as nat, MAX_WORD_LEN as nat),
            ),
            out@ == old(out)@ + word_buf@.subrange(max_bit as int, i as int),
        decreases 12 - i,
    {
        out.push(word_buf[i]);
        i += 1;
        assert(out@ =~= old(out)@ + word_buf@.subrange(max_bit as int, i as int));
    }
    let ghost after_word = out@;
    out.push(44);
    out.push(32);
    push_decimal(out, e.score);
    out.push(44);
    out.push(32);
    out.push(91);
    let ghost after_open = out@;
    let coords = path_to_vec(e.path, n);
    let mut k: usize = 0;
    while k < coords.len()
        invariant
            k <= coords@.len(),
            out@ == after_open + coords_text(coords@.take(k as int)),
        decreases coords@.len() - k,
    {
        let ghost prev = out@;
        if k > 0 {
            out.push(44);
            out.push(32);
        }
        let (r, c) = coords[k];
        out.push(40);
        push_decimal(out, r as u64);
        out.push(44);
        out.push(32);
        push_decimal(out, c as u64);
        out.push(41);
        proof {
            let t = coords@.take(k + 1);
            assert(t.drop_last() =~= coords@.take(k as int));
            assert(t.last() == (r, c));
            if k == 0 {
                assert(t.len() == 1);
                assert(out@ =~= after_open + coords_text(t));
            } else {
                assert(out@ =~= after_open + coords_text(t));
            }
        }
        k += 1;
    }
    out.push(93);
    out.push(10);
    proof {
        assert(coords@.take(k as int) =~= coords@);
        assert(out@ =~= old(out)@ + entry_line(*e, n as nat));
    }
}

/// The text of all entries, one line each, in order.
pub open spec fn entries_text(s: Seq<WordEntry>, n: nat) -> Seq<u8>
    decreases s.len(),
{
    if s.len() == 0 {
        Seq::empty()
    } else {
        entries_text(s.drop_last(), n) + entry_line(s.last(), n)
    }
}

/// The text of all entries, one line each, in order.
pub fn format_entries(entries: &[WordEntry], n: usize) -> (text: Vec<u8>)
    requires
        1 <= n,
    ensures
        text@ == entries_text(entries@, n as nat),
{
    let mut text: Vec<u8> = Vec::new();
    let mut i: usize = 0;
    while i < entries.len()
        invariant
            1 <= n,
            i <= entries@.len(),
            text@ == entries_text(entries@.take(i as int), n as nat),
        decreases entries@.len() - i,
    {
        format_entry(&mut text, &entries[i], n);
        proof {
            assert(entries@.take(i + 1).drop_last() =~= entries@.take(i as int));
        }
        i += 1;
    }
    proof {
        assert(entries@.take(i as int) =~= entries@);
    }
    text
}

/// Solves the board: searches the grid graph of the board and orders the
/// entries by descending score. Every found entry comes out once.
pub fn solve(board: &Board, lexicon: &Lexicon) -> (results: Vec<WordEntry>)
    requires
        board.wf(),
    ensures
        results@.to_set() == found_entries(board, lexicon@, grid_graph(board.n as int)),
        results@.no_duplicates(),
        sorted_by_score(results@),
{
    let graph = gen_graph(board.n);
    proof {
        lemma_grid_graph_is_valid(board.n as int);
    }
    let mut results = dfs(board, lexicon, &graph);
    let ghost found = results@;
    sort_entries(&mut results);
    proof {
        found.lemma_multiset_has_no_duplicates();
        assert forall|x: WordEntry| results@.to_multiset().contains(x) implies results@.to_multiset().count(
            x,
        ) == 1 by {}
        results@.lemma_multiset_has_no_duplicates_conv();
        assert(results@.to_set() =~= found.to_set()) by {
            assert forall|x: WordEntry| results@.to_set().contains(x) == found.to_set().contains(x) by {
                vstd::seq_lib::to_multiset_contains(results@, x);
                vstd::seq_lib::to_multiset_contains(found, x);
            }
        }
    }
    results
}

} // verus!
