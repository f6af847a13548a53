//! The depth-first search: every simple path of the board whose letters form
//! a dictionary word, found with an explicit stack of partial paths and
//! scored.
use vstd::prelude::*;
use crate::board::Board;
use crate::codec::{
    cells_in_range, codes_in_range, lemma_pack_path_bound, lemma_pack_path_injective,
    lemma_pack_word_bound, lemma_pow32_mono, pack_path, pack_word, unpack_path, MAX_WORD_LEN,
    PATH_FLAG,
};
use crate::grid::{
    adjacent, graph_view, grid_graph, grid_neighbors, lemma_grid_neighbors_adjacent, valid_graph,
};
use crate::lexicon::Lexicon;

verus! {

/// Shortest length at which a path is matched against the dictionary.
pub const MIN_WORD_LEN: usize = 2;

/// Bonus for a word of the greatest length.
pub const MAX_LEN_BONUS: u64 = 40;

/// A found word: its packed letters, its score and its packed path.
#[derive(Clone, Copy, PartialEq, Eq, Structural, Debug)]
pub struct WordEntry {
    pub word: u64,
    pub score: u64,
    pub path: u64,
}

/// What a lexicon holds: the dictionary, the prefix set and the pruning
/// window.
pub ghost struct LexiconModel {
    pub words: Set<u64>,
    pub prefixes: Set<u64>,
    pub lower: int,
    pub upper: int,
}

impl View for Lexicon {
    type V = LexiconModel;

    open spec fn view(&self) -> LexiconModel {
        LexiconModel {
            words: self.dictionary@,
            prefixes: self.prefixes@,
            lower: self.prefix_lower as int,
            upper: self.prefix_upper as int,
        }
    }
}

/// The letter codes along the path `p`.
pub open spec fn word_of(letters: Seq<u8>, p: Seq<u8>) -> Seq<u8> {
    p.map_values(|c: u8| letters[c as int])
}

/// The packed word spelled by the path `p`.
pub open spec fn packed_word(letters: Seq<u8>, p: Seq<u8>) -> u64 {
    pack_word(word_of(letters, p)) as u64
}

/// Sum of the point values of the cells of `p`.
pub open spec fn points_of(points: Seq<u8>, p: Seq<u8>) -> nat
    decreases p.len(),
{
    if p.len() == 0 {
        0
    } else {
        (points_of(points, p.drop_last()) + points[p.last() as int]) as nat
    }
}

/// Product of the word multipliers of the cells of `p`.
pub open spec fn mult_of(mults: Seq<u8>, p: Seq<u8>) -> nat
    decreases p.len(),
{
    if p.len() == 0 {
        1
    } else {
        (mult_of(mults, p.drop_last()) * mults[p.last() as int]) as nat
    }
}

/// Five points for each letter past the fourth.
pub open spec fn length_bonus(len: nat) -> nat {
    if len > 4 {
        5 * (len - 4) as nat
    } else {
        0
    }
}

/// Score of the word along `p`: the point sum times the multiplier product,
/// plus the length bonus.
pub open spec fn path_score(b: &Board, p: Seq<u8>) -> nat {
    points_of(b.points@, p) * mult_of(b.word_mults@, p) + length_bonus(p.len())
}

/// `p` is a nonempty path of distinct cells, each step along an edge of `g`.
pub open spec fn is_simple_path(g: Seq<Seq<u8>>, cells: nat, p: Seq<u8>) -> bool {
    &&& p.len() >= 1
    &&& p.no_duplicates()
    &&& forall|i: int| 0 <= i < p.len() ==> #[trigger] p[i] < cells
    &&& forall|i: int| 0 <= i < p.len() - 1 ==> #[trigger] g[p[i] as int].contains(p[i + 1])
}

/// Every prefix of `p` of at least two letters whose length lies in the
/// pruning window is in the prefix set.
pub open spec fn passes_pruning(m: LexiconModel, letters: Seq<u8>, p: Seq<u8>) -> bool {
    forall|k: int|
        2 <= k <= p.len() && m.lower <= k <= m.upper ==> m.prefixes.contains(
            #[trigger] packed_word(letters, p.take(k)),
        )
}

/// `p` is reported by the search: a simple path of two to twelve cells that
/// survives pruning and spells a dictionary word.
pub open spec fn is_found(b: &Board, m: LexiconModel, g: Seq<Seq<u8>>, p: Seq<u8>) -> bool {
    &&& is_simple_path(g, b.cells(), p)
    &&& MIN_WORD_LEN <= p.len() <= MAX_WORD_LEN
    &&& passes_pruning(m, b.letters@, p)
    &&& m.words.contains(packed_word(b.letters@, p))
}

/// The entry reported for the path `p`.
pub open spec fn entry_of(b: &Board, p: Seq<u8>) -> WordEntry {
    WordEntry {
        word: packed_word(b.letters@, p),
        score: path_score(b, p) as u64,
        path: pack_path(p) as u64,
    }
}

/// The entries of all found paths.
pub open spec fn found_entries(b: &Board, m: LexiconModel, g: Seq<Seq<u8>>) -> Set<WordEntry> {
    Set::new(|e: WordEntry| exists|p: Seq<u8>| is_found(b, m, g, p) && e == entry_of(b, p))
}

/// `a` is a prefix of `q`.
pub open spec fn is_prefix(a: Seq<u8>, q: Seq<u8>) -> bool {
    a.len() <= q.len() && q.take(a.len() as int) == a
}

/// `3` raised to `k`.
pub open spec fn pow3(k: nat) -> nat
    decreases k,
{
    if k == 0 {
        1
    } else {
        3 * pow3((k - 1) as nat)
    }
}

/// `9` raised to `k`.
spec fn pow9(k: nat) -> nat
    decreases k,
{
    if k == 0 {
        1
    } else {
        9 * pow9((k - 1) as nat)
    }
}

/// Bit `c` of `x` is set.
pub open spec fn bit_set(x: u64, c: u64) -> bool {
    (x >> c) & 1 == 1
}

/// A partial path on the stack: packed path and word, point sum, multiplier
/// product, length and the mask of the cells on it.
#[derive(Clone, Copy)]
struct Frame {
    path: u64,
    word: u64,
    pts: u64,
    mult: u64,
    len: usize,
    visited: u64,
}

spec fn frame_ok(f: Frame, p: Seq<u8>, b: &Board, m: LexiconModel, g: Seq<Seq<u8>>) -> bool {
    &&& is_simple_path(g, b.cells(), p)
    &&& 1 <= p.len() < MAX_WORD_LEN
    &&& passes_pruning(m, b.letters@, p)
    &&& f.path == pack_path(p)
    &&& f.word == pack_word(word_of(b.letters@, p))
    &&& f.pts == points_of(b.points@, p)
    &&& f.mult == mult_of(b.word_mults@, p)
    &&& f.len == p.len()
    &&& forall|c: u8| #![trigger p.contains(c)] c < 16 ==> (bit_set(f.visited, c as u64) <==> p.contains(c))
}

/// Weight of a frame of length `len` in the termination measure.
spec fn frame_weight(len: nat) -> nat {
    pow9((11 - len) as nat)
}

spec fn stack_weight(gs: Seq<Seq<u8>>) -> nat
    decreases gs.len(),
{
    if gs.len() == 0 {
        0
    } else {
        stack_weight(gs.drop_last()) + frame_weight(gs.last().len())
    }
}

spec fn covered(gs: Seq<Seq<u8>>, rs: Seq<Seq<u8>>, p: Seq<u8>) -> bool {
    rs.contains(p) || exists|i: int| 0 <= i < gs.len() && is_prefix(#[trigger] gs[i], p)
}

proof fn lemma_bit_or(x: u64, a: u64, c: u64)
    requires
        a < 64,
        c < 64,
    ensures
        bit_set(x | (1u64 << a), c) == (bit_set(x, c) || a == c),
{
    assert(((x | (1u64 << a)) >> c) & 1 == 1 <==> ((x >> c) & 1 == 1 || a == c)) by (bit_vector)
        requires
            a < 64,
            c < 64,
    ;
}

proof fn lemma_bit_zero(c: u64)
    requires
        c < 64,
    ensures
        !bit_set(0, c),
{
    assert((0u64 >> c) & 1 != 1) by (bit_vector);
}

proof fn lemma_shift_or_flag(acc: u64, v: u64)
    requires
        acc < 0x80_0000_0000_0000,
        v < 16,
    ensures
        ((acc << 5) | PATH_FLAG) | v == acc * 32 + 16 + v,
        (acc << 5) | v == acc * 32 + v,
        ((acc * 32 + 16 + v) as u64) & 15 == v,
{
    assert(((acc << 5) | 16u64) | v == acc * 32 + 16 + v) by (bit_vector)
        requires
            acc < 0x80_0000_0000_0000,
            v < 16,
    ;
    assert((acc << 5) | v == acc * 32 + v) by (bit_vector)
        requires
            acc < 0x80_0000_0000_0000,
            v < 16,
    ;
    assert(((acc * 32 + 16 + v) as u64) & 15 == v) by (bit_vector)
        requires
            acc < 0x80_0000_0000_0000,
            v < 16,
    ;
}

proof fn lemma_word_shift(acc: u64, v: u64)
    requires
        acc < 0x80_0000_0000_0000,
        v < 32,
    ensures
        (acc << 5) | v == acc * 32 + v,
{
    assert((acc << 5) | v == acc * 32 + v) by (bit_vector)
        requires
            acc < 0x80_0000_0000_0000,
            v < 32,
    ;
}

proof fn lemma_path_last(p: Seq<u8>)
    requires
        p.len() >= 1,
        cells_in_range(p),
        p.len() <= 11,
    ensures
        pack_path(p) < 0x80_0000_0000_0000,
        (pack_path(p) as u64) & 15 == p.last(),
{
    lemma_pack_path_bound(p);
    lemma_pow32_mono(p.len(), 11);
    crate::codec::lemma_pow32_values();
    let a = pack_path(p.drop_last());
    lemma_pack_path_bound(p.drop_last());
    assert(cells_in_range(p.drop_last()));
    lemma_pow32_mono((p.len() - 1) as nat, 11);
    lemma_shift_or_flag(a as u64, p.last() as u64);
}

proof fn lemma_pow3_mono(a: nat, b: nat)
    requires
        a <= b,
    ensures
        pow3(a) <= pow3(b),
    decreases b,
{
    if a < b {
        lemma_pow3_mono(a, (b - 1) as nat);
    }
}

/// Bounds of the sums and products along a path of the board.
proof fn lemma_path_sums(b: &Board, p: Seq<u8>)
    requires
        b.wf(),
        forall|i: int| 0 <= i < p.len() ==> #[trigger] p[i] < b.cells(),
    ensures
        points_of(b.points@, p) <= 255 * p.len(),
        1 <= mult_of(b.word_mults@, p) <= pow3(p.len()),
    decreases p.len(),
{
    if p.len() > 0 {
        let t = p.drop_last();
        assert forall|i: int| 0 <= i < t.len() implies #[trigger] t[i] < b.cells() by {
            assert(t[i] == p[i]);
        }
        lemma_path_sums(b, t);
        assert(p[p.len() - 1] < b.cells());
        let x = mult_of(b.word_mults@, t);
        let y = b.word_mults@[p.last() as int];
        assert(1 <= y <= 3);
        let z = pow3(t.len());
        assert(1 <= x * y <= 3 * z) by (nonlinear_arith)
            requires
                1 <= x <= z,
                1 <= y <= 3,
        ;
    }
}

proof fn lemma_score_fits(b: &Board, p: Seq<u8>)
    requires
        b.wf(),
        p.len() <= MAX_WORD_LEN,
        forall|i: int| 0 <= i < p.len() ==> #[trigger] p[i] < b.cells(),
    ensures
        points_of(b.points@, p) * mult_of(b.word_mults@, p) + 60 < 0x1_0000_0000,
        points_of(b.points@, p) <= 255 * 12,
        mult_of(b.word_mults@, p) <= 531441,
{
    lemma_path_sums(b, p);
    lemma_pow3_mono(p.len(), 12);
    assert(pow3(12) == 531441) by {
        reveal_with_fuel(pow3, 13);
    }
    let x = points_of(b.points@, p);
    let y = mult_of(b.word_mults@, p);
    assert(x * y <= 3060 * 531441) by (nonlinear_arith)
        requires
            x <= 3060,
            y <= 531441,
    ;
}

proof fn lemma_word_of_push(letters: Seq<u8>, p: Seq<u8>, v: u8)
    ensures
        word_of(letters, p.push(v)) == word_of(letters, p).push(letters[v as int]),
        p.push(v).drop_last() == p,
{
    assert(word_of(letters, p.push(v)) =~= word_of(letters, p).push(letters[v as int]));
    assert(p.push(v).drop_last() =~= p);
}

proof fn lemma_word_codes(b: &Board, p: Seq<u8>)
    requires
        b.wf(),
        forall|i: int| 0 <= i < p.len() ==> #[trigger] p[i] < b.cells(),
    ensures
        codes_in_range(word_of(b.letters@, p)),
{
    assert forall|i: int| 0 <= i < word_of(b.letters@, p).len() implies 1 <= #[trigger] word_of(
        b.letters@,
        p,
    )[i] < 32 by {
        assert(p[i] < b.cells());
    }
}

proof fn lemma_prefix_of_push(a: Seq<u8>, fp: Seq<u8>, v: u8)
    requires
        !is_prefix(a, fp),
        !is_prefix(fp, a),
    ensures
        !is_prefix(a, fp.push(v)),
        !is_prefix(fp.push(v), a),
{
    let c = fp.push(v);
    if is_prefix(c, a) {
        assert(a.take(fp.len() as int) =~= c.take(fp.len() as int));
        assert(c.take(fp.len() as int) =~= fp);
    }
    if is_prefix(a, c) {
        if a.len() <= fp.len() {
            assert(fp.take(a.len() as int) =~= c.take(a.len() as int));
        } else {
            assert(c.take(a.len() as int) =~= c);
            assert(a.take(fp.len() as int) =~= fp);
        }
    }
}

proof fn lemma_push_prefix(fp: Seq<u8>, v: u8, q: Seq<u8>)
    requires
        is_prefix(fp.push(v), q),
    ensures
        is_prefix(fp, q),
{
    let c = fp.push(v);
    assert(q.take(c.len() as int) == c);
    assert(q.take(fp.len() as int) =~= q.take(c.len() as int).take(fp.len() as int));
    assert(c.take(fp.len() as int) =~= fp);
}

proof fn lemma_siblings(fp: Seq<u8>, v: u8, x: u8)
    requires
        v != x,
    ensures
        !is_prefix(fp.push(v), fp.push(x)),
        !is_prefix(fp.push(x), fp.push(v)),
        fp.push(v) != fp.push(x),
{
    assert(fp.push(x).take(fp.len() + 1int) =~= fp.push(x));
    assert(fp.push(v).take(fp.len() + 1int) =~= fp.push(v));
    assert(fp.push(v)[fp.len() as int] == v);
    assert(fp.push(x)[fp.len() as int] == x);
}

proof fn lemma_pow9_pos(k: nat)
    ensures
        pow9(k) >= 1,
    decreases k,
{
    if k > 0 {
        lemma_pow9_pos((k - 1) as nat);
    }
}

proof fn lemma_stack_weight_push(gs: Seq<Seq<u8>>, c: Seq<u8>)
    ensures
        stack_weight(gs.push(c)) == stack_weight(gs) + frame_weight(c.len()),
{
    assert(gs.push(c).drop_last() =~= gs);
}

/// A path of one more cell than `fp` that starts with `fp` is `fp` with its
/// last cell pushed.
proof fn lemma_one_longer(fp: Seq<u8>, q: Seq<u8>)
    requires
        is_prefix(fp, q),
        q.len() == fp.len() + 1,
    ensures
        q == fp.push(q.last()),
{
    assert(q =~= fp.push(q.last())) by {
        assert forall|i: int| 0 <= i < fp.len() implies q[i] == fp[i] by {
            assert(q.take(fp.len() as int)[i] == q[i]);
        }
    }
}

/// What a found path that extends `fp` by the cell `v` tells about the child
/// `fp.push(v)`.
proof fn lemma_extension(b: &Board, m: LexiconModel, g: Seq<Seq<u8>>, fp: Seq<u8>, p: Seq<u8>)
    requires
        is_found(b, m, g, p),
        is_prefix(fp, p),
        fp.len() >= 1,
        p.len() > fp.len(),
    ensures
        !fp.contains(p[fp.len() as int]),
        is_prefix(fp.push(p[fp.len() as int]), p),
        g[fp.last() as int].contains(p[fp.len() as int]),
        m.lower <= fp.len() + 1 <= m.upper ==> m.prefixes.contains(
            packed_word(b.letters@, fp.push(p[fp.len() as int])),
        ),
        fp.len() + 1 == MAX_WORD_LEN ==> p == fp.push(p[fp.len() as int]),
{
    let l = fp.len() as int;
    let v = p[l];
    let c = fp.push(v);
    assert(p.take(l) == fp);
    assert(c =~= p.take(l + 1));
    if fp.contains(v) {
        let i = choose|i: int| 0 <= i < fp.len() && fp[i] == v;
        assert(p[i] == fp[i]);
    }
    assert(fp.last() == p[l - 1]);
    let i = l - 1;
    assert(g[p[i] as int].contains(p[i + 1]));
    assert(c.len() == l + 1);
    assert(p.take(l + 1).take(l + 1) =~= p.take(l + 1));
    if m.lower <= l + 1 <= m.upper {
        assert(m.prefixes.contains(packed_word(b.letters@, p.take(l + 1))));
    }
    if l + 1 == MAX_WORD_LEN {
        assert(p =~= c);
    }
}

proof fn lemma_packed_fits(b: &Board, p: Seq<u8>)
    requires
        b.wf(),
        p.len() <= MAX_WORD_LEN,
        forall|i: int| 0 <= i < p.len() ==> #[trigger] p[i] < b.cells(),
    ensures
        pack_word(word_of(b.letters@, p)) < 0x1000_0000_0000_0000,
        pack_path(p) < 0x1000_0000_0000_0000,
        p.len() < MAX_WORD_LEN ==> pack_word(word_of(b.letters@, p)) < 0x80_0000_0000_0000,
        p.len() < MAX_WORD_LEN ==> pack_path(p) < 0x80_0000_0000_0000,
{
    lemma_word_codes(b, p);
    assert forall|i: int| 0 <= i < word_of(b.letters@, p).len() implies #[trigger] word_of(
        b.letters@,
        p,
    )[i] < 32 by {}
    lemma_pack_word_bound(word_of(b.letters@, p));
    assert(cells_in_range(p)) by {
        assert forall|i: int| 0 <= i < p.len() implies #[trigger] p[i] < 16 by {
            assert(p[i] < b.cells());
            assert(b.cells() <= 16) by (nonlinear_arith)
                requires
                    b.n <= 4,
                    b.cells() == b.n * b.n,
            ;
        }
    }
    lemma_pack_path_bound(p);
    crate::codec::lemma_pow32_values();
    lemma_pow32_mono(p.len(), 12);
    if p.len() < MAX_WORD_LEN {
        lemma_pow32_mono(p.len(), 11);
    }
}

proof fn lemma_contains_push(p: Seq<u8>, v: u8, c: u8)
    ensures
        p.push(v).contains(c) <==> (p.contains(c) || c == v),
{
    if p.contains(c) {
        let i = choose|i: int| 0 <= i < p.len() && p[i] == c;
        assert(p.push(v)[i] == c);
    }
    if c == v {
        assert(p.push(v)[p.len() as int] == v);
    }
    if p.push(v).contains(c) {
        let i = choose|i: int| 0 <= i < p.len() + 1 && p.push(v)[i] == c;
        if i < p.len() {
            assert(p[i] == c);
        }
    }
}

/// The child `fp.push(v)` of a partial path is again a partial path that
/// passes pruning, when `v` is an unvisited neighbour that passes the check.
proof fn lemma_child_path(b: &Board, m: LexiconModel, g: Seq<Seq<u8>>, fp: Seq<u8>, v: u8)
    requires
        b.wf(),
        valid_graph(g, b.cells()),
        is_simple_path(g, b.cells(), fp),
        passes_pruning(m, b.letters@, fp),
        g[fp.last() as int].contains(v),
        !fp.contains(v),
        m.lower <= fp.len() + 1 <= m.upper ==> m.prefixes.contains(
            packed_word(b.letters@, fp.push(v)),
        ),
    ensures
        is_simple_path(g, b.cells(), fp.push(v)),
        passes_pruning(m, b.letters@, fp.push(v)),
{
    let c = fp.push(v);
    let l = fp.len() as int;
    let k = choose|k: int| 0 <= k < g[fp.last() as int].len() && g[fp.last() as int][k] == v;
    assert(fp.last() < b.cells());
    assert(v < b.cells());
    assert(c.no_duplicates()) by {
        assert forall|i: int, j: int| 0 <= i < c.len() && 0 <= j < c.len() && i != j implies c[i]
            != c[j] by {
            if i < l && j < l {
                assert(c[i] == fp[i] && c[j] == fp[j]);
            } else if i < l {
                assert(c[i] == fp[i]);
                assert(fp.contains(fp[i]));
            } else if j < l {
                assert(c[j] == fp[j]);
                assert(fp.contains(fp[j]));
            }
        }
    }
    assert forall|i: int| 0 <= i < c.len() implies #[trigger] c[i] < b.cells() by {
        if i < l {
            assert(c[i] == fp[i]);
        }
    }
    assert forall|i: int| 0 <= i < c.len() - 1 implies #[trigger] g[c[i] as int].contains(c[i + 1]) by {
        if i < l - 1 {
            assert(c[i] == fp[i] && c[i + 1] == fp[i + 1]);
            assert(g[fp[i] as int].contains(fp[i + 1]));
        } else {
            assert(c[i] == fp.last());
            assert(c[i + 1] == v);
        }
    }
    assert(passes_pruning(m, b.letters@, c)) by {
        assert forall|k: int| 2 <= k <= c.len() && m.lower <= k <= m.upper implies m.prefixes.contains(
            #[trigger] packed_word(b.letters@, c.take(k)),
        ) by {
            if k <= l {
                assert(c.take(k) =~= fp.take(k));
            } else {
                assert(c.take(k) =~= c);
            }
        }
    }
}

/// The frame of the child `fp.push(v)`, given the values the search
/// computes for it.
proof fn lemma_child_frame(
    b: &Board,
    m: LexiconModel,
    g: Seq<Seq<u8>>,
    f: Frame,
    fp: Seq<u8>,
    visited: u64,
    v: u8,
    child: Frame,
)
    requires
        b.wf(),
        valid_graph(g, b.cells()),
        frame_ok(f, fp, b, m, g),
        forall|c: u8| #![trigger fp.contains(c)] c < 16 ==> (bit_set(visited, c as u64) <==> fp.contains(c)),
        g[fp.last() as int].contains(v),
        !fp.contains(v),
        fp.len() + 1 < MAX_WORD_LEN,
        m.lower <= fp.len() + 1 <= m.upper ==> m.prefixes.contains(
            packed_word(b.letters@, fp.push(v)),
        ),
        child.path == pack_path(fp) * 32 + 16 + v,
        child.word == pack_word(word_of(b.letters@, fp)) * 32 + b.letters@[v as int],
        child.pts == f.pts + b.points@[v as int],
        child.mult == f.mult * b.word_mults@[v as int],
        child.len == f.len + 1,
        child.visited == visited | (1u64 << (v as u64)),
    ensures
        frame_ok(child, fp.push(v), b, m, g),
{
    let c = fp.push(v);
    lemma_child_path(b, m, g, fp, v);
    lemma_word_of_push(b.letters@, fp, v);
    assert(c.last() == v);
    assert(child.path == pack_path(c));
    assert(word_of(b.letters@, c).drop_last() =~= word_of(b.letters@, fp));
    assert(child.word == pack_word(word_of(b.letters@, c)));
    assert(child.pts == points_of(b.points@, c));
    assert(child.mult == mult_of(b.word_mults@, c));
    assert forall|x: u8| #![trigger c.contains(x)] x < 16 implies (bit_set(child.visited, x as u64)
        <==> c.contains(x)) by {
        lemma_bit_or(visited, v as u64, x as u64);
        lemma_contains_push(fp, v, x);
        assert(fp.contains(x) <==> bit_set(visited, x as u64));
    }
}

/// `q` is `fp` extended by one of the first `j` neighbours.
spec fn is_kid(fp: Seq<u8>, nbrs: Seq<u8>, j: int, q: Seq<u8>) -> bool {
    &&& q.len() == fp.len() + 1
    &&& is_prefix(fp, q)
    &&& nbrs.take(j).contains(q.last())
}

/// `p` extends `fp` through a neighbour at position `j` or later.
spec fn is_pending(fp: Seq<u8>, nbrs: Seq<u8>, j: int, p: Seq<u8>) -> bool {
    &&& is_prefix(fp, p)
    &&& p.len() > fp.len()
    &&& nbrs.subrange(j, nbrs.len() as int).contains(p[fp.len() as int])
}

/// The stack paths and the reported paths of the search, between two pops.
spec fn outer_inv(b: &Board, m: LexiconModel, g: Seq<Seq<u8>>, gs: Seq<Seq<u8>>, rs: Seq<Seq<u8>>) -> bool {
    &&& forall|k: int| 0 <= k < rs.len() ==> is_found(b, m, g, #[trigger] rs[k])
    &&& rs.no_duplicates()
    &&& forall|i: int, j: int|
        0 <= i < gs.len() && 0 <= j < gs.len() && i != j ==> !is_prefix(
            #[trigger] gs[i],
            #[trigger] gs[j],
        )
    &&& forall|i: int, k: int|
        0 <= i < gs.len() && 0 <= k < rs.len() ==> !is_prefix(#[trigger] gs[i], #[trigger] rs[k])
    &&& forall|p: Seq<u8>| #[trigger] is_found(b, m, g, p) ==> covered(gs, rs, p)
}

/// What holds of the popped path `fp` and what it was popped from.
spec fn pop_ctx(
    b: &Board,
    m: LexiconModel,
    g: Seq<Seq<u8>>,
    fp: Seq<u8>,
    nbrs: Seq<u8>,
    gs_rest: Seq<Seq<u8>>,
    rs_old: Seq<Seq<u8>>,
) -> bool {
    &&& b.wf()
    &&& valid_graph(g, b.cells())
    &&& is_simple_path(g, b.cells(), fp)
    &&& 1 <= fp.len() < MAX_WORD_LEN
    &&& passes_pruning(m, b.letters@, fp)
    &&& nbrs == g[fp.last() as int]
    &&& forall|i: int|
        0 <= i < gs_rest.len() ==> !is_prefix(#[trigger] gs_rest[i], fp) && !is_prefix(fp, gs_rest[i])
    &&& forall|k: int| 0 <= k < rs_old.len() ==> !is_prefix(fp, #[trigger] rs_old[k])
}

/// The state of the search while the neighbours of `fp` are visited, `j` of
/// them done.
spec fn inner_inv(
    b: &Board,
    m: LexiconModel,
    g: Seq<Seq<u8>>,
    fp: Seq<u8>,
    nbrs: Seq<u8>,
    j: int,
    gs_rest: Seq<Seq<u8>>,
    rs_old: Seq<Seq<u8>>,
    gs: Seq<Seq<u8>>,
    rs: Seq<Seq<u8>>,
) -> bool {
    &&& 0 <= j <= nbrs.len()
    &&& gs.len() >= gs_rest.len()
    &&& gs.len() - gs_rest.len() <= j
    &&& fp.len() + 1 == MAX_WORD_LEN ==> gs.len() == gs_rest.len()
    &&& forall|i: int| 0 <= i < gs_rest.len() ==> gs[i] == gs_rest[i]
    &&& forall|i: int| gs_rest.len() <= i < gs.len() ==> is_kid(fp, nbrs, j, #[trigger] gs[i])
    &&& rs.len() >= rs_old.len()
    &&& forall|k: int| 0 <= k < rs_old.len() ==> rs[k] == rs_old[k]
    &&& forall|k: int|
        rs_old.len() <= k < rs.len() ==> #[trigger] rs[k] == fp || is_kid(fp, nbrs, j, rs[k])
    &&& forall|k: int| 0 <= k < rs.len() ==> is_found(b, m, g, #[trigger] rs[k])
    &&& rs.no_duplicates()
    &&& forall|i: int, i2: int|
        0 <= i < gs.len() && 0 <= i2 < gs.len() && i != i2 ==> !is_prefix(
            #[trigger] gs[i],
            #[trigger] gs[i2],
        )
    &&& forall|i: int, k: int|
        0 <= i < gs.len() && 0 <= k < rs.len() ==> !is_prefix(#[trigger] gs[i], #[trigger] rs[k])
    &&& forall|p: Seq<u8>| #[trigger]
        is_found(b, m, g, p) ==> covered(gs, rs, p) || is_pending(fp, nbrs, j, p)
    &&& stack_weight(gs) <= stack_weight(gs_rest) + (gs.len() - gs_rest.len()) * frame_weight(
        (fp.len() + 1) as nat,
    )
}

/// Popping `fp` and reporting it if it is found sets up the visit of its
/// neighbours.
proof fn lemma_pop(
    b: &Board,
    m: LexiconModel,
    g: Seq<Seq<u8>>,
    gs_before: Seq<Seq<u8>>,
    rs_old: Seq<Seq<u8>>,
    rs: Seq<Seq<u8>>,
)
    requires
        b.wf(),
        valid_graph(g, b.cells()),
        gs_before.len() > 0,
        is_simple_path(g, b.cells(), gs_before.last()),
        1 <= gs_before.last().len() < MAX_WORD_LEN,
        passes_pruning(m, b.letters@, gs_before.last()),
        outer_inv(b, m, g, gs_before, rs_old),
        rs == (if is_found(b, m, g, gs_before.last()) {
            rs_old.push(gs_before.last())
        } else {
            rs_old
        }),
    ensures
        pop_ctx(
            b,
            m,
            g,
            gs_before.last(),
            g[gs_before.last().last() as int],
            gs_before.drop_last(),
            rs_old,
        ),
        inner_inv(
            b,
            m,
            g,
            gs_before.last(),
            g[gs_before.last().last() as int],
            0,
            gs_before.drop_last(),
            rs_old,
            gs_before.drop_last(),
            rs,
        ),
{
    let fp = gs_before.last();
    let gs = gs_before.drop_last();
    let top = gs_before.len() - 1;
    let nbrs = g[fp.last() as int];
    let l = fp.len() as int;
    assert(gs_before[top] == fp);
    assert forall|i: int| 0 <= i < gs.len() implies !is_prefix(#[trigger] gs[i], fp) && !is_prefix(
        fp,
        gs[i],
    ) by {
        assert(gs_before[i] == gs[i]);
    }
    assert forall|k: int| 0 <= k < rs_old.len() implies !is_prefix(fp, #[trigger] rs_old[k]) by {
        assert(!is_prefix(gs_before[top], rs_old[k]));
    }
    if is_found(b, m, g, fp) {
        assert(!rs_old.contains(fp)) by {
            if rs_old.contains(fp) {
                let k = choose|k: int| 0 <= k < rs_old.len() && rs_old[k] == fp;
                assert(fp.take(fp.len() as int) =~= fp);
                assert(!is_prefix(gs_before[top], rs_old[k]));
            }
        }
        assert(rs[rs.len() - 1] == fp);
    }
    assert forall|k: int| 0 <= k < rs.len() implies is_found(b, m, g, #[trigger] rs[k]) by {
        if k < rs_old.len() {
            assert(rs[k] == rs_old[k]);
        }
    }
    assert forall|i: int, k: int| 0 <= i < gs.len() && 0 <= k < rs.len() implies !is_prefix(
        #[trigger] gs[i],
        #[trigger] rs[k],
    ) by {
        assert(gs_before[i] == gs[i]);
        if k < rs_old.len() {
            assert(rs[k] == rs_old[k]);
            assert(!is_prefix(gs_before[i], rs_old[k]));
        }
    }
    assert forall|i: int, i2: int| 0 <= i < gs.len() && 0 <= i2 < gs.len() && i != i2 implies !is_prefix(
        #[trigger] gs[i],
        #[trigger] gs[i2],
    ) by {
        assert(gs_before[i] == gs[i]);
        assert(gs_before[i2] == gs[i2]);
    }
    assert forall|p: Seq<u8>| #[trigger] is_found(b, m, g, p) implies covered(gs, rs, p)
        || is_pending(fp, nbrs, 0, p) by {
        assert(covered(gs_before, rs_old, p));
        if rs_old.contains(p) {
            let k = choose|k: int| 0 <= k < rs_old.len() && rs_old[k] == p;
            assert(rs[k] == p);
        } else {
            let i = choose|i: int| 0 <= i < gs_before.len() && is_prefix(#[trigger] gs_before[i], p);
            if i < gs.len() {
                assert(gs[i] == gs_before[i]);
            } else {
                assert(is_prefix(fp, p));
                if p.len() == l {
                    assert(p =~= fp);
                    assert(rs[rs.len() - 1] == fp);
                } else {
                    lemma_extension(b, m, g, fp, p);
                    assert(nbrs.subrange(0, nbrs.len() as int) =~= nbrs);
                }
            }
        }
    }
    assert(stack_weight(gs) <= stack_weight(gs) + 0 * frame_weight((fp.len() + 1) as nat));
}

/// A neighbour through which no found path passes can be skipped.
proof fn lemma_step_skip(
    b: &Board,
    m: LexiconModel,
    g: Seq<Seq<u8>>,
    fp: Seq<u8>,
    nbrs: Seq<u8>,
    j: int,
    gs_rest: Seq<Seq<u8>>,
    rs_old: Seq<Seq<u8>>,
    gs: Seq<Seq<u8>>,
    rs: Seq<Seq<u8>>,
)
    requires
        pop_ctx(b, m, g, fp, nbrs, gs_rest, rs_old),
        inner_inv(b, m, g, fp, nbrs, j, gs_rest, rs_old, gs, rs),
        j < nbrs.len(),
        forall|p: Seq<u8>|
            #[trigger] is_found(b, m, g, p) && is_prefix(fp, p) && p.len() > fp.len() ==> p[fp.len() as int]
                != nbrs[j],
    ensures
        inner_inv(b, m, g, fp, nbrs, j + 1, gs_rest, rs_old, gs, rs),
{
    lemma_take_next(nbrs, j);
    assert forall|p: Seq<u8>| #[trigger] is_found(b, m, g, p) implies covered(gs, rs, p) || is_pending(
        fp,
        nbrs,
        j + 1,
        p,
    ) by {
        if !covered(gs, rs, p) {
            lemma_subrange_next(nbrs, j, p[fp.len() as int]);
        }
    }
}

proof fn lemma_take_next(nbrs: Seq<u8>, j: int)
    requires
        0 <= j < nbrs.len(),
    ensures
        nbrs.take(j + 1) == nbrs.take(j).push(nbrs[j]),
        forall|x: u8| nbrs.take(j).contains(x) ==> #[trigger] nbrs.take(j + 1).contains(x),
{
    assert(nbrs.take(j + 1) =~= nbrs.take(j).push(nbrs[j]));
    assert forall|x: u8| nbrs.take(j).contains(x) implies #[trigger] nbrs.take(j + 1).contains(x) by {
        let t = choose|t: int| 0 <= t < j && nbrs.take(j)[t] == x;
        assert(nbrs.take(j + 1)[t] == x);
    }
}

proof fn lemma_subrange_next(nbrs: Seq<u8>, j: int, x: u8)
    requires
        0 <= j < nbrs.len(),
        nbrs.subrange(j, nbrs.len() as int).contains(x),
    ensures
        x == nbrs[j] || nbrs.subrange(j + 1, nbrs.len() as int).contains(x),
{
    let t = choose|t: int| 0 <= t < nbrs.len() - j && nbrs.subrange(j, nbrs.len() as int)[t] == x;
    if t > 0 {
        assert(nbrs.subrange(j + 1, nbrs.len() as int)[t - 1] == x);
    }
}

proof fn lemma_not_in_take(nbrs: Seq<u8>, j: int)
    requires
        0 <= j < nbrs.len(),
        nbrs.no_duplicates(),
    ensures
        !nbrs.take(j).contains(nbrs[j]),
{
    if nbrs.take(j).contains(nbrs[j]) {
        let t = choose|t: int| 0 <= t < j && nbrs.take(j)[t] == nbrs[j];
        assert(nbrs[t] == nbrs[j]);
    }
}

/// A kid built from an earlier neighbour is not related by prefix to the
/// child through neighbour `j`.
proof fn lemma_kid_vs_child(fp: Seq<u8>, nbrs: Seq<u8>, j: int, q: Seq<u8>)
    requires
        0 <= j < nbrs.len(),
        nbrs.no_duplicates(),
        is_kid(fp, nbrs, j, q),
    ensures
        !is_prefix(q, fp.push(nbrs[j])),
        !is_prefix(fp.push(nbrs[j]), q),
        q != fp.push(nbrs[j]),
        is_kid(fp, nbrs, j + 1, q),
{
    lemma_not_in_take(nbrs, j);
    lemma_one_longer(fp, q);
    lemma_siblings(fp, nbrs[j], q.last());
    lemma_take_next(nbrs, j);
}

/// Reporting the child through neighbour `j` at the greatest length.
proof fn lemma_step_report(
    b: &Board,
    m: LexiconModel,
    g: Seq<Seq<u8>>,
    fp: Seq<u8>,
    nbrs: Seq<u8>,
    j: int,
    gs_rest: Seq<Seq<u8>>,
    rs_old: Seq<Seq<u8>>,
    gs: Seq<Seq<u8>>,
    rs: Seq<Seq<u8>>,
)
    requires
        pop_ctx(b, m, g, fp, nbrs, gs_rest, rs_old),
        inner_inv(b, m, g, fp, nbrs, j, gs_rest, rs_old, gs, rs),
        j < nbrs.len(),
        fp.len() + 1 == MAX_WORD_LEN,
        is_found(b, m, g, fp.push(nbrs[j])),
    ensures
        inner_inv(b, m, g, fp, nbrs, j + 1, gs_rest, rs_old, gs, rs.push(fp.push(nbrs[j]))),
{
    let v = nbrs[j];
    let c = fp.push(v);
    let rs2 = rs.push(c);
    let l = fp.len() as int;
    let nl = nbrs.len() as int;
    assert(nbrs.no_duplicates());
    lemma_take_next(nbrs, j);
    lemma_not_in_take(nbrs, j);
    assert(gs.len() == gs_rest.len());
    assert(is_prefix(fp, c)) by {
        assert(c.take(l) =~= fp);
    }
    assert(c.take(c.len() as int) =~= c);
    assert(c.last() == v);
    assert(nbrs.take(j + 1)[j] == v);
    assert(is_kid(fp, nbrs, j + 1, c));
    assert(!rs.contains(c)) by {
        if rs.contains(c) {
            let k = choose|k: int| 0 <= k < rs.len() && rs[k] == c;
            if k < rs_old.len() {
                assert(rs[k] == rs_old[k]);
                lemma_push_prefix(fp, v, rs_old[k]);
            } else if rs[k] == fp {
            } else {
                lemma_kid_vs_child(fp, nbrs, j, rs[k]);
            }
        }
    }
    assert forall|k: int| rs_old.len() <= k < rs2.len() implies #[trigger] rs2[k] == fp || is_kid(
        fp,
        nbrs,
        j + 1,
        rs2[k],
    ) by {
        if k < rs.len() {
            assert(rs2[k] == rs[k]);
            if rs[k] != fp {
                lemma_kid_vs_child(fp, nbrs, j, rs[k]);
            }
        }
    }
    assert forall|k: int| 0 <= k < rs2.len() implies is_found(b, m, g, #[trigger] rs2[k]) by {
        if k < rs.len() {
            assert(rs2[k] == rs[k]);
        }
    }
    assert forall|k: int| 0 <= k < rs_old.len() implies rs2[k] == rs_old[k] by {
        assert(rs2[k] == rs[k]);
    }
    assert forall|i: int, k: int| 0 <= i < gs.len() && 0 <= k < rs2.len() implies !is_prefix(
        #[trigger] gs[i],
        #[trigger] rs2[k],
    ) by {
        if k < rs.len() {
            assert(rs2[k] == rs[k]);
        } else {
            assert(gs[i] == gs_rest[i]);
            lemma_prefix_of_push(gs_rest[i], fp, v);
        }
    }
    assert forall|p: Seq<u8>| #[trigger] is_found(b, m, g, p) implies covered(gs, rs2, p)
        || is_pending(fp, nbrs, j + 1, p) by {
        if covered(gs, rs, p) {
            if rs.contains(p) {
                let k = choose|k: int| 0 <= k < rs.len() && rs[k] == p;
                assert(rs2[k] == p);
            }
        } else {
            lemma_subrange_next(nbrs, j, p[l]);
            if p[l] == v {
                lemma_extension(b, m, g, fp, p);
                assert(rs2[rs2.len() - 1] == p);
            }
        }
    }
}

/// Pushing the child through neighbour `j`.
proof fn lemma_step_push(
    b: &Board,
    m: LexiconModel,
    g: Seq<Seq<u8>>,
    fp: Seq<u8>,
    nbrs: Seq<u8>,
    j: int,
    gs_rest: Seq<Seq<u8>>,
    rs_old: Seq<Seq<u8>>,
    gs: Seq<Seq<u8>>,
    rs: Seq<Seq<u8>>,
)
    requires
        pop_ctx(b, m, g, fp, nbrs, gs_rest, rs_old),
        inner_inv(b, m, g, fp, nbrs, j, gs_rest, rs_old, gs, rs),
        j < nbrs.len(),
        fp.len() + 1 < MAX_WORD_LEN,
    ensures
        inner_inv(b, m, g, fp, nbrs, j + 1, gs_rest, rs_old, gs.push(fp.push(nbrs[j])), rs),
{
    let v = nbrs[j];
    let c = fp.push(v);
    let gs2 = gs.push(c);
    let l = fp.len() as int;
    assert(nbrs.no_duplicates());
    lemma_take_next(nbrs, j);
    lemma_not_in_take(nbrs, j);
    assert(is_prefix(fp, c)) by {
        assert(c.take(l) =~= fp);
    }
    assert(c.last() == v);
    assert(nbrs.take(j + 1)[j] == v);
    assert(is_kid(fp, nbrs, j + 1, c));
    lemma_stack_weight_push(gs, c);
    assert(stack_weight(gs2) <= stack_weight(gs_rest) + (gs2.len() - gs_rest.len()) * frame_weight(
        (fp.len() + 1) as nat,
    )) by (nonlinear_arith)
        requires
            stack_weight(gs2) == stack_weight(gs) + frame_weight(c.len()),
            c.len() == fp.len() + 1,
            gs2.len() == gs.len() + 1,
            stack_weight(gs) <= stack_weight(gs_rest) + (gs.len() - gs_rest.len()) * frame_weight(
                (fp.len() + 1) as nat,
            ),
    ;
    assert forall|i: int| 0 <= i < gs_rest.len() implies gs2[i] == gs_rest[i] by {
        assert(gs2[i] == gs[i]);
    }
    assert forall|i: int| gs_rest.len() <= i < gs2.len() implies is_kid(
        fp,
        nbrs,
        j + 1,
        #[trigger] gs2[i],
    ) by {
        if i < gs.len() {
            assert(gs2[i] == gs[i]);
            lemma_kid_vs_child(fp, nbrs, j, gs[i]);
        }
    }
    // The child against the other stack paths.
    assert forall|i: int| 0 <= i < gs.len() implies !is_prefix(#[trigger] gs[i], c) && !is_prefix(
        c,
        gs[i],
    ) by {
        if i < gs_rest.len() {
            assert(gs[i] == gs_rest[i]);
            lemma_prefix_of_push(gs_rest[i], fp, v);
        } else {
            lemma_kid_vs_child(fp, nbrs, j, gs[i]);
        }
    }
    assert forall|i: int, i2: int| 0 <= i < gs2.len() && 0 <= i2 < gs2.len() && i != i2 implies !is_prefix(
        #[trigger] gs2[i],
        #[trigger] gs2[i2],
    ) by {
        if i < gs.len() && i2 < gs.len() {
            assert(gs2[i] == gs[i] && gs2[i2] == gs[i2]);
        } else if i < gs.len() {
            assert(gs2[i] == gs[i]);
        } else {
            assert(gs2[i2] == gs[i2]);
        }
    }
    // The child against the reported paths.
    assert forall|k: int| 0 <= k < rs.len() implies !is_prefix(c, #[trigger] rs[k]) by {
        if k < rs_old.len() {
            assert(rs[k] == rs_old[k]);
            if is_prefix(c, rs_old[k]) {
                lemma_push_prefix(fp, v, rs_old[k]);
            }
        } else if rs[k] == fp {
        } else {
            lemma_kid_vs_child(fp, nbrs, j, rs[k]);
        }
    }
    assert forall|i: int, k: int| 0 <= i < gs2.len() && 0 <= k < rs.len() implies !is_prefix(
        #[trigger] gs2[i],
        #[trigger] rs[k],
    ) by {
        if i < gs.len() {
            assert(gs2[i] == gs[i]);
        }
    }
    assert forall|k: int| rs_old.len() <= k < rs.len() implies #[trigger] rs[k] == fp || is_kid(
        fp,
        nbrs,
        j + 1,
        rs[k],
    ) by {
        if rs[k] != fp {
            lemma_kid_vs_child(fp, nbrs, j, rs[k]);
        }
    }
    assert forall|p: Seq<u8>| #[trigger] is_found(b, m, g, p) implies covered(gs2, rs, p)
        || is_pending(fp, nbrs, j + 1, p) by {
        if covered(gs, rs, p) {
            if !rs.contains(p) {
                let i = choose|i: int| 0 <= i < gs.len() && is_prefix(#[trigger] gs[i], p);
                assert(gs2[i] == gs[i]);
            }
        } else {
            lemma_subrange_next(nbrs, j, p[l]);
            if p[l] == v {
                lemma_extension(b, m, g, fp, p);
                assert(gs2[gs2.len() - 1] == c);
            }
        }
    }
}

/// Once every neighbour is visited the search is back between two pops, and
/// its measure went down.
proof fn lemma_inner_done(
    b: &Board,
    m: LexiconModel,
    g: Seq<Seq<u8>>,
    fp: Seq<u8>,
    nbrs: Seq<u8>,
    gs_rest: Seq<Seq<u8>>,
    rs_old: Seq<Seq<u8>>,
    gs: Seq<Seq<u8>>,
    rs: Seq<Seq<u8>>,
)
    requires
        pop_ctx(b, m, g, fp, nbrs, gs_rest, rs_old),
        inner_inv(b, m, g, fp, nbrs, nbrs.len() as int, gs_rest, rs_old, gs, rs),
    ensures
        outer_inv(b, m, g, gs, rs),
        stack_weight(gs) < stack_weight(gs_rest) + frame_weight(fp.len()),
{
    assert forall|p: Seq<u8>| #[trigger] is_found(b, m, g, p) implies covered(gs, rs, p) by {
        assert(nbrs.subrange(nbrs.len() as int, nbrs.len() as int).len() == 0);
    }
    let l = fp.len();
    let kids = (gs.len() - gs_rest.len()) as nat;
    assert(nbrs.len() <= 8);
    lemma_pow9_pos((11 - l) as nat);
    if l + 1 < MAX_WORD_LEN {
        let w = pow9((10 - l) as nat);
        assert(frame_weight(l) == 9 * w) by {
            assert((11 - l) as nat == ((10 - l) as nat + 1) as nat);
        }
        assert(frame_weight((l + 1) as nat) == w);
        assert(kids * w <= 8 * w) by (nonlinear_arith)
            requires
                kids <= 8,
        ;
        lemma_pow9_pos((10 - l) as nat);
    } else {
        assert(kids == 0);
        let w = frame_weight((l + 1) as nat);
        assert((gs.len() - gs_rest.len()) * w == 0) by (nonlinear_arith)
            requires
                gs.len() - gs_rest.len() == 0,
        ;
    }
}

/// The reported paths of a finished search give exactly the found entries,
/// each once.
proof fn lemma_results_exact(
    b: &Board,
    m: LexiconModel,
    g: Seq<Seq<u8>>,
    rs: Seq<Seq<u8>>,
    results: Seq<WordEntry>,
)
    requires
        b.wf(),
        outer_inv(b, m, g, Seq::empty(), rs),
        results.len() == rs.len(),
        forall|k: int| 0 <= k < rs.len() ==> results[k] == entry_of(b, #[trigger] rs[k]),
    ensures
        results.to_set() == found_entries(b, m, g),
        results.no_duplicates(),
{
    assert forall|e: WordEntry| results.to_set().contains(e) implies found_entries(b, m, g).contains(
        e,
    ) by {
        let k = choose|k: int| 0 <= k < results.len() && results[k] == e;
        assert(is_found(b, m, g, rs[k]));
    }
    assert forall|e: WordEntry| found_entries(b, m, g).contains(e) implies results.to_set().contains(
        e,
    ) by {
        let p = choose|p: Seq<u8>| is_found(b, m, g, p) && e == entry_of(b, p);
        assert(covered(Seq::empty(), rs, p));
        let k = choose|k: int| 0 <= k < rs.len() && rs[k] == p;
        assert(results[k] == e);
    }
    assert(results.to_set() =~= found_entries(b, m, g));
    assert forall|i: int, k: int| 0 <= i < results.len() && 0 <= k < results.len() && i != k implies results[i]
        != results[k] by {
        let p = rs[i];
        let q = rs[k];
        assert(is_found(b, m, g, p) && is_found(b, m, g, q));
        lemma_packed_fits(b, p);
        lemma_packed_fits(b, q);
        if results[i] == results[k] {
            assert(pack_path(p) == pack_path(q));
            assert(cells_in_range(p)) by {
                assert forall|t: int| 0 <= t < p.len() implies #[trigger] p[t] < 16 by {
                    assert(p[t] < b.cells());
                    assert(b.cells() <= 16) by (nonlinear_arith)
                        requires
                            b.n <= 4,
                            b.cells() == b.n * b.n,
                    ;
                }
            }
            assert(cells_in_range(q)) by {
                assert forall|t: int| 0 <= t < q.len() implies #[trigger] q[t] < 16 by {
                    assert(q[t] < b.cells());
                    assert(b.cells() <= 16) by (nonlinear_arith)
                        requires
                            b.n <= 4,
                            b.cells() == b.n * b.n,
                    ;
                }
            }
            lemma_pack_path_injective(p, q);
        }
    }
}

proof fn lemma_start_frames(b: &Board, m: LexiconModel, g: Seq<Seq<u8>>, gs: Seq<Seq<u8>>)
    requires
        b.wf(),
        gs.len() == b.cells(),
        forall|i: int| 0 <= i < gs.len() ==> #[trigger] gs[i] == seq![i as u8],
    ensures
        outer_inv(b, m, g, gs, Seq::empty()),
{
    assert forall|p: Seq<u8>| #[trigger] is_found(b, m, g, p) implies covered(gs, Seq::empty(), p) by {
        let i = p[0] as int;
        assert(p[0] < b.cells());
        assert(gs[i] == seq![i as u8]);
        assert(p.take(1) =~= seq![p[0]]);
        assert(is_prefix(gs[i], p));
    }
    assert forall|i: int, j: int| 0 <= i < gs.len() && 0 <= j < gs.len() && i != j implies !is_prefix(
        #[trigger] gs[i],
        #[trigger] gs[j],
    ) by {
        assert(gs[i] == seq![i as u8]);
        assert(gs[j] == seq![j as u8]);
        assert(gs[j].take(1) =~= gs[j]);
        assert(gs[j][0] == j as u8);
        assert(gs[i][0] == i as u8);
        assert(b.cells() <= 16) by (nonlinear_arith)
            requires
                b.n <= 4,
                b.cells() == b.n * b.n,
        ;
    }
}

/// Finds every word on the board: each simple path of two to twelve cells
/// along the graph whose prefixes in the pruning window are in the prefix
/// set and whose letters form a dictionary word gives one entry, with its
/// packed word, its score and its packed path.
pub fn dfs(board: &Board, lexicon: &Lexicon, graph: &Vec<Vec<u8>>) -> (results: Vec<WordEntry>)
    requires
        board.wf(),
        valid_graph(graph_view(graph), board.cells()),
    ensures
        results@.to_set() == found_entries(board, lexicon@, graph_view(graph)),
        results@.no_duplicates(),
{
    let ghost g = graph_view(graph);
    let ghost m = lexicon@;
    assert(board.n * board.n <= 16) by (nonlinear_arith)
        requires
            1 <= board.n <= 4,
    ;
    let cells = board.n * board.n;
    let mut stack: Vec<Frame> = Vec::new();
    let mut results: Vec<WordEntry> = Vec::new();
    let ghost mut gs: Seq<Seq<u8>> = Seq::empty();
    let ghost mut rs: Seq<Seq<u8>> = Seq::empty();
    let mut s: usize = 0;
    while s < cells
        invariant
            board.wf(),
            cells == board.cells(),
            cells <= 16,
            s <= cells,
            g == graph_view(graph),
            valid_graph(g, board.cells()),
            m == lexicon@,
            stack@.len() == gs.len(),
            gs.len() == s,
            forall|i: int| 0 <= i < s ==> #[trigger] gs[i] == seq![i as u8],
            forall|i: int| 0 <= i < s ==> frame_ok(#[trigger] stack@[i], gs[i], board, m, g),
        decreases cells - s,
    {
        let s64 = s as u64;
        let f = Frame {
            path: PATH_FLAG | s64,
            word: board.letters[s] as u64,
            pts: board.points[s] as u64,
            mult: board.word_mults[s] as u64,
            len: 1,
            visited: 1u64 << s64,
        };
        let ghost p = seq![s as u8];
        proof {
            assert(p.drop_last() =~= Seq::<u8>::empty());
            assert(word_of(board.letters@, p).drop_last() =~= Seq::<u8>::empty());
            assert((16u64 | s64) == 16 + s64) by (bit_vector)
                requires
                    s64 < 16,
            ;
            assert((0u64 | (1u64 << s64)) == (1u64 << s64)) by (bit_vector);
            assert forall|x: u8| #![trigger p.contains(x)] x < 16 implies (bit_set(f.visited, x as u64)
                <==> p.contains(x)) by {
                lemma_bit_or(0, s64, x as u64);
                lemma_bit_zero(x as u64);
                if x == s as u8 {
                    assert(p[0] == x);
                }
            }
            assert(is_simple_path(g, board.cells(), p));
            assert(pack_path(Seq::<u8>::empty()) == 0);
            assert(pack_word(Seq::<u8>::empty()) == 0);
            assert(p.last() == s as u8);
            assert(word_of(board.letters@, p).last() == board.letters@[s as int]);
            assert(f.path == pack_path(p));
            assert(f.word == pack_word(word_of(board.letters@, p)));
            assert(points_of(board.points@, Seq::<u8>::empty()) == 0);
            assert(mult_of(board.word_mults@, Seq::<u8>::empty()) == 1);
            assert(f.pts == points_of(board.points@, p));
            assert(mult_of(board.word_mults@, p) == mult_of(board.word_mults@, p.drop_last())
                * board.word_mults@[p.last() as int]);
            assert(f.mult == mult_of(board.word_mults@, p));
            assert(frame_ok(f, p, board, m, g));
        }
        let ghost old_stack = stack@;
        stack.push(f);
        proof {
            gs = gs.push(p);
            assert forall|i: int| 0 <= i < s + 1 implies frame_ok(#[trigger] stack@[i], gs[i], board, m, g) by {
                if i < s {
                    assert(stack@[i] == old_stack[i]);
                }
            }
        }
        s += 1;
    }
    proof {
        lemma_start_frames(board, m, g, gs);
    }
    while stack.len() > 0
        invariant
            board.wf(),
            cells == board.cells(),
            cells <= 16,
            g == graph_view(graph),
            valid_graph(g, board.cells()),
            m == lexicon@,
            stack@.len() == gs.len(),
            results@.len() == rs.len(),
            forall|i: int| 0 <= i < gs.len() ==> frame_ok(#[trigger] stack@[i], gs[i], board, m, g),
            forall|k: int| 0 <= k < rs.len() ==> results@[k] == entry_of(board, #[trigger] rs[k]),
            outer_inv(board, m, g, gs, rs),
        decreases stack_weight(gs),
    {
        let ghost gs_before = gs;
        let ghost rs_old = rs;
        let f = stack.pop().unwrap();
        let ghost fp = gs.last();
        let ghost gs_rest = gs.drop_last();
        let ghost l = fp.len() as int;
        proof {
            assert(frame_ok(f, fp, board, m, g)) by {
                assert(frame_ok(stack@.push(f)[gs.len() - 1], gs[gs.len() - 1], board, m, g));
            }
            lemma_packed_fits(board, fp);
            lemma_score_fits(board, fp);
            assert(cells_in_range(fp)) by {
                assert forall|i: int| 0 <= i < fp.len() implies #[trigger] fp[i] < 16 by {
                    assert(fp[i] < cells);
                }
            }
            lemma_path_last(fp);
            gs = gs_rest;
        }
        if f.len >= MIN_WORD_LEN && f.len <= MAX_WORD_LEN && lexicon.contains_word(f.word) {
            let mut score = f.pts * f.mult;
            if f.len > 4 {
                score = score + 5 * (f.len as u64 - 4);
            }
            results.push(WordEntry { word: f.word, score, path: f.path });
            proof {
                rs = rs.push(fp);
            }
        }
        let vert = (f.path & 15) as usize;
        let visited = f.visited | (1u64 << (vert as u64));
        let child_len = f.len + 1;
        let nbrs = &graph[vert];
        proof {
            lemma_pop(board, m, g, gs_before, rs_old, rs);
            assert(nbrs@ == g[fp.last() as int]);
            assert forall|x: u8| #![trigger fp.contains(x)] x < 16 implies (bit_set(visited, x as u64)
                <==> fp.contains(x)) by {
                lemma_bit_or(f.visited, vert as u64, x as u64);
                if x == vert as u8 {
                    assert(fp[fp.len() - 1] == x);
                }
            }
            assert forall|k: int| 0 <= k < rs.len() implies results@[k] == entry_of(board, #[trigger] rs[k]) by {
                if k < rs_old.len() {
                    assert(rs[k] == rs_old[k]);
                }
            }
        }
        let mut j: usize = 0;
        while j < nbrs.len()
            invariant
                board.wf(),
                cells == board.cells(),
                cells <= 16,
                g == graph_view(graph),
                valid_graph(g, board.cells()),
                m == lexicon@,
                frame_ok(f, fp, board, m, g),
                l == fp.len(),
                vert == fp.last(),
                nbrs@ == g[vert as int],
                child_len == l + 1,
                pack_word(word_of(board.letters@, fp)) < 0x80_0000_0000_0000,
                pack_path(fp) < 0x80_0000_0000_0000,
                f.pts <= 255 * 12,
                f.mult <= 531441,
                forall|x: u8| #![trigger fp.contains(x)] x < 16 ==> (bit_set(visited, x as u64) <==> fp.contains(x)),
                pop_ctx(board, m, g, fp, nbrs@, gs_rest, rs_old),
                inner_inv(board, m, g, fp, nbrs@, j as int, gs_rest, rs_old, gs, rs),
                stack@.len() == gs.len(),
                results@.len() == rs.len(),
                forall|i: int| 0 <= i < gs.len() ==> frame_ok(#[trigger] stack@[i], gs[i], board, m, g),
                forall|k: int| 0 <= k < rs.len() ==> results@[k] == entry_of(board, #[trigger] rs[k]),
            decreases nbrs@.len() - j,
        {
            let v = nbrs[j];
            let ghost c = fp.push(v);
            proof {
                assert(g[vert as int][j as int] == v);
                assert(g[fp.last() as int].contains(v));
                assert(v < cells);
                assert(board.letters@[v as int] <= 26);
                lemma_word_of_push(board.letters@, fp, v);
            }
            if ((visited >> (v as u64)) & 1) == 0 {
                let child_word = (f.word << 5) | (board.letters[v as usize] as u64);
                proof {
                    lemma_word_shift(f.word, board.letters@[v as int] as u64);
                    assert(word_of(board.letters@, c).drop_last() =~= word_of(board.letters@, fp));
                    assert(child_word == pack_word(word_of(board.letters@, c)));
                    assert(!fp.contains(v)) by {
                        assert(!bit_set(visited, v as u64));
                    }
                }
                if !(child_len >= lexicon.prefix_lower && child_len <= lexicon.prefix_upper
                    && !lexicon.contains_prefix(child_word)) {
                    let child_path = (f.path << 5) | PATH_FLAG | (v as u64);
                    let child_pts = f.pts + board.points[v as usize] as u64;
                    assert(f.mult * board.word_mults@[v as int] <= 531441 * 3) by (nonlinear_arith)
                        requires
                            f.mult <= 531441,
                            board.word_mults@[v as int] <= 3,
                    ;
                    let child_mult = f.mult * board.word_mults[v as usize] as u64;
                    proof {
                        lemma_shift_or_flag(f.path, v as u64);
                        lemma_child_path(board, m, g, fp, v);
                        lemma_packed_fits(board, c);
                        assert(child_word == packed_word(board.letters@, c));
                    }
                    if child_len == MAX_WORD_LEN {
                        if lexicon.contains_word(child_word) {
                            proof {
                                lemma_score_fits(board, c);
                                assert(child_path == pack_path(c));
                                assert(child_pts == points_of(board.points@, c));
                                assert(child_mult == mult_of(board.word_mults@, c));
                            }
                            let score = child_pts * child_mult + MAX_LEN_BONUS;
                            results.push(WordEntry { word: child_word, score, path: child_path });
                            proof {
                                assert(is_found(board, m, g, c));
                                lemma_step_report(board, m, g, fp, nbrs@, j as int, gs_rest, rs_old, gs, rs);
                                rs = rs.push(c);
                                assert forall|k: int| 0 <= k < rs.len() implies results@[k] == entry_of(
                                    board,
                                    #[trigger] rs[k],
                                ) by {}
                            }
                        } else {
                            proof {
                                assert forall|p: Seq<u8>| #[trigger] is_found(board, m, g, p) && is_prefix(fp, p)
                                    && p.len() > fp.len() implies p[fp.len() as int] != nbrs@[j as int] by {
                                    if p[fp.len() as int] == v {
                                        lemma_extension(board, m, g, fp, p);
                                    }
                                }
                                lemma_step_skip(board, m, g, fp, nbrs@, j as int, gs_rest, rs_old, gs, rs);
                            }
                        }
                    } else {
                        let child = Frame {
                            path: child_path,
                            word: child_word,
                            pts: child_pts,
                            mult: child_mult,
                            len: child_len,
                            visited: visited | (1u64 << (v as u64)),
                        };
                        proof {
                            lemma_child_frame(board, m, g, f, fp, visited, v, child);
                            lemma_step_push(board, m, g, fp, nbrs@, j as int, gs_rest, rs_old, gs, rs);
                        }
                        stack.push(child);
                        proof {
                            gs = gs.push(c);
                        }
                    }
                } else {
                    proof {
                        assert forall|p: Seq<u8>| #[trigger] is_found(board, m, g, p) && is_prefix(fp, p)
                            && p.len() > fp.len() implies p[fp.len() as int] != nbrs@[j as int] by {
                            if p[fp.len() as int] == v {
                                lemma_extension(board, m, g, fp, p);
                                lemma_packed_fits(board, c);
                            }
                        }
                        lemma_step_skip(board, m, g, fp, nbrs@, j as int, gs_rest, rs_old, gs, rs);
                    }
                }
            } else {
                proof {
                    let vv = v as u64;
                    assert((visited >> vv) & 1 != 0 ==> (visited >> vv) & 1 == 1) by (bit_vector);
                    assert(bit_set(visited, v as u64));
                    assert(fp.contains(v));
                    assert forall|p: Seq<u8>| #[trigger] is_found(board, m, g, p) && is_prefix(fp, p)
                        && p.len() > fp.len() implies p[fp.len() as int] != nbrs@[j as int] by {
                        if p[fp.len() as int] == v {
                            lemma_extension(board, m, g, fp, p);
                        }
                    }
                    lemma_step_skip(board, m, g, fp, nbrs@, j as int, gs_rest, rs_old, gs, rs);
                }
            }
            j += 1;
        }
        proof {
            lemma_inner_done(board, m, g, fp, nbrs@, gs_rest, rs_old, gs, rs);
            assert(gs_before.drop_last() == gs_rest);
            assert(stack_weight(gs_before) == stack_weight(gs_rest) + frame_weight(fp.len()));
        }
    }
    proof {
        lemma_results_exact(board, m, g, rs, results@);
    }
    results
}

/// A path of distinct cells below `cells` has at most `cells` entries.
proof fn lemma_distinct_cells_len(p: Seq<u8>, cells: nat)
    requires
        p.no_duplicates(),
        forall|i: int| 0 <= i < p.len() ==> #[trigger] p[i] < cells,
    ensures
        p.len() <= cells,
{
    let q = p.map_values(|c: u8| c as int);
    assert(q.no_duplicates()) by {
        assert forall|i: int, j: int| 0 <= i < q.len() && 0 <= j < q.len() && i != j implies q[i]
            != q[j] by {
            assert(p[i] != p[j]);
        }
    }
    q.unique_seq_to_set();
    assert(q.to_set().subset_of(vstd::set_lib::set_int_range(0, cells as int))) by {
        assert forall|x: int| q.to_set().contains(x) implies vstd::set_lib::set_int_range(
            0,
            cells as int,
        ).contains(x) by {
            let i = choose|i: int| 0 <= i < q.len() && q[i] == x;
            assert(p[i] < cells);
        }
    }
    vstd::set_lib::lemma_int_range(0, cells as int);
    vstd::set_lib::lemma_len_subset(q.to_set(), vstd::set_lib::set_int_range(0, cells as int));
}

/// Every path the search reports on the grid, read back from its entry,
/// holds at most `n * n` cells, none twice, and each step goes to a cell of
/// the grid's neighbor list of the cell before, that is to a touching cell.
pub proof fn lemma_found_paths_are_simple(b: &Board, m: LexiconModel, e: WordEntry)
    requires
        b.wf(),
        found_entries(b, m, grid_graph(b.n as int)).contains(e),
    ensures
        unpack_path(e.path as nat).len() <= b.cells(),
        unpack_path(e.path as nat).no_duplicates(),
        forall|i: int|
            0 <= i < unpack_path(e.path as nat).len() ==> #[trigger] unpack_path(e.path as nat)[i]
                < b.cells(),
        forall|i: int|
            0 <= i < unpack_path(e.path as nat).len() - 1 ==> grid_neighbors(
                b.n as int,
                #[trigger] unpack_path(e.path as nat)[i] as int,
            ).contains(unpack_path(e.path as nat)[i + 1]) && adjacent(
                b.n as int,
                unpack_path(e.path as nat)[i] as int,
                unpack_path(e.path as nat)[i + 1] as int,
            ),
{
    let g = grid_graph(b.n as int);
    let p = choose|p: Seq<u8>| is_found(b, m, g, p) && e == entry_of(b, p);
    lemma_packed_fits(b, p);
    assert(cells_in_range(p)) by {
        assert forall|t: int| 0 <= t < p.len() implies #[trigger] p[t] < 16 by {
            assert(p[t] < b.cells());
            assert(b.cells() <= 16) by (nonlinear_arith)
                requires
                    b.n <= 4,
                    b.cells() == b.n * b.n,
            ;
        }
    }
    crate::codec::lemma_unpack_pack_path(p);
    assert(unpack_path(e.path as nat) == p);
    lemma_distinct_cells_len(p, b.cells());
    assert forall|i: int| 0 <= i < p.len() - 1 implies grid_neighbors(b.n as int, #[trigger] p[i] as int).contains(
        p[i + 1],
    ) && adjacent(b.n as int, p[i] as int, p[i + 1] as int) by {
        assert(g[p[i] as int].contains(p[i + 1]));
        assert(p[i] < b.cells());
        lemma_grid_neighbors_adjacent(b.n as int, p[i] as int, p[i + 1]);
    }
}

/// All prefixes, of one letter or more, of the words of `words`.
pub open spec fn prefixes_of_words(words: Set<u64>) -> Set<u64> {
    Set::new(
        |x: u64|
            exists|s: Seq<u8>, k: int|
                codes_in_range(s) && s.len() <= MAX_WORD_LEN && words.contains(pack_word(s) as u64)
                    && 1 <= k <= s.len() && x == pack_word(s.take(k)) as u64,
    )
}

/// The same lexicon with an empty pruning window: nothing is pruned.
pub open spec fn unpruned(m: LexiconModel) -> LexiconModel {
    LexiconModel { words: m.words, prefixes: m.prefixes, lower: 1, upper: 0 }
}

/// When the prefix set holds exactly the prefixes of the dictionary words,
/// pruning never drops a word: the search with pruning and the search with
/// none report the same entries.
pub proof fn lemma_pruning_keeps_words(
    b: &Board,
    m: LexiconModel,
    g: Seq<Seq<u8>>,
)
    requires
        b.wf(),
        m.prefixes == prefixes_of_words(m.words),
    ensures
        found_entries(b, m, g) == found_entries(b, unpruned(m), g),
{
    assert forall|p: Seq<u8>| is_found(b, unpruned(m), g, p) implies #[trigger] is_found(b, m, g, p) by {
        let s = word_of(b.letters@, p);
        lemma_word_codes(b, p);
        assert forall|k: int| 2 <= k <= p.len() && m.lower <= k <= m.upper implies m.prefixes.contains(
            #[trigger] packed_word(b.letters@, p.take(k)),
        ) by {
            assert(word_of(b.letters@, p.take(k)) =~= s.take(k));
            assert(m.words.contains(pack_word(s) as u64));
        }
    }
    assert(found_entries(b, m, g) =~= found_entries(b, unpruned(m), g)) by {
        assert forall|e: WordEntry| found_entries(b, unpruned(m), g).contains(e) implies found_entries(
            b,
            m,
            g,
        ).contains(e) by {
            let p = choose|p: Seq<u8>| is_found(b, unpruned(m), g, p) && e == entry_of(b, p);
            assert(is_found(b, m, g, p));
        }
        assert forall|e: WordEntry| found_entries(b, m, g).contains(e) implies found_entries(
            b,
            unpruned(m),
            g,
        ).contains(e) by {
            let p = choose|p: Seq<u8>| is_found(b, m, g, p) && e == entry_of(b, p);
            assert(is_found(b, unpruned(m), g, p));
        }
    }
}

/// The score of a path below five cells is its point sum times its
/// multiplier product; five cells add five points; twelve cells add forty.
pub proof fn lemma_score_formula(b: &Board, p: Seq<u8>)
    ensures
        p.len() <= 4 ==> path_score(b, p) == points_of(b.points@, p) * mult_of(b.word_mults@, p),
        p.len() == 5 ==> path_score(b, p) == points_of(b.points@, p) * mult_of(b.word_mults@, p) + 5,
        p.len() == MAX_WORD_LEN ==> path_score(b, p) == points_of(b.points@, p) * mult_of(
            b.word_mults@,
            p,
        ) + MAX_LEN_BONUS,
{
}

/// The multiplier product of a path takes the factor of each of its cells
/// once: dropping the cell at `i` divides out exactly that cell's factor.
pub proof fn lemma_mult_of_remove(mults: Seq<u8>, p: Seq<u8>, i: int)
    requires
        0 <= i < p.len(),
    ensures
        mult_of(mults, p) == mult_of(mults, p.remove(i)) * mults[p[i] as int],
    decreases p.len(),
{
    let t = p.drop_last();
    if i == p.len() - 1 {
        assert(p.remove(i) =~= t);
    } else {
        lemma_mult_of_remove(mults, t, i);
        assert(p.remove(i).drop_last() =~= t.remove(i));
        assert(p.remove(i).last() == p.last());
        let a = mult_of(mults, t.remove(i));
        let x = mults[t[i] as int] as int;
        let y = mults[p.last() as int] as int;
        assert(a * x * y == a * y * x) by (nonlinear_arith);
    }
}

/// A path whose cells all have multiplier one but one cell of multiplier
/// three has multiplier product three.
pub proof fn lemma_single_triple(mults: Seq<u8>, p: Seq<u8>, i: int)
    requires
        0 <= i < p.len(),
        mults[p[i] as int] == 3,
        forall|k: int| 0 <= k < p.len() && k != i ==> mults[#[trigger] p[k] as int] == 1,
    ensures
        mult_of(mults, p) == 3,
{
    lemma_mult_of_remove(mults, p, i);
    lemma_mult_of_ones(mults, p.remove(i));
}

proof fn lemma_mult_of_ones(mults: Seq<u8>, p: Seq<u8>)
    requires
        forall|k: int| 0 <= k < p.len() ==> mults[#[trigger] p[k] as int] == 1,
    ensures
        mult_of(mults, p) == 1,
    decreases p.len(),
{
    if p.len() > 0 {
        let t = p.drop_last();
        assert(mults[p[p.len() - 1] as int] == 1);
        assert forall|k: int| 0 <= k < t.len() implies mults[#[trigger] t[k] as int] == 1 by {
            assert(t[k] == p[k]);
        }
        lemma_mult_of_ones(mults, t);
        assert(mult_of(mults, p) == mult_of(mults, t) * mults[p.last() as int]);
        assert(p.last() == p[p.len() - 1]);
    }
}

/// Two searches on equal inputs report the same set of entries: the found
/// entries depend on the contents of the board, the lexicon and the graph
/// alone, and each result holds exactly them.
pub proof fn lemma_search_deterministic(
    b1: &Board,
    b2: &Board,
    m: LexiconModel,
    g: Seq<Seq<u8>>,
    r1: Seq<WordEntry>,
    r2: Seq<WordEntry>,
)
    requires
        b1.n == b2.n,
        b1.letters@ == b2.letters@,
        b1.points@ == b2.points@,
        b1.word_mults@ == b2.word_mults@,
        r1.to_set() == found_entries(b1, m, g),
        r2.to_set() == found_entries(b2, m, g),
    ensures
        r1.to_set() == r2.to_set(),
{
    assert forall|p: Seq<u8>| is_found(b1, m, g, p) == is_found(b2, m, g, p) && entry_of(b1, p)
        == entry_of(b2, p) by {}
    assert(found_entries(b1, m, g) =~= found_entries(b2, m, g));
}

} // verus!
