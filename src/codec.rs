//! Packing of letter sequences and cell paths into 64-bit integers, and back.
use vstd::prelude::*;
use vstd::string::StringSliceAdditionalSpecFns;

verus! {

/// Longest word the packed representation holds.
pub const MAX_WORD_LEN: usize = 12;

/// Flag bit set in every step of a packed path.
pub const PATH_FLAG: u64 = 16;

/// The integer that packs the letter codes `s`, first letter in the highest bits.
pub open spec fn pack_word(s: Seq<u8>) -> nat
    decreases s.len(),
{
    if s.len() == 0 {
        0
    } else {
        pack_word(s.drop_last()) * 32 + s.last() as nat
    }
}

/// The letter codes read back from `w`: at most `budget` groups of five bits,
/// from the low end, stopping at the first zero group.
pub open spec fn unpack_word(w: nat, budget: nat) -> Seq<u8>
    decreases budget,
{
    if budget == 0 || w % 32 == 0 {
        Seq::empty()
    } else {
        unpack_word(w / 32, (budget - 1) as nat).push((w % 32) as u8)
    }
}

/// Every code of `s` is a letter code: nonzero and five bits wide.
pub open spec fn codes_in_range(s: Seq<u8>) -> bool {
    forall|i: int| 0 <= i < s.len() ==> 1 <= #[trigger] s[i] < 32
}

pub proof fn lemma_pack_word_bound(s: Seq<u8>)
    requires
        forall|i: int| 0 <= i < s.len() ==> #[trigger] s[i] < 32,
    ensures
        pack_word(s) < pow32(s.len()),
    decreases s.len(),
{
    if s.len() > 0 {
        let t = s.drop_last();
        assert forall|i: int| 0 <= i < t.len() implies #[trigger] t[i] < 32 by {
            assert(t[i] == s[i]);
        }
        lemma_pack_word_bound(t);
        let a = pack_word(t);
        let b = pow32(t.len());
        assert(a * 32 + s.last() < b * 32) by (nonlinear_arith)
            requires
                a < b,
                s.last() < 32,
        ;
    }
}

/// `32` raised to `k`.
pub open spec fn pow32(k: nat) -> nat
    decreases k,
{
    if k == 0 {
        1
    } else {
        32 * pow32((k - 1) as nat)
    }
}

proof fn lemma_shift_or(acc: u64, code: u64)
    requires
        acc < 0x800_0000_0000_0000,
        code < 32,
    ensures
        (acc << 5) | code == acc * 32 + code,
{
    assert((acc << 5) | code == acc * 32 + code) by (bit_vector)
        requires
            acc < 0x800_0000_0000_0000,
            code < 32,
    ;
}

/// Packs the letter codes `letters` into one integer: each code shifts the
/// accumulator five bits to the left and fills the low bits.
pub fn encode_word(letters: &[u8]) -> (w: u64)
    requires
        letters@.len() <= MAX_WORD_LEN,
        codes_in_range(letters@),
    ensures
        w == pack_word(letters@),
{
    let mut acc: u64 = 0;
    let mut i: usize = 0;
    while i < letters.len()
        invariant
            i <= letters@.len() <= MAX_WORD_LEN,
            codes_in_range(letters@),
            acc == pack_word(letters@.take(i as int)),
        decreases letters@.len() - i,
    {
        let ghost s = letters@.take(i as int);
        let ghost t = letters@.take(i + 1);
        proof {
            assert forall|k: int| 0 <= k < s.len() implies #[trigger] s[k] < 32 by {
                assert(s[k] == letters@[k]);
            }
            lemma_pack_word_bound(s);
            lemma_pow32_mono(s.len(), 11);
            lemma_pow32_values();
            lemma_shift_or(acc, letters@[i as int] as u64);
            assert(t.drop_last() =~= s);
        }
        acc = (acc << 5) | (letters[i] as u64);
        i = i + 1;
    }
    proof {
        assert(letters@.take(i as int) =~= letters@);
    }
    acc
}

pub proof fn lemma_pow32_values()
    ensures
        pow32(11) == 0x80_0000_0000_0000,
        pow32(12) == 0x1000_0000_0000_0000,
{
    assert(pow32(0) == 1);
    assert(pow32(1) == 32);
    assert(pow32(2) == 1024);
    assert(pow32(3) == 32768);
    assert(pow32(4) == 1048576);
    assert(pow32(5) == 33554432);
    assert(pow32(6) == 1073741824);
    assert(pow32(7) == 34359738368);
    assert(pow32(8) == 1099511627776);
    assert(pow32(9) == 35184372088832);
    assert(pow32(10) == 1125899906842624);
}

pub proof fn lemma_pow32_mono(a: nat, b: nat)
    requires
        a <= b,
    ensures
        pow32(a) <= pow32(b),
    decreases b,
{
    if a < b {
        lemma_pow32_mono(a, (b - 1) as nat);
    }
}

/// Reading back a packed word gives the letters that were packed, for every
/// sequence of one to twelve nonzero five-bit codes.
pub proof fn lemma_word_round_trip(s: Seq<u8>)
    requires
        s.len() <= MAX_WORD_LEN,
        codes_in_range(s),
    ensures
        unpack_word(pack_word(s), MAX_WORD_LEN as nat) == s,
{
    lemma_unpack_pack_word(s, MAX_WORD_LEN as nat);
}

proof fn lemma_unpack_pack_word(s: Seq<u8>, budget: nat)
    requires
        s.len() <= budget,
        codes_in_range(s),
    ensures
        unpack_word(pack_word(s), budget) == s,
    decreases s.len(),
{
    if s.len() > 0 {
        let t = s.drop_last();
        let w = pack_word(s);
        let a = pack_word(t);
        assert(codes_in_range(t)) by {
            assert forall|i: int| 0 <= i < t.len() implies 1 <= #[trigger] t[i] < 32 by {
                assert(t[i] == s[i]);
            }
        }
        assert(1 <= s.last() < 32);
        assert(w % 32 == s.last() && w / 32 == a) by {
            vstd::arithmetic::div_mod::lemma_fundamental_div_mod_converse(
                w as int,
                32,
                a as int,
                s.last() as int,
            );
        }
        lemma_unpack_pack_word(t, (budget - 1) as nat);
        assert(s =~= t.push(s.last()));
    }
}

/// ASCII byte of a board symbol code: `!` for the terminator, `A`..`Z` for
/// letters, then the markers `2` and `3`, and `-` for every higher code.
pub open spec fn symbol_byte(code: u8) -> u8 {
    if code == 0 {
        33
    } else if code <= 26 {
        (64 + code) as u8
    } else if code == 27 {
        50
    } else if code == 28 {
        51
    } else {
        45
    }
}

/// The ASCII bytes of the codes `s`.
pub open spec fn symbol_bytes(s: Seq<u8>) -> Seq<u8> {
    s.map_values(|c: u8| symbol_byte(c))
}

fn symbol_to_byte(code: u8) -> (b: u8)
    ensures
        b == symbol_byte(code),
{
    if code == 0 {
        33
    } else if code <= 26 {
        64 + code
    } else if code == 27 {
        50
    } else if code == 28 {
        51
    } else {
        45
    }
}

proof fn lemma_low_bits(x: u64)
    ensures
        x & 31 == x % 32,
        x >> 5 == x / 32,
        x & 16 == 16 <==> x % 32 >= 16,
        x & 15 == x % 16,
{
    assert(x & 31 == x % 32) by (bit_vector);
    assert(x >> 5 == x / 32) by (bit_vector);
    assert(x & 16 == 16 <==> x % 32 >= 16) by (bit_vector);
    assert(x & 15 == x % 16) by (bit_vector);
}

/// Writes the codes of the packed word `w` right-aligned into `buf` and
/// returns the index of the first one; the bytes before it are left alone.
fn unpack_codes(w: u64, buf: &mut [u8; 12]) -> (max_bit: usize)
    ensures
        max_bit <= MAX_WORD_LEN,
        final(buf)@.subrange(max_bit as int, 12) == unpack_word(w as nat, MAX_WORD_LEN as nat),
        final(buf)@.subrange(0, max_bit as int) == old(buf)@.subrange(0, max_bit as int),
{
    let ghost full = unpack_word(w as nat, MAX_WORD_LEN as nat);
    let ghost mut done: Seq<u8> = Seq::empty();
    let mut rem = w;
    let mut max_bit: usize = 12;
    let mut go = true;
    while go && max_bit > 0
        invariant
            max_bit <= 12,
            buf@.len() == 12,
            full == unpack_word(w as nat, MAX_WORD_LEN as nat),
            go ==> full == unpack_word(rem as nat, max_bit as nat) + done,
            !go ==> full == done,
            buf@.subrange(max_bit as int, 12) == done,
            buf@.subrange(0, max_bit as int) == old(buf)@.subrange(0, max_bit as int),
        decreases max_bit as int + (if go { 1int } else { 0int }),
    {
        proof {
            lemma_low_bits(rem);
        }
        let val = (rem & 31) as u8;
        if val != 0 {
            let ghost rest = unpack_word((rem / 32) as nat, (max_bit - 1) as nat);
            proof {
                assert(unpack_word(rem as nat, max_bit as nat) == rest.push(val));
                assert(rest.push(val) + done =~= rest + (seq![val] + done));
            }
            let ghost prev = buf@;
            max_bit -= 1;
            rem = rem >> 5;
            buf[max_bit] = val;
            proof {
                done = seq![val] + done;
                assert(buf@ == prev.update(max_bit as int, val));
                assert forall|j: int| max_bit < j < 12 implies buf@[j] == done[j - max_bit] by {
                    assert(prev.subrange(max_bit + 1, 12)[j - max_bit - 1] == prev[j]);
                }
                assert(buf@.subrange(max_bit as int, 12) =~= done);
                assert(buf@.subrange(0, max_bit as int) =~= prev.subrange(0, max_bit as int));
            }
        } else {
            proof {
                assert(unpack_word(rem as nat, max_bit as nat) == Seq::<u8>::empty());
                assert(full =~= done);
            }
            go = false;
        }
    }
    proof {
        if go {
            assert(unpack_word(rem as nat, 0) == Seq::<u8>::empty());
            assert(full =~= done);
        }
    }
    max_bit
}

/// Writes the symbols of the packed word `str_as_num` right-aligned into
/// `str_repr` and returns the index of the first one; the bytes before it are
/// left as they were.
pub fn parse_to_str_buf(str_as_num: u64, str_repr: &mut [u8; 12]) -> (max_bit: usize)
    ensures
        max_bit <= MAX_WORD_LEN,
        final(str_repr)@.subrange(max_bit as int, 12) == symbol_bytes(
            unpack_word(str_as_num as nat, MAX_WORD_LEN as nat),
        ),
        final(str_repr)@.subrange(0, max_bit as int) == old(str_repr)@.subrange(0, max_bit as int),
{
    let ghost full = unpack_word(str_as_num as nat, MAX_WORD_LEN as nat);
    let max_bit = unpack_codes(str_as_num, str_repr);
    assert(full.len() == 12 - max_bit) by {
        assert(str_repr@.subrange(max_bit as int, 12).len() == 12 - max_bit);
    }
    let mut i: usize = max_bit;
    while i < 12
        invariant
            max_bit <= i <= 12,
            str_repr@.len() == 12,
            full == unpack_word(str_as_num as nat, MAX_WORD_LEN as nat),
            full.len() == 12 - max_bit,
            forall|j: int| max_bit <= j < i ==> str_repr@[j] == symbol_byte(#[trigger] full[j - max_bit]),
            forall|j: int| i <= j < 12 ==> str_repr@[j] == #[trigger] full[j - max_bit],
            str_repr@.subrange(0, max_bit as int) == old(str_repr)@.subrange(0, max_bit as int),
        decreases 12 - i,
    {
        let ghost prev = str_repr@;
        assert(str_repr@[i as int] == full[i - max_bit]);
        let b = symbol_to_byte(str_repr[i]);
        str_repr[i] = b;
        proof {
            assert(str_repr@.subrange(0, max_bit as int) =~= prev.subrange(0, max_bit as int));
        }
        i += 1;
    }
    assert forall|k: int| 0 <= k < full.len() implies str_repr@.subrange(max_bit as int, 12)[k]
        == symbol_bytes(full)[k] by {
        assert(str_repr@[k + max_bit] == symbol_byte(full[k + max_bit - max_bit]));
    }
    assert(str_repr@.subrange(max_bit as int, 12) =~= symbol_bytes(full));
    max_bit
}

/// The letter codes of the packed word `word`, first letter first: at most
/// twelve, read up to the first zero group.
pub fn decode_word(word: u64) -> (letters: Vec<u8>)
    ensures
        letters@ == unpack_word(word as nat, MAX_WORD_LEN as nat),
{
    let mut buf = [0u8; 12];
    let max_bit = unpack_codes(word, &mut buf);
    let mut letters: Vec<u8> = Vec::new();
    let mut i: usize = max_bit;
    while i < 12
        invariant
            max_bit <= i <= 12,
            buf@.len() == 12,
            buf@.subrange(max_bit as int, 12) == unpack_word(word as nat, MAX_WORD_LEN as nat),
            letters@ == buf@.subrange(max_bit as int, i as int),
        decreases 12 - i,
    {
        letters.push(buf[i]);
        i += 1;
        assert(letters@ =~= buf@.subrange(max_bit as int, i as int));
    }
    letters
}

/// Every byte of `bytes` is an upper-case ASCII letter.
pub open spec fn upper_letters(bytes: Seq<u8>) -> bool {
    forall|i: int| 0 <= i < bytes.len() ==> 65 <= #[trigger] bytes[i] <= 90
}

/// Letter codes of upper-case ASCII letters: `A` is 1, `Z` is 26.
pub open spec fn letter_codes(bytes: Seq<u8>) -> Seq<u8> {
    bytes.map_values(|b: u8| (b - 64) as u8)
}

/// Packs a word of at most twelve letters `A`..`Z`; any other text gives
/// `None`.
pub fn encode_str(text: &str) -> (w: Option<u64>)
    ensures
        w == (if text.spec_bytes().len() <= MAX_WORD_LEN && upper_letters(text.spec_bytes()) {
            Some(pack_word(letter_codes(text.spec_bytes())) as u64)
        } else {
            None
        }),
{
    let bytes = text.as_bytes();
    if bytes.len() > MAX_WORD_LEN {
        return None;
    }
    let mut codes: Vec<u8> = Vec::new();
    let mut i: usize = 0;
    while i < bytes.len()
        invariant
            i <= bytes@.len() <= MAX_WORD_LEN,
            bytes@ == text.spec_bytes(),
            upper_letters(bytes@.take(i as int)),
            codes@ == letter_codes(bytes@.take(i as int)),
        decreases bytes@.len() - i,
    {
        let b = bytes[i];
        if b < 65 || b > 90 {
            assert(!upper_letters(bytes@));
            return None;
        }
        codes.push(b - 64);
        i += 1;
        assert(codes@ =~= letter_codes(bytes@.take(i as int)));
        assert(upper_letters(bytes@.take(i as int))) by {
            assert forall|k: int| 0 <= k < i implies 65 <= #[trigger] bytes@.take(i as int)[k] <= 90 by {
                if k < i - 1 {
                    assert(bytes@.take(i - 1)[k] == bytes@[k]);
                }
            }
        }
    }
    assert(bytes@.take(i as int) =~= bytes@);
    assert(codes_in_range(codes@));
    let w = encode_word(codes.as_slice());
    proof {
        lemma_pack_word_bound(codes@);
        lemma_pow32_mono(codes@.len(), 12);
        lemma_pow32_values();
    }
    Some(w)
}

/// Relies on `String::push`: appends one character.
#[verifier::external_body]
fn push_char(s: &mut String, c: char)
    ensures
        final(s)@ == old(s)@.push(c),
{
    s.push(c)
}

/// The text of the packed word `str_as_num`: one symbol per code.
pub fn parse_to_str(str_as_num: u64) -> (text: String)
    ensures
        text@ == symbol_bytes(unpack_word(str_as_num as nat, MAX_WORD_LEN as nat)).map_values(
            |b: u8| b as char,
        ),
{
    let mut str_repr = [33u8; 12];
    let max_bit = parse_to_str_buf(str_as_num, &mut str_repr);
    let ghost bytes = str_repr@.subrange(max_bit as int, 12);
    let mut text = String::new();
    let mut i: usize = max_bit;
    while i < 12
        invariant
            max_bit <= i <= 12,
            str_repr@.len() == 12,
            bytes == str_repr@.subrange(max_bit as int, 12),
            text@ == bytes.subrange(0, i - max_bit).map_values(|b: u8| b as char),
        decreases 12 - i,
    {
        push_char(&mut text, str_repr[i] as char);
        i += 1;
        assert(text@ =~= bytes.subrange(0, i - max_bit).map_values(|b: u8| b as char));
    }
    assert(bytes.subrange(0, 12 - max_bit) =~= bytes);
    text
}

/// The integer that packs the cell indices `p`: each step is the flag bit
/// followed by four bits of cell index, first cell in the highest bits.
pub open spec fn pack_path(p: Seq<u8>) -> nat
    decreases p.len(),
{
    if p.len() == 0 {
        0
    } else {
        pack_path(p.drop_last()) * 32 + 16 + p.last() as nat
    }
}

/// The cell indices read back from `w`, from the low end up to the first
/// step whose flag bit is clear, first cell first.
pub open spec fn unpack_path(w: nat) -> Seq<u8>
    decreases w,
{
    if w % 32 < 16 {
        Seq::empty()
    } else {
        unpack_path(w / 32).push((w % 32 - 16) as u8)
    }
}

/// Every entry of `p` fits the four-bit cell field.
pub open spec fn cells_in_range(p: Seq<u8>) -> bool {
    forall|i: int| 0 <= i < p.len() ==> #[trigger] p[i] < 16
}

/// Row and column of cell `c` on a grid `n` cells wide.
pub open spec fn cell_coord(c: u8, n: nat) -> (u8, u8) {
    ((c as nat / n) as u8, (c as nat % n) as u8)
}

/// Cell index of the row and column `rc` on a grid `n` cells wide.
pub open spec fn coord_cell(rc: (u8, u8), n: nat) -> u8 {
    (rc.0 * n + rc.1) as u8
}

/// Rows and columns of the cells `p`.
pub open spec fn coords_of(p: Seq<u8>, n: nat) -> Seq<(u8, u8)> {
    p.map_values(|c: u8| cell_coord(c, n))
}

/// Cell indices of the rows and columns `s`.
pub open spec fn cells_of(s: Seq<(u8, u8)>, n: nat) -> Seq<u8> {
    s.map_values(|rc: (u8, u8)| coord_cell(rc, n))
}

/// Largest grid width: a cell index must fit four bits.
pub const MAX_GRID_SIZE: usize = 4;

pub proof fn lemma_pack_path_bound(p: Seq<u8>)
    requires
        cells_in_range(p),
    ensures
        pack_path(p) < pow32(p.len()),
    decreases p.len(),
{
    if p.len() > 0 {
        let t = p.drop_last();
        assert(cells_in_range(t)) by {
            assert forall|i: int| 0 <= i < t.len() implies #[trigger] t[i] < 16 by {
                assert(t[i] == p[i]);
            }
        }
        lemma_pack_path_bound(t);
        let a = pack_path(t);
        let b = pow32(t.len());
        assert(a * 32 + 16 + p.last() < b * 32) by (nonlinear_arith)
            requires
                a < b,
                p.last() < 16,
        ;
    }
}

/// Reading back a packed path gives the cells that were packed.
pub proof fn lemma_unpack_pack_path(p: Seq<u8>)
    requires
        cells_in_range(p),
    ensures
        unpack_path(pack_path(p)) == p,
    decreases p.len(),
{
    if p.len() > 0 {
        let t = p.drop_last();
        let w = pack_path(p);
        let a = pack_path(t);
        assert(cells_in_range(t)) by {
            assert forall|i: int| 0 <= i < t.len() implies #[trigger] t[i] < 16 by {
                assert(t[i] == p[i]);
            }
        }
        assert(p.last() < 16);
        assert(w % 32 == 16 + p.last() && w / 32 == a) by {
            vstd::arithmetic::div_mod::lemma_fundamental_div_mod_converse(
                w as int,
                32,
                a as int,
                16 + p.last() as int,
            );
        }
        lemma_unpack_pack_path(t);
        assert(p =~= t.push(p.last()));
    } else {
        assert(unpack_path(0) =~= p);
    }
}

/// Packing is one to one on cell sequences.
pub proof fn lemma_pack_path_injective(p: Seq<u8>, q: Seq<u8>)
    requires
        cells_in_range(p),
        cells_in_range(q),
        pack_path(p) == pack_path(q),
    ensures
        p == q,
{
    lemma_unpack_pack_path(p);
    lemma_unpack_pack_path(q);
}

/// Decoding an encoded coordinate path gives the coordinates back, for every
/// sequence of one to twelve positions on a grid of width one to four.
pub proof fn lemma_path_round_trip(s: Seq<(u8, u8)>, n: nat)
    requires
        1 <= n <= MAX_GRID_SIZE,
        s.len() <= MAX_WORD_LEN,
        forall|i: int| 0 <= i < s.len() ==> (#[trigger] s[i]).0 < n && s[i].1 < n,
    ensures
        coords_of(unpack_path(pack_path(cells_of(s, n))), n) == s,
{
    let p = cells_of(s, n);
    assert forall|i: int| 0 <= i < p.len() implies #[trigger] p[i] < 16 && cell_coord(p[i], n)
        == s[i] by {
        let r = s[i].0 as int;
        let c = s[i].1 as int;
        assert(r * n + c < 16) by (nonlinear_arith)
            requires
                0 <= r < n,
                0 <= c < n,
                n <= 4,
        ;
        assert(p[i] == r * n + c);
        vstd::arithmetic::div_mod::lemma_fundamental_div_mod_converse(
            p[i] as int,
            n as int,
            r,
            c,
        );
    }
    lemma_unpack_pack_path(p);
    assert(coords_of(p, n) =~= s);
}

/// Packs a sequence of grid positions into a path integer.
pub fn encode_path(coords: &[(u8, u8)], n: usize) -> (path: u64)
    requires
        1 <= n <= MAX_GRID_SIZE,
        coords@.len() <= MAX_WORD_LEN,
        forall|i: int| 0 <= i < coords@.len() ==> (#[trigger] coords@[i]).0 < n && coords@[i].1 < n,
    ensures
        path == pack_path(cells_of(coords@, n as nat)),
{
    let ghost p = cells_of(coords@, n as nat);
    let mut acc: u64 = 0;
    let mut i: usize = 0;
    while i < coords.len()
        invariant
            1 <= n <= MAX_GRID_SIZE,
            i <= coords@.len() <= MAX_WORD_LEN,
            forall|i: int| 0 <= i < coords@.len() ==> (#[trigger] coords@[i]).0 < n && coords@[i].1 < n,
            p == cells_of(coords@, n as nat),
            acc == pack_path(p.take(i as int)),
        decreases coords@.len() - i,
    {
        let (r, c) = coords[i];
        assert(r * n + c < 16) by (nonlinear_arith)
            requires
                r < n,
                c < n,
                n <= 4,
        ;
        let cell = (r as usize * n + c as usize) as u64;
        let ghost s = p.take(i as int);
        proof {
            assert(cells_in_range(s)) by {
                assert forall|k: int| 0 <= k < s.len() implies #[trigger] s[k] < 16 by {
                    let rk = coords@[k].0 as int;
                    let ck = coords@[k].1 as int;
                    assert(rk * n + ck < 16) by (nonlinear_arith)
                        requires
                            0 <= rk < n,
                            0 <= ck < n,
                            n <= 4,
                    ;
                    assert(s[k] == p[k]);
                }
            }
            lemma_pack_path_bound(s);
            lemma_pow32_mono(s.len(), 11);
            lemma_pow32_values();
            lemma_shift_or(acc, (16 + cell) as u64);
            assert(((acc << 5) | 16u64) | cell == (acc << 5) | ((16 + cell) as u64)) by (bit_vector)
                requires
                    cell < 16,
            ;
            assert(p.take(i + 1).drop_last() =~= s);
            assert(p[i as int] == cell);
        }
        acc = (acc << 5) | PATH_FLAG | cell;
        i = i + 1;
    }
    proof {
        assert(p.take(i as int) =~= p);
    }
    acc
}

proof fn lemma_path_steps_bound(x: u64, k: nat)
    requires
        x < pow32(k) * 16,
        x % 32 >= 16,
    ensures
        k >= 1,
        x / 32 < pow32((k - 1) as nat) * 16,
{
    if k == 0 {
        assert(false);
    } else {
        let b = pow32((k - 1) as nat);
        assert(x / 32 < b * 16) by (nonlinear_arith)
            requires
                x < 32 * b * 16,
        ;
    }
}

/// Writes the positions of the packed path `path_as_u64` right-aligned into
/// `buf` and returns the index of the first one; entries before it are left
/// as they were.
pub fn path_to_vec_buffered(path_as_u64: u64, buf: &mut [(u8, u8); 12], n: usize) -> (max_bit:
    usize)
    requires
        1 <= n,
    ensures
        max_bit <= MAX_WORD_LEN,
        final(buf)@.subrange(max_bit as int, 12) == coords_of(
            unpack_path(path_as_u64 as nat),
            n as nat,
        ),
        final(buf)@.subrange(0, max_bit as int) == old(buf)@.subrange(0, max_bit as int),
{
    let ghost full = unpack_path(path_as_u64 as nat);
    let ghost mut done: Seq<u8> = Seq::empty();
    let mut mut_path = path_as_u64;
    let mut max_bit: usize = 12;
    proof {
        lemma_pow32_values();
        lemma_low_bits(mut_path);
    }
    while mut_path & 16 == 16
        invariant
            1 <= n,
            max_bit <= 12,
            buf@.len() == 12,
            full == unpack_path(path_as_u64 as nat),
            full == unpack_path(mut_path as nat) + done,
            done.len() + max_bit == 12,
            (mut_path as nat) < pow32(max_bit as nat) * 16,
            buf@.subrange(max_bit as int, 12) == coords_of(done, n as nat),
            buf@.subrange(0, max_bit as int) == old(buf)@.subrange(0, max_bit as int),
        decreases mut_path,
    {
        proof {
            lemma_low_bits(mut_path);
            lemma_path_steps_bound(mut_path, max_bit as nat);
        }
        let cell = (mut_path & 15) as u8;
        let ghost rest = unpack_path((mut_path / 32) as nat);
        proof {
            assert(mut_path % 16 == mut_path % 32 - 16) by (nonlinear_arith)
                requires
                    mut_path % 32 >= 16,
            ;
            assert(unpack_path(mut_path as nat) == rest.push(cell));
            assert(rest.push(cell) + done =~= rest + (seq![cell] + done));
        }
        let ghost prev = buf@;
        let ghost prev_done = done;
        mut_path = mut_path >> 5;
        max_bit -= 1;
        assert(cell as usize % n <= cell) by (nonlinear_arith)
            requires
                n >= 1,
        ;
        assert(cell as usize / n <= cell) by (nonlinear_arith)
            requires
                n >= 1,
        ;
        buf[max_bit] = ((cell as usize / n) as u8, (cell as usize % n) as u8);
        proof {
            lemma_low_bits(mut_path);
            done = seq![cell] + done;
            assert(buf@ == prev.update(max_bit as int, cell_coord(cell, n as nat)));
            assert forall|j: int| max_bit < j < 12 implies buf@[j] == coords_of(done, n as nat)[j
                - max_bit] by {
                assert(prev.subrange(max_bit + 1, 12)[j - max_bit - 1] == prev[j]);
            }
            assert(buf@.subrange(max_bit as int, 12) =~= coords_of(done, n as nat));
            assert(buf@.subrange(0, max_bit as int) =~= prev.subrange(0, max_bit as int));
        }
    }
    proof {
        lemma_low_bits(mut_path);
        assert(unpack_path(mut_path as nat) == Seq::<u8>::empty());
        assert(full =~= done);
    }
    max_bit
}

/// The positions of the packed path `path_as_u64`, first cell first.
pub fn path_to_vec(path_as_u64: u64, n: usize) -> (coords: Vec<(u8, u8)>)
    requires
        1 <= n,
    ensures
        coords@ == coords_of(unpack_path(path_as_u64 as nat), n as nat),
{
    let mut path_repr = [(0u8, 0u8); 12];
    let max_bit = path_to_vec_buffered(path_as_u64, &mut path_repr, n);
    let mut coords: Vec<(u8, u8)> = Vec::new();
    let mut i: usize = max_bit;
    while i < 12
        invariant
            max_bit <= i <= 12,
            path_repr@.len() == 12,
            path_repr@.subrange(max_bit as int, 12) == coords_of(
                unpack_path(path_as_u64 as nat),
                n as nat,
            ),
            coords@ == path_repr@.subrange(max_bit as int, i as int),
        decreases 12 - i,
    {
        coords.push(path_repr[i]);
        i += 1;
        assert(coords@ =~= path_repr@.subrange(max_bit as int, i as int));
    }
    coords
}

} // verus!
