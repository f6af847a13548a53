//! The board: the letter, the point value and the word multiplier of every
//! cell of an `n` by `n` grid, row-major.
use vstd::prelude::*;
use crate::codec::MAX_GRID_SIZE;
use vstd::utf8::encode_utf8;

verus! {

/// Largest word multiplier of a cell.
pub const MAX_WORD_MULT: u8 = 3;

/// Letter codes, point values and word multipliers of the cells.
pub struct Board {
    pub n: usize,
    pub letters: Vec<u8>,
    pub points: Vec<u8>,
    pub word_mults: Vec<u8>,
}

impl Board {
    /// Number of cells.
    pub open spec fn cells(&self) -> nat {
        (self.n * self.n) as nat
    }

    /// The grid is one to four cells wide, every array has one entry per
    /// cell, letters are codes `1..=26` and word multipliers are `1..=3`.
    pub open spec fn wf(&self) -> bool {
        &&& 1 <= self.n <= MAX_GRID_SIZE
        &&& self.letters@.len() == self.cells()
        &&& self.points@.len() == self.cells()
        &&& self.word_mults@.len() == self.cells()
        &&& forall|i: int| 0 <= i < self.cells() ==> 1 <= #[trigger] self.letters@[i] <= 26
        &&& forall|i: int| 0 <= i < self.cells() ==> 1 <= #[trigger] self.word_mults@[i] <= MAX_WORD_MULT
    }

    /// A board from its per-cell arrays.
    pub fn new(n: usize, letters: Vec<u8>, points: Vec<u8>, word_mults: Vec<u8>) -> (b: Board)
        requires
            1 <= n <= MAX_GRID_SIZE,
            letters@.len() == n * n,
            points@.len() == n * n,
            word_mults@.len() == n * n,
            forall|i: int| 0 <= i < n * n ==> 1 <= #[trigger] letters@[i] <= 26,
            forall|i: int| 0 <= i < n * n ==> 1 <= #[trigger] word_mults@[i] <= MAX_WORD_MULT,
        ensures
            b.wf(),
            b.n == n,
            b.letters@ == letters@,
            b.points@ == points@,
            b.word_mults@ == word_mults@,
    {
        Board { n, letters, points, word_mults }
    }
}

/// Why a textual board was refused.
#[derive(Clone, Copy, PartialEq, Eq, Structural, Debug)]
pub enum BoardError {
    /// The text holds fewer than two symbols per cell.
    TooFewSymbols,
    /// A symbol that counts is not in the board alphabet.
    UnknownSymbol,
    /// A cell of the letter grid holds a marker instead of a letter.
    NotALetter,
}

/// Code of a byte of the board alphabet: `A`..`Z` are `1..=26`, the word
/// markers `2` and `3` are 27 and 28, the blank marker `-` is 29.
pub open spec fn symbol_code(b: u8) -> Option<u8> {
    if 65 <= b <= 90 {
        Some((b - 64) as u8)
    } else if b == 50 {
        Some(27)
    } else if b == 51 {
        Some(28)
    } else if b == 45 {
        Some(29)
    } else {
        None
    }
}

fn code_of_symbol(b: u8) -> (r: Option<u8>)
    ensures
        r == symbol_code(b),
{
    if 65 <= b && b <= 90 {
        Some(b - 64)
    } else if b == 50 {
        Some(27)
    } else if b == 51 {
        Some(28)
    } else if b == 45 {
        Some(29)
    } else {
        None
    }
}

/// The bytes of `s` other than spaces.
pub open spec fn non_space(s: Seq<u8>) -> Seq<u8>
    decreases s.len(),
{
    if s.len() == 0 {
        Seq::empty()
    } else if s.last() == 32 {
        non_space(s.drop_last())
    } else {
        non_space(s.drop_last()).push(s.last())
    }
}

/// The symbols of the lines, in order: every byte but the spaces.
pub open spec fn board_symbols(lines: Seq<String>) -> Seq<u8>
    decreases lines.len(),
{
    if lines.len() == 0 {
        Seq::empty()
    } else {
        board_symbols(lines.drop_last()) + non_space(encode_utf8(lines.last()@))
    }
}

/// The first `count` symbols are all in the alphabet.
pub open spec fn symbols_known(syms: Seq<u8>, count: int) -> bool {
    forall|t: int| 0 <= t < count ==> (#[trigger] symbol_code(syms[t])) is Some
}

/// The codes of the `count` symbols from `start` on.
pub open spec fn codes_from(syms: Seq<u8>, start: int, count: nat) -> Seq<u8> {
    Seq::new(count, |t: int| symbol_code(syms[start + t])->0)
}

/// Reads the symbols of the board text, spaces left out and lines joined:
/// the first `n * n` are the letter codes of the cells, the next `n * n`
/// their marker codes. Symbols after these do not count.
pub fn parse_board_symbols(raw_board: &Vec<String>, n: usize) -> (r: Result<
    (Vec<u8>, Vec<u8>),
    BoardError,
>)
    requires
        1 <= n <= MAX_GRID_SIZE,
    ensures
        board_symbols(raw_board@).len() < 2 * n * n <==> r == Err::<(Vec<u8>, Vec<u8>), BoardError>(
            BoardError::TooFewSymbols,
        ),
        board_symbols(raw_board@).len() >= 2 * n * n && !symbols_known(
            board_symbols(raw_board@),
            2 * n * n,
        ) <==> r == Err::<(Vec<u8>, Vec<u8>), BoardError>(BoardError::UnknownSymbol),
        r is Err ==> r != Err::<(Vec<u8>, Vec<u8>), BoardError>(BoardError::NotALetter),
        r matches Ok((letters, marks)) ==> letters@ == codes_from(
            board_symbols(raw_board@),
            0,
            (n * n) as nat,
        ) && marks@ == codes_from(board_symbols(raw_board@), n * n, (n * n) as nat),
{
    let mut syms: Vec<u8> = Vec::new();
    let mut i: usize = 0;
    while i < raw_board.len()
        invariant
            i <= raw_board@.len(),
            syms@ == board_symbols(raw_board@.take(i as int)),
        decreases raw_board@.len() - i,
    {
        let bytes = raw_board[i].as_str().as_bytes();
        let ghost line = encode_utf8(raw_board@[i as int]@);
        assert(bytes@ == line);
        let mut k: usize = 0;
        while k < bytes.len()
            invariant
                k <= bytes@.len(),
                bytes@ == line,
                syms@ == board_symbols(raw_board@.take(i as int)) + non_space(line.take(k as int)),
            decreases bytes@.len() - k,
        {
            proof {
                assert(line.take(k + 1).drop_last() =~= line.take(k as int));
            }
            if bytes[k] != 32 {
                syms.push(bytes[k]);
                proof {
                    assert(syms@ =~= board_symbols(raw_board@.take(i as int)) + non_space(
                        line.take(k + 1),
                    ));
                }
            }
            k += 1;
        }
        proof {
            assert(line.take(k as int) =~= line);
            assert(raw_board@.take(i + 1).drop_last() =~= raw_board@.take(i as int));
        }
        i += 1;
    }
    proof {
        assert(raw_board@.take(i as int) =~= raw_board@);
    }
    let ghost all = syms@;
    assert(n * n <= 16) by (nonlinear_arith)
        requires
            n <= 4,
    ;
    let cells = n * n;
    assert(2 * cells == 2 * n * n) by (nonlinear_arith)
        requires
            cells == n * n,
    ;
    if syms.len() < 2 * cells {
        return Err(BoardError::TooFewSymbols);
    }
    let mut letters: Vec<u8> = Vec::new();
    let mut marks: Vec<u8> = Vec::new();
    let mut t: usize = 0;
    while t < 2 * cells
        invariant
            cells == n * n,
            cells <= 16,
            2 * cells == 2 * n * n,
            all == board_symbols(raw_board@),
            syms@ == all,
            all.len() >= 2 * cells,
            t <= 2 * cells,
            symbols_known(all, t as int),
            t <= cells ==> letters@ == codes_from(all, 0, t as nat) && marks@.len() == 0,
            t > cells ==> letters@ == codes_from(all, 0, cells as nat) && marks@ == codes_from(
                all,
                cells as int,
                (t - cells) as nat,
            ),
        decreases 2 * cells - t,
    {
        match code_of_symbol(syms[t]) {
            None => {
                assert(symbol_code(all[t as int]) is None);
                return Err(BoardError::UnknownSymbol);
            },
            Some(code) => {
                if t < cells {
                    letters.push(code);
                    assert(letters@ =~= codes_from(all, 0, (t + 1) as nat));
                } else {
                    marks.push(code);
                    assert(marks@ =~= codes_from(all, cells as int, (t + 1 - cells) as nat));
                }
            },
        }
        t += 1;
    }
    Ok((letters, marks))
}

/// Word multiplier of a marker code: 2 for the marker `2`, 3 for `3`, else 1.
pub open spec fn word_mult_of(code: u8) -> u8 {
    if code == 27 {
        2
    } else if code == 28 {
        3
    } else {
        1
    }
}

/// Maps the marker codes of the cells to their word multipliers.
pub fn parse_word_mults_to_int_mults(word_mults: &Vec<u8>) -> (mults: Vec<u8>)
    ensures
        mults@ == word_mults@.map_values(|c: u8| word_mult_of(c)),
{
    let mut mults: Vec<u8> = Vec::new();
    let mut i: usize = 0;
    while i < word_mults.len()
        invariant
            i <= word_mults@.len(),
            mults@ == word_mults@.take(i as int).map_values(|c: u8| word_mult_of(c)),
        decreases word_mults@.len() - i,
    {
        let c = word_mults[i];
        let w: u8 = if c == 27 {
            2
        } else if c == 28 {
            3
        } else {
            1
        };
        mults.push(w);
        i += 1;
        assert(mults@ =~= word_mults@.take(i as int).map_values(|c: u8| word_mult_of(c)));
    }
    assert(word_mults@.take(i as int) =~= word_mults@);
    mults
}

/// Reads the board text: the letter codes of the cells and their word
/// multipliers, 2 for a `2` marker, 3 for a `3` marker and 1 otherwise.
pub fn parse_board_and_mults(raw_board: &Vec<String>, n: usize) -> (r: Result<
    (Vec<u8>, Vec<u8>),
    BoardError,
>)
    requires
        1 <= n <= MAX_GRID_SIZE,
    ensures
        board_symbols(raw_board@).len() < 2 * n * n <==> r == Err::<(Vec<u8>, Vec<u8>), BoardError>(
            BoardError::TooFewSymbols,
        ),
        board_symbols(raw_board@).len() >= 2 * n * n && !symbols_known(
            board_symbols(raw_board@),
            2 * n * n,
        ) <==> r == Err::<(Vec<u8>, Vec<u8>), BoardError>(BoardError::UnknownSymbol),
        r is Err ==> r != Err::<(Vec<u8>, Vec<u8>), BoardError>(BoardError::NotALetter),
        r matches Ok((letters, mults)) ==> letters@ == codes_from(
            board_symbols(raw_board@),
            0,
            (n * n) as nat,
        ) && mults@ == codes_from(board_symbols(raw_board@), n * n, (n * n) as nat).map_values(
            |c: u8| word_mult_of(c),
        ),
{
    match parse_board_symbols(raw_board, n) {
        Ok((letters, marks)) => {
            let mults = parse_word_mults_to_int_mults(&marks);
            Ok((letters, mults))
        },
        Err(e) => Err(e),
    }
}

/// Base point value of a letter code.
pub open spec fn letter_value(code: u8) -> u8 {
    match code {
        1 => 1,
        2 => 4,
        3 => 4,
        4 => 2,
        5 => 1,
        6 => 4,
        7 => 3,
        8 => 4,
        9 => 1,
        10 => 10,
        11 => 5,
        12 => 1,
        13 => 3,
        14 => 1,
        15 => 1,
        16 => 4,
        17 => 10,
        18 => 1,
        19 => 1,
        20 => 1,
        21 => 2,
        22 => 4,
        23 => 4,
        24 => 8,
        25 => 4,
        26 => 8,
        _ => 0,
    }
}

fn letter_value_of(code: u8) -> (v: u8)
    ensures
        v == letter_value(code),
        v <= 10,
{
    match code {
        1 => 1,
        2 => 4,
        3 => 4,
        4 => 2,
        5 => 1,
        6 => 4,
        7 => 3,
        8 => 4,
        9 => 1,
        10 => 10,
        11 => 5,
        12 => 1,
        13 => 3,
        14 => 1,
        15 => 1,
        16 => 4,
        17 => 10,
        18 => 1,
        19 => 1,
        20 => 1,
        21 => 2,
        22 => 4,
        23 => 4,
        24 => 8,
        25 => 4,
        26 => 8,
        _ => 0,
    }
}

/// Letter multiplier of a marker code: 2 for `D`, 3 for `T`, else 1.
pub open spec fn letter_mult_of(code: u8) -> u8 {
    if code == 4 {
        2
    } else if code == 20 {
        3
    } else {
        1
    }
}

/// The point value of every cell: the letter's value times the cell's
/// letter multiplier, read from the cell's marker code.
pub fn get_points(board: &Vec<u8>, word_mults: &Vec<u8>) -> (points: Vec<u8>)
    requires
        board@.len() == word_mults@.len(),
        all_letters(board@),
    ensures
        points@.len() == board@.len(),
        forall|i: int|
            0 <= i < board@.len() ==> #[trigger] points@[i] == letter_value(board@[i])
                * letter_mult_of(word_mults@[i]),
{
    let mut points: Vec<u8> = Vec::new();
    let mut i: usize = 0;
    while i < board.len()
        invariant
            board@.len() == word_mults@.len(),
            i <= board@.len(),
            points@.len() == i,
            forall|k: int|
                0 <= k < i ==> #[trigger] points@[k] == letter_value(board@[k]) * letter_mult_of(
                    word_mults@[k],
                ),
        decreases board@.len() - i,
    {
        let value = letter_value_of(board[i]);
        let mark = word_mults[i];
        let factor: u8 = if mark == 4 {
            2
        } else if mark == 20 {
            3
        } else {
            1
        };
        points.push(value * factor);
        i += 1;
    }
    points
}

/// Letters are codes `1..=26`.
pub open spec fn all_letters(codes: Seq<u8>) -> bool {
    forall|i: int| 0 <= i < codes.len() ==> 1 <= #[trigger] codes[i] <= 26
}

/// Builds the board from its text: letters, their point values with the
/// letter multipliers applied, and the word multipliers.
pub fn parse_board(raw_board: &Vec<String>, n: usize) -> (r: Result<Board, BoardError>)
    requires
        1 <= n <= MAX_GRID_SIZE,
    ensures
        board_symbols(raw_board@).len() < 2 * n * n <==> r == Err::<Board, BoardError>(
            BoardError::TooFewSymbols,
        ),
        board_symbols(raw_board@).len() >= 2 * n * n && !symbols_known(
            board_symbols(raw_board@),
            2 * n * n,
        ) <==> r == Err::<Board, BoardError>(BoardError::UnknownSymbol),
        board_symbols(raw_board@).len() >= 2 * n * n && symbols_known(
            board_symbols(raw_board@),
            2 * n * n,
        ) && !all_letters(codes_from(board_symbols(raw_board@), 0, (n * n) as nat)) <==> r
            == Err::<Board, BoardError>(BoardError::NotALetter),
        r matches Ok(b) ==> {
            let letters = codes_from(board_symbols(raw_board@), 0, (n * n) as nat);
            let marks = codes_from(board_symbols(raw_board@), n * n, (n * n) as nat);
            &&& b.wf()
            &&& b.n == n
            &&& b.letters@ == letters
            &&& b.word_mults@ == marks.map_values(|c: u8| word_mult_of(c))
            &&& forall|i: int|
                0 <= i < n * n ==> #[trigger] b.points@[i] == letter_value(letters[i])
                    * letter_mult_of(marks[i])
        },
{
    let (letters, marks) = match parse_board_symbols(raw_board, n) {
        Ok(parsed) => parsed,
        Err(e) => {
            return Err(e);
        },
    };
    let mut i: usize = 0;
    while i < letters.len()
        invariant
            i <= letters@.len(),
            forall|k: int| 0 <= k < i ==> 1 <= #[trigger] letters@[k] <= 26,
            letters@ == codes_from(board_symbols(raw_board@), 0, (n * n) as nat),
            board_symbols(raw_board@).len() >= 2 * n * n,
            symbols_known(board_symbols(raw_board@), 2 * n * n),
        decreases letters@.len() - i,
    {
        if letters[i] < 1 || letters[i] > 26 {
            assert(!all_letters(letters@));
            return Err(BoardError::NotALetter);
        }
        i += 1;
    }
    let points = get_points(&letters, &marks);
    let word_mults = parse_word_mults_to_int_mults(&marks);
    proof {
        assert forall|k: int| 0 <= k < n * n implies 1 <= #[trigger] word_mults@[k] <= MAX_WORD_MULT by {
            assert(word_mults@[k] == word_mult_of(marks@[k]));
        }
    }
    Ok(Board::new(n, letters, points, word_mults))
}

} // verus!
