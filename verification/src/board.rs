use vstd::prelude::*;

verus! {

/// Side length of the square board.
pub const TABLE_SIZE: usize = 5;

/// Letter shown on a cell that the board text never filled.
pub const EMPTY: char = '_';

/// The letter of one board cell.
#[derive(Clone, Copy, Debug)]
pub struct CharCell {
    pub chr: char,
}

impl CharCell {
    pub fn new(chr: char) -> (cell: CharCell)
        ensures
            cell.chr == chr,
    {
        CharCell { chr }
    }

    pub fn get_char(self) -> (c: char)
        ensures
            c == self.chr,
    {
        self.chr
    }

    pub fn set_char(&mut self, chr: char)
        ensures
            final(self).chr == chr,
    {
        self.chr = chr;
    }
}

/// The bonuses a cell can carry, each one bit of a cell's state byte.
#[derive(Clone, Copy, Debug, PartialEq, Eq, Structural)]
pub enum StateConfig {
    HasDiamonds,
    DoublePoint,
    DoubleScore,
    TriplePoint,
}

impl StateConfig {
    /// The bit of the state byte that holds this bonus.
    pub open spec fn mask(self) -> u8 {
        match self {
            StateConfig::HasDiamonds => 0x10,
            StateConfig::DoublePoint => 0x20,
            StateConfig::DoubleScore => 0x40,
            StateConfig::TriplePoint => 0x80,
        }
    }

    pub fn bit(self) -> (b: u8)
        ensures
            b == self.mask(),
    {
        match self {
            StateConfig::HasDiamonds => 0x10,
            StateConfig::DoublePoint => 0x20,
            StateConfig::DoubleScore => 0x40,
            StateConfig::TriplePoint => 0x80,
        }
    }
}

/// The bonus flags of one board cell, packed in a byte.
#[derive(Clone, Copy, Debug)]
pub struct StateCell {
    pub state: u8,
}

/// The byte that holds exactly the given flags.
pub open spec fn flags_byte(has_diamonds: bool, double_point: bool, double_score: bool, triple_point: bool) -> u8 {
    ((if has_diamonds { 0x10int } else { 0 }) + (if double_point { 0x20int } else { 0 }) + (
    if double_score { 0x40int } else { 0 }) + (if triple_point { 0x80int } else { 0 })) as u8
}

proof fn lemma_flag_bits(s: u8)
    ensures
        (s | 0x10u8) & 0x10u8 != 0,
        (s | 0x20u8) & 0x20u8 != 0,
        (s | 0x40u8) & 0x40u8 != 0,
        (s | 0x80u8) & 0x80u8 != 0,
        ((s | 0x10u8) & 0x20u8 != 0) == (s & 0x20u8 != 0),
        ((s | 0x10u8) & 0x40u8 != 0) == (s & 0x40u8 != 0),
        ((s | 0x10u8) & 0x80u8 != 0) == (s & 0x80u8 != 0),
        ((s | 0x20u8) & 0x10u8 != 0) == (s & 0x10u8 != 0),
        ((s | 0x20u8) & 0x40u8 != 0) == (s & 0x40u8 != 0),
        ((s | 0x20u8) & 0x80u8 != 0) == (s & 0x80u8 != 0),
        ((s | 0x40u8) & 0x10u8 != 0) == (s & 0x10u8 != 0),
        ((s | 0x40u8) & 0x20u8 != 0) == (s & 0x20u8 != 0),
        ((s | 0x40u8) & 0x80u8 != 0) == (s & 0x80u8 != 0),
        ((s | 0x80u8) & 0x10u8 != 0) == (s & 0x10u8 != 0),
        ((s | 0x80u8) & 0x20u8 != 0) == (s & 0x20u8 != 0),
        ((s | 0x80u8) & 0x40u8 != 0) == (s & 0x40u8 != 0),
{
    assert((s | 0x10u8) & 0x10u8 != 0) by (bit_vector);
    assert((s | 0x20u8) & 0x20u8 != 0) by (bit_vector);
    assert((s | 0x40u8) & 0x40u8 != 0) by (bit_vector);
    assert((s | 0x80u8) & 0x80u8 != 0) by (bit_vector);
    assert(((s | 0x10u8) & 0x20u8 != 0) == (s & 0x20u8 != 0)) by (bit_vector);
    assert(((s | 0x10u8) & 0x40u8 != 0) == (s & 0x40u8 != 0)) by (bit_vector);
    assert(((s | 0x10u8) & 0x80u8 != 0) == (s & 0x80u8 != 0)) by (bit_vector);
    assert(((s | 0x20u8) & 0x10u8 != 0) == (s & 0x10u8 != 0)) by (bit_vector);
    assert(((s | 0x20u8) & 0x40u8 != 0) == (s & 0x40u8 != 0)) by (bit_vector);
    assert(((s | 0x20u8) & 0x80u8 != 0) == (s & 0x80u8 != 0)) by (bit_vector);
    assert(((s | 0x40u8) & 0x10u8 != 0) == (s & 0x10u8 != 0)) by (bit_vector);
    assert(((s | 0x40u8) & 0x20u8 != 0) == (s & 0x20u8 != 0)) by (bit_vector);
    assert(((s | 0x40u8) & 0x80u8 != 0) == (s & 0x80u8 != 0)) by (bit_vector);
    assert(((s | 0x80u8) & 0x10u8 != 0) == (s & 0x10u8 != 0)) by (bit_vector);
    assert(((s | 0x80u8) & 0x20u8 != 0) == (s & 0x20u8 != 0)) by (bit_vector);
    assert(((s | 0x80u8) & 0x40u8 != 0) == (s & 0x40u8 != 0)) by (bit_vector);
}

impl StateCell {
    /// Whether the cell carries the given bonus.
    pub open spec fn has(self, config: StateConfig) -> bool {
        self.state & config.mask() != 0
    }

    /// The letter multiplier of the cell: double point wins over triple point.
    pub open spec fn rate(self) -> i32 {
        if self.has(StateConfig::DoublePoint) {
            2
        } else if self.has(StateConfig::TriplePoint) {
            3
        } else {
            1
        }
    }

    pub fn new(has_diamonds: bool, double_point: bool, double_score: bool, triple_point: bool) -> (cell: StateCell)
        ensures
            cell.state == flags_byte(has_diamonds, double_point, double_score, triple_point),
            cell.has(StateConfig::HasDiamonds) == has_diamonds,
            cell.has(StateConfig::DoublePoint) == double_point,
            cell.has(StateConfig::DoubleScore) == double_score,
            cell.has(StateConfig::TriplePoint) == triple_point,
    {
        let mut state: u8 = 0;
        if double_point {
            state = state | StateConfig::DoublePoint.bit();
        }
        let ghost s1 = state;
        if double_score {
            state = state | StateConfig::DoubleScore.bit();
        }
        let ghost s2 = state;
        if triple_point {
            state = state | StateConfig::TriplePoint.bit();
        }
        let ghost s3 = state;
        if has_diamonds {
            state = state | StateConfig::HasDiamonds.bit();
        }
        let b0 = has_diamonds;
        let b1 = double_point;
        let b2 = double_score;
        let b3 = triple_point;
        assert(state == flags_byte(b0, b1, b2, b3) && (state & 0x10u8 != 0) == b0 && (state & 0x20u8
            != 0) == b1 && (state & 0x40u8 != 0) == b2 && (state & 0x80u8 != 0) == b3) by (bit_vector)
            requires
                s1 == (if b1 { 0u8 | 0x20u8 } else { 0u8 }),
                s2 == (if b2 { s1 | 0x40u8 } else { s1 }),
                s3 == (if b3 { s2 | 0x80u8 } else { s2 }),
                state == (if b0 { s3 | 0x10u8 } else { s3 }),
        ;
        StateCell { state }
    }

    pub fn get_config(self, config: StateConfig) -> (b: bool)
        ensures
            b == self.has(config),
    {
        self.state & config.bit() != 0
    }

    pub fn set_config(&mut self, config: StateConfig)
        ensures
            final(self).state == old(self).state | config.mask(),
            final(self).has(config),
            forall|other: StateConfig|
                other != config ==> final(self).has(other) == old(self).has(other),
    {
        proof {
            lemma_flag_bits(self.state);
        }
        self.state = self.state | config.bit();
    }

    pub fn get_rate(self) -> (rate: i32)
        ensures
            rate == self.rate(),
    {
        if self.get_config(StateConfig::DoublePoint) {
            2
        } else if self.get_config(StateConfig::TriplePoint) {
            3
        } else {
            1
        }
    }
}

/// One board cell: its letter and its bonuses.
#[derive(Clone, Copy, Debug)]
pub struct TableCell {
    pub char_cell: CharCell,
    pub state_cell: StateCell,
}

/// The board, indexed by row and then column.
pub type Table = [[TableCell; TABLE_SIZE]; TABLE_SIZE];

/// The cell at position `row * 5 + column`.
pub open spec fn cell_at(tbl: Table, pos: int) -> TableCell {
    tbl[pos / 5][pos % 5]
}

/// The letter at position `row * 5 + column`.
pub open spec fn letter_at(tbl: Table, pos: int) -> char {
    cell_at(tbl, pos).char_cell.chr
}

/// The letter at `(row, column)`.
pub fn get_letter(tbl: &Table, x: usize, y: usize) -> (c: char)
    requires
        x < TABLE_SIZE,
        y < TABLE_SIZE,
    ensures
        c == letter_at(*tbl, x * 5 + y),
{
    assert((x * 5 + y) / 5 == x && (x * 5 + y) % 5 == y) by (nonlinear_arith)
        requires
            x < 5,
            y < 5,
    ;
    tbl[x][y].char_cell.get_char()
}

/// Replaces the cell at `(x, y)`.
pub fn set_cell(tbl: &mut Table, x: usize, y: usize, cell: TableCell)
    requires
        x < TABLE_SIZE,
        y < TABLE_SIZE,
    ensures
        forall|pos: int|
            0 <= pos < 25 ==> #[trigger] cell_at(*final(tbl), pos) == if pos == x * 5 + y {
                cell
            } else {
                cell_at(*old(tbl), pos)
            },
{
    let mut row = tbl[x];
    row[y] = cell;
    tbl[x] = row;
    assert forall|pos: int| 0 <= pos < 25 implies #[trigger] cell_at(*tbl, pos) == if pos == x * 5 + y {
        cell
    } else {
        cell_at(*old(tbl), pos)
    } by {
        if pos != x * 5 + y {
            assert(pos / 5 != x || pos % 5 != y);
        }
    }
}

/// `Ok` exactly when both coordinates lie on the board.
pub fn overflow_check(vec_: (isize, isize)) -> (r: Result<(), ()>)
    ensures
        r is Ok <==> (0 <= vec_.0 < TABLE_SIZE && 0 <= vec_.1 < TABLE_SIZE),
{
    let (x, y) = vec_;
    if x < 0 || TABLE_SIZE <= x as usize {
        return Err(());
    }
    if y < 0 || TABLE_SIZE <= y as usize {
        return Err(());
    }
    return Ok(());
}

} // verus!
