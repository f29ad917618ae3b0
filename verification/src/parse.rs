use vstd::prelude::*;
use vstd::string::*;

use crate::board::{cell_at, set_cell, CharCell, StateCell, StateConfig, TableCell, Table, EMPTY, TABLE_SIZE};
use crate::config::GameConfig;

verus! {

/// Why a board text was refused.
#[derive(Clone, Copy, Debug, PartialEq, Eq, Structural)]
pub enum ParseError {
    /// After the five board lines only digits (diamond points) and `d`
    /// (diamond mode) may follow.
    InvalidSetting,
    /// A bonus digit other than 0, 1, 2 or 3.
    InvalidBonus,
    /// A bonus digit before any letter.
    BonusWithoutCell,
    /// A line break where a row is not complete; `(x, y)` is where the next letter would go.
    ShortLine { x: usize, y: usize },
    /// A letter after all 25 cells are filled.
    BoardFull,
}

/// The value of a decimal digit character.
pub open spec fn digit_value(c: char) -> Option<int> {
    if '0' <= c <= '9' {
        Some(c as int - '0' as int)
    } else {
        None
    }
}

/// The bonus that a digit written after a letter gives to that letter's cell.
pub open spec fn bonus_of(d: int) -> Option<StateConfig> {
    if d == 0 {
        Some(StateConfig::DoubleScore)
    } else if d == 1 {
        Some(StateConfig::HasDiamonds)
    } else if d == 2 {
        Some(StateConfig::DoublePoint)
    } else if d == 3 {
        Some(StateConfig::TriplePoint)
    } else {
        None
    }
}

/// Where reading the board text stands: the 25 cells, the cell of the last
/// letter, how many letters and line breaks were read, and the settings.
pub struct ParseState {
    pub cells: Seq<TableCell>,
    pub prev: Option<int>,
    pub i: int,
    pub lines: int,
    pub config: GameConfig,
}

/// A cell with no letter and no bonus.
pub open spec fn blank_cell() -> TableCell {
    TableCell { char_cell: CharCell { chr: EMPTY }, state_cell: StateCell { state: 0 } }
}

/// Nothing read yet.
pub open spec fn parse_start(config: GameConfig) -> ParseState {
    ParseState { cells: Seq::new(25, |p: int| blank_cell()), prev: None, i: 0, lines: 0, config }
}

/// Reading one more character of the board text.  Five lines of letters
/// fill the cells row by row; a digit after a letter adds a bonus to that
/// letter's cell; after the fifth line break, a digit sets the points of a
/// diamond and `d` turns diamond mode on.
pub open spec fn parse_step(s: ParseState, c: char) -> Result<ParseState, ParseError> {
    if s.lines >= 5 {
        match digit_value(c) {
            Some(d) => Ok(
                ParseState { config: GameConfig { diamond_point: d as i32, ..s.config }, ..s },
            ),
            None => if c == 'd' {
                Ok(ParseState { config: GameConfig { diamond_mode: true, ..s.config }, ..s })
            } else {
                Err(ParseError::InvalidSetting)
            },
        }
    } else {
        match digit_value(c) {
            Some(d) => match s.prev {
                Some(pv) => match bonus_of(d) {
                    Some(conf) => Ok(
                        ParseState {
                            cells: s.cells.update(
                                pv,
                                TableCell {
                                    state_cell: StateCell {
                                        state: s.cells[pv].state_cell.state | conf.mask(),
                                    },
                                    ..s.cells[pv]
                                },
                            ),
                            ..s
                        },
                    ),
                    None => Err(ParseError::InvalidBonus),
                },
                None => Err(ParseError::BonusWithoutCell),
            },
            None => if c == '\n' {
                if s.i % 5 != 0 {
                    Err(ParseError::ShortLine { x: (s.i / 5) as usize, y: (s.i % 5) as usize })
                } else {
                    Ok(ParseState { lines: s.lines + 1, ..s })
                }
            } else if s.i >= 25 {
                Err(ParseError::BoardFull)
            } else {
                Ok(
                    ParseState {
                        cells: s.cells.update(
                            s.i,
                            TableCell { char_cell: CharCell { chr: c }, ..s.cells[s.i] },
                        ),
                        prev: Some(s.i),
                        i: s.i + 1,
                        ..s
                    },
                )
            },
        }
    }
}

/// Reading all of `text`: the last state reached, and the error that stopped
/// the reading, if one did.
pub open spec fn parse_run(text: Seq<char>, config: GameConfig) -> (ParseState, Option<ParseError>)
    decreases text.len(),
{
    if text.len() == 0 {
        (parse_start(config), None)
    } else {
        let (s, e) = parse_run(text.drop_last(), config);
        if e is Some {
            (s, e)
        } else {
            match parse_step(s, text.last()) {
                Ok(s2) => (s2, None),
                Err(err) => (s, Some(err)),
            }
        }
    }
}

proof fn lemma_run_stops(text: Seq<char>, k: int, config: GameConfig)
    requires
        0 <= k <= text.len(),
        parse_run(text.take(k), config).1 is Some,
    ensures
        parse_run(text, config) == parse_run(text.take(k), config),
    decreases text.len() - k,
{
    if k < text.len() {
        assert(text.take(k + 1).drop_last() =~= text.take(k));
        lemma_run_stops(text, k + 1, config);
    } else {
        assert(text.take(k) =~= text);
    }
}

proof fn lemma_run_next(text: Seq<char>, k: int, config: GameConfig)
    requires
        0 <= k < text.len(),
        parse_run(text.take(k), config).1 is None,
    ensures
        parse_run(text.take(k + 1), config) == (match parse_step(parse_run(text.take(k), config).0, text[k]) {
            Ok(s2) => (s2, None),
            Err(err) => (parse_run(text.take(k), config).0, Some(err)),
        }),
{
    assert(text.take(k + 1).drop_last() =~= text.take(k));
    assert(text.take(k + 1).last() == text[k]);
}

/// Reading a board text never changes the replacement budget.
pub proof fn lemma_parse_keeps_budget(text: Seq<char>, config: GameConfig)
    ensures
        parse_run(text, config).0.config.can_use_swap == config.can_use_swap,
    decreases text.len(),
{
    if text.len() > 0 {
        lemma_parse_keeps_budget(text.drop_last(), config);
    }
}

/// A `d` is read among the settings: after the fifth line break, before
/// anything stopped the reading.
pub open spec fn reads_diamond_flag(text: Seq<char>, config: GameConfig) -> bool {
    exists|k: int|
        0 <= k < text.len() && text[k] == 'd' && #[trigger] parse_run(text.take(k), config).1 is None
            && parse_run(text.take(k), config).0.lines >= 5
}

/// Diamond mode is on after reading a board text exactly when it was on
/// before or the text turned it on; no text turns it off.
pub proof fn lemma_parse_keeps_diamond_mode(text: Seq<char>, config: GameConfig)
    ensures
        parse_run(text, config).0.config.diamond_mode <==> config.diamond_mode || reads_diamond_flag(
            text,
            config,
        ),
        config.diamond_mode ==> parse_run(text, config).0.config.diamond_mode,
    decreases text.len(),
{
    if text.len() > 0 {
        let front = text.drop_last();
        let n = front.len() as int;
        lemma_parse_keeps_diamond_mode(front, config);
        assert(text.take(n) =~= front);
        assert forall|k: int| 0 <= k < n implies #[trigger] text.take(k) == front.take(k) by {
            assert(text.take(k) =~= front.take(k));
        }
        if reads_diamond_flag(front, config) {
            let k = choose|k: int|
                0 <= k < front.len() && front[k] == 'd' && #[trigger] parse_run(front.take(k), config).1 is None
                    && parse_run(front.take(k), config).0.lines >= 5;
            assert(text[k] == 'd' && text.take(k) == front.take(k));
            assert(reads_diamond_flag(text, config));
        }
        if reads_diamond_flag(text, config) {
            let k = choose|k: int|
                0 <= k < text.len() && text[k] == 'd' && #[trigger] parse_run(text.take(k), config).1 is None
                    && parse_run(text.take(k), config).0.lines >= 5;
            if k < n {
                assert(front[k] == 'd' && text.take(k) == front.take(k));
                assert(reads_diamond_flag(front, config));
            }
        }
    } else {
        assert(!reads_diamond_flag(text, config));
    }
}

/// The value of `c` as a decimal digit, if it is one.
pub fn decimal_digit(c: char) -> (d: Option<u32>)
    ensures
        d matches Some(v) ==> digit_value(c) == Some(v as int),
        d is None ==> digit_value(c) is None,
{
    if '0' <= c && c <= '9' {
        Some(c as u32 - '0' as u32)
    } else {
        None
    }
}

fn bonus_config(d: u32) -> (r: Option<StateConfig>)
    ensures
        r == bonus_of(d as int),
{
    match d {
        0 => Some(StateConfig::DoubleScore),
        1 => Some(StateConfig::HasDiamonds),
        2 => Some(StateConfig::DoublePoint),
        3 => Some(StateConfig::TriplePoint),
        _ => None,
    }
}

/// Reads the board text as `parse` does, but returns the error where `parse`
/// would be handed a refused text.  The settings go to `config`, also those
/// read before an error stops the reading.
pub fn try_parse(input: &str, config: &mut GameConfig) -> (res: Result<Table, ParseError>)
    requires
        old(config).wf(),
    ensures
        final(config).wf(),
        *final(config) == parse_run(input@, *old(config)).0.config,
        final(config).can_use_swap == old(config).can_use_swap,
        old(config).diamond_mode ==> final(config).diamond_mode,
        match parse_run(input@, *old(config)).1 {
            Some(err) => res == Err::<Table, ParseError>(err),
            None => res is Ok,
        },
        res matches Ok(tbl) ==> forall|pos: int|
            0 <= pos < 25 ==> #[trigger] cell_at(tbl, pos) == parse_run(input@, *old(config)).0.cells[pos],
{
    let blank = TableCell { char_cell: CharCell::new(EMPTY), state_cell: StateCell::new(false, false, false, false) };
    let mut output: Table = [[blank; TABLE_SIZE]; TABLE_SIZE];
    let mut previous_vec: Option<(u8, u8)> = None;
    let mut i: usize = 0;
    let mut lines: usize = 0;
    let n = input.unicode_len();
    let mut idx: usize = 0;
    let ghost config0 = *old(config);
    proof {
        assert(input@.take(0) =~= Seq::<char>::empty());
        assert forall|pos: int| 0 <= pos < 25 implies #[trigger] cell_at(output, pos) == parse_start(config0).cells[pos] by {
            assert(blank.state_cell.state == 0);
        }
    }
    while idx < n
        invariant
            n == input@.len(),
            idx <= n,
            config0 == *old(config),
            config.wf(),
            parse_run(input@.take(idx as int), config0).1 is None,
            ({
                let s = parse_run(input@.take(idx as int), config0).0;
                &&& *config == s.config
                &&& i == s.i
                &&& lines == s.lines
                &&& 0 <= s.i <= 25
                &&& s.lines <= idx
                &&& s.cells.len() == 25
                &&& (match previous_vec {
                    Some(pv) => s.prev == Some(pv.0 * 5 + pv.1) && pv.0 < 5 && pv.1 < 5,
                    None => s.prev is None,
                })
                &&& forall|pos: int| 0 <= pos < 25 ==> #[trigger] cell_at(output, pos) == s.cells[pos]
            }),
        decreases n - idx,
    {
        let c = input.get_char(idx);
        let ghost s = parse_run(input@.take(idx as int), config0).0;
        proof {
            assert(input@.take(idx + 1).drop_last() =~= input@.take(idx as int));
            assert(input@.take(idx + 1).last() == c);
        }
        if lines >= TABLE_SIZE {
            match decimal_digit(c) {
                Some(digit) => {
                    config.diamond_point = digit as i32;
                },
                None => {
                    if c == 'd' {
                        config.diamond_mode = true;
                    } else {
                        proof {
                            lemma_run_stops(input@, idx + 1, config0);
                            lemma_parse_keeps_budget(input@, config0);
                            lemma_parse_keeps_diamond_mode(input@, config0);
                        }
                        return Err(ParseError::InvalidSetting);
                    }
                },
            }
        } else {
            match decimal_digit(c) {
                Some(digit) => {
                    match previous_vec {
                        Some(pv) => {
                            match bonus_config(digit) {
                                Some(conf) => {
                                    let x = pv.0 as usize;
                                    let y = pv.1 as usize;
                                    proof {
                                        assert((x * 5 + y) / 5 == x && (x * 5 + y) % 5 == y);
                                    }
                                    let mut cell = output[x][y];
                                    proof {
                                        assert(cell == cell_at(output, x * 5 + y));
                                    }
                                    cell.state_cell.set_config(conf);
                                    set_cell(&mut output, x, y, cell);
                                    proof {
                                        let pv2 = x * 5 + y;
                                        assert(s.prev == Some(pv2 as int));
                                        assert(cell == TableCell {
                                            state_cell: StateCell {
                                                state: s.cells[pv2 as int].state_cell.state | conf.mask(),
                                            },
                                            ..s.cells[pv2 as int]
                                        });
                                        lemma_run_next(input@, idx as int, config0);
                                    }
                                },
                                None => {
                                    proof {
                                        lemma_run_stops(input@, idx + 1, config0);
                                        lemma_parse_keeps_budget(input@, config0);
                                        lemma_parse_keeps_diamond_mode(input@, config0);
                                    }
                                    return Err(ParseError::InvalidBonus);
                                },
                            }
                        },
                        None => {
                            proof {
                                lemma_run_stops(input@, idx + 1, config0);
                                lemma_parse_keeps_budget(input@, config0);
                                lemma_parse_keeps_diamond_mode(input@, config0);
                            }
                            return Err(ParseError::BonusWithoutCell);
                        },
                    }
                },
                None => {
                    if c == '\n' {
                        if i % TABLE_SIZE != 0 {
                            proof {
                                lemma_run_stops(input@, idx + 1, config0);
                                lemma_parse_keeps_budget(input@, config0);
                                lemma_parse_keeps_diamond_mode(input@, config0);
                            }
                            return Err(ParseError::ShortLine { x: i / TABLE_SIZE, y: i % TABLE_SIZE });
                        }
                        lines = lines + 1;
                    } else {
                        if i >= 25 {
                            proof {
                                lemma_run_stops(input@, idx + 1, config0);
                                lemma_parse_keeps_budget(input@, config0);
                                lemma_parse_keeps_diamond_mode(input@, config0);
                            }
                            return Err(ParseError::BoardFull);
                        }
                        let x = i / TABLE_SIZE;
                        let y = i % TABLE_SIZE;
                        proof {
                            assert((x * 5 + y) / 5 == x && (x * 5 + y) % 5 == y);
                        }
                        let mut cell = output[x][y];
                        proof {
                            assert(cell == cell_at(output, x * 5 + y));
                        }
                        cell.char_cell.set_char(c);
                        set_cell(&mut output, x, y, cell);
                        previous_vec = Some((x as u8, y as u8));
                        i = i + 1;
                        proof {
                            assert(cell == TableCell { char_cell: CharCell { chr: c }, ..s.cells[s.i] });
                            lemma_run_next(input@, idx as int, config0);
                        }
                    }
                },
            }
        }
        idx = idx + 1;
    }
    proof {
        assert(input@.take(n as int) =~= input@);
        lemma_parse_keeps_budget(input@, config0);
        lemma_parse_keeps_diamond_mode(input@, config0);
    }
    Ok(output)
}

/// The reason `parse` refuses `input`, if it does.
pub fn parse_error(input: &str, config: &GameConfig) -> (e: Option<ParseError>)
    requires
        config.wf(),
    ensures
        e == parse_run(input@, *config).1,
{
    let mut scratch = *config;
    match try_parse(input, &mut scratch) {
        Ok(_) => None,
        Err(err) => Some(err),
    }
}

/// Reads the board text: five lines of five letters, each letter optionally
/// followed by bonus digits (0 doubles the word, 1 holds a diamond, 2 doubles
/// the letter, 3 triples it), then optional settings: digits set the points
/// of a diamond, `d` turns diamond mode on.  The settings go to `config`.
/// Refused texts (see `ParseError`) are left out; `parse_error` tells them.
pub fn parse(input: &str, config: &mut GameConfig) -> (tbl: Table)
    requires
        old(config).wf(),
        parse_run(input@, *old(config)).1 is None,
    ensures
        final(config).wf(),
        *final(config) == parse_run(input@, *old(config)).0.config,
        final(config).can_use_swap == old(config).can_use_swap,
        old(config).diamond_mode ==> final(config).diamond_mode,
        forall|pos: int|
            0 <= pos < 25 ==> #[trigger] cell_at(tbl, pos) == parse_run(input@, *old(config)).0.cells[pos],
{
    let res = try_parse(input, config);
    res.unwrap()
}

} // verus!
