use vstd::prelude::*;
use vstd::string::*;

use crate::board::{cell_at, StateConfig, Table, TABLE_SIZE};
use crate::config::{get_diamond_point, get_is_diamond_mode, GameConfig};
use crate::history::History;

verus! {

/// Points of each letter, `a` to `z`.
pub const ALPHABET_SCORES: [i32; 26] = [
    1, 4, 5, 3, 1, 5, 3, 4, 1, 7, 6, 3, 4, 2, 1, 4, 8, 2, 2, 2, 4, 5, 5, 7, 4, 8,
];

/// The position in the alphabet that scoring gives a character: its low
/// byte, counted from `a`.
pub open spec fn letter_index(c: char) -> int {
    (c as u32) % 256 - 97
}

/// The characters that scoring can look up.
pub open spec fn scorable(c: char) -> bool {
    0 <= letter_index(c) < 26
}

/// The points of the letter at alphabet position `i`.
pub open spec fn alphabet_score(i: int) -> int {
    ALPHABET_SCORES@[i] as int
}

/// Number of path cells that hold a diamond.
pub open spec fn diamond_cells(tbl: Table, path: Seq<u8>) -> nat
    decreases path.len(),
{
    if path.len() == 0 {
        0
    } else {
        diamond_cells(tbl, path.drop_last()) + if cell_at(tbl, path.last() as int).state_cell.has(
            StateConfig::HasDiamonds,
        ) {
            1nat
        } else {
            0nat
        }
    }
}

/// Sum over the path of the points of the word's letter there times the cell's multiplier.
pub open spec fn letter_points(tbl: Table, path: Seq<u8>, word: Seq<char>) -> int
    decreases path.len(),
{
    if path.len() == 0 {
        0
    } else {
        letter_points(tbl, path.drop_last(), word) + alphabet_score(
            letter_index(word[path.len() - 1]),
        ) * cell_at(tbl, path.last() as int).state_cell.rate()
    }
}

/// Some cell of the path doubles the word.
pub open spec fn has_double(tbl: Table, path: Seq<u8>) -> bool {
    exists|i: int|
        0 <= i < path.len() && #[trigger] cell_at(tbl, path[i] as int).state_cell.has(
            StateConfig::DoubleScore,
        )
}

/// The score of `word` traced along `path`: in diamond mode only diamonds
/// count; otherwise the letter points, doubled if a cell doubles the word,
/// plus ten for a word of six letters or more, plus the diamonds.
pub open spec fn score_of(tbl: Table, path: Seq<u8>, word: Seq<char>, config: GameConfig) -> int {
    let diamonds = diamond_cells(tbl, path) * config.diamond_point;
    if config.diamond_mode {
        diamonds
    } else {
        (if has_double(tbl, path) {
            2int
        } else {
            1int
        }) * letter_points(tbl, path, word) + (if word.len() >= 6 {
            10int
        } else {
            0
        }) + diamonds
    }
}

/// What scoring needs: every path cell on the board and, outside diamond
/// mode, a scorable letter of the word for every path cell.
pub open spec fn can_score(path: Seq<u8>, word: Seq<char>, config: GameConfig) -> bool {
    &&& forall|i: int| 0 <= i < path.len() ==> #[trigger] path[i] < 25
    &&& !config.diamond_mode ==> word.len() >= path.len() && forall|i: int|
        0 <= i < path.len() ==> #[trigger] scorable(word[i])
}

proof fn lemma_rate_range(tbl: Table, pos: int)
    ensures
        1 <= cell_at(tbl, pos).state_cell.rate() <= 3,
{
}

proof fn lemma_letter_points_bound(tbl: Table, path: Seq<u8>, word: Seq<char>)
    requires
        forall|i: int| 0 <= i < path.len() ==> #[trigger] scorable(word[i]),
    ensures
        0 <= letter_points(tbl, path, word) <= 24 * path.len(),
    decreases path.len(),
{
    if path.len() > 0 {
        lemma_letter_points_bound(tbl, path.drop_last(), word);
        let i = path.len() - 1;
        assert(scorable(word[i]));
        let li = letter_index(word[i]);
        assert(1 <= alphabet_score(li) <= 8);
        lemma_rate_range(tbl, path.last() as int);
        let a = alphabet_score(li);
        let r = cell_at(tbl, path.last() as int).state_cell.rate() as int;
        assert(0 <= a * r <= 24) by (nonlinear_arith)
            requires
                1 <= a <= 8,
                1 <= r <= 3,
        ;
    }
}

proof fn lemma_diamond_cells_bound(tbl: Table, path: Seq<u8>)
    ensures
        diamond_cells(tbl, path) <= path.len(),
    decreases path.len(),
{
    if path.len() > 0 {
        lemma_diamond_cells_bound(tbl, path.drop_last());
    }
}

/// A score of a path of at most 25 cells fits an `i32`.
pub proof fn lemma_score_fits(tbl: Table, path: Seq<u8>, word: Seq<char>, config: GameConfig)
    requires
        path.len() <= 25,
        config.wf(),
        can_score(path, word, config),
    ensures
        0 <= score_of(tbl, path, word, config) <= i32::MAX,
{
    lemma_diamond_cells_bound(tbl, path);
    let d = diamond_cells(tbl, path) as int;
    let p = config.diamond_point as int;
    assert(0 <= d * p <= 225) by (nonlinear_arith)
        requires
            0 <= d <= 25,
            0 <= p <= 9,
    ;
    if !config.diamond_mode {
        lemma_letter_points_bound(tbl, path, word);
    }
}

/// Whether `calc_score` can score `string` along the path of `history`.
pub fn check_scorable(history: &History, string: &str, config: &GameConfig) -> (b: bool)
    requires
        history.wf(),
    ensures
        b == can_score(history@, string@, *config),
{
    let ghost path = history@;
    let ghost word = string@;
    let n = history.length as usize;
    let mut k: usize = 0;
    while k < n
        invariant
            n == path.len(),
            history@ == path,
            history.wf(),
            k <= n,
            forall|i: int| 0 <= i < k ==> #[trigger] path[i] < 25,
        decreases n - k,
    {
        if history.cells[k] >= 25 {
            assert(path[k as int] >= 25);
            return false;
        }
        k = k + 1;
    }
    if config.diamond_mode {
        return true;
    }
    let len = string.unicode_len();
    if len < n {
        return false;
    }
    let mut i: usize = 0;
    while i < n
        invariant
            n == path.len(),
            len == word.len(),
            n <= len,
            string@ == word,
            i <= n,
            !config.diamond_mode,
            history@ == path,
            forall|j: int| 0 <= j < n ==> #[trigger] path[j] < 25,
            forall|j: int| 0 <= j < i ==> #[trigger] scorable(word[j]),
        decreases n - i,
    {
        let c = string.get_char(i);
        let code = (c as u32) % 256;
        if code < 97 || code >= 123 {
            assert(!scorable(word[i as int]));
            return false;
        }
        i = i + 1;
    }
    true
}

/// The score of `string` traced along the path of `history`.
pub fn calc_score(history: &History, tbl: Table, string: &str, config: &GameConfig) -> (score: i32)
    requires
        history.wf(),
        config.wf(),
        can_score(history@, string@, *config),
    ensures
        score == score_of(tbl, history@, string@, *config),
        !config.diamond_mode ==> score == (if has_double(tbl, history@) {
            2 * letter_points(tbl, history@, string@)
        } else {
            letter_points(tbl, history@, string@)
        }) + (if string@.len() >= 6 {
            10int
        } else {
            0
        }) + diamond_cells(tbl, history@) * config.diamond_point,
        config.diamond_mode ==> score == diamond_cells(tbl, history@) * config.diamond_point,
{
    let n_chars = string.unicode_len();
    let mut i: usize = 0;
    let mut score: i32 = 0;
    let mut double_score = false;
    let diamond_point = get_diamond_point(config);
    let is_diamond_mode = get_is_diamond_mode(config);
    let mut diamonds: i32 = 0;
    let cells = history.for_each();
    let ghost path = history@;
    let ghost word = string@;
    let mut k: usize = 0;
    proof {
        if !is_diamond_mode {
            lemma_letter_points_bound(tbl, path, word);
        }
        lemma_diamond_cells_bound(tbl, path);
    }
    while k < cells.len()
        invariant
            cells@ == path.map_values(|h: u8| ((h / 5) as u8, (h % 5) as u8)),
            path.len() <= 25,
            k <= path.len(),
            config.wf(),
            diamond_point == config.diamond_point,
            is_diamond_mode == config.diamond_mode,
            can_score(path, word, *config),
            is_diamond_mode ==> i == 0 && score == 0 && !double_score,
            !is_diamond_mode ==> i == k,
            !is_diamond_mode ==> score == letter_points(tbl, path.take(k as int), word),
            !is_diamond_mode ==> 0 <= letter_points(tbl, path, word) <= 24 * path.len(),
            !is_diamond_mode ==> 0 <= score <= 24 * k,
            double_score == (!is_diamond_mode && has_double(tbl, path.take(k as int))),
            diamonds == diamond_cells(tbl, path.take(k as int)) * diamond_point,
            diamond_cells(tbl, path.take(k as int)) <= k,
            0 <= diamonds <= 9 * k,
            string@ == word,
        decreases path.len() - k,
    {
        let vec = cells[k];
        let ghost h = path[k as int];
        assert(h < 25);
        assert(vec.0 as int == h / 5 && vec.1 as int == h % 5);
        let cell = tbl[vec.0 as usize][vec.1 as usize];
        assert(cell == cell_at(tbl, h as int));
        let ghost pk = path.take(k as int);
        let ghost pk1 = path.take(k + 1);
        assert(pk1.drop_last() =~= pk);
        assert(pk1.last() == h);
        if cell.state_cell.get_config(StateConfig::HasDiamonds) {
            assert(0 <= diamond_point <= 9);
            assert(diamonds + diamond_point == (diamond_cells(tbl, pk) + 1) * diamond_point) by (
            nonlinear_arith)
                requires
                    diamonds == diamond_cells(tbl, pk) * diamond_point,
            ;
            assert(0 <= diamonds + diamond_point <= 9 * (k + 1)) by (nonlinear_arith)
                requires
                    diamonds + diamond_point == (diamond_cells(tbl, pk) + 1) * diamond_point,
                    diamond_cells(tbl, pk) + 1 <= k + 1,
                    0 <= diamond_point <= 9,
            ;
            diamonds = diamonds + diamond_point;
        }
        if !is_diamond_mode {
            let c = string.get_char(i);
            assert(c == word[k as int]);
            assert(scorable(word[k as int]));
            let idx = ((c as u32) % 256 - 97) as usize;
            let rate = cell.state_cell.get_rate();
            proof {
                lemma_rate_range(tbl, h as int);
                assert(1 <= alphabet_score(idx as int) <= 8);
                let a = alphabet_score(idx as int);
                assert(0 <= a * rate <= 24) by (nonlinear_arith)
                    requires
                        1 <= a <= 8,
                        1 <= rate <= 3,
                ;
            }
            score = score + ALPHABET_SCORES[idx] * rate;
            if cell.state_cell.get_config(StateConfig::DoubleScore) {
                double_score = true;
            }
            i = i + 1;
        }
        proof {
            if !is_diamond_mode {
                if has_double(tbl, pk1) && !has_double(tbl, pk) {
                    let j = choose|j: int|
                        0 <= j < pk1.len() && #[trigger] cell_at(tbl, pk1[j] as int).state_cell.has(
                            StateConfig::DoubleScore,
                        );
                    if j < k {
                        assert(pk[j] == pk1[j]);
                    }
                }
                if has_double(tbl, pk) {
                    let j = choose|j: int|
                        0 <= j < pk.len() && #[trigger] cell_at(tbl, pk[j] as int).state_cell.has(
                            StateConfig::DoubleScore,
                        );
                    assert(pk1[j] == pk[j]);
                }
                if cell.state_cell.has(StateConfig::DoubleScore) {
                    assert(pk1[k as int] == h);
                }
            }
        }
        k = k + 1;
    }
    assert(path.take(path.len() as int) =~= path);
    if double_score {
        score = score * 2;
    }
    if n_chars >= 6 && !is_diamond_mode {
        score = score + 10;
    }
    score = score + diamonds;
    score
}

/// The letter points read only the word's letters on the path's cells: two
/// words that agree there get the same points.
pub proof fn lemma_letter_points_read_path_letters(tbl: Table, path: Seq<u8>, w1: Seq<char>, w2: Seq<char>)
    requires
        w1.len() >= path.len(),
        w2.len() >= path.len(),
        forall|i: int| 0 <= i < path.len() ==> #[trigger] w1[i] == w2[i],
    ensures
        letter_points(tbl, path, w1) == letter_points(tbl, path, w2),
    decreases path.len(),
{
    if path.len() > 0 {
        lemma_letter_points_read_path_letters(tbl, path.drop_last(), w1, w2);
        assert(w1[path.len() - 1] == w2[path.len() - 1]);
    }
}

/// Outside diamond mode, lengthening a word past the path changes its
/// score only by the long-word bonus: a word of six letters or more scores
/// exactly 10 more than one of at most five letters with the same letters on
/// the path, whether or not a cell doubles the word (the bonus is never
/// doubled), and two words on the same side of six letters score the same.
pub proof fn lemma_long_word_bonus(tbl: Table, path: Seq<u8>, w1: Seq<char>, w2: Seq<char>, config: GameConfig)
    requires
        !config.diamond_mode,
        w1.len() >= path.len(),
        w2.len() >= path.len(),
        forall|i: int| 0 <= i < path.len() ==> #[trigger] w1[i] == w2[i],
    ensures
        w1.len() <= 5 && w2.len() >= 6 ==> score_of(tbl, path, w2, config) == score_of(tbl, path, w1, config) + 10,
        (w1.len() <= 5) == (w2.len() <= 5) ==> score_of(tbl, path, w2, config) == score_of(tbl, path, w1, config),
{
    lemma_letter_points_read_path_letters(tbl, path, w1, w2);
}

/// Outside diamond mode, a cell that doubles the word doubles the letter
/// points only: the score is twice the letter points, plus 10 for a word of
/// six letters or more, plus the diamonds' points.  Without such a cell it is
/// the letter points, plus the bonus, plus the diamonds' points.
pub proof fn lemma_double_spares_bonus_and_diamonds(tbl: Table, path: Seq<u8>, word: Seq<char>, config: GameConfig)
    requires
        !config.diamond_mode,
    ensures
        has_double(tbl, path) && word.len() >= 6 ==> score_of(tbl, path, word, config) == 2 * letter_points(
            tbl,
            path,
            word,
        ) + 10 + diamond_cells(tbl, path) * config.diamond_point,
        has_double(tbl, path) && word.len() <= 5 ==> score_of(tbl, path, word, config) == 2 * letter_points(
            tbl,
            path,
            word,
        ) + diamond_cells(tbl, path) * config.diamond_point,
        !has_double(tbl, path) && word.len() >= 6 ==> score_of(tbl, path, word, config) == letter_points(
            tbl,
            path,
            word,
        ) + 10 + diamond_cells(tbl, path) * config.diamond_point,
        !has_double(tbl, path) && word.len() <= 5 ==> score_of(tbl, path, word, config) == letter_points(
            tbl,
            path,
            word,
        ) + diamond_cells(tbl, path) * config.diamond_point,
{
}

/// In diamond mode the word does not count: any two words score the same
/// along a path, the diamonds' points.
pub proof fn lemma_diamond_mode_ignores_word(tbl: Table, path: Seq<u8>, w1: Seq<char>, w2: Seq<char>, config: GameConfig)
    requires
        config.diamond_mode,
    ensures
        score_of(tbl, path, w1, config) == score_of(tbl, path, w2, config),
        score_of(tbl, path, w1, config) == diamond_cells(tbl, path) * config.diamond_point,
{
}

/// Letter points add up over the parts of a path: the second part reads the
/// word from where the first part ends.
pub proof fn lemma_letter_points_split(tbl: Table, p1: Seq<u8>, p2: Seq<u8>, w: Seq<char>)
    requires
        w.len() >= p1.len() + p2.len(),
    ensures
        letter_points(tbl, p1 + p2, w) == letter_points(tbl, p1, w) + letter_points(tbl, p2, w.skip(p1.len() as int)),
    decreases p2.len(),
{
    if p2.len() == 0 {
        assert(p1 + p2 =~= p1);
    } else {
        lemma_letter_points_split(tbl, p1, p2.drop_last(), w);
        assert((p1 + p2).drop_last() =~= p1 + p2.drop_last());
        assert((p1 + p2).last() == p2.last());
        assert(w.skip(p1.len() as int)[p2.len() - 1] == w[p1.len() + p2.len() - 1]);
    }
}

/// A one-cell path scores the points of the word's first letter times the
/// cell's multiplier.
pub proof fn lemma_letter_points_one_cell(tbl: Table, c: u8, w: Seq<char>)
    requires
        w.len() >= 1,
    ensures
        letter_points(tbl, seq![c], w) == alphabet_score(letter_index(w[0])) * cell_at(tbl, c as int).state_cell.rate(),
{
    assert(seq![c].drop_last() =~= Seq::<u8>::empty());
    assert(letter_points(tbl, Seq::<u8>::empty(), w) == 0);
    assert(seq![c].last() == c);
}

/// Diamonds add up over the parts of a path.
pub proof fn lemma_diamond_cells_split(tbl: Table, p1: Seq<u8>, p2: Seq<u8>)
    ensures
        diamond_cells(tbl, p1 + p2) == diamond_cells(tbl, p1) + diamond_cells(tbl, p2),
    decreases p2.len(),
{
    if p2.len() == 0 {
        assert(p1 + p2 =~= p1);
    } else {
        lemma_diamond_cells_split(tbl, p1, p2.drop_last());
        assert((p1 + p2).drop_last() =~= p1 + p2.drop_last());
        assert((p1 + p2).last() == p2.last());
    }
}

/// A one-cell path has one diamond exactly when its cell holds one.
pub proof fn lemma_diamond_cells_one_cell(tbl: Table, c: u8)
    ensures
        diamond_cells(tbl, seq![c]) == if cell_at(tbl, c as int).state_cell.has(StateConfig::HasDiamonds) {
            1nat
        } else {
            0nat
        },
{
    assert(seq![c].drop_last() =~= Seq::<u8>::empty());
    assert(diamond_cells(tbl, Seq::<u8>::empty()) == 0);
    assert(seq![c].last() == c);
}

/// A path crosses a cell that doubles the word exactly when one of its
/// cells does: a part does, or the other.
pub proof fn lemma_has_double_split(tbl: Table, p1: Seq<u8>, p2: Seq<u8>)
    ensures
        has_double(tbl, p1 + p2) == (has_double(tbl, p1) || has_double(tbl, p2)),
{
    let p = p1 + p2;
    if has_double(tbl, p) {
        let i = choose|i: int|
            0 <= i < p.len() && #[trigger] cell_at(tbl, p[i] as int).state_cell.has(StateConfig::DoubleScore);
        if i < p1.len() {
            assert(p1[i] == p[i]);
        } else {
            assert(p2[i - p1.len()] == p[i]);
        }
    }
    if has_double(tbl, p1) {
        let i = choose|i: int|
            0 <= i < p1.len() && #[trigger] cell_at(tbl, p1[i] as int).state_cell.has(StateConfig::DoubleScore);
        assert(p[i] == p1[i]);
    }
    if has_double(tbl, p2) {
        let i = choose|i: int|
            0 <= i < p2.len() && #[trigger] cell_at(tbl, p2[i] as int).state_cell.has(StateConfig::DoubleScore);
        assert(p[p1.len() + i] == p2[i]);
    }
}

/// A one-cell path crosses a cell that doubles the word exactly when its
/// cell doubles the word.
pub proof fn lemma_has_double_one_cell(tbl: Table, c: u8)
    ensures
        has_double(tbl, seq![c]) == cell_at(tbl, c as int).state_cell.has(StateConfig::DoubleScore),
{
    if cell_at(tbl, c as int).state_cell.has(StateConfig::DoubleScore) {
        assert(seq![c][0] == c);
    }
}

} // verus!
