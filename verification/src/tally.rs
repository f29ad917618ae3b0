use vstd::prelude::*;
use vstd::string::*;
use vstd::utf8::{encode_utf8, is_ascii_chars};

use crate::board::{Table, TABLE_SIZE};
use crate::config::GameConfig;
use crate::history::{History, HistoryChar};
use crate::render::{
    diff_indices, get_diff_string_index, grid_text, int_text, int_to_string, lemma_diff_indices_exact, min_len,
    paths_to_string,
};
use crate::score::{calc_score, can_score, lemma_score_fits, score_of};
use crate::search::{diffs, Found};
use crate::text::push_char;

verus! {

/// Number of bytes of the UTF-8 encoding of `s`, as `str::len` gives it.
pub open spec fn byte_len(s: Seq<char>) -> usize {
    encode_utf8(s).len() as usize
}

/// Every cell of the path lies on the board.
pub open spec fn on_board(path: Seq<u8>) -> bool {
    forall|i: int| 0 <= i < path.len() ==> #[trigger] path[i] < 25
}

/// The best finds so far: the best word read straight off the board, the best
/// word for each number of replacements (one to three), and how many board
/// cells are still being searched.
#[derive(Debug)]
pub struct Tally {
    pub remain: usize,
    pub end_flag: bool,
    pub max_score: i32,
    pub max_score_bak: (History, HistoryChar),
    pub max_score_swap: [i32; 3],
    /// For each number of replacements: the path, the board letters along it, and the word.
    pub max_score_swap_bak: Vec<(History, String, String)>,
}

impl Tally {
    pub open spec fn wf(self) -> bool {
        &&& self.max_score_swap_bak@.len() == 3
        &&& self.max_score_bak.0.wf()
        &&& on_board(self.max_score_bak.0@)
        &&& self.max_score_bak.1.wf()
        &&& forall|i: int|
            0 <= i < 3 ==> (#[trigger] self.max_score_swap_bak@[i]).0.wf() && on_board(
                self.max_score_swap_bak@[i].0@,
            )
    }

    /// Nothing found yet; one search per board cell under way.
    pub fn new() -> (t: Tally)
        ensures
            t.wf(),
            t.remain == TABLE_SIZE * TABLE_SIZE,
            !t.end_flag,
            t.max_score == 0,
            t.max_score_bak.0@ == Seq::<u8>::empty(),
            t.max_score_bak.1@ == Seq::<char>::empty(),
            t.max_score_swap@ == seq![0i32, 0i32, 0i32],
            forall|i: int|
                0 <= i < 3 ==> (#[trigger] t.max_score_swap_bak@[i]).0@ == Seq::<u8>::empty()
                    && t.max_score_swap_bak@[i].1@ == Seq::<char>::empty()
                    && t.max_score_swap_bak@[i].2@ == Seq::<char>::empty(),
    {
        let mut bak: Vec<(History, String, String)> = Vec::new();
        bak.push((History::new(), String::new(), String::new()));
        bak.push((History::new(), String::new(), String::new()));
        bak.push((History::new(), String::new(), String::new()));
        let t = Tally {
            remain: TABLE_SIZE * TABLE_SIZE,
            end_flag: false,
            max_score: 0,
            max_score_bak: (History::new(), HistoryChar::new()),
            max_score_swap: [0; 3],
            max_score_swap_bak: bak,
        };
        assert(t.max_score_swap@ =~= seq![0i32, 0i32, 0i32]);
        t
    }

    /// Offers a word read straight off the board; it becomes the best when it
    /// scores more than the best so far.  Returns whether it did.
    pub fn offer_word(
        &mut self,
        history: History,
        history_char: HistoryChar,
        tbl: Table,
        config: &GameConfig,
    ) -> (improved: bool)
        requires
            old(self).wf(),
            history.wf(),
            history_char.wf(),
            config.wf(),
            can_score(history@, history_char@, *config),
        ensures
            final(self).wf(),
            improved == (old(self).max_score < score_of(tbl, history@, history_char@, *config)),
            final(self).max_score == if improved {
                score_of(tbl, history@, history_char@, *config)
            } else {
                old(self).max_score as int
            },
            final(self).max_score_bak == if improved {
                (history, history_char)
            } else {
                old(self).max_score_bak
            },
            final(self).max_score_swap == old(self).max_score_swap,
            final(self).max_score_swap_bak@ == old(self).max_score_swap_bak@,
            final(self).remain == old(self).remain,
            final(self).end_flag == old(self).end_flag,
    {
        let word = history_char.to_string();
        let score = calc_score(&history, tbl, word.as_str(), config);
        if self.max_score < score {
            self.max_score = score;
            self.max_score_bak = (history, history_char);
            true
        } else {
            false
        }
    }

    /// Offers a word that replaces `swap_use_time` board letters; it becomes
    /// the best for that number when it scores more, or scores the same with a
    /// longer word than the board letters of the best so far.  Returns whether
    /// it did.
    pub fn offer_swap(
        &mut self,
        history: History,
        path_from_string: String,
        solve_string: String,
        swap_use_time: u8,
        tbl: Table,
        config: &GameConfig,
    ) -> (improved: bool)
        requires
            old(self).wf(),
            history.wf(),
            config.wf(),
            1 <= swap_use_time <= 3,
            can_score(history@, solve_string@, *config),
        ensures
            final(self).wf(),
            ({
                let i = swap_use_time - 1;
                let score = score_of(tbl, history@, solve_string@, *config);
                let best = old(self).max_score_swap@[i];
                &&& improved == (best < score || (best == score && byte_len(
                    old(self).max_score_swap_bak@[i].1@,
                ) < byte_len(solve_string@)))
                &&& final(self).max_score_swap@ == if improved {
                    old(self).max_score_swap@.update(i, score as i32)
                } else {
                    old(self).max_score_swap@
                }
                &&& final(self).max_score_swap_bak@ == if improved {
                    old(self).max_score_swap_bak@.update(i, (history, path_from_string, solve_string))
                } else {
                    old(self).max_score_swap_bak@
                }
            }),
            final(self).max_score == old(self).max_score,
            final(self).max_score_bak == old(self).max_score_bak,
            final(self).remain == old(self).remain,
            final(self).end_flag == old(self).end_flag,
    {
        let score = calc_score(&history, tbl, solve_string.as_str(), config);
        let i = (swap_use_time - 1) as usize;
        let best = self.max_score_swap[i];
        let best_len = self.max_score_swap_bak[i].1.as_str().len();
        let new_len = solve_string.as_str().len();
        if best < score || (best == score && best_len < new_len) {
            self.max_score_swap[i] = score;
            self.max_score_swap_bak.set(i, (history, path_from_string, solve_string));
            proof {
                assert(self.max_score_swap@ =~= old(self).max_score_swap@.update(i as int, score));
                assert forall|j: int| 0 <= j < 3 implies (#[trigger] self.max_score_swap_bak@[j]).0.wf()
                    && on_board(self.max_score_swap_bak@[j].0@) by {
                    if j != i {
                        assert(self.max_score_swap_bak@[j] == old(self).max_score_swap_bak@[j]);
                    }
                }
            }
            true
        } else {
            false
        }
    }

    /// Appends the report's part for the best word with `idx + 1` replacements.
    fn push_swap_section(&self, out: &mut String, idx: usize)
        requires
            self.wf(),
            idx < 3,
        ensures
            final(out)@ == old(out)@ + swap_section(*self, idx as int),
    {
        let entry = &self.max_score_swap_bak[idx];
        let grid = paths_to_string(&entry.0, None);
        out.append(grid.as_str());
        out.append("\n");
        out.append("swap word: ");
        out.append(entry.2.as_str());
        out.append(" ");
        out.append("score: ");
        let score = int_to_string(self.max_score_swap[idx]);
        out.append(score.as_str());
        out.append("\n");
        out.append("swap: ");
        push_diff(out, &entry.1, &entry.2);
        out.append("\n");
        out.append("-----------------------------------");
        out.append("\n");
        out.append("\n");
        assert(out@ =~= old(out)@ + swap_section(*self, idx as int));
    }

    /// The result text: the best word read straight off the board, then the
    /// best word for each number of replacements up to `can_use_swap`, then
    /// `finish`.  Each replacement is shown as the board letter `->` the word
    /// letter; the kept words must be ASCII, where a letter's byte position
    /// is its character position.
    pub fn render_report(&self, can_use_swap: u8) -> (out: String)
        requires
            self.wf(),
            can_use_swap <= 3,
            forall|i: int|
                0 <= i < can_use_swap ==> is_ascii_chars((#[trigger] self.max_score_swap_bak@[i]).1@)
                    && is_ascii_chars(self.max_score_swap_bak@[i].2@),
        ensures
            out@ == report_text(*self, can_use_swap as nat),
    {
        let mut out = String::new();
        out.append("\n");
        out.append("result:--------------------------");
        out.append("\n");
        let grid = paths_to_string(&self.max_score_bak.0, None);
        out.append(grid.as_str());
        out.append("\n");
        out.append("word: ");
        let word = self.max_score_bak.1.to_string();
        out.append(word.as_str());
        out.append(" ");
        out.append("score: ");
        let score = int_to_string(self.max_score);
        out.append(score.as_str());
        out.append("\n");
        out.append("\n");
        out.append("result swap:---------------------");
        out.append("\n");
        assert(out@ =~= report_head(*self) + swap_sections(*self, 0));
        let mut k: u8 = 0;
        while k < can_use_swap
            invariant
                self.wf(),
                k <= can_use_swap <= 3,
                out@ == report_head(*self) + swap_sections(*self, k as nat),
            decreases can_use_swap - k,
        {
            self.push_swap_section(&mut out, k as usize);
            k = k + 1;
            assert(out@ =~= report_head(*self) + swap_sections(*self, k as nat));
        }
        out.append("finish");
        out.append("\n");
        out
    }

    /// Offers every find of `finds` in turn, as `offer_word` and
    /// `offer_swap` do.  Afterwards the tally keeps the best of what it held
    /// and of the finds offered, as `keeps_best` spells out.
    pub fn offer_all(&mut self, finds: &Vec<Found>, tbl: Table, config: &GameConfig)
        requires
            old(self).wf(),
            config.wf(),
            forall|i: int| 0 <= i < finds@.len() ==> #[trigger] offerable(finds@[i], *config),
        ensures
            final(self).wf(),
            final(self).remain == old(self).remain,
            final(self).end_flag == old(self).end_flag,
            keeps_best(*old(self), *final(self), finds@, finds@.len() as int, tbl, *config),
    {
        let ghost o = *self;
        let ghost fs = finds@;
        let mut k: usize = 0;
        while k < finds.len()
            invariant
                fs == finds@,
                k <= fs.len(),
                config.wf(),
                forall|i: int| 0 <= i < fs.len() ==> #[trigger] offerable(fs[i], *config),
                o.wf(),
                self.wf(),
                self.remain == o.remain,
                self.end_flag == o.end_flag,
                keeps_best(o, *self, fs, k as int, tbl, *config),
            decreases fs.len() - k,
        {
            let ghost before = *self;
            assert(offerable(fs[k as int], *config));
            match &finds[k] {
                Found::Word { history, letters } => {
                    self.offer_word(*history, *letters, tbl, config);
                    assert(fs[k as int] == Found::Word { history: *history, letters: *letters });
                    assert(offer_step(before, *self, fs[k as int], tbl, *config));
                },
                Found::Swapped { history, board_word, word, swaps } => {
                    let bw = board_word.clone();
                    let w = word.clone();
                    self.offer_swap(*history, bw, w, *swaps, tbl, config);
                    assert(fs[k as int] == Found::Swapped {
                        history: *history,
                        board_word: bw,
                        word: w,
                        swaps: *swaps,
                    });
                    assert(offer_step(before, *self, fs[k as int], tbl, *config));
                },
            }
            proof {
                lemma_offer_step(o, before, *self, fs, k as int, tbl, *config);
            }
            k = k + 1;
        }
    }

    /// One board cell's search has finished.
    pub fn finish_thread(&mut self)
        requires
            old(self).remain > 0,
        ensures
            final(self).remain == old(self).remain - 1,
            final(self).end_flag == (old(self).end_flag || final(self).remain == 0),
            final(self).max_score == old(self).max_score,
            final(self).max_score_bak == old(self).max_score_bak,
            final(self).max_score_swap == old(self).max_score_swap,
            final(self).max_score_swap_bak@ == old(self).max_score_swap_bak@,
    {
        self.remain = self.remain - 1;
        if self.remain == 0 {
            self.end_flag = true;
        }
    }
}

/// Appends, for each position where `a` and `b` differ (over the shorter
/// length), the letter of `a`, `->`, the letter of `b` and a space.
fn push_diff(out: &mut String, a: &String, b: &String)
    ensures
        final(out)@ == old(out)@ + diff_text(a@, b@, diff_indices(a@, b@, min_len(a@.len(), b@.len()))),
{
    let diff = get_diff_string_index(a.clone(), b.clone());
    proof {
        lemma_diff_indices_bound(a@, b@, min_len(a@.len(), b@.len()));
    }
    let ghost mid = out@;
    let mut j: usize = 0;
    while j < diff.len()
        invariant
            j <= diff@.len(),
            diff@ == diff_indices(a@, b@, min_len(a@.len(), b@.len())),
            forall|q: int| 0 <= q < diff@.len() ==> #[trigger] diff@[q] < min_len(a@.len(), b@.len()),
            out@ == mid + diff_text(a@, b@, diff@.take(j as int)),
        decreases diff@.len() - j,
    {
        let d = diff[j];
        assert(d < min_len(a@.len(), b@.len()));
        let before = a.as_str().get_char(d);
        let after = b.as_str().get_char(d);
        push_char(out, before);
        out.append("->");
        push_char(out, after);
        out.append(" ");
        proof {
            assert(diff@.take(j + 1).drop_last() =~= diff@.take(j as int));
            assert(diff@.take(j + 1).last() == d);
            assert(out@ =~= mid + diff_text(a@, b@, diff@.take(j + 1)));
        }
        j = j + 1;
    }
    assert(diff@.take(diff@.len() as int) =~= diff@);
}

/// The positions listed are below `n`.
proof fn lemma_diff_indices_bound(a: Seq<char>, b: Seq<char>, n: nat)
    ensures
        forall|j: int| 0 <= j < diff_indices(a, b, n).len() ==> #[trigger] diff_indices(a, b, n)[j] < n,
    decreases n,
{
    if n > 0 {
        lemma_diff_indices_bound(a, b, (n - 1) as nat);
        let rest = diff_indices(a, b, (n - 1) as nat);
        assert forall|j: int| 0 <= j < diff_indices(a, b, n).len() implies #[trigger] diff_indices(
            a,
            b,
            n,
        )[j] < n by {
            if j < rest.len() {
                assert(rest[j] < n - 1);
            }
        }
    }
}

/// For each listed position: the letter of `a` there, `->`, the letter of `b` there, and a space.
pub open spec fn diff_text(a: Seq<char>, b: Seq<char>, ds: Seq<usize>) -> Seq<char>
    decreases ds.len(),
{
    if ds.len() == 0 {
        Seq::empty()
    } else {
        diff_text(a, b, ds.drop_last()) + seq![a[ds.last() as int]] + "->"@ + seq![b[ds.last() as int]]
            + " "@
    }
}

/// The report's opening: the best word read straight off the board.
pub open spec fn report_head(t: Tally) -> Seq<char> {
    "\n"@ + "result:--------------------------"@ + "\n"@ + grid_text(t.max_score_bak.0@) + "\n"@ + "word: "@ + t.max_score_bak.1@ + " "@
        + "score: "@ + int_text(t.max_score as int) + "\n"@ + "\n"@ + "result swap:---------------------"@ + "\n"@
}

/// The report's part for the best word with `i + 1` replacements.
pub open spec fn swap_section(t: Tally, i: int) -> Seq<char> {
    let e = t.max_score_swap_bak@[i];
    grid_text(e.0@) + "\n"@ + "swap word: "@ + e.2@ + " "@ + "score: "@ + int_text(
        t.max_score_swap@[i] as int,
    ) + "\n"@ + "swap: "@ + diff_text(e.1@, e.2@, diff_indices(e.1@, e.2@, min_len(e.1@.len(), e.2@.len())))
        + "\n"@ + "-----------------------------------"@ + "\n"@ + "\n"@
}

/// The parts for one to `n` replacements.
pub open spec fn swap_sections(t: Tally, n: nat) -> Seq<char>
    decreases n,
{
    if n == 0 {
        Seq::empty()
    } else {
        swap_sections(t, (n - 1) as nat) + swap_section(t, n - 1)
    }
}

/// The whole report for a budget of `can_use` replacements.
pub open spec fn report_text(t: Tally, can_use: nat) -> Seq<char> {
    report_head(t) + swap_sections(t, can_use) + "finish"@ + "\n"@
}

/// The score of a find: its word along its path.
pub open spec fn found_score(f: Found, tbl: Table, config: GameConfig) -> int {
    match f {
        Found::Word { history, letters } => score_of(tbl, history@, letters@, config),
        Found::Swapped { history, word, .. } => score_of(tbl, history@, word@, config),
    }
}

/// What offering a find needs: storage that fits, a replacement count of
/// one to three, and a scorable word.
pub open spec fn offerable(f: Found, config: GameConfig) -> bool {
    match f {
        Found::Word { history, letters } => history.wf() && letters.wf() && can_score(
            history@,
            letters@,
            config,
        ),
        Found::Swapped { history, word, swaps, .. } => history.wf() && 1 <= swaps <= 3 && can_score(
            history@,
            word@,
            config,
        ),
    }
}

/// The number of replaced letters of a find (0 for a word read straight off the board).
pub open spec fn level_of(f: Found) -> int {
    match f {
        Found::Word { .. } => 0,
        Found::Swapped { swaps, .. } => swaps as int,
    }
}

/// `f` is a word read off the board, kept as `entry`.
pub open spec fn is_word_entry(f: Found, entry: (History, HistoryChar)) -> bool {
    match f {
        Found::Word { history, letters } => entry == (history, letters),
        Found::Swapped { .. } => false,
    }
}

/// `f` is a word with replaced letters, kept as `entry`.
pub open spec fn is_swap_entry(f: Found, entry: (History, String, String)) -> bool {
    match f {
        Found::Swapped { history, board_word, word, .. } => entry == (history, board_word, word),
        Found::Word { .. } => false,
    }
}

/// The byte length of the word of a find with replaced letters.
pub open spec fn swap_word_len(f: Found) -> usize {
    match f {
        Found::Swapped { word, .. } => byte_len(word@),
        Found::Word { .. } => 0,
    }
}

/// The word of a find with replaced letters is no longer, in bytes, than
/// its board letters (so for ASCII words and board letters).
pub open spec fn lengths_fit(f: Found) -> bool {
    match f {
        Found::Swapped { board_word, word, .. } => byte_len(word@) <= byte_len(board_word@),
        Found::Word { .. } => true,
    }
}

/// Offering `f` turns `t` into `t2`, as `offer_word` and `offer_swap` state.
pub open spec fn offer_step(t: Tally, t2: Tally, f: Found, tbl: Table, config: GameConfig) -> bool {
    &&& t2.remain == t.remain
    &&& t2.end_flag == t.end_flag
    &&& match f {
        Found::Word { history, letters } => {
            let score = score_of(tbl, history@, letters@, config);
            &&& t2.max_score == if t.max_score < score {
                score
            } else {
                t.max_score as int
            }
            &&& t2.max_score_bak == if t.max_score < score {
                (history, letters)
            } else {
                t.max_score_bak
            }
            &&& t2.max_score_swap@ == t.max_score_swap@
            &&& t2.max_score_swap_bak@ == t.max_score_swap_bak@
        },
        Found::Swapped { history, board_word, word, swaps } => {
            let i = swaps - 1;
            let score = score_of(tbl, history@, word@, config);
            let best = t.max_score_swap@[i];
            let improved = best < score || (best == score && byte_len(t.max_score_swap_bak@[i].1@)
                < byte_len(word@));
            &&& t2.max_score == t.max_score
            &&& t2.max_score_bak == t.max_score_bak
            &&& t2.max_score_swap@ == if improved {
                t.max_score_swap@.update(i, score as i32)
            } else {
                t.max_score_swap@
            }
            &&& t2.max_score_swap_bak@ == if improved {
                t.max_score_swap_bak@.update(i, (history, board_word, word))
            } else {
                t.max_score_swap_bak@
            }
        },
    }
}

/// After the first `n` finds of `fs` were offered to `o`, giving `t`: the
/// best plain score never fell, is at least the score of every plain find,
/// and is either the old one, kept with the old entry, or higher and the
/// score of a plain find that is kept.
pub open spec fn word_kept(o: Tally, t: Tally, fs: Seq<Found>, n: int, tbl: Table, config: GameConfig) -> bool {
    &&& t.max_score >= o.max_score
    &&& forall|i: int|
        0 <= i < n && level_of(fs[i]) == 0 ==> #[trigger] found_score(fs[i], tbl, config) <= t.max_score
    &&& (t.max_score == o.max_score && t.max_score_bak == o.max_score_bak) || (t.max_score > o.max_score
        && exists|i: int|
        0 <= i < n && #[trigger] is_word_entry(fs[i], t.max_score_bak) && found_score(fs[i], tbl, config)
            == t.max_score)
}

/// The same for the finds with `l + 1` replaced letters.
pub open spec fn slot_score_kept(
    o: Tally,
    t: Tally,
    fs: Seq<Found>,
    n: int,
    l: int,
    tbl: Table,
    config: GameConfig,
) -> bool {
    &&& t.max_score_swap@[l] >= o.max_score_swap@[l]
    &&& forall|i: int|
        0 <= i < n && level_of(fs[i]) == l + 1 ==> #[trigger] found_score(fs[i], tbl, config)
            <= t.max_score_swap@[l]
    &&& (t.max_score_swap@[l] == o.max_score_swap@[l] && t.max_score_swap_bak@[l] == o.max_score_swap_bak@[l])
        || exists|i: int|
        0 <= i < n && level_of(fs[i]) == l + 1 && #[trigger] is_swap_entry(fs[i], t.max_score_swap_bak@[l])
            && found_score(fs[i], tbl, config) == t.max_score_swap@[l]
}

/// `slot_score_kept`, and, when no offered word is longer than its board
/// letters, every such find that reaches the kept score has a word no longer
/// than the kept board letters (the kept entry won the ties by length), and
/// at an unchanged score the kept board letters did not get shorter.
pub open spec fn slot_kept(
    o: Tally,
    t: Tally,
    fs: Seq<Found>,
    n: int,
    l: int,
    tbl: Table,
    config: GameConfig,
) -> bool {
    &&& slot_score_kept(o, t, fs, n, l, tbl, config)
    &&& (forall|i: int| 0 <= i < n ==> #[trigger] lengths_fit(fs[i])) ==> {
        &&& forall|i: int|
            0 <= i < n && level_of(fs[i]) == l + 1 && found_score(fs[i], tbl, config)
                == t.max_score_swap@[l] ==> #[trigger] swap_word_len(fs[i]) <= byte_len(
                t.max_score_swap_bak@[l].1@,
            )
        &&& t.max_score_swap@[l] == o.max_score_swap@[l] ==> byte_len(o.max_score_swap_bak@[l].1@)
            <= byte_len(t.max_score_swap_bak@[l].1@)
    }
}

/// The scores of `t` are the best of `o` and of the first `n` finds of `fs`,
/// each kept with an entry that reaches it.
pub open spec fn scores_kept(o: Tally, t: Tally, fs: Seq<Found>, n: int, tbl: Table, config: GameConfig) -> bool {
    &&& word_kept(o, t, fs, n, tbl, config)
    &&& forall|l: int| 0 <= l < 3 ==> #[trigger] slot_score_kept(o, t, fs, n, l, tbl, config)
}

/// `t` keeps the best of `o` and of the first `n` finds of `fs`: for the
/// plain words and for each number of replaced letters, ties going to the
/// longer word.
pub open spec fn keeps_best(o: Tally, t: Tally, fs: Seq<Found>, n: int, tbl: Table, config: GameConfig) -> bool {
    &&& word_kept(o, t, fs, n, tbl, config)
    &&& forall|l: int| 0 <= l < 3 ==> #[trigger] slot_kept(o, t, fs, n, l, tbl, config)
}

/// Offering one more find keeps `keeps_best`.
proof fn lemma_offer_step(
    o: Tally,
    t: Tally,
    t2: Tally,
    fs: Seq<Found>,
    n: int,
    tbl: Table,
    config: GameConfig,
)
    requires
        0 <= n < fs.len(),
        config.wf(),
        o.wf(),
        t.wf(),
        t2.wf(),
        offerable(fs[n], config),
        keeps_best(o, t, fs, n, tbl, config),
        offer_step(t, t2, fs[n], tbl, config),
    ensures
        keeps_best(o, t2, fs, n + 1, tbl, config),
{
    let f = fs[n];
    // the plain words
    if t2.max_score == t.max_score && t2.max_score_bak == t.max_score_bak {
        if t.max_score > o.max_score {
            let i = choose|i: int|
                0 <= i < n && #[trigger] is_word_entry(fs[i], t.max_score_bak) && found_score(fs[i], tbl, config)
                    == t.max_score;
            assert(is_word_entry(fs[i], t2.max_score_bak));
        }
    } else {
        assert(is_word_entry(fs[n], t2.max_score_bak));
    }
    assert(word_kept(o, t2, fs, n + 1, tbl, config));
    // each number of replaced letters
    assert forall|l: int| 0 <= l < 3 implies #[trigger] slot_kept(o, t2, fs, n + 1, l, tbl, config) by {
        lemma_slot_step(o, t, t2, fs, n, l, tbl, config);
    }
}

/// Offering one more find keeps `slot_kept` for the finds with `l + 1`
/// replaced letters.
proof fn lemma_slot_step(
    o: Tally,
    t: Tally,
    t2: Tally,
    fs: Seq<Found>,
    n: int,
    l: int,
    tbl: Table,
    config: GameConfig,
)
    requires
        0 <= n < fs.len(),
        0 <= l < 3,
        config.wf(),
        o.wf(),
        t.wf(),
        t2.wf(),
        offerable(fs[n], config),
        slot_kept(o, t, fs, n, l, tbl, config),
        offer_step(t, t2, fs[n], tbl, config),
    ensures
        slot_kept(o, t2, fs, n + 1, l, tbl, config),
{
    let f = fs[n];
    let ms = t.max_score_swap@[l];
    let kept = t.max_score_swap_bak@[l];
    let changed = match f {
        Found::Word { .. } => false,
        Found::Swapped { history, board_word, word, swaps } => {
            let score = score_of(tbl, history@, word@, config);
            swaps - 1 == l && (ms < score || (ms == score && byte_len(kept.1@) < byte_len(word@)))
        },
    };
    if !changed {
        assert(t2.max_score_swap@[l] == ms && t2.max_score_swap_bak@[l] == kept);
        if !(ms == o.max_score_swap@[l] && kept == o.max_score_swap_bak@[l]) {
            let i = choose|i: int|
                0 <= i < n && level_of(fs[i]) == l + 1 && #[trigger] is_swap_entry(fs[i], kept)
                    && found_score(fs[i], tbl, config) == ms;
            assert(is_swap_entry(fs[i], t2.max_score_swap_bak@[l]));
        }
        assert forall|i: int|
            0 <= i < n + 1 && level_of(fs[i]) == l + 1 implies #[trigger] found_score(fs[i], tbl, config)
            <= t2.max_score_swap@[l] by {
            if i < n {
                assert(found_score(fs[i], tbl, config) <= ms);
            }
        }
        if forall|i: int| 0 <= i < n + 1 ==> #[trigger] lengths_fit(fs[i]) {
            assert forall|i: int|
                0 <= i < n + 1 && level_of(fs[i]) == l + 1 && found_score(fs[i], tbl, config)
                    == t2.max_score_swap@[l] implies #[trigger] swap_word_len(fs[i]) <= byte_len(
                t2.max_score_swap_bak@[l].1@,
            ) by {
                if i < n {
                    assert(lengths_fit(fs[i]));
                    assert(forall|j: int| 0 <= j < n ==> #[trigger] lengths_fit(fs[j]));
                    assert(swap_word_len(fs[i]) <= byte_len(kept.1@));
                }
            }
        }
    } else {
        match f {
            Found::Swapped { history, board_word, word, swaps } => {
                let score = score_of(tbl, history@, word@, config);
                lemma_score_fits(tbl, history@, word@, config);
                assert(t2.max_score_swap@[l] == score);
                assert(t2.max_score_swap_bak@[l] == (history, board_word, word));
                assert(is_swap_entry(fs[n], t2.max_score_swap_bak@[l]));
                assert forall|i: int|
                    0 <= i < n + 1 && level_of(fs[i]) == l + 1 implies #[trigger] found_score(
                    fs[i],
                    tbl,
                    config,
                ) <= t2.max_score_swap@[l] by {
                    if i < n {
                        assert(found_score(fs[i], tbl, config) <= ms);
                    }
                }
                if forall|i: int| 0 <= i < n + 1 ==> #[trigger] lengths_fit(fs[i]) {
                    assert(lengths_fit(fs[n]));
                    assert forall|i: int|
                        0 <= i < n + 1 && level_of(fs[i]) == l + 1 && found_score(fs[i], tbl, config)
                            == t2.max_score_swap@[l] implies #[trigger] swap_word_len(fs[i]) <= byte_len(
                        t2.max_score_swap_bak@[l].1@,
                    ) by {
                        if i < n {
                            assert(found_score(fs[i], tbl, config) <= ms);
                            assert(lengths_fit(fs[i]));
                            assert(forall|j: int| 0 <= j < n ==> #[trigger] lengths_fit(fs[j]));
                            assert(swap_word_len(fs[i]) <= byte_len(kept.1@));
                        }
                    }
                }
            },
            Found::Word { .. } => {},
        }
    }
}

/// What `keeps_best` says of the scores alone.
pub proof fn lemma_keeps_best_scores(o: Tally, t: Tally, fs: Seq<Found>, n: int, tbl: Table, config: GameConfig)
    requires
        keeps_best(o, t, fs, n, tbl, config),
    ensures
        scores_kept(o, t, fs, n, tbl, config),
{
    assert forall|l: int| 0 <= l < 3 implies #[trigger] slot_score_kept(o, t, fs, n, l, tbl, config) by {
        assert(slot_kept(o, t, fs, n, l, tbl, config));
    }
}

/// Offering `fs1` and then `fs2` keeps the same scores as offering the two
/// one after the other in a single list: a run that offers the finds of each
/// board cell as they come keeps the best scores of all of them.
pub proof fn lemma_scores_kept_chain(
    o: Tally,
    t1: Tally,
    t2: Tally,
    fs1: Seq<Found>,
    fs2: Seq<Found>,
    tbl: Table,
    config: GameConfig,
)
    requires
        o.wf(),
        t1.wf(),
        t2.wf(),
        scores_kept(o, t1, fs1, fs1.len() as int, tbl, config),
        scores_kept(t1, t2, fs2, fs2.len() as int, tbl, config),
    ensures
        scores_kept(o, t2, fs1 + fs2, fs1.len() + fs2.len() as int, tbl, config),
{
    let fs = fs1 + fs2;
    let n1 = fs1.len() as int;
    let n = fs1.len() + fs2.len() as int;
    assert forall|i: int| 0 <= i < n && level_of(fs[i]) == 0 implies #[trigger] found_score(fs[i], tbl, config)
        <= t2.max_score by {
        if i < n1 {
            assert(fs[i] == fs1[i]);
        } else {
            assert(fs[i] == fs2[i - n1]);
        }
    }
    if !(t2.max_score == o.max_score && t2.max_score_bak == o.max_score_bak) {
        if t2.max_score == t1.max_score && t2.max_score_bak == t1.max_score_bak {
            let i = choose|i: int|
                0 <= i < n1 && #[trigger] is_word_entry(fs1[i], t1.max_score_bak) && found_score(
                    fs1[i],
                    tbl,
                    config,
                ) == t1.max_score;
            assert(fs[i] == fs1[i]);
            assert(is_word_entry(fs[i], t2.max_score_bak));
        } else {
            let j = choose|j: int|
                0 <= j < fs2.len() && #[trigger] is_word_entry(fs2[j], t2.max_score_bak) && found_score(
                    fs2[j],
                    tbl,
                    config,
                ) == t2.max_score;
            assert(fs[n1 + j] == fs2[j]);
            assert(is_word_entry(fs[n1 + j], t2.max_score_bak));
        }
    }
    assert(word_kept(o, t2, fs, n, tbl, config));
    assert forall|l: int| 0 <= l < 3 implies #[trigger] slot_score_kept(o, t2, fs, n, l, tbl, config) by {
        assert(slot_score_kept(o, t1, fs1, n1, l, tbl, config));
        assert(slot_score_kept(t1, t2, fs2, fs2.len() as int, l, tbl, config));
        assert forall|i: int|
            0 <= i < n && level_of(fs[i]) == l + 1 implies #[trigger] found_score(fs[i], tbl, config)
            <= t2.max_score_swap@[l] by {
            if i < n1 {
                assert(fs[i] == fs1[i]);
            } else {
                assert(fs[i] == fs2[i - n1]);
            }
        }
        if !(t2.max_score_swap@[l] == o.max_score_swap@[l] && t2.max_score_swap_bak@[l]
            == o.max_score_swap_bak@[l]) {
            if t2.max_score_swap@[l] == t1.max_score_swap@[l] && t2.max_score_swap_bak@[l]
                == t1.max_score_swap_bak@[l] {
                let i = choose|i: int|
                    0 <= i < n1 && level_of(fs1[i]) == l + 1 && #[trigger] is_swap_entry(
                        fs1[i],
                        t1.max_score_swap_bak@[l],
                    ) && found_score(fs1[i], tbl, config) == t1.max_score_swap@[l];
                assert(fs[i] == fs1[i]);
                assert(is_swap_entry(fs[i], t2.max_score_swap_bak@[l]));
            } else {
                let j = choose|j: int|
                    0 <= j < fs2.len() && level_of(fs2[j]) == l + 1 && #[trigger] is_swap_entry(
                        fs2[j],
                        t2.max_score_swap_bak@[l],
                    ) && found_score(fs2[j], tbl, config) == t2.max_score_swap@[l];
                assert(fs[n1 + j] == fs2[j]);
                assert(is_swap_entry(fs[n1 + j], t2.max_score_swap_bak@[l]));
            }
        }
    }
}

/// When every find of `fs1` is among those of `fs2`, offering `fs2` keeps
/// scores at least as high as offering `fs1`.
proof fn lemma_scores_kept_grow(
    o: Tally,
    t1: Tally,
    t2: Tally,
    fs1: Seq<Found>,
    fs2: Seq<Found>,
    tbl: Table,
    config: GameConfig,
)
    requires
        scores_kept(o, t1, fs1, fs1.len() as int, tbl, config),
        scores_kept(o, t2, fs2, fs2.len() as int, tbl, config),
        forall|f: Found| fs1.contains(f) ==> fs2.contains(f),
    ensures
        t1.max_score <= t2.max_score,
        forall|l: int| 0 <= l < 3 ==> #[trigger] t1.max_score_swap@[l] <= t2.max_score_swap@[l],
{
    if t1.max_score > o.max_score {
        let i = choose|i: int|
            0 <= i < fs1.len() && #[trigger] is_word_entry(fs1[i], t1.max_score_bak) && found_score(
                fs1[i],
                tbl,
                config,
            ) == t1.max_score;
        assert(fs1.contains(fs1[i]));
        let j = choose|j: int| 0 <= j < fs2.len() && fs2[j] == fs1[i];
        assert(found_score(fs2[j], tbl, config) <= t2.max_score);
    }
    assert forall|l: int| 0 <= l < 3 implies #[trigger] t1.max_score_swap@[l] <= t2.max_score_swap@[l] by {
        assert(slot_score_kept(o, t1, fs1, fs1.len() as int, l, tbl, config));
        assert(slot_score_kept(o, t2, fs2, fs2.len() as int, l, tbl, config));
        if !(t1.max_score_swap@[l] == o.max_score_swap@[l] && t1.max_score_swap_bak@[l]
            == o.max_score_swap_bak@[l]) {
            let i = choose|i: int|
                0 <= i < fs1.len() && level_of(fs1[i]) == l + 1 && #[trigger] is_swap_entry(
                    fs1[i],
                    t1.max_score_swap_bak@[l],
                ) && found_score(fs1[i], tbl, config) == t1.max_score_swap@[l];
            assert(fs1.contains(fs1[i]));
            let j = choose|j: int| 0 <= j < fs2.len() && fs2[j] == fs1[i];
            assert(found_score(fs2[j], tbl, config) <= t2.max_score_swap@[l]);
        }
    }
}

/// The kept scores depend only on which finds were offered, not on their
/// order: two runs from the same tally over the same finds, in any order and
/// in any split into lists, keep the same best scores.
pub proof fn lemma_scores_order_free(
    o: Tally,
    t1: Tally,
    t2: Tally,
    fs1: Seq<Found>,
    fs2: Seq<Found>,
    tbl: Table,
    config: GameConfig,
)
    requires
        scores_kept(o, t1, fs1, fs1.len() as int, tbl, config),
        scores_kept(o, t2, fs2, fs2.len() as int, tbl, config),
        forall|f: Found| fs1.contains(f) <==> fs2.contains(f),
    ensures
        t1.max_score == t2.max_score,
        forall|l: int| 0 <= l < 3 ==> #[trigger] t1.max_score_swap@[l] == t2.max_score_swap@[l],
{
    lemma_scores_kept_grow(o, t1, t2, fs1, fs2, tbl, config);
    lemma_scores_kept_grow(o, t2, t1, fs2, fs1, tbl, config);
}

/// A run of a search: tally `ts[i + 1]` comes from `ts[i]` by offering the
/// finds `bs[i]` (a board cell's list; a finished cell offers none).  The
/// last tally keeps the best scores of the first and of all finds of all
/// lists together.
pub proof fn lemma_run_scores(ts: Seq<Tally>, bs: Seq<Seq<Found>>, tbl: Table, config: GameConfig)
    requires
        ts.len() == bs.len() + 1,
        forall|i: int| 0 <= i < ts.len() ==> (#[trigger] ts[i]).wf(),
        forall|i: int|
            0 <= i < bs.len() ==> scores_kept(ts[i], ts[i + 1], #[trigger] bs[i], bs[i].len() as int, tbl, config),
    ensures
        scores_kept(ts[0], ts.last(), bs.flatten(), bs.flatten().len() as int, tbl, config),
    decreases bs.len(),
{
    if bs.len() == 0 {
        assert(bs.flatten() =~= Seq::<Found>::empty());
        assert forall|l: int| 0 <= l < 3 implies #[trigger] slot_score_kept(
            ts[0],
            ts.last(),
            bs.flatten(),
            0,
            l,
            tbl,
            config,
        ) by {}
    } else {
        let n = bs.len() - 1;
        let front = bs.drop_last();
        let earlier = ts.drop_last();
        assert forall|i: int| 0 <= i < front.len() implies scores_kept(
            earlier[i],
            earlier[i + 1],
            #[trigger] front[i],
            front[i].len() as int,
            tbl,
            config,
        ) by {
            assert(scores_kept(ts[i], ts[i + 1], bs[i], bs[i].len() as int, tbl, config));
        }
        assert forall|i: int| 0 <= i < earlier.len() implies (#[trigger] earlier[i]).wf() by {
            assert(ts[i].wf());
        }
        lemma_run_scores(earlier, front, tbl, config);
        assert(ts[n].wf() && ts[n + 1].wf());
        assert(scores_kept(ts[n], ts[n + 1], bs[n], bs[n].len() as int, tbl, config));
        lemma_scores_kept_chain(ts[0], ts[n], ts[n + 1], front.flatten(), bs[n], tbl, config);
        assert(bs =~= front.push(bs[n]));
        front.lemma_flatten_push(bs[n]);
    }
}

/// Two runs from the same tally that offer the same finds, in whatever
/// order and however split among lists, end with the same best scores.
pub proof fn lemma_runs_agree(
    ts1: Seq<Tally>,
    bs1: Seq<Seq<Found>>,
    ts2: Seq<Tally>,
    bs2: Seq<Seq<Found>>,
    tbl: Table,
    config: GameConfig,
)
    requires
        ts1.len() == bs1.len() + 1,
        ts2.len() == bs2.len() + 1,
        ts1[0] == ts2[0],
        forall|i: int| 0 <= i < ts1.len() ==> (#[trigger] ts1[i]).wf(),
        forall|i: int| 0 <= i < ts2.len() ==> (#[trigger] ts2[i]).wf(),
        forall|i: int|
            0 <= i < bs1.len() ==> scores_kept(ts1[i], ts1[i + 1], #[trigger] bs1[i], bs1[i].len() as int, tbl, config),
        forall|i: int|
            0 <= i < bs2.len() ==> scores_kept(ts2[i], ts2[i + 1], #[trigger] bs2[i], bs2[i].len() as int, tbl, config),
        forall|f: Found| bs1.flatten().contains(f) <==> bs2.flatten().contains(f),
    ensures
        ts1.last().max_score == ts2.last().max_score,
        forall|l: int| 0 <= l < 3 ==> #[trigger] ts1.last().max_score_swap@[l] == ts2.last().max_score_swap@[l],
{
    lemma_run_scores(ts1, bs1, tbl, config);
    lemma_run_scores(ts2, bs2, tbl, config);
    lemma_scores_order_free(ts1[0], ts1.last(), ts2.last(), bs1.flatten(), bs2.flatten(), tbl, config);
}

/// Offering `fs1` and then `fs2` keeps the best, ties by length included,
/// as offering the two one after the other in a single list.
pub proof fn lemma_keeps_best_chain(
    o: Tally,
    t1: Tally,
    t2: Tally,
    fs1: Seq<Found>,
    fs2: Seq<Found>,
    tbl: Table,
    config: GameConfig,
)
    requires
        o.wf(),
        t1.wf(),
        t2.wf(),
        keeps_best(o, t1, fs1, fs1.len() as int, tbl, config),
        keeps_best(t1, t2, fs2, fs2.len() as int, tbl, config),
    ensures
        keeps_best(o, t2, fs1 + fs2, fs1.len() + fs2.len() as int, tbl, config),
{
    let fs = fs1 + fs2;
    let n1 = fs1.len() as int;
    let n = fs1.len() + fs2.len() as int;
    lemma_keeps_best_scores(o, t1, fs1, n1, tbl, config);
    lemma_keeps_best_scores(t1, t2, fs2, fs2.len() as int, tbl, config);
    lemma_scores_kept_chain(o, t1, t2, fs1, fs2, tbl, config);
    assert forall|l: int| 0 <= l < 3 implies #[trigger] slot_kept(o, t2, fs, n, l, tbl, config) by {
        assert(slot_score_kept(o, t2, fs, n, l, tbl, config));
        assert(slot_kept(o, t1, fs1, n1, l, tbl, config));
        assert(slot_kept(t1, t2, fs2, fs2.len() as int, l, tbl, config));
        if forall|i: int| 0 <= i < n ==> #[trigger] lengths_fit(fs[i]) {
            assert forall|i: int| 0 <= i < n1 implies #[trigger] lengths_fit(fs1[i]) by {
                assert(fs[i] == fs1[i]);
                assert(lengths_fit(fs[i]));
            }
            assert forall|i: int| 0 <= i < fs2.len() implies #[trigger] lengths_fit(fs2[i]) by {
                assert(fs[n1 + i] == fs2[i]);
                assert(lengths_fit(fs[n1 + i]));
            }
            assert forall|i: int|
                0 <= i < n && level_of(fs[i]) == l + 1 && found_score(fs[i], tbl, config)
                    == t2.max_score_swap@[l] implies #[trigger] swap_word_len(fs[i]) <= byte_len(
                t2.max_score_swap_bak@[l].1@,
            ) by {
                if i < n1 {
                    assert(fs[i] == fs1[i]);
                    assert(found_score(fs1[i], tbl, config) <= t1.max_score_swap@[l]);
                } else {
                    assert(fs[i] == fs2[i - n1]);
                }
            }
        }
    }
}

/// A run of a search, as in `lemma_run_scores`, where each list is offered
/// so that `keeps_best` holds: the last tally keeps the best of the first and
/// of all finds of all lists together, ties by length included.
pub proof fn lemma_run_keeps_best(ts: Seq<Tally>, bs: Seq<Seq<Found>>, tbl: Table, config: GameConfig)
    requires
        ts.len() == bs.len() + 1,
        forall|i: int| 0 <= i < ts.len() ==> (#[trigger] ts[i]).wf(),
        forall|i: int|
            0 <= i < bs.len() ==> keeps_best(ts[i], ts[i + 1], #[trigger] bs[i], bs[i].len() as int, tbl, config),
    ensures
        keeps_best(ts[0], ts.last(), bs.flatten(), bs.flatten().len() as int, tbl, config),
    decreases bs.len(),
{
    if bs.len() == 0 {
        assert(bs.flatten() =~= Seq::<Found>::empty());
        assert forall|l: int| 0 <= l < 3 implies #[trigger] slot_kept(
            ts[0],
            ts.last(),
            bs.flatten(),
            0,
            l,
            tbl,
            config,
        ) by {}
    } else {
        let n = bs.len() - 1;
        let front = bs.drop_last();
        let earlier = ts.drop_last();
        assert forall|i: int| 0 <= i < front.len() implies keeps_best(
            earlier[i],
            earlier[i + 1],
            #[trigger] front[i],
            front[i].len() as int,
            tbl,
            config,
        ) by {
            assert(keeps_best(ts[i], ts[i + 1], bs[i], bs[i].len() as int, tbl, config));
        }
        assert forall|i: int| 0 <= i < earlier.len() implies (#[trigger] earlier[i]).wf() by {
            assert(ts[i].wf());
        }
        lemma_run_keeps_best(earlier, front, tbl, config);
        assert(ts[n].wf() && ts[n + 1].wf());
        assert(keeps_best(ts[n], ts[n + 1], bs[n], bs[n].len() as int, tbl, config));
        lemma_keeps_best_chain(ts[0], ts[n], ts[n + 1], front.flatten(), bs[n], tbl, config);
        assert(bs =~= front.push(bs[n]));
        front.lemma_flatten_push(bs[n]);
    }
}

/// The word of a find with replaced letters has as many bytes as its board
/// letters (so for ASCII words and boards).
pub open spec fn lengths_match(f: Found) -> bool {
    match f {
        Found::Swapped { board_word, word, .. } => byte_len(word@) == byte_len(board_word@),
        Found::Word { .. } => true,
    }
}

/// For each number of replaced letters, the kept word of `t` has as many
/// bytes as its board letters.
pub open spec fn kept_lengths_match(t: Tally) -> bool {
    forall|l: int|
        0 <= l < 3 ==> byte_len((#[trigger] t.max_score_swap_bak@[l]).2@) == byte_len(
            t.max_score_swap_bak@[l].1@,
        )
}

/// Two tallies that keep the best of one start and of the same finds, when
/// every word has as many bytes as its board letters, keep words of the same
/// length for each number of replaced letters (which of several words of
/// equal score and length is kept may differ).
pub proof fn lemma_kept_lengths_agree(
    o: Tally,
    t1: Tally,
    t2: Tally,
    fs1: Seq<Found>,
    fs2: Seq<Found>,
    tbl: Table,
    config: GameConfig,
)
    requires
        keeps_best(o, t1, fs1, fs1.len() as int, tbl, config),
        keeps_best(o, t2, fs2, fs2.len() as int, tbl, config),
        forall|f: Found| fs1.contains(f) <==> fs2.contains(f),
        forall|i: int| 0 <= i < fs1.len() ==> #[trigger] lengths_match(fs1[i]),
        forall|i: int| 0 <= i < fs2.len() ==> #[trigger] lengths_match(fs2[i]),
        kept_lengths_match(o),
    ensures
        forall|l: int|
            0 <= l < 3 ==> byte_len((#[trigger] t1.max_score_swap_bak@[l]).2@) == byte_len(
                t2.max_score_swap_bak@[l].2@,
            ),
{
    lemma_keeps_best_scores(o, t1, fs1, fs1.len() as int, tbl, config);
    lemma_keeps_best_scores(o, t2, fs2, fs2.len() as int, tbl, config);
    lemma_scores_order_free(o, t1, t2, fs1, fs2, tbl, config);
    assert forall|i: int| 0 <= i < fs1.len() implies #[trigger] lengths_fit(fs1[i]) by {
        assert(lengths_match(fs1[i]));
    }
    assert forall|i: int| 0 <= i < fs2.len() implies #[trigger] lengths_fit(fs2[i]) by {
        assert(lengths_match(fs2[i]));
    }
    assert forall|l: int| 0 <= l < 3 implies byte_len((#[trigger] t1.max_score_swap_bak@[l]).2@) == byte_len(
        t2.max_score_swap_bak@[l].2@,
    ) by {
        assert(t1.max_score_swap@[l] == t2.max_score_swap@[l]);
        lemma_kept_board_agree(o, t1, t2, fs1, fs2, l, tbl, config);
        lemma_kept_board_agree(o, t2, t1, fs2, fs1, l, tbl, config);
        lemma_kept_word_len(o, t1, fs1, l, tbl, config);
        lemma_kept_word_len(o, t2, fs2, l, tbl, config);
    }
}

/// Under `lemma_kept_lengths_agree`'s conditions, the kept board letters of
/// `t2` are no longer than those of `t1`.
proof fn lemma_kept_board_agree(
    o: Tally,
    t1: Tally,
    t2: Tally,
    fs1: Seq<Found>,
    fs2: Seq<Found>,
    l: int,
    tbl: Table,
    config: GameConfig,
)
    requires
        0 <= l < 3,
        keeps_best(o, t1, fs1, fs1.len() as int, tbl, config),
        keeps_best(o, t2, fs2, fs2.len() as int, tbl, config),
        forall|f: Found| fs1.contains(f) <==> fs2.contains(f),
        forall|i: int| 0 <= i < fs1.len() ==> #[trigger] lengths_fit(fs1[i]),
        forall|i: int| 0 <= i < fs2.len() ==> #[trigger] lengths_fit(fs2[i]),
        forall|i: int| 0 <= i < fs2.len() ==> #[trigger] lengths_match(fs2[i]),
        t1.max_score_swap@[l] == t2.max_score_swap@[l],
    ensures
        byte_len(t2.max_score_swap_bak@[l].1@) <= byte_len(t1.max_score_swap_bak@[l].1@),
{
    assert(slot_kept(o, t1, fs1, fs1.len() as int, l, tbl, config));
    assert(slot_kept(o, t2, fs2, fs2.len() as int, l, tbl, config));
    let e2 = t2.max_score_swap_bak@[l];
    if t2.max_score_swap@[l] == o.max_score_swap@[l] && e2 == o.max_score_swap_bak@[l] {
        // the second kept the start's entry; the first did not lose length from it
    } else {
        let j = choose|j: int|
            0 <= j < fs2.len() && level_of(fs2[j]) == l + 1 && #[trigger] is_swap_entry(fs2[j], e2)
                && found_score(fs2[j], tbl, config) == t2.max_score_swap@[l];
        assert(fs2.contains(fs2[j]));
        let i = choose|i: int| 0 <= i < fs1.len() && fs1[i] == fs2[j];
        assert(lengths_match(fs2[j]));
        assert(swap_word_len(fs1[i]) <= byte_len(t1.max_score_swap_bak@[l].1@));
    }
}

/// The kept word of `t` has as many bytes as its board letters.
proof fn lemma_kept_word_len(o: Tally, t: Tally, fs: Seq<Found>, l: int, tbl: Table, config: GameConfig)
    requires
        0 <= l < 3,
        keeps_best(o, t, fs, fs.len() as int, tbl, config),
        forall|i: int| 0 <= i < fs.len() ==> #[trigger] lengths_match(fs[i]),
        kept_lengths_match(o),
    ensures
        byte_len(t.max_score_swap_bak@[l].2@) == byte_len(t.max_score_swap_bak@[l].1@),
{
    assert(slot_kept(o, t, fs, fs.len() as int, l, tbl, config));
    let e = t.max_score_swap_bak@[l];
    if !(t.max_score_swap@[l] == o.max_score_swap@[l] && e == o.max_score_swap_bak@[l]) {
        let j = choose|j: int|
            0 <= j < fs.len() && level_of(fs[j]) == l + 1 && #[trigger] is_swap_entry(fs[j], e)
                && found_score(fs[j], tbl, config) == t.max_score_swap@[l];
        assert(lengths_match(fs[j]));
    } else {
        assert(byte_len(o.max_score_swap_bak@[l].2@) == byte_len(o.max_score_swap_bak@[l].1@));
    }
}

/// Two runs from the same tally that offer the same finds, in whatever
/// order and however split among lists, where every word has as many bytes
/// as its board letters, end with kept words of the same lengths.
pub proof fn lemma_runs_agree_lengths(
    ts1: Seq<Tally>,
    bs1: Seq<Seq<Found>>,
    ts2: Seq<Tally>,
    bs2: Seq<Seq<Found>>,
    tbl: Table,
    config: GameConfig,
)
    requires
        ts1.len() == bs1.len() + 1,
        ts2.len() == bs2.len() + 1,
        ts1[0] == ts2[0],
        kept_lengths_match(ts1[0]),
        forall|i: int| 0 <= i < ts1.len() ==> (#[trigger] ts1[i]).wf(),
        forall|i: int| 0 <= i < ts2.len() ==> (#[trigger] ts2[i]).wf(),
        forall|i: int|
            0 <= i < bs1.len() ==> keeps_best(ts1[i], ts1[i + 1], #[trigger] bs1[i], bs1[i].len() as int, tbl, config),
        forall|i: int|
            0 <= i < bs2.len() ==> keeps_best(ts2[i], ts2[i + 1], #[trigger] bs2[i], bs2[i].len() as int, tbl, config),
        forall|f: Found| bs1.flatten().contains(f) <==> bs2.flatten().contains(f),
        forall|i: int| 0 <= i < bs1.flatten().len() ==> #[trigger] lengths_match(bs1.flatten()[i]),
        forall|i: int| 0 <= i < bs2.flatten().len() ==> #[trigger] lengths_match(bs2.flatten()[i]),
    ensures
        forall|l: int|
            0 <= l < 3 ==> byte_len((#[trigger] ts1.last().max_score_swap_bak@[l]).2@) == byte_len(
                ts2.last().max_score_swap_bak@[l].2@,
            ),
{
    lemma_run_keeps_best(ts1, bs1, tbl, config);
    lemma_run_keeps_best(ts2, bs2, tbl, config);
    lemma_kept_lengths_agree(ts1[0], ts1.last(), ts2.last(), bs1.flatten(), bs2.flatten(), tbl, config);
}

/// The report's part for `i + 1` replaced letters reads only that number's
/// kept entry and kept score: not the best plain word or score, nor the
/// other numbers of replaced letters.
pub proof fn lemma_swap_section_reads_own_slot(t1: Tally, t2: Tally, i: int)
    requires
        0 <= i < 3,
        t1.max_score_swap_bak@[i] == t2.max_score_swap_bak@[i],
        t1.max_score_swap@[i] == t2.max_score_swap@[i],
    ensures
        swap_section(t1, i) == swap_section(t2, i),
{
}

/// The report's opening reads only the best plain entry and score.
pub proof fn lemma_report_head_reads_plain(t1: Tally, t2: Tally)
    requires
        t1.max_score_bak == t2.max_score_bak,
        t1.max_score == t2.max_score,
    ensures
        report_head(t1) == report_head(t2),
{
}

/// The part for `i + 1` replaced letters opens with the drawing of the kept
/// path, then the kept word, then `score: ` and the decimal text of the best
/// score kept for `i + 1` replaced letters, then the replacements.
pub proof fn lemma_swap_section_shows_slot_score(t: Tally, i: int)
    requires
        0 <= i < 3,
    ensures
        ({
            let e = t.max_score_swap_bak@[i];
            let head = grid_text(e.0@) + "\n"@ + "swap word: "@ + e.2@ + " "@ + "score: "@ + int_text(
                t.max_score_swap@[i] as int,
            ) + "\n"@ + "swap: "@;
            swap_section(t, i).take(head.len() as int) == head
        }),
{
    let e = t.max_score_swap_bak@[i];
    let head = grid_text(e.0@) + "\n"@ + "swap word: "@ + e.2@ + " "@ + "score: "@ + int_text(
        t.max_score_swap@[i] as int,
    ) + "\n"@ + "swap: "@;
    let rest = diff_text(e.1@, e.2@, diff_indices(e.1@, e.2@, min_len(e.1@.len(), e.2@.len()))) + "\n"@
        + "-----------------------------------"@ + "\n"@ + "\n"@;
    assert(swap_section(t, i) =~= head + rest);
    assert((head + rest).take(head.len() as int) =~= head);
}

/// The replacements text lists, for each listed position `d`, in the list's
/// order, the five characters: the letter of `a` at `d`, `-`, `>`, the letter
/// of `b` at `d`, and a space; nothing else.
pub proof fn lemma_diff_text_entries(a: Seq<char>, b: Seq<char>, ds: Seq<usize>)
    requires
        forall|q: int| 0 <= q < ds.len() ==> #[trigger] ds[q] < a.len() && ds[q] < b.len(),
    ensures
        diff_text(a, b, ds).len() == 5 * ds.len(),
        forall|q: int|
            0 <= q < ds.len() ==> #[trigger] diff_text(a, b, ds).subrange(5 * q, 5 * q + 5) == seq![
                a[ds[q] as int],
                '-',
                '>',
                b[ds[q] as int],
                ' ',
            ],
    decreases ds.len(),
{
    reveal_strlit("->");
    reveal_strlit(" ");
    if ds.len() > 0 {
        let front = ds.drop_last();
        assert forall|q: int| 0 <= q < front.len() implies #[trigger] front[q] < a.len() && front[q] < b.len() by {
            assert(front[q] == ds[q]);
        }
        lemma_diff_text_entries(a, b, front);
        let x = ds.last();
        let entry = seq![a[x as int], '-', '>', b[x as int], ' '];
        let prev = diff_text(a, b, front);
        assert(seq![a[x as int]] + "->"@ + seq![b[x as int]] + " "@ =~= entry);
        assert(diff_text(a, b, ds) =~= prev + entry);
        assert forall|q: int| 0 <= q < ds.len() implies #[trigger] diff_text(a, b, ds).subrange(
            5 * q,
            5 * q + 5,
        ) == seq![a[ds[q] as int], '-', '>', b[ds[q] as int], ' '] by {
            if q < front.len() {
                assert(prev.subrange(5 * q, 5 * q + 5) == seq![a[front[q] as int], '-', '>', b[front[q] as int], ' ']);
                assert((prev + entry).subrange(5 * q, 5 * q + 5) =~= prev.subrange(5 * q, 5 * q + 5));
            } else {
                assert((prev + entry).subrange(5 * q, 5 * q + 5) =~= entry);
            }
        }
    }
}

/// The positions listed over the first `n` letters are as many as the
/// letters at which the two words differ there.
pub proof fn lemma_diff_count(a: Seq<char>, b: Seq<char>, n: nat)
    requires
        n <= a.len(),
        n <= b.len(),
    ensures
        diff_indices(a, b, n).len() == diffs(a.take(n as int), b.take(n as int)),
    decreases n,
{
    if n > 0 {
        lemma_diff_count(a, b, (n - 1) as nat);
        assert(a.take(n as int).drop_last() =~= a.take(n - 1));
        assert(b.take(n as int).drop_last() =~= b.take(n - 1));
    } else {
        assert(a.take(0) =~= Seq::<char>::empty());
    }
}

/// The replacements text of the part for `i + 1` replaced letters has one
/// entry `x->y ` for each position, over the shorter length, where the kept
/// board letters `x` and the kept word `y` differ, in increasing order of
/// position: as many entries as differing letters.
pub proof fn lemma_swap_section_lists_each_replacement(t: Tally, i: int)
    requires
        t.wf(),
        0 <= i < 3,
        t.max_score_swap_bak@[i].1@.len() <= usize::MAX,
    ensures
        ({
            let e = t.max_score_swap_bak@[i];
            let m = min_len(e.1@.len(), e.2@.len());
            let ds = diff_indices(e.1@, e.2@, m);
            let text = diff_text(e.1@, e.2@, ds);
            &&& text.len() == 5 * diffs(e.1@.take(m as int), e.2@.take(m as int))
            &&& forall|q: int|
                0 <= q < ds.len() ==> #[trigger] text.subrange(5 * q, 5 * q + 5) == seq![
                    e.1@[ds[q] as int],
                    '-',
                    '>',
                    e.2@[ds[q] as int],
                    ' ',
                ]
            &&& forall|p: int| 0 <= p < m ==> (ds.contains(p as usize) <==> e.1@[p] != e.2@[p])
            &&& forall|q: int, r: int| 0 <= q < r < ds.len() ==> ds[q] < ds[r]
        }),
{
    let e = t.max_score_swap_bak@[i];
    let m = min_len(e.1@.len(), e.2@.len());
    let ds = diff_indices(e.1@, e.2@, m);
    lemma_diff_indices_exact(e.1@, e.2@, m);
    lemma_diff_count(e.1@, e.2@, m);
    lemma_diff_text_entries(e.1@, e.2@, ds);
}

/// The report opens with the drawing of the best plain path, then `word: `
/// and the best plain word, then `score: ` and the decimal text of the best
/// plain score.
pub proof fn lemma_report_head_shows_plain(t: Tally)
    ensures
        ({
            let head = "\n"@ + "result:--------------------------"@ + "\n"@ + grid_text(t.max_score_bak.0@)
                + "\n"@ + "word: "@ + t.max_score_bak.1@ + " "@ + "score: "@ + int_text(t.max_score as int)
                + "\n"@;
            report_head(t).take(head.len() as int) == head
        }),
{
    let head = "\n"@ + "result:--------------------------"@ + "\n"@ + grid_text(t.max_score_bak.0@) + "\n"@
        + "word: "@ + t.max_score_bak.1@ + " "@ + "score: "@ + int_text(t.max_score as int) + "\n"@;
    let rest = "\n"@ + "result swap:---------------------"@ + "\n"@;
    assert(report_head(t) =~= head + rest);
    assert((head + rest).take(head.len() as int) =~= head);
}

/// The report for a budget of `n` replacements reads only the best plain
/// entry and score and the kept entries and scores for one to `n`
/// replacements.
pub proof fn lemma_report_reads_budget(t1: Tally, t2: Tally, n: nat)
    requires
        n <= 3,
        t1.max_score_bak == t2.max_score_bak,
        t1.max_score == t2.max_score,
        forall|i: int|
            0 <= i < n ==> #[trigger] t1.max_score_swap_bak@[i] == t2.max_score_swap_bak@[i]
                && t1.max_score_swap@[i] == t2.max_score_swap@[i],
    ensures
        report_text(t1, n) == report_text(t2, n),
{
    lemma_sections_read_budget(t1, t2, n);
}

proof fn lemma_sections_read_budget(t1: Tally, t2: Tally, n: nat)
    requires
        n <= 3,
        forall|i: int|
            0 <= i < n ==> #[trigger] t1.max_score_swap_bak@[i] == t2.max_score_swap_bak@[i]
                && t1.max_score_swap@[i] == t2.max_score_swap@[i],
    ensures
        swap_sections(t1, n) == swap_sections(t2, n),
    decreases n,
{
    if n > 0 {
        lemma_sections_read_budget(t1, t2, (n - 1) as nat);
        assert(t1.max_score_swap_bak@[n - 1] == t2.max_score_swap_bak@[n - 1]);
        lemma_swap_section_reads_own_slot(t1, t2, n - 1);
    }
}

} // verus!
