use spellcast_finder::config::GameConfig;
use spellcast_finder::history::{History, HistoryChar};
use spellcast_finder::parse::parse;
use spellcast_finder::render::{get_diff_string_index, int_to_string, paths_to_string, push_decimal};
use spellcast_finder::search::Found;
use spellcast_finder::tally::Tally;

const BOARD: &str = "abcde\nfghij\nklmno\npqrst\nuvwxy";

#[test]
fn diff_indexes() {
    assert_eq!(get_diff_string_index("abc".to_string(), "abd".to_string()), vec![2]);
    assert_eq!(get_diff_string_index("abc".to_string(), "xbz".to_string()), vec![0, 2]);
    assert_eq!(get_diff_string_index("abcd".to_string(), "ab".to_string()), Vec::<usize>::new());
    assert_eq!(get_diff_string_index("".to_string(), "ab".to_string()), Vec::<usize>::new());
}

#[test]
fn decimal_text() {
    assert_eq!(int_to_string(0), "0");
    assert_eq!(int_to_string(42), "42");
    assert_eq!(int_to_string(-7), "-7");
    assert_eq!(int_to_string(i32::MIN), "-2147483648");
    let mut s = "x".to_string();
    push_decimal(&mut s, 1200);
    assert_eq!(s, "x1200");
}

#[test]
fn path_drawing() {
    let mut h = History::new();
    h.append((0, 0));
    h.append((1, 1));
    h.append((2, 1));
    let expected = "1 _ _ _ _ \n_ 2 _ _ _ \n_ 3 _ _ _ \n_ _ _ _ _ \n_ _ _ _ _ \n";
    assert_eq!(paths_to_string(&h, None), expected);
    assert_eq!(paths_to_string(&h, Some(("ab".to_string(), "ac".to_string()))), expected);
}

#[test]
fn path_drawing_two_digit_steps() {
    let mut h = History::new();
    let order = [(0, 0), (0, 1), (0, 2), (0, 3), (0, 4), (1, 4), (1, 3), (1, 2), (1, 1), (1, 0), (2, 0)];
    for c in order.iter() {
        h.append(*c);
    }
    let expected = "1 2 3 4 5 \n10 9 8 7 6 \n11 _ _ _ _ \n_ _ _ _ _ \n_ _ _ _ _ \n";
    assert_eq!(paths_to_string(&h, None), expected);
}

fn word_path(cells: &[(usize, usize)], letters: &str) -> (History, HistoryChar) {
    let mut h = History::new();
    let mut c = HistoryChar::new();
    for (cell, l) in cells.iter().zip(letters.chars()) {
        h.append(*cell);
        c.append(l);
    }
    (h, c)
}

#[test]
fn tally_keeps_highest_word() {
    let mut config = GameConfig::new();
    let tbl = parse(BOARD, &mut config);
    let mut t = Tally::new();
    let (h, c) = word_path(&[(0, 0), (0, 1)], "ab");
    assert!(t.offer_word(h, c, tbl, &config));
    assert_eq!(t.max_score, 5);
    let (h2, c2) = word_path(&[(0, 0), (1, 0)], "af");
    // a + f = 6 beats 5
    assert!(t.offer_word(h2, c2, tbl, &config));
    assert_eq!(t.max_score, 6);
    let (h3, c3) = word_path(&[(0, 1), (0, 0)], "ba");
    // 5 does not beat 6
    assert!(!t.offer_word(h3, c3, tbl, &config));
    assert_eq!(t.max_score, 6);
    assert_eq!(t.max_score_bak.1.to_string(), "af");
}

#[test]
fn tally_swap_ties_go_to_longer_words() {
    let mut config = GameConfig::new();
    let tbl = parse(BOARD, &mut config);
    let mut t = Tally::new();
    let (h, _) = word_path(&[(0, 0), (0, 1)], "ab");
    assert!(t.offer_swap(h, "ab".to_string(), "ae".to_string(), 1, tbl, &config));
    assert_eq!(t.max_score_swap, [2, 0, 0]);
    // same score, not longer than the kept board letters: kept
    assert!(!t.offer_swap(h, "ab".to_string(), "ea".to_string(), 1, tbl, &config));
    assert_eq!(t.max_score_swap_bak[0].2, "ae");
    assert!(t.offer_swap(h, "ab".to_string(), "zz".to_string(), 2, tbl, &config));
    assert_eq!(t.max_score_swap, [2, 16, 0]);
}

#[test]
fn tally_counts_finished_threads() {
    let mut t = Tally::new();
    assert_eq!(t.remain, 25);
    for _ in 0..24 {
        t.finish_thread();
        assert!(!t.end_flag);
    }
    t.finish_thread();
    assert_eq!(t.remain, 0);
    assert!(t.end_flag);
}

#[test]
fn report_text() {
    let mut config = GameConfig::new();
    let tbl = parse(BOARD, &mut config);
    let mut t = Tally::new();
    let (h, c) = word_path(&[(0, 0), (0, 1)], "ab");
    t.offer_word(h, c, tbl, &config);
    let (h2, _) = word_path(&[(0, 0), (1, 0)], "af");
    t.offer_swap(h2, "af".to_string(), "ab".to_string(), 1, tbl, &config);
    let mut expected = String::new();
    expected.push_str("\n");
    expected.push_str("result:--------------------------\n");
    expected.push_str("1 2 _ _ _ \n_ _ _ _ _ \n_ _ _ _ _ \n_ _ _ _ _ \n_ _ _ _ _ \n");
    expected.push_str("\n");
    expected.push_str("word: ab score: 5\n");
    expected.push_str("\n");
    expected.push_str("result swap:---------------------\n");
    expected.push_str("1 _ _ _ _ \n2 _ _ _ _ \n_ _ _ _ _ \n_ _ _ _ _ \n_ _ _ _ _ \n");
    expected.push_str("\n");
    expected.push_str("swap word: ab score: 5\n");
    expected.push_str("swap: f->b \n");
    expected.push_str("-----------------------------------\n");
    expected.push_str("\n");
    expected.push_str("finish\n");
    assert_eq!(t.render_report(1), expected);
}

fn batch() -> Vec<Found> {
    let (h1, c1) = word_path(&[(0, 0), (0, 1)], "ab");
    let (h2, c2) = word_path(&[(0, 0), (1, 0)], "af");
    let (h3, c3) = word_path(&[(0, 1), (0, 0)], "ba");
    let (h4, _) = word_path(&[(0, 0), (0, 1)], "ab");
    let (h5, _) = word_path(&[(0, 0), (0, 1), (0, 2)], "abc");
    vec![
        Found::Word { history: h1, letters: c1 },
        Found::Swapped { history: h4, board_word: "ab".to_string(), word: "en".to_string(), swaps: 1 },
        Found::Word { history: h2, letters: c2 },
        Found::Swapped { history: h5, board_word: "abc".to_string(), word: "aee".to_string(), swaps: 1 },
        Found::Word { history: h3, letters: c3 },
        Found::Swapped { history: h4, board_word: "ab".to_string(), word: "zz".to_string(), swaps: 2 },
    ]
}

#[test]
fn tally_offer_all_keeps_the_best_of_a_batch() {
    let mut config = GameConfig::new();
    let tbl = parse(BOARD, &mut config);
    let mut t = Tally::new();
    t.offer_all(&batch(), tbl, &config);
    // a + f = 6 is the best plain word
    assert_eq!(t.max_score, 6);
    assert_eq!(t.max_score_bak.1.to_string(), "af");
    // "en" and "aee" both score 3 with one replacement: the longer word is kept
    assert_eq!(t.max_score_swap, [3, 16, 0]);
    assert_eq!(t.max_score_swap_bak[0].2, "aee");
    assert_eq!(t.max_score_swap_bak[1].2, "zz");
    assert_eq!(t.remain, 25);
}

#[test]
fn tally_offer_all_order_does_not_change_the_scores() {
    let mut config = GameConfig::new();
    let tbl = parse(BOARD, &mut config);
    let mut forward = Tally::new();
    forward.offer_all(&batch(), tbl, &config);
    let mut reversed_finds = batch();
    reversed_finds.reverse();
    let mut backward = Tally::new();
    backward.offer_all(&reversed_finds, tbl, &config);
    assert_eq!(forward.max_score, backward.max_score);
    assert_eq!(forward.max_score_swap, backward.max_score_swap);
    assert_eq!(backward.max_score_swap_bak[0].2, "aee");
    for i in 0..3 {
        assert_eq!(forward.max_score_swap_bak[i].2.len(), backward.max_score_swap_bak[i].2.len());
    }
    // offering the batch in two parts gives the same as offering it whole
    let mut split = Tally::new();
    let mut first = batch();
    let second = first.split_off(3);
    split.offer_all(&first, tbl, &config);
    split.offer_all(&second, tbl, &config);
    assert_eq!(split.max_score, forward.max_score);
    assert_eq!(split.max_score_swap, forward.max_score_swap);
}

#[test]
fn tally_offer_all_of_nothing_changes_nothing() {
    let mut config = GameConfig::new();
    let tbl = parse(BOARD, &mut config);
    let mut t = Tally::new();
    t.offer_all(&Vec::new(), tbl, &config);
    assert_eq!(t.max_score, 0);
    assert_eq!(t.max_score_swap, [0, 0, 0]);
    assert_eq!(t.max_score_bak.1.to_string(), "");
}
