use spellcast_finder::config::GameConfig;
use spellcast_finder::history::{History, HistoryChar};
use spellcast_finder::parse::parse;
use spellcast_finder::search::{find_from, search, Found};
use spellcast_finder::trie::{Trie, WORD_EOF};

const BOARD: &str = "abcde\nfghij\nklmno\npqrst\nuvwxy";

fn dictionary(words: &[&str]) -> Trie {
    let mut t = Trie::new();
    for w in words {
        let chars: Vec<char> = w.chars().collect();
        t.insert_word(&chars);
    }
    t
}

fn path_of(h: &History) -> Vec<u8> {
    h.cells[..h.length as usize].to_vec()
}

#[test]
fn trie_insert_and_lookup() {
    let t = dictionary(&["ab", "abc"]);
    let a = t.get_child(0, 'a').expect("a");
    let b = t.get_child(a, 'b').expect("b");
    assert!(t.has_word_end(b));
    let c = t.get_child(b, 'c').expect("c");
    assert!(t.has_word_end(c));
    assert!(!t.has_word_end(a));
    assert_eq!(t.get_child(0, 'b'), None);
    assert!(t.get_child(b, WORD_EOF).is_some());
}

#[test]
fn trie_add_child_reuses_existing() {
    let mut t = Trie::new();
    let x = t.add_child(0, 'x');
    let y = t.add_child(0, 'x');
    assert_eq!(x, y);
    assert_eq!(t.nodes.len(), 2);
}

#[test]
fn find_plain_words() {
    let mut config = GameConfig::new();
    let tbl = parse(BOARD, &mut config);
    let t = dictionary(&["ab", "abc", "ag", "ba", "zz"]);
    let found = find_from(0, 0, tbl, &t, 0).expect("a starts a word");
    let mut words: Vec<(Vec<u8>, String)> = found
        .iter()
        .map(|f| match f {
            Found::Word { history, letters } => (path_of(history), letters.to_string()),
            Found::Swapped { .. } => panic!("no replacements allowed"),
        })
        .collect();
    words.sort();
    assert_eq!(
        words,
        vec![
            (vec![0, 1], "ab".to_string()),
            (vec![0, 1, 2], "abc".to_string()),
            (vec![0, 6], "ag".to_string()),
        ]
    );
}

#[test]
fn find_with_one_replacement() {
    let mut config = GameConfig::new();
    let tbl = parse(BOARD, &mut config);
    let t = dictionary(&["ab"]);
    let found = find_from(0, 0, tbl, &t, 1).expect("a starts a word");
    let mut swapped: Vec<(Vec<u8>, String, String, u8)> = Vec::new();
    let mut plain = 0;
    for f in &found {
        match f {
            Found::Word { .. } => plain += 1,
            Found::Swapped { history, board_word, word, swaps } => {
                swapped.push((path_of(history), board_word.clone(), word.clone(), *swaps))
            }
        }
    }
    swapped.sort();
    assert_eq!(plain, 1);
    assert_eq!(
        swapped,
        vec![
            (vec![0, 5], "af".to_string(), "ab".to_string(), 1),
            (vec![0, 6], "ag".to_string(), "ab".to_string(), 1),
        ]
    );
}

#[test]
fn find_first_letter_replaced() {
    let mut config = GameConfig::new();
    let tbl = parse(BOARD, &mut config);
    // "fb": start (0,0) 'a' replaced by 'f', then 'b' at (0,1)
    let t = dictionary(&["a", "fb"]);
    let found = find_from(0, 0, tbl, &t, 1).expect("a starts a word");
    let mut has_fb = false;
    for f in &found {
        if let Found::Swapped { history, board_word, word, swaps } = f {
            if word == "fb" {
                assert_eq!(path_of(history), vec![0, 1]);
                assert_eq!(board_word, "ab");
                assert_eq!(*swaps, 1);
                has_fb = true;
            }
        }
    }
    assert!(has_fb);
}

#[test]
fn find_from_needs_a_word_start() {
    let mut config = GameConfig::new();
    let tbl = parse(BOARD, &mut config);
    let t = dictionary(&["zz"]);
    assert!(find_from(0, 0, tbl, &t, 3).is_none());
}

#[test]
fn search_restores_history() {
    let mut config = GameConfig::new();
    let tbl = parse(BOARD, &mut config);
    let t = dictionary(&["ab"]);
    let a = t.get_child(0, 'a').unwrap();
    let mut h = History::new();
    let mut hc = HistoryChar::new();
    let mut out = Vec::new();
    let mut rs = "a".to_string();
    search((0, 0), &mut h, &mut hc, tbl, &t, a, &mut out, 0, 0, &mut rs);
    assert_eq!(h.length, 0);
    assert_eq!(hc.length, 0);
    assert_eq!(out.len(), 1);
}

#[test]
fn trie_keeps_earlier_words() {
    let mut t = dictionary(&["cat"]);
    let dog: Vec<char> = "dog".chars().collect();
    t.insert_word(&dog);
    let c = t.get_child(0, 'c').unwrap();
    let a = t.get_child(c, 'a').unwrap();
    let ct = t.get_child(a, 't').unwrap();
    assert!(t.has_word_end(ct));
    let d = t.get_child(0, 'd').unwrap();
    let o = t.get_child(d, 'o').unwrap();
    let g = t.get_child(o, 'g').unwrap();
    assert!(t.has_word_end(g));
}

#[test]
fn find_reports_each_word_once() {
    let mut config = GameConfig::new();
    let tbl = parse("aaaaa\naaaaa\naaaaa\naaaaa\naaaaa", &mut config);
    let t = dictionary(&["aa"]);
    let found = find_from(2, 2, tbl, &t, 0).unwrap();
    // the centre cell has eight neighbours
    assert_eq!(found.len(), 8);
    let mut paths: Vec<Vec<u8>> = found
        .iter()
        .map(|f| match f {
            Found::Word { history, .. } => path_of(history),
            Found::Swapped { .. } => panic!("no replacements allowed"),
        })
        .collect();
    paths.sort();
    paths.dedup();
    assert_eq!(paths.len(), 8);
}

fn holds(t: &Trie, word: &str) -> bool {
    let mut node = 0;
    for c in word.chars() {
        match t.get_child(node, c) {
            Some(m) => node = m,
            None => return false,
        }
    }
    t.has_word_end(node)
}

#[test]
fn trie_insert_adds_only_the_word() {
    let mut t = dictionary(&["dog"]);
    assert!(holds(&t, "dog"));
    assert!(!holds(&t, "do"));
    assert!(!holds(&t, "d"));
    assert!(!holds(&t, ""));
    let nodes = t.nodes.len();
    let doe: Vec<char> = "doe".chars().collect();
    t.insert_word(&doe);
    // the shared prefix is reused: one node for `e`, one for its end mark
    assert_eq!(t.nodes.len(), nodes + 2);
    assert!(holds(&t, "doe"));
    assert!(holds(&t, "dog"));
    assert!(!holds(&t, "do"));
    assert!(!holds(&t, "dogs"));
    let d_o: Vec<char> = "do".chars().collect();
    t.insert_word(&d_o);
    assert!(holds(&t, "do"));
    assert!(!holds(&t, "d"));
}

#[test]
fn trie_end_mark_inside_a_word_ends_its_prefix() {
    // a word holding the end mark is outside what insertion promises: its
    // prefix before the mark becomes a word too
    let mut t = Trie::new();
    let odd: Vec<char> = "a@b".chars().collect();
    t.insert_word(&odd);
    assert!(holds(&t, "a@b"));
    assert!(holds(&t, "a"));
}

#[test]
fn search_goes_on_from_any_prefix() {
    let mut config = GameConfig::new();
    let tbl = parse(BOARD, &mut config);
    let t = dictionary(&["b", "bc"]);
    // a prefix that is no trail to (0, 0), with letters that are not the
    // board's, a word text of its own, and one of two replacements spent
    let mut h = History::new();
    h.append((4, 4));
    h.append((3, 3));
    let mut hc = HistoryChar::new();
    hc.append('Q');
    hc.append('Z');
    let mut rs = "xyz".to_string();
    let mut out = Vec::new();
    search((0, 0), &mut h, &mut hc, tbl, &t, 0, &mut out, 2, 1, &mut rs);
    assert_eq!(path_of(&h), vec![24, 18]);
    assert_eq!(hc.to_string(), "QZ");
    assert_eq!(rs, "xyz");
    let mut got: Vec<(Vec<u8>, String, String, u8)> = out
        .iter()
        .map(|f| match f {
            Found::Swapped { history, board_word, word, swaps } => {
                (path_of(history), board_word.clone(), word.clone(), *swaps)
            }
            Found::Word { .. } => panic!("a replacement was spent before the call"),
        })
        .collect();
    got.sort();
    let s = |x: &str| x.to_string();
    assert_eq!(
        got,
        vec![
            (vec![24, 18, 0, 1], s("QZab"), s("xyzb"), 1),
            (vec![24, 18, 0, 1, 2], s("QZabc"), s("xyzbc"), 1),
            (vec![24, 18, 0, 1, 5], s("QZabf"), s("xyzbc"), 2),
            (vec![24, 18, 0, 1, 6], s("QZabg"), s("xyzbc"), 2),
            (vec![24, 18, 0, 1, 7], s("QZabh"), s("xyzbc"), 2),
            (vec![24, 18, 0, 5], s("QZaf"), s("xyzb"), 2),
            (vec![24, 18, 0, 6], s("QZag"), s("xyzb"), 2),
            (vec![24, 18, 0, 6, 2], s("QZagc"), s("xyzbc"), 2),
        ]
    );
}

#[test]
fn search_plain_finds_keep_the_given_letters() {
    let mut config = GameConfig::new();
    let tbl = parse(BOARD, &mut config);
    let t = dictionary(&["b"]);
    let mut h = History::new();
    h.append((4, 4));
    let mut hc = HistoryChar::new();
    hc.append('Q');
    let mut rs = String::new();
    let mut out = Vec::new();
    search((0, 0), &mut h, &mut hc, tbl, &t, 0, &mut out, 0, 0, &mut rs);
    assert_eq!(out.len(), 1);
    match &out[0] {
        Found::Word { history, letters } => {
            assert_eq!(path_of(history), vec![24, 0, 1]);
            assert_eq!(letters.to_string(), "Qab");
        }
        Found::Swapped { .. } => panic!("no replacement allowed"),
    }
}
