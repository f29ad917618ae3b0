use spellcast_finder::history::{History, HistoryChar};

#[test]
fn history_append_visited_remove() {
    let mut h = History::new();
    assert_eq!(h.length, 0);
    h.append((1, 2));
    h.append((4, 4));
    assert_eq!(h.length, 2);
    assert_eq!(h.cells[0], 7);
    assert_eq!(h.cells[1], 24);
    assert!(h.visited((1, 2)));
    assert!(h.visited((4, 4)));
    assert!(!h.visited((0, 0)));
    assert_eq!(h.for_each(), vec![(1, 2), (4, 4)]);
    h.remove();
    assert_eq!(h.length, 1);
    assert!(!h.visited((4, 4)));
    assert_eq!(h.for_each(), vec![(1, 2)]);
}

#[test]
fn history_char_to_string() {
    let mut h = HistoryChar::new();
    assert_eq!(h.to_string(), "");
    h.append('c');
    h.append('a');
    h.append('t');
    assert_eq!(h.to_string(), "cat");
    assert_eq!(h.for_each(), vec!['c', 'a', 't']);
    h.remove();
    assert_eq!(h.to_string(), "ca");
}
