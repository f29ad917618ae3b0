use spellcast_finder::board::{StateConfig, Table};
use spellcast_finder::config::GameConfig;
use spellcast_finder::history::History;
use spellcast_finder::parse::{decimal_digit, parse, parse_error, try_parse, ParseError};
use spellcast_finder::score::{calc_score, check_scorable};

const BOARD: &str = "abcde\nfghij\nklmno\npqrst\nuvwxy";

fn board(text: &str) -> (Table, GameConfig) {
    let mut config = GameConfig::new();
    let tbl = parse(text, &mut config);
    (tbl, config)
}

fn path(cells: &[(usize, usize)]) -> History {
    let mut h = History::new();
    for c in cells {
        h.append(*c);
    }
    h
}

#[test]
fn parse_fills_rows() {
    let (tbl, config) = board(BOARD);
    assert_eq!(tbl[0][0].char_cell.get_char(), 'a');
    assert_eq!(tbl[0][4].char_cell.get_char(), 'e');
    assert_eq!(tbl[1][0].char_cell.get_char(), 'f');
    assert_eq!(tbl[4][4].char_cell.get_char(), 'y');
    assert_eq!(tbl[2][2].state_cell.state, 0);
    assert_eq!(config.diamond_point, 1);
    assert!(!config.diamond_mode);
    assert_eq!(config.can_use_swap, 3);
}

#[test]
fn parse_short_input_leaves_empty_cells() {
    let (tbl, _) = board("ab");
    assert_eq!(tbl[0][1].char_cell.get_char(), 'b');
    assert_eq!(tbl[0][2].char_cell.get_char(), '_');
    assert_eq!(tbl[4][4].char_cell.get_char(), '_');
}

#[test]
fn parse_bonus_digits() {
    let (tbl, _) = board("a0b1c2d3e\nfghij\nklmno\npqrst\nuvwxy");
    assert!(tbl[0][0].state_cell.get_config(StateConfig::DoubleScore));
    assert!(tbl[0][1].state_cell.get_config(StateConfig::HasDiamonds));
    assert!(tbl[0][2].state_cell.get_config(StateConfig::DoublePoint));
    assert!(tbl[0][3].state_cell.get_config(StateConfig::TriplePoint));
    assert_eq!(tbl[0][4].state_cell.state, 0);
    assert_eq!(tbl[0][4].char_cell.get_char(), 'e');
}

#[test]
fn parse_settings_after_five_lines() {
    let (_, config) = board("abcde\nfghij\nklmno\npqrst\nuvwxy\n7d");
    assert_eq!(config.diamond_point, 7);
    assert!(config.diamond_mode);
}

#[test]
fn parse_errors() {
    let mut config = GameConfig::new();
    assert_eq!(try_parse("4abcde", &mut config).err(),
        Some(ParseError::BonusWithoutCell));
    assert_eq!(try_parse("a4bcde", &mut config).err(),
        Some(ParseError::InvalidBonus));
    assert_eq!(try_parse("abc\nde", &mut config).err(),
        Some(ParseError::ShortLine { x: 0, y: 3 }));
    assert_eq!(try_parse("abcdefghijklmnopqrstuvwxyz", &mut config).err(),
        Some(ParseError::BoardFull));
    assert_eq!(
        try_parse("abcde\nfghij\nklmno\npqrst\nuvwxy\nx", &mut config).err(),
        Some(ParseError::InvalidSetting)
    );
}

#[test]
fn parse_error_keeps_settings_read_before() {
    let mut config = GameConfig::new();
    let r = try_parse("abcde\nfghij\nklmno\npqrst\nuvwxy\n5x", &mut config);
    assert_eq!(r.err(), Some(ParseError::InvalidSetting));
    assert_eq!(config.diamond_point, 5);
}

#[test]
fn decimal_digit_values() {
    assert_eq!(decimal_digit('0'), Some(0));
    assert_eq!(decimal_digit('9'), Some(9));
    assert_eq!(decimal_digit('a'), None);
}

#[test]
fn score_plain_word() {
    let (tbl, config) = board(BOARD);
    let h = path(&[(0, 0), (0, 1)]);
    assert_eq!(calc_score(&h, tbl, "ab", &config), 5);
}

#[test]
fn score_uses_word_letters_not_board() {
    let (tbl, config) = board(BOARD);
    let h = path(&[(0, 0), (0, 1)]);
    // q = 8, z = 8
    assert_eq!(calc_score(&h, tbl, "qz", &config), 16);
}

#[test]
fn score_multipliers() {
    let (tbl, config) = board("a2bcde\nfghij\nklmno\npqrst\nuvwxy");
    let h = path(&[(0, 0), (0, 1)]);
    assert_eq!(calc_score(&h, tbl, "ab", &config), 6);
    let (tbl, config) = board("a3bcde\nfghij\nklmno\npqrst\nuvwxy");
    assert_eq!(calc_score(&h, tbl, "ab", &config), 7);
    let (tbl, config) = board("a0bcde\nfghij\nklmno\npqrst\nuvwxy");
    assert_eq!(calc_score(&h, tbl, "ab", &config), 10);
}

#[test]
fn score_long_word_bonus() {
    let (tbl, config) = board(BOARD);
    let h = path(&[(0, 0), (0, 1), (0, 2), (0, 3), (0, 4), (1, 4)]);
    // 1 + 4 + 5 + 3 + 1 + 7 + 10
    assert_eq!(calc_score(&h, tbl, "abcdej", &config), 31);
}

#[test]
fn score_diamonds() {
    let (tbl, config) = board("a1bcde\nfghij\nklmno\npqrst\nuvwxy\n4");
    let h = path(&[(0, 0), (0, 1)]);
    assert_eq!(calc_score(&h, tbl, "ab", &config), 9);
    let (tbl, config) = board("a1b1cde\nfghij\nklmno\npqrst\nuvwxy\n4d");
    assert_eq!(calc_score(&h, tbl, "ab", &config), 8);
}

#[test]
fn check_scorable_cases() {
    let config = GameConfig::new();
    let h = path(&[(0, 0), (0, 1)]);
    assert!(check_scorable(&h, "ab", &config));
    assert!(!check_scorable(&h, "a", &config));
    assert!(!check_scorable(&h, "aB", &config));
    let mut d = GameConfig::new();
    d.diamond_mode = true;
    assert!(check_scorable(&h, "", &d));
}

#[test]
fn parse_keeps_swap_budget() {
    let mut config = GameConfig::new();
    config.can_use_swap = 1;
    let _ = parse("abcde\nfghij\nklmno\npqrst\nuvwxy\n2d", &mut config);
    assert_eq!(config.can_use_swap, 1);
    assert_eq!(config.diamond_point, 2);
}

#[test]
fn parse_error_tells_refused_texts() {
    let config = GameConfig::new();
    assert_eq!(parse_error("0abcde\nfghij\nklmno\npqrst\nuvwxy", &config), Some(ParseError::BonusWithoutCell));
    assert_eq!(parse_error("a4bcde\nfghij\nklmno\npqrst\nuvwxy", &config), Some(ParseError::InvalidBonus));
    assert_eq!(parse_error("abcd\nefghi", &config), Some(ParseError::ShortLine { x: 0, y: 4 }));
    assert_eq!(
        parse_error("abcde\nfghij\nklmno\npqrst\nuvwxy\n2\n", &config),
        Some(ParseError::InvalidSetting)
    );
    assert_eq!(
        parse_error("q w e r t \ny u i o p \na s d f g \nh j k l z \nx c v b n \n", &config),
        Some(ParseError::BoardFull)
    );
    assert_eq!(parse_error("abcde\nfghij\nklmno\npqrst\nuvwxy\n3d", &config), None);
}

#[test]
fn diamond_mode_stays_on() {
    let mut config = GameConfig::new();
    let _ = parse("abcde\nfghij\nklmno\npqrst\nuvwxy\nd", &mut config);
    assert!(config.diamond_mode);
    let _ = parse("abcde\nfghij\nklmno\npqrst\nuvwxy", &mut config);
    assert!(config.diamond_mode);
}
