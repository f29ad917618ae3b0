use spellcast_finder::board::{overflow_check, CharCell, StateCell, StateConfig};
use spellcast_finder::config::{get_can_use_swap, get_diamond_point, get_is_diamond_mode, GameConfig};

#[test]
fn char_cell_keeps_letter() {
    let mut c = CharCell::new('q');
    assert_eq!(c.get_char(), 'q');
    c.set_char('z');
    assert_eq!(c.get_char(), 'z');
}

#[test]
fn state_config_bits() {
    assert_eq!(StateConfig::HasDiamonds.bit(), 0b0001_0000);
    assert_eq!(StateConfig::DoublePoint.bit(), 0b0010_0000);
    assert_eq!(StateConfig::DoubleScore.bit(), 0b0100_0000);
    assert_eq!(StateConfig::TriplePoint.bit(), 0b1000_0000);
}

#[test]
fn state_cell_new_sets_flags() {
    let s = StateCell::new(true, false, true, false);
    assert_eq!(s.state, 0b0101_0000);
    assert!(s.get_config(StateConfig::HasDiamonds));
    assert!(!s.get_config(StateConfig::DoublePoint));
    assert!(s.get_config(StateConfig::DoubleScore));
    assert!(!s.get_config(StateConfig::TriplePoint));
    let all = StateCell::new(true, true, true, true);
    assert_eq!(all.state, 0b1111_0000);
    assert_eq!(StateCell::new(false, false, false, false).state, 0);
}

#[test]
fn state_cell_set_config_adds_one_flag() {
    let mut s = StateCell::new(false, false, false, false);
    s.set_config(StateConfig::TriplePoint);
    assert!(s.get_config(StateConfig::TriplePoint));
    assert!(!s.get_config(StateConfig::DoubleScore));
    s.set_config(StateConfig::TriplePoint);
    assert_eq!(s.state, 0b1000_0000);
}

#[test]
fn state_cell_rate() {
    assert_eq!(StateCell::new(false, false, false, false).get_rate(), 1);
    assert_eq!(StateCell::new(false, true, false, false).get_rate(), 2);
    assert_eq!(StateCell::new(false, false, false, true).get_rate(), 3);
    // double point wins over triple point
    assert_eq!(StateCell::new(false, true, false, true).get_rate(), 2);
}

#[test]
fn overflow_check_bounds() {
    assert!(overflow_check((0, 0)).is_ok());
    assert!(overflow_check((4, 4)).is_ok());
    assert!(overflow_check((-1, 0)).is_err());
    assert!(overflow_check((0, -1)).is_err());
    assert!(overflow_check((5, 0)).is_err());
    assert!(overflow_check((0, 5)).is_err());
}

#[test]
fn config_defaults_and_getters() {
    let c = GameConfig::new();
    assert_eq!(get_can_use_swap(&c), 3);
    assert!(!get_is_diamond_mode(&c));
    assert_eq!(get_diamond_point(&c), 1);
}
