use vstd::prelude::*;

verus! {

/// The settings that one solving run reads: the replacement budget and the
/// diamond rules.  Reading the board text can switch diamond mode on and set
/// the points of a diamond.
#[derive(Clone, Copy, Debug)]
pub struct GameConfig {
    pub can_use_swap: u8,
    pub diamond_mode: bool,
    pub diamond_point: i32,
}

impl GameConfig {
    /// Diamond points are one decimal digit.
    pub open spec fn wf(self) -> bool {
        0 <= self.diamond_point <= 9
    }

    /// Three replacements, diamond mode off, one point per diamond.
    pub fn new() -> (c: GameConfig)
        ensures
            c.wf(),
            c.can_use_swap == 3,
            !c.diamond_mode,
            c.diamond_point == 1,
    {
        GameConfig { can_use_swap: 3, diamond_mode: false, diamond_point: 1 }
    }
}

pub fn get_diamond_point(config: &GameConfig) -> (p: i32)
    ensures
        p == config.diamond_point,
{
    config.diamond_point
}

pub fn get_is_diamond_mode(config: &GameConfig) -> (b: bool)
    ensures
        b == config.diamond_mode,
{
    config.diamond_mode
}

pub fn get_can_use_swap(config: &GameConfig) -> (n: u8)
    ensures
        n == config.can_use_swap,
{
    config.can_use_swap
}

} // verus!
