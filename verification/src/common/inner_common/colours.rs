use vstd::prelude::*;

verus! {

// Colours are stored as 0xAABBGGRR.
// These are reportedly colourblind friendly.
pub const BLUE: u32 = 0xFFE15233;

pub const GREEN: u32 = 0xFF6EB030;

pub const RED: u32 = 0xFF4949DE;

pub const YELLOW: u32 = 0xFF37B9FF;

pub const PURPLE: u32 = 0xFF543353;

pub const GREY: u32 = 0xFF8B7D5A;

pub const GRAY: u32 = GREY;

pub const WHITE: u32 = 0xFFEEEEEE;

pub const BLACK: u32 = 0xFF222222;

} // verus!
