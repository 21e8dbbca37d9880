//! Card-game engine: a software framebuffer with rectangle, circle and
//! alpha-blending primitives, and the rules of a solitaire game played on
//! sixteen card cells.
#![allow(non_snake_case)]
#![allow(non_upper_case_globals)]

pub mod common;
pub mod game;
pub mod keys;
pub mod state;

