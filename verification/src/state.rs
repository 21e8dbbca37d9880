//! The whole of a running game: its state, its screen and its gamepad.
use vstd::prelude::*;

use crate::common::Button;
use crate::common::game_state::{dealt, picks_ok};
use crate::common::inner_common::{GameState, Input, PALETTE, SCREEN_LENGTH};
use crate::common::rendering::Framebuffer;
use crate::game::update_and_render;

verus! {

/// A running game.
pub struct State {
    pub game_state: GameState,
    pub framebuffer: Framebuffer,
    pub input: Input,
}

impl State {
    /// A new game on a fresh screen, with no button held.
    pub fn new() -> (state: State)
        ensures
            exists|picks: Seq<usize>| picks_ok(picks) && state.game_state@ == dealt(picks),
            state.framebuffer.buffer@ == Seq::new(SCREEN_LENGTH as nat, |i: int| PALETTE[0]),
            state.input.gamepad == Button::NONE,
            state.input.previous_gamepad == Button::NONE,
    {
        State { game_state: GameState::new(), framebuffer: Framebuffer::new(), input: Input::new() }
    }

    /// Runs one frame: renders the game, then the buttons held now become
    /// the buttons held the frame before.
    pub fn frame(&mut self)
        ensures
            final(self).game_state@ == old(self).game_state@,
            final(self).framebuffer.buffer@ == Seq::new(
                old(self).framebuffer.buffer@.len(),
                |i: int| 0u32,
            ),
            final(self).input.gamepad == old(self).input.gamepad,
            final(self).input.previous_gamepad == old(self).input.gamepad,
    {
        update_and_render(&mut self.framebuffer, &mut self.game_state, self.input);

        self.input.previous_gamepad = self.input.gamepad;
    }

    /// `button` is now held.
    pub fn press(&mut self, button: Button::Ty)
        ensures
            final(self).input.gamepad == old(self).input.gamepad | button,
            final(self).input.previous_gamepad == old(self).input.previous_gamepad,
            final(self).game_state@ == old(self).game_state@,
            final(self).framebuffer.buffer@ == old(self).framebuffer.buffer@,
    {
        Button::insert(&mut self.input.gamepad, button);
    }

    /// `button` is no longer held.
    pub fn release(&mut self, button: Button::Ty)
        ensures
            final(self).input.gamepad == old(self).input.gamepad & !button,
            final(self).input.previous_gamepad == old(self).input.previous_gamepad,
            final(self).game_state@ == old(self).game_state@,
            final(self).framebuffer.buffer@ == old(self).framebuffer.buffer@,
    {
        Button::remove(&mut self.input.gamepad, button);
    }
}

} // verus!
