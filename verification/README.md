# shenzhen_solitaire

A solitaire card game engine, verified with Verus.

- `src/common/rendering.rs`: the framebuffer (256 by 240 pixels of
  0xAABBGGRR colour) with alpha blending, filled and outlined rectangles,
  aliased and anti-aliased circles and discs, and the winning screen.
- `src/common/circle.rs`: the pixel operations the circle routines carry out,
  as sequences, with the invariants of the error-term walk.
- `src/common/inner_common.rs`, `src/common/Button.rs`: screen size, palette,
  the table's cells, the game state and the gamepad.
- `src/common/game_state.rs`: dealing a new game from a seeded generator.
- `src/game.rs`: the rules: selecting, grabbing, dropping, gathering
  dragons, moving cards by themselves, winning, and one frame of play.
- `src/keys.rs`: keyboard key names to gamepad buttons.
- `src/state.rs`: a running game with its screen and gamepad.
- `app/main.rs`: the browser front end (WebGL or canvas output, keyboard
  events, the frame loop).
