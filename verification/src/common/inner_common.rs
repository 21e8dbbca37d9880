use vstd::prelude::*;

pub mod colours;

pub use self::colours::{BLACK, BLUE, GRAY, GREEN, GREY, PURPLE, RED, WHITE, YELLOW};

use super::Button;

verus! {

/// Width of the screen in pixels.
pub const SCREEN_WIDTH: usize = 256;

/// Height of the screen in pixels.
pub const SCREEN_HEIGHT: usize = 240;

/// Number of pixels on the screen.
pub const SCREEN_LENGTH: usize = SCREEN_WIDTH * SCREEN_HEIGHT;

/// The sixteen-colour palette, as 0xAABBGGRR.
pub const PALETTE: [u32; 16] = [
    0xFF000000,
    0xFF532B1D,
    0xFF53257E,
    0xFF518700,
    0xFF3652AB,
    0xFF4F575F,
    0xFFC7C3C2,
    0xFFE8F1FF,
    0xFF4D00FF,
    0xFF00A3FF,
    0xFF27ECFF,
    0xFF36E400,
    0xFFFFAD29,
    0xFF9C7683,
    0xFFA877FF,
    0xFFAACCFF,
];

// The sixteen cells of the table, in two rows of eight.  The top row holds
// the three free cells, the dragon buttons, the flower foundation and the
// three suit foundations; the bottom row holds the eight tableau columns.

/// Index of the column of dragon buttons; the free cells come before it.
pub const BUTTON_COLUMN: u8 = 3;

/// Index of the flower foundation.
pub const FLOWER_FOUNDATION: u8 = 4;

/// Index of the first suit foundation.
pub const START_OF_FOUNDATIONS: u8 = 5;

/// Index of the first tableau column.
pub const START_OF_TABLEAU: u8 = 8;

/// Index of the last cell.
pub const CELLS_MAX_INDEX: u8 = 15;

/// Number of cells.
pub const CELL_COUNT: usize = 16;

/// The highest number card of a suit.
pub const MAX_SUIT_NUM: u8 = 9;

// A card is `suit * 10 + number`: suits 0, 1 and 2 hold the numbers 1 to 9
// and the dragons, number 0; suit 3 holds the flower.

/// The first card of suit 1.
pub const FIRST_GREEN_CARD: u8 = 10;

/// The first card of suit 2.
pub const FIRST_BLACK_CARD: u8 = 20;

/// The flower.
pub const FLOWER_CARD: u8 = 30;

/// A face-down card, left where four dragons were gathered.
pub const CARD_BACK: u8 = 40;

/// Frames to wait after a move before the next one.
pub const MOVE_TIMER_MAX: u8 = 8;

/// The cards in each of the sixteen cells; the last card of a cell is its top.
pub type Cells = [Vec<u8>; 16];

/// The state of a game.
pub struct GameState {
    pub cells: Cells,
    pub wins: u32,
    pub win_done: bool,
    pub selectdrop: bool,
    pub selectpos: u8,
    pub selectdepth: u8,
    pub grabpos: u8,
    pub grabdepth: u8,
    pub movetimer: u8,
}

/// The mathematical view of a [`GameState`]: each cell as a sequence.
pub struct GameView {
    pub cells: Seq<Seq<u8>>,
    pub wins: u32,
    pub win_done: bool,
    pub selectdrop: bool,
    pub selectpos: u8,
    pub selectdepth: u8,
    pub grabpos: u8,
    pub grabdepth: u8,
    pub movetimer: u8,
}

/// The cells as sequences.
pub open spec fn cells_view(cells: Cells) -> Seq<Seq<u8>> {
    Seq::new(16, |i: int| cells[i]@)
}

impl View for GameState {
    type V = GameView;

    open spec fn view(&self) -> GameView {
        GameView {
            cells: cells_view(self.cells),
            wins: self.wins,
            win_done: self.win_done,
            selectdrop: self.selectdrop,
            selectpos: self.selectpos,
            selectdepth: self.selectdepth,
            grabpos: self.grabpos,
            grabdepth: self.grabdepth,
            movetimer: self.movetimer,
        }
    }
}

/// The gamepad this frame and the frame before.
#[derive(Clone, Copy)]
pub struct Input {
    pub gamepad: Button::Ty,
    pub previous_gamepad: Button::Ty,
}

impl Input {
    /// No button held, now or before.
    pub fn new() -> (input: Input)
        ensures
            input.gamepad == Button::NONE,
            input.previous_gamepad == Button::NONE,
    {
        Input { gamepad: Button::NONE, previous_gamepad: Button::NONE }
    }

    /// `buttons` are all held now and were not all held the frame before.
    pub open spec fn pressed_spec(&self, buttons: Button::Ty) -> bool {
        !Button::contains_spec(self.previous_gamepad, buttons) && Button::contains_spec(
            self.gamepad,
            buttons,
        )
    }

    /// `buttons` are all held now and were not all held the frame before.
    pub fn pressed_this_frame(&self, buttons: Button::Ty) -> (b: bool)
        ensures
            b == self.pressed_spec(buttons),
    {
        !Button::contains(self.previous_gamepad, buttons) && Button::contains(self.gamepad, buttons)
    }
}

/// Once the buttons held now are also the buttons held the frame before (as
/// after a frame), no button counts as pressed this frame.
pub proof fn lemma_held_not_pressed(input: Input, buttons: Button::Ty)
    requires
        input.previous_gamepad == input.gamepad,
    ensures
        !input.pressed_spec(buttons),
{
}

/// Pressing buttons that were not all held the frame before makes them
/// pressed this frame.
pub proof fn lemma_press_pressed(input: Input, buttons: Button::Ty)
    requires
        !Button::contains_spec(input.previous_gamepad, buttons),
    ensures
        (Input { gamepad: input.gamepad | buttons, ..input }).pressed_spec(buttons),
{
    Button::lemma_insert_contains(input.gamepad, buttons, buttons);
}

/// Releasing a button that is held makes it no longer pressed.
pub proof fn lemma_release_not_pressed(input: Input, buttons: Button::Ty)
    requires
        buttons != 0,
    ensures
        !(Input { gamepad: input.gamepad & !buttons, ..input }).pressed_spec(buttons),
{
    Button::lemma_remove_contains(input.gamepad, buttons, buttons);
}

} // verus!
