use shenzhen_solitaire::common::game_state::DECK_SIZE;
use shenzhen_solitaire::common::inner_common::{GameState, Input, PALETTE, SCREEN_LENGTH};
use shenzhen_solitaire::common::Button;
use shenzhen_solitaire::game::haswon;
use shenzhen_solitaire::state::State;

fn sorted_cards(s: &GameState) -> Vec<u8> {
    let mut all: Vec<u8> = s.cells.iter().flat_map(|c| c.iter().copied()).collect();
    all.sort();
    all
}

fn sorted_deck() -> Vec<u8> {
    let mut deck = Vec::new();
    for i in 1..=9u8 {
        deck.extend_from_slice(&[i, i + 10, i + 20]);
    }
    for _ in 0..4 {
        deck.extend_from_slice(&[0, 10, 20]);
    }
    deck.push(30);
    deck.sort();
    deck
}

#[test]
fn deal_with_first_card_picks() {
    let picks = vec![0usize; DECK_SIZE];
    let s = GameState::deal(&picks);
    let expected: Vec<Vec<u8>> = vec![
        vec![],
        vec![],
        vec![],
        vec![],
        vec![],
        vec![],
        vec![],
        vec![],
        vec![1, 20, 9, 16, 23],
        vec![30, 10, 28, 6, 13],
        vec![20, 0, 18, 25, 3],
        vec![10, 20, 8, 15, 22],
        vec![0, 10, 27, 5, 12],
        vec![20, 0, 17, 24, 2],
        vec![10, 29, 7, 14, 21],
        vec![0, 19, 26, 4, 11],
    ];
    assert_eq!(s.cells.to_vec(), expected);
    assert_eq!((s.wins, s.win_done, s.selectdrop), (0, false, false));
    assert_eq!((s.selectpos, s.selectdepth, s.grabpos, s.grabdepth, s.movetimer), (8, 0, 1, 0, 0));
}

#[test]
fn deal_with_last_card_picks() {
    let picks: Vec<usize> = (0..DECK_SIZE).map(|k| DECK_SIZE - 1 - k).collect();
    let s = GameState::deal(&picks);
    // each pick takes the last card: the deck is dealt from its end
    assert_eq!(s.cells[8], vec![30, 10, 28, 6, 13]);
    assert_eq!(sorted_cards(&s), sorted_deck());
}

#[test]
fn new_game_deals_every_card_five_to_a_column() {
    let s = GameState::new();
    assert_eq!(sorted_cards(&s), sorted_deck());
    for i in 0..8 {
        assert!(s.cells[i].is_empty());
    }
    for i in 8..16 {
        assert_eq!(s.cells[i].len(), 5);
    }
    assert!(!haswon(&s));
}

#[test]
fn new_game_is_shuffled_by_the_generator() {
    let s = GameState::new();
    let first_picks = GameState::deal(&vec![0usize; DECK_SIZE]);
    assert!(s.cells != first_picks.cells);
    let again = GameState::new();
    assert!(s.cells == again.cells);
}

#[test]
fn new_state_is_fresh() {
    let st = State::new();
    assert_eq!(st.framebuffer.buffer.len(), SCREEN_LENGTH);
    assert!(st.framebuffer.buffer.iter().all(|&p| p == PALETTE[0]));
    assert_eq!((st.input.gamepad, st.input.previous_gamepad), (Button::NONE, Button::NONE));
}

#[test]
fn press_and_release() {
    let mut st = State::new();
    st.press(Button::A);
    st.press(Button::Left);
    assert_eq!(st.input.gamepad, Button::A | Button::Left);
    assert!(st.input.pressed_this_frame(Button::A));
    st.release(Button::A);
    assert_eq!(st.input.gamepad, Button::Left);
    assert!(!st.input.pressed_this_frame(Button::A));
    assert!(Button::contains(st.input.gamepad, Button::Left));
}

#[test]
fn frame_renders_and_ages_the_input() {
    let mut st = State::new();
    st.press(Button::B);
    assert!(st.input.pressed_this_frame(Button::B));
    let before = st.game_state.cells.clone();
    st.frame();
    assert!(st.framebuffer.buffer.iter().all(|&p| p == 0));
    assert_eq!(st.input.previous_gamepad, Button::B);
    assert!(!st.input.pressed_this_frame(Button::B));
    assert_eq!(st.game_state.cells, before);
}

#[test]
fn input_pressed_only_on_the_first_frame() {
    let input = Input { gamepad: Button::Up, previous_gamepad: Button::NONE };
    assert!(input.pressed_this_frame(Button::Up));
    assert!(!input.pressed_this_frame(Button::Down));
    let held = Input { gamepad: Button::Up, previous_gamepad: Button::Up };
    assert!(!held.pressed_this_frame(Button::Up));
    let new = Input::new();
    assert!(!new.pressed_this_frame(Button::A));
}

#[test]
fn button_set_operations() {
    let mut set = Button::NONE;
    Button::insert(&mut set, Button::Start);
    Button::insert(&mut set, Button::Select);
    assert!(Button::contains(set, Button::Start | Button::Select));
    Button::remove(&mut set, Button::Start);
    assert!(!Button::contains(set, Button::Start));
    assert!(Button::contains(set, Button::Select));
    assert_eq!(set, Button::Select);
}
