use shenzhen_solitaire::common::inner_common::{
    Cells, GameState, Input, CARD_BACK, FLOWER_CARD, MOVE_TIMER_MAX, START_OF_TABLEAU,
};
use shenzhen_solitaire::common::Button;
use shenzhen_solitaire::game::{
    automove, candrop, cangrab, canmovedragons, getcardnum, getselection, getsuit, haswon,
    movecards, movedragons, update,
};

fn state_with(cols: &[(usize, Vec<u8>)]) -> GameState {
    let mut cells: Cells = Default::default();
    for (i, c) in cols {
        cells[*i] = c.clone();
    }
    GameState {
        cells,
        wins: 0,
        win_done: false,
        selectdrop: false,
        selectpos: START_OF_TABLEAU,
        selectdepth: 0,
        grabpos: 1,
        grabdepth: 0,
        movetimer: 0,
    }
}

fn pressed(buttons: Button::Ty) -> Input {
    Input { gamepad: buttons, previous_gamepad: Button::NONE }
}

fn same(a: &GameState, b: &GameState) -> bool {
    a.cells == b.cells
        && a.wins == b.wins
        && a.win_done == b.win_done
        && a.selectdrop == b.selectdrop
        && a.selectpos == b.selectpos
        && a.selectdepth == b.selectdepth
        && a.grabpos == b.grabpos
        && a.grabdepth == b.grabdepth
        && a.movetimer == b.movetimer
}

fn copy(s: &GameState) -> GameState {
    GameState {
        cells: s.cells.clone(),
        wins: s.wins,
        win_done: s.win_done,
        selectdrop: s.selectdrop,
        selectpos: s.selectpos,
        selectdepth: s.selectdepth,
        grabpos: s.grabpos,
        grabdepth: s.grabdepth,
        movetimer: s.movetimer,
    }
}

/// A table on which no card moves by itself: no top card is the flower or a 1.
fn quiet_table() -> GameState {
    state_with(&[
        (8, vec![5, 14, 3]),
        (9, vec![9, 18, 7]),
        (10, vec![26]),
        (11, vec![12, 22]),
        (15, vec![2, 3, 4, 6]),
    ])
}

#[test]
fn suits_and_numbers() {
    assert_eq!((getsuit(0), getcardnum(0)), (0, 0));
    assert_eq!((getsuit(9), getcardnum(9)), (0, 9));
    assert_eq!((getsuit(10), getcardnum(10)), (1, 0));
    assert_eq!((getsuit(15), getcardnum(15)), (1, 5));
    assert_eq!((getsuit(29), getcardnum(29)), (2, 9));
    assert_eq!((getsuit(FLOWER_CARD), getcardnum(FLOWER_CARD)), (3, 0));
    assert_eq!((getsuit(CARD_BACK), getcardnum(CARD_BACK)), (3, 10));
}

#[test]
fn card_is_suit_ten_plus_number() {
    for card in 0..=255u8 {
        assert_eq!(getsuit(card) * 10 + getcardnum(card), card);
        if card < CARD_BACK {
            assert!(getcardnum(card) <= 9);
        }
    }
}

#[test]
fn selection_is_under_the_top_card() {
    let s = state_with(&[(8, vec![1, 2, 3, 4])]);
    assert_eq!(getselection(&s.cells, 8, 2), vec![2, 3]);
    assert_eq!(getselection(&s.cells, 8, 3), vec![1, 2, 3]);
    assert_eq!(getselection(&s.cells, 8, 0), Vec::<u8>::new());
    assert_eq!(getselection(&s.cells, 200, 0), Vec::<u8>::new());
}

#[test]
fn grab_alternating_descending_run() {
    let s = state_with(&[(8, vec![9, 18, 7, 16])]);
    assert!(cangrab(&s.cells, 8, 2));
    assert!(cangrab(&s.cells, 8, 3));
}

#[test]
fn grab_rejections() {
    let s = state_with(&[
        (8, vec![5, 4, 1]),
        (9, vec![CARD_BACK, 3, 1]),
        (10, vec![15, 20, 1]),
        (11, vec![17, 5, 1]),
        (6, vec![17, 5, 1]),
    ]);
    // same suit
    assert!(!cangrab(&s.cells, 8, 2));
    // a face-down card
    assert!(!cangrab(&s.cells, 9, 2));
    // a dragon under another card
    assert!(!cangrab(&s.cells, 10, 2));
    // not one lower
    assert!(!cangrab(&s.cells, 11, 2));
    // on a suit foundation
    assert!(!cangrab(&s.cells, 6, 2));
    // nothing selected
    assert!(!cangrab(&s.cells, 11, 0));
}

#[test]
fn drop_rules() {
    let s = state_with(&[(2, vec![25]), (9, vec![16]), (10, vec![26]), (11, vec![17])]);
    assert!(candrop(&s.cells, 2, 1, 8));
    assert!(candrop(&s.cells, 2, 1, 9));
    assert!(!candrop(&s.cells, 2, 1, 10));
    assert!(!candrop(&s.cells, 2, 1, 11));
    assert!(!candrop(&s.cells, 2, 1, 5));
    assert!(!candrop(&s.cells, 2, 1, 0));
    assert!(!candrop(&s.cells, 2, 1, 4));
    assert!(!candrop(&s.cells, 2, 2, 8));
}

#[test]
fn movecards_puts_top_card_under_drop_cell() {
    let mut s = state_with(&[(8, vec![1, 2, 3]), (1, vec![7])]);
    movecards(&mut s, 8, 1, 1);
    assert_eq!(s.cells[1], vec![3, 7]);
    assert_eq!(s.cells[8], vec![1, 2, 3]);

    let mut s = state_with(&[(8, vec![1, 2, 3])]);
    movecards(&mut s, 8, 1, 8);
    assert_eq!(s.cells[8], vec![3, 1, 2, 3]);
}

#[test]
fn dragons_can_move_with_four_on_top_and_a_free_cell() {
    let s = state_with(&[(8, vec![10]), (9, vec![3, 10]), (10, vec![10]), (11, vec![10])]);
    assert!(canmovedragons(&s, 1));
    assert!(!canmovedragons(&s, 0));

    let three = state_with(&[(8, vec![10]), (9, vec![10]), (10, vec![10])]);
    assert!(!canmovedragons(&three, 1));

    let full = state_with(&[
        (0, vec![1]),
        (1, vec![2]),
        (2, vec![3]),
        (8, vec![10]),
        (9, vec![10]),
        (10, vec![10]),
        (11, vec![10]),
    ]);
    assert!(!canmovedragons(&full, 1));

    let dragon_in_free_cell = state_with(&[
        (0, vec![1]),
        (1, vec![10]),
        (2, vec![3]),
        (8, vec![10]),
        (9, vec![10]),
        (10, vec![10]),
    ]);
    assert!(canmovedragons(&dragon_in_free_cell, 1));
}

#[test]
fn movedragons_takes_the_dragons_of_the_selected_suit() {
    let mut s = state_with(&[
        (0, vec![5]),
        (1, vec![6]),
        (2, vec![10]),
        (8, vec![3, 10]),
        (9, vec![10]),
        (10, vec![20]),
    ]);
    s.selectpos = 1;
    movedragons(&mut s);
    assert_eq!(s.cells[0], vec![5]);
    assert_eq!(s.cells[1], vec![6]);
    assert_eq!(s.cells[2], Vec::<u8>::new());
    assert_eq!(s.cells[8], vec![3]);
    assert_eq!(s.cells[9], Vec::<u8>::new());
    assert_eq!(s.cells[10], vec![20]);
}

#[test]
fn won_when_tableau_is_empty() {
    let s = state_with(&[(0, vec![1]), (5, vec![9])]);
    assert!(haswon(&s));
    let s = state_with(&[(15, vec![1])]);
    assert!(!haswon(&s));
}

#[test]
fn automove_leaves_a_quiet_table() {
    let mut s = quiet_table();
    let before = copy(&s);
    assert!(!automove(&mut s));
    assert!(same(&s, &before));
}

#[test]
fn update_counts_timer_down() {
    let mut s = quiet_table();
    s.movetimer = 3;
    let before = copy(&s);
    update(&mut s, pressed(Button::Left));
    assert_eq!(s.movetimer, 2);
    s.movetimer = before.movetimer;
    assert!(same(&s, &before));
}

#[test]
fn update_idle_frame_changes_nothing() {
    let mut s = quiet_table();
    let before = copy(&s);
    update(&mut s, Input { gamepad: Button::Left, previous_gamepad: Button::Left });
    assert!(same(&s, &before));
}

#[test]
fn update_left_wraps_and_keeps_cards_from_top() {
    let mut s = quiet_table();
    update(&mut s, pressed(Button::Left));
    // three cards kept from the top of column 8, column 15 has four
    assert_eq!((s.selectpos, s.selectdepth), (15, 1));

    let mut s = quiet_table();
    s.selectpos = 0;
    s.selectdrop = true;
    update(&mut s, pressed(Button::Left));
    assert_eq!((s.selectpos, s.selectdepth), (7, 0));
}

#[test]
fn update_right_wraps() {
    let mut s = quiet_table();
    s.selectpos = 15;
    s.selectdepth = 1;
    update(&mut s, pressed(Button::Right));
    assert_eq!((s.selectpos, s.selectdepth), (8, 0));

    let mut s = quiet_table();
    s.selectpos = 7;
    s.selectdrop = true;
    update(&mut s, pressed(Button::Right));
    assert_eq!((s.selectpos, s.selectdepth), (0, 0));
}

#[test]
fn update_up_goes_deeper_then_changes_row() {
    let mut s = quiet_table();
    s.selectpos = 9;
    update(&mut s, pressed(Button::Up));
    assert_eq!((s.selectpos, s.selectdepth), (9, 1));
    s.selectdepth = 2;
    update(&mut s, pressed(Button::Up));
    assert_eq!((s.selectpos, s.selectdepth), (1, 0));
}

#[test]
fn update_up_from_first_tableau_column_leaves_the_table() {
    let mut s = quiet_table();
    s.selectpos = 12;
    update(&mut s, pressed(Button::Up));
    assert_eq!(s.selectpos, 4);
    let mut s = state_with(&[(9, vec![26])]);
    update(&mut s, pressed(Button::Up));
    assert_eq!(s.selectpos, 16);
}

#[test]
fn update_down() {
    let mut s = quiet_table();
    s.selectpos = 1;
    update(&mut s, pressed(Button::Down));
    assert_eq!((s.selectpos, s.selectdepth), (9, 2));
    update(&mut s, pressed(Button::Down));
    assert_eq!((s.selectpos, s.selectdepth), (9, 1));

    let mut s = quiet_table();
    s.selectpos = 11;
    update(&mut s, pressed(Button::Down));
    // from the tableau to the empty button column, two deep
    assert_eq!((s.selectpos, s.selectdepth), (3, 2));
}

#[test]
fn update_a_grabs_then_drops() {
    let mut s = quiet_table();
    s.selectpos = 9;
    s.selectdepth = 1;
    update(&mut s, pressed(Button::A));
    assert_eq!((s.grabpos, s.grabdepth, s.selectdrop), (9, 1, true));

    s.selectpos = 15;
    update(&mut s, pressed(Button::A));
    // the grabbed card, the 7 under the top of column 9, is of the suit of
    // the 6 on column 15: no drop
    assert!(s.selectdrop);

    s.selectpos = 10;
    update(&mut s, pressed(Button::A));
    // column 10 tops with 26, not one higher than 7: no drop
    assert!(s.selectdrop);
}

#[test]
fn update_a_drops_on_empty_first_column() {
    let mut s = state_with(&[(9, vec![9, 18, 7]), (10, vec![26])]);
    s.selectdrop = true;
    s.grabpos = 9;
    s.grabdepth = 1;
    s.selectpos = 8;
    update(&mut s, pressed(Button::A));
    assert_eq!(s.cells[8], vec![7]);
    assert_eq!(s.cells[9], vec![9, 18, 7]);
    assert!(!s.selectdrop);
    assert_eq!(s.movetimer, MOVE_TIMER_MAX);
}

#[test]
fn update_a_on_buttons_without_dragons_does_nothing() {
    let mut s = quiet_table();
    s.selectpos = 3;
    s.selectdepth = 1;
    let before = copy(&s);
    update(&mut s, pressed(Button::A));
    assert!(same(&s, &before));
}

#[test]
fn update_b_lets_go() {
    let mut s = quiet_table();
    s.selectdrop = true;
    update(&mut s, pressed(Button::B));
    assert!(!s.selectdrop);
}

#[test]
fn update_counts_a_win_once() {
    let mut s = state_with(&[(6, vec![29])]);
    update(&mut s, Input::new());
    assert_eq!((s.wins, s.win_done), (1, true));
    update(&mut s, Input::new());
    assert_eq!((s.wins, s.win_done), (1, true));
}

#[test]
fn up_at_first_column_without_leaving_the_cell_keeps_the_selection() {
    let mut s = state_with(&[(8, vec![5, 14, 3]), (9, vec![26])]);
    update(&mut s, pressed(Button::Up));
    assert_eq!((s.selectpos, s.selectdepth), (8, 1));
}
