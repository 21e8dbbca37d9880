use shenzhen_solitaire::common::Button;
use shenzhen_solitaire::keys::key_button;

#[test]
fn keys_map_to_buttons() {
    assert_eq!(key_button(b"Enter", false, true), Some(Button::Start));
    assert_eq!(key_button(b"Shift", true, true), Some(Button::Select));
    assert_eq!(key_button(b"Shift", false, true), None);
    assert_eq!(key_button(b"ArrowUp", false, true), Some(Button::Up));
    assert_eq!(key_button(b"Up", false, false), Some(Button::Up));
    assert_eq!(key_button(b"ArrowLeft", false, true), Some(Button::Left));
    assert_eq!(key_button(b"Left", false, true), Some(Button::Left));
    assert_eq!(key_button(b"ArrowRight", false, true), Some(Button::Right));
    assert_eq!(key_button(b"Right", false, true), Some(Button::Right));
    assert_eq!(key_button(b"ArrowDown", false, true), Some(Button::Down));
    assert_eq!(key_button(b"Down", false, true), Some(Button::Down));
    assert_eq!(key_button(b"z", false, true), Some(Button::A));
    assert_eq!(key_button(b";", false, true), Some(Button::A));
    assert_eq!(key_button(b"x", false, true), Some(Button::B));
    assert_eq!(key_button(b"q", false, true), Some(Button::B));
}

#[test]
fn unidentified_key_is_a_only_when_let_go() {
    assert_eq!(key_button(b"Unidentified", false, false), Some(Button::A));
    assert_eq!(key_button(b"Unidentified", false, true), None);
}

#[test]
fn other_keys_are_no_button() {
    assert_eq!(key_button(b"", false, true), None);
    assert_eq!(key_button(b"Z", false, true), None);
    assert_eq!(key_button(b"Enterprise", false, true), None);
    assert_eq!(key_button(b"Ente", false, true), None);
}
