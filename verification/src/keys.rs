//! Keyboard keys to gamepad buttons.
use vstd::prelude::*;

use crate::common::Button;

verus! {

/// `a` and `b` hold the same bytes.
fn bytes_eq(a: &[u8], b: &[u8]) -> (same: bool)
    ensures
        same == (a@ == b@),
{
    if a.len() != b.len() {
        return false;
    }
    let n = a.len();
    for i in 0..n
        invariant
            n == a.len(),
            n == b.len(),
            forall|j: int| 0 <= j < i ==> a@[j] == b@[j],
    {
        if a[i] != b[i] {
            return false;
        }
    }
    assert(a@ =~= b@);
    true
}

/// The ASCII bytes of the key name "Enter".
pub open spec fn key_enter() -> Seq<u8> {
    seq![69u8, 110, 116, 101, 114]
}

/// The ASCII bytes of the key name "Shift".
pub open spec fn key_shift() -> Seq<u8> {
    seq![83u8, 104, 105, 102, 116]
}

/// The ASCII bytes of the key name "ArrowUp".
pub open spec fn key_arrow_up() -> Seq<u8> {
    seq![65u8, 114, 114, 111, 119, 85, 112]
}

/// The ASCII bytes of the key name "ArrowLeft".
pub open spec fn key_arrow_left() -> Seq<u8> {
    seq![65u8, 114, 114, 111, 119, 76, 101, 102, 116]
}

/// The ASCII bytes of the key name "ArrowRight".
pub open spec fn key_arrow_right() -> Seq<u8> {
    seq![65u8, 114, 114, 111, 119, 82, 105, 103, 104, 116]
}

/// The ASCII bytes of the key name "ArrowDown".
pub open spec fn key_arrow_down() -> Seq<u8> {
    seq![65u8, 114, 114, 111, 119, 68, 111, 119, 110]
}

/// The ASCII bytes of the key name "Up".
pub open spec fn key_up() -> Seq<u8> {
    seq![85u8, 112]
}

/// The ASCII bytes of the key name "Left".
pub open spec fn key_left() -> Seq<u8> {
    seq![76u8, 101, 102, 116]
}

/// The ASCII bytes of the key name "Right".
pub open spec fn key_right() -> Seq<u8> {
    seq![82u8, 105, 103, 104, 116]
}

/// The ASCII bytes of the key name "Down".
pub open spec fn key_down() -> Seq<u8> {
    seq![68u8, 111, 119, 110]
}

/// The ASCII bytes of the key name "z".
pub open spec fn key_z() -> Seq<u8> {
    seq![122u8]
}

/// The ASCII bytes of the key name ";".
pub open spec fn key_semicolon() -> Seq<u8> {
    seq![59u8]
}

/// The ASCII bytes of the key name "x".
pub open spec fn key_x() -> Seq<u8> {
    seq![120u8]
}

/// The ASCII bytes of the key name "q".
pub open spec fn key_q() -> Seq<u8> {
    seq![113u8]
}

/// The ASCII bytes of the key name "Unidentified".
pub open spec fn key_unidentified() -> Seq<u8> {
    seq![85u8, 110, 105, 100, 101, 110, 116, 105, 102, 105, 101, 100]
}

/// The button a key stands for, by its name: Enter is Start, the right
/// Shift is Select, the arrows (also under their short names) are the
/// directions, `z` and `;` are A, `x` and `q` are B, and an unidentified key
/// let go is A.
pub open spec fn key_button_spec(key: Seq<u8>, right: bool, is_pressed: bool) -> Option<Button::Ty> {
    if key == key_enter() {
        Some(Button::Start)
    } else if key == key_shift() && right {
        Some(Button::Select)
    } else if key == key_arrow_up() || key == key_up() {
        Some(Button::Up)
    } else if key == key_arrow_left() || key == key_left() {
        Some(Button::Left)
    } else if key == key_arrow_right() || key == key_right() {
        Some(Button::Right)
    } else if key == key_arrow_down() || key == key_down() {
        Some(Button::Down)
    } else if key == key_z() || key == key_semicolon() {
        Some(Button::A)
    } else if key == key_x() || key == key_q() {
        Some(Button::B)
    } else if key == key_unidentified() && !is_pressed {
        Some(Button::A)
    } else {
        None
    }
}

/// The button the key named `key` (its ASCII bytes) stands for, if any;
/// `right` tells whether the key is on the right of the keyboard,
/// `is_pressed` whether it went down rather than up.
pub fn key_button(key: &[u8], right: bool, is_pressed: bool) -> (button: Option<Button::Ty>)
    ensures
        button == key_button_spec(key@, right, is_pressed),
{
    let enter: [u8; 5] = [69, 110, 116, 101, 114];  // "Enter"
    let shift: [u8; 5] = [83, 104, 105, 102, 116];  // "Shift"
    let arrow_up: [u8; 7] = [65, 114, 114, 111, 119, 85, 112];  // "ArrowUp"
    let arrow_left: [u8; 9] = [65, 114, 114, 111, 119, 76, 101, 102, 116];  // "ArrowLeft"
    let arrow_right: [u8; 10] = [65, 114, 114, 111, 119, 82, 105, 103, 104, 116];  // "ArrowRight"
    let arrow_down: [u8; 9] = [65, 114, 114, 111, 119, 68, 111, 119, 110];  // "ArrowDown"
    let up: [u8; 2] = [85, 112];  // "Up"
    let left: [u8; 4] = [76, 101, 102, 116];  // "Left"
    let right_key: [u8; 5] = [82, 105, 103, 104, 116];  // "Right"
    let down: [u8; 4] = [68, 111, 119, 110];  // "Down"
    let z: [u8; 1] = [122];  // "z"
    let semicolon: [u8; 1] = [59];  // ";"
    let x: [u8; 1] = [120];  // "x"
    let q: [u8; 1] = [113];  // "q"
    let unidentified: [u8; 12] = [85, 110, 105, 100, 101, 110, 116, 105, 102, 105, 101, 100];  // "Unidentified"
    assert(enter@ =~= key_enter());
    assert(shift@ =~= key_shift());
    assert(arrow_up@ =~= key_arrow_up());
    assert(arrow_left@ =~= key_arrow_left());
    assert(arrow_right@ =~= key_arrow_right());
    assert(arrow_down@ =~= key_arrow_down());
    assert(up@ =~= key_up());
    assert(left@ =~= key_left());
    assert(right_key@ =~= key_right());
    assert(down@ =~= key_down());
    assert(z@ =~= key_z());
    assert(semicolon@ =~= key_semicolon());
    assert(x@ =~= key_x());
    assert(q@ =~= key_q());
    assert(unidentified@ =~= key_unidentified());

    if bytes_eq(key, &enter) {
        Some(Button::Start)
    } else if bytes_eq(key, &shift) && right {
        Some(Button::Select)
    } else if bytes_eq(key, &arrow_up) || bytes_eq(key, &up) {
        Some(Button::Up)
    } else if bytes_eq(key, &arrow_left) || bytes_eq(key, &left) {
        Some(Button::Left)
    } else if bytes_eq(key, &arrow_right) || bytes_eq(key, &right_key) {
        Some(Button::Right)
    } else if bytes_eq(key, &arrow_down) || bytes_eq(key, &down) {
        Some(Button::Down)
    } else if bytes_eq(key, &z) || bytes_eq(key, &semicolon) {
        Some(Button::A)
    } else if bytes_eq(key, &x) || bytes_eq(key, &q) {
        Some(Button::B)
    } else if bytes_eq(key, &unidentified) && !is_pressed {
        Some(Button::A)
    } else {
        None
    }
}

/// The button of a key does not depend on whether the key went down or up,
/// except for an unidentified key, which is A only when let go; Enter is
/// Start both ways, so that letting go of Enter lets go of Start.
pub proof fn lemma_key_button_both_ways(key: Seq<u8>, right: bool)
    ensures
        key != seq![85u8, 110, 105, 100, 101, 110, 116, 105, 102, 105, 101, 100] ==> key_button_spec(
            key,
            right,
            true,
        ) == key_button_spec(key, right, false),
        key == seq![69u8, 110, 116, 101, 114] ==> key_button_spec(key, right, true) == Some(
            Button::Start,
        ) && key_button_spec(key, right, false) == Some(Button::Start),
        key == seq![85u8, 110, 105, 100, 101, 110, 116, 105, 102, 105, 101, 100] ==> key_button_spec(
            key,
            right,
            false,
        ) == Some(Button::A) && key_button_spec(key, right, true) == None::<Button::Ty>,
{
    assert(key_unidentified() =~= seq![85u8, 110, 105, 100, 101, 110, 116, 105, 102, 105, 101, 100]);
    assert(key_enter() =~= seq![69u8, 110, 116, 101, 114]);
    if key == key_enter() {
        assert(key_button_spec(key, right, true) == Some(Button::Start));
    }
}

} // verus!
