//! Gamepad buttons.  A `Ty` is a set of buttons, one bit per button, and
//! each button constant is the set holding just that button.
use vstd::prelude::*;

verus! {

/// A set of buttons, one bit per button.
pub type Ty = u8;

pub const Up: Ty = 0b0000_0001;

pub const Down: Ty = 0b0000_0010;

pub const Left: Ty = 0b0000_0100;

pub const Right: Ty = 0b0000_1000;

pub const A: Ty = 0b0001_0000;

pub const B: Ty = 0b0010_0000;

pub const Start: Ty = 0b0100_0000;

pub const Select: Ty = 0b1000_0000;

/// The empty set.
pub const NONE: Ty = 0;

/// Every button of `buttons` is in `set`.
pub open spec fn contains_spec(set: Ty, buttons: Ty) -> bool {
    set & buttons == buttons
}

/// Every button of `buttons` is in `set`.
pub fn contains(set: Ty, buttons: Ty) -> (b: bool)
    ensures
        b == contains_spec(set, buttons),
{
    set & buttons == buttons
}

/// Adds the buttons of `buttons` to `set`.
pub fn insert(set: &mut Ty, buttons: Ty)
    ensures
        *final(set) == *old(set) | buttons,
{
    *set = *set | buttons;
}

/// Takes the buttons of `buttons` out of `set`.
pub fn remove(set: &mut Ty, buttons: Ty)
    ensures
        *final(set) == *old(set) & !buttons,
{
    *set = *set & !buttons;
}

/// After `insert`, the set holds the inserted buttons, and every button it
/// held before.
pub proof fn lemma_insert_contains(set: Ty, buttons: Ty, other: Ty)
    ensures
        contains_spec(set | buttons, buttons),
        contains_spec(set, other) ==> contains_spec(set | buttons, other),
{
    assert((set | buttons) & buttons == buttons) by (bit_vector);
    assert(set & other == other ==> (set | buttons) & other == other) by (bit_vector);
}

/// After `remove`, the set holds none of the removed buttons, and every other
/// button keeps its state.
pub proof fn lemma_remove_contains(set: Ty, buttons: Ty, other: Ty)
    ensures
        buttons != 0 ==> !contains_spec(set & !buttons, buttons),
        other & buttons == 0 ==> (contains_spec(set & !buttons, other) <==> contains_spec(
            set,
            other,
        )),
{
    assert(buttons != 0 ==> (set & !buttons) & buttons != buttons) by (bit_vector);
    assert(other & buttons == 0 ==> ((set & !buttons) & other == other <==> set & other == other))
        by (bit_vector);
}

/// Removing what was inserted leaves a set without those buttons:
/// `remove(insert(s, b), b) == remove(s, b)`.
pub proof fn lemma_insert_remove(set: Ty, buttons: Ty)
    ensures
        (set | buttons) & !buttons == set & !buttons,
{
    assert((set | buttons) & !buttons == set & !buttons) by (bit_vector);
}

} // verus!
