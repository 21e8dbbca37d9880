//! The rules of the game: selecting, grabbing and dropping cards, gathering
//! dragons, moving cards to the foundations by themselves, and winning.
use vstd::prelude::*;

use crate::common::Button;
use crate::common::rendering::Framebuffer;
use crate::common::inner_common::{
    BUTTON_COLUMN, CARD_BACK, CELLS_MAX_INDEX, Cells, FIRST_BLACK_CARD, FIRST_GREEN_CARD,
    FLOWER_CARD, FLOWER_FOUNDATION, GameState, GameView, Input, MOVE_TIMER_MAX,
    START_OF_FOUNDATIONS, START_OF_TABLEAU, cells_view,
};

verus! {

// ---------------------------------------------------------------------------
// Cells.

/// `cells` with cell `i` replaced by `c`.
pub(crate) fn set_cell(cells: &mut Cells, i: usize, c: Vec<u8>)
    requires
        i < 16,
    ensures
        cells_view(*final(cells)) == cells_view(*old(cells)).update(i as int, c@),
{
    cells[i] = c;
    assert(cells_view(*cells) =~= cells_view(*old(cells)).update(i as int, c@));
}

/// A copy of cell `i`.
pub(crate) fn copy_cell(cells: &Cells, i: usize) -> (c: Vec<u8>)
    requires
        i < 16,
    ensures
        c@ == cells_view(*cells)[i as int],
{
    let c = cells[i].clone();
    assert(c@ =~= cells[i as int]@);
    c
}

/// The top card of a non-empty cell.
fn top(cells: &Cells, i: usize) -> (card: u8)
    requires
        i < 16,
        cells_view(*cells)[i as int].len() > 0,
    ensures
        card == cells_view(*cells)[i as int].last(),
{
    cells[i][cells[i].len() - 1]
}

// ---------------------------------------------------------------------------
// Cards.

/// The suit of a card: 0, 1 or 2 for the three suits, 3 for the flower and
/// anything above it.
pub open spec fn card_suit(card: u8) -> u8 {
    if card >= FLOWER_CARD {
        3
    } else if card >= FIRST_BLACK_CARD {
        2
    } else if card >= FIRST_GREEN_CARD {
        1
    } else {
        0
    }
}

/// The number of a card within its suit; 0 for a dragon.
pub open spec fn cardnum(card: u8) -> u8 {
    (card - card_suit(card) * 10) as u8
}

/// The suit of a card.
pub fn getsuit(card: u8) -> (s: u8)
    ensures
        s == card_suit(card),
{
    if card >= FLOWER_CARD {
        3
    } else if card >= FIRST_BLACK_CARD {
        2
    } else if card >= FIRST_GREEN_CARD {
        1
    } else {
        0
    }
}

/// The number of a card within its suit.
pub fn getcardnum(card: u8) -> (n: u8)
    ensures
        n == cardnum(card),
{
    card - (getsuit(card) * 10)
}

// ---------------------------------------------------------------------------
// Grabbing and dropping.

/// The cards that selecting `depth` cards of cell `pos` takes: the `depth`
/// cards just under the top card.
pub open spec fn selection(cells: Seq<Seq<u8>>, pos: u8, depth: u8) -> Seq<u8> {
    if depth == 0 {
        Seq::empty()
    } else {
        let c = cells[pos as int];
        c.subrange(c.len() - depth - 1, c.len() - 1)
    }
}

/// The selection can be taken: there is none, or the cell exists and holds
/// more cards than the selection.
pub open spec fn selection_ok(cells: Seq<Seq<u8>>, pos: u8, depth: u8) -> bool {
    depth > 0 ==> pos < 16 && depth + 1 <= cells[pos as int].len()
}

/// The cards under the top card that a selection of `depth` takes.
pub fn getselection(cells: &Cells, pos: u8, depth: u8) -> (output: Vec<u8>)
    requires
        selection_ok(cells_view(*cells), pos, depth),
    ensures
        output@ == selection(cells_view(*cells), pos, depth),
{
    let pos = pos as usize;
    let depth = depth as usize;

    let mut output = Vec::with_capacity(depth);
    for i in 0..depth
        invariant
            depth > 0 ==> pos < 16 && depth + 1 <= cells[pos as int]@.len(),
            output@.len() == i,
            forall|j: int|
                0 <= j < i ==> output@[j] == cells[pos as int]@[cells[pos as int]@.len() - depth - 1
                    + j],
    {
        let index = cells[pos].len() - (depth + 1) + i;
        output.push(cells[pos][index]);
    }
    proof {
        if depth > 0 {
            assert(cells_view(*cells)[pos as int] == cells[pos as int]@);
            assert(output@ =~= selection(cells_view(*cells), pos as u8, depth as u8));
        } else {
            assert(output@ =~= Seq::<u8>::empty());
        }
    }
    output
}

/// The verdict on one card of a grab.
pub enum Verdict {
    /// The card may be grabbed.
    Pass,
    /// The card may not be grabbed.
    Reject,
    /// The card lies on a dragon, whose number 0 has none below it.
    Fault,
}

/// The verdict on `card` when it lies on `prev` in a grab (`None` for the
/// first card): no face-down card; each card of another suit than the one
/// before, not a dragon, and one lower than the one before.
pub open spec fn card_verdict(prev: Option<u8>, card: u8) -> Verdict {
    if card == CARD_BACK {
        Verdict::Reject
    } else {
        match prev {
            None => Verdict::Pass,
            Some(p) => if card_suit(card) == card_suit(p) || cardnum(card) == 0 {
                Verdict::Reject
            } else if cardnum(p) == 0 {
                Verdict::Fault
            } else if cardnum(card) != cardnum(p) - 1 {
                Verdict::Reject
            } else {
                Verdict::Pass
            },
        }
    }
}

/// The verdict on the cards of `sel` from index `k` on: the first verdict
/// that is not `Pass`, or `Pass`.
pub open spec fn scan_from(sel: Seq<u8>, k: int) -> Verdict
    decreases sel.len() - k,
{
    if k < 0 || k >= sel.len() {
        Verdict::Pass
    } else {
        let prev = if k == 0 {
            None
        } else {
            Some(sel[k - 1])
        };
        match card_verdict(prev, sel[k]) {
            Verdict::Pass => scan_from(sel, k + 1),
            v => v,
        }
    }
}

/// The selection is not empty, lies outside the flower and suit foundations,
/// and every card passes.
pub open spec fn cangrab_spec(cells: Seq<Seq<u8>>, pos: u8, depth: u8) -> bool {
    let sel = selection(cells, pos, depth);
    sel.len() > 0 && !(FLOWER_FOUNDATION <= pos < START_OF_TABLEAU) && scan_from(sel, 0)
        is Pass
}

/// A grab can be judged: the selection can be taken, and the scan over it,
/// when it is made, meets no dragon under another card.
pub open spec fn cangrab_ok(cells: Seq<Seq<u8>>, pos: u8, depth: u8) -> bool {
    let sel = selection(cells, pos, depth);
    &&& selection_ok(cells, pos, depth)
    &&& sel.len() > 0 && !(FLOWER_FOUNDATION <= pos < START_OF_TABLEAU) ==> !(scan_from(sel, 0)
        is Fault)
}

/// Whether the `depth` cards under the top of cell `pos` may be grabbed.
pub fn cangrab(cells: &Cells, pos: u8, depth: u8) -> (b: bool)
    requires
        cangrab_ok(cells_view(*cells), pos, depth),
    ensures
        b == cangrab_spec(cells_view(*cells), pos, depth),
{
    let sel = getselection(cells, pos, depth);

    if sel.len() == 0 || (pos >= FLOWER_FOUNDATION && pos < START_OF_TABLEAU) {
        return false;
    }

    let mut lastsuit: u8 = 255;
    let mut lastnum: u8 = 255;
    let mut first = true;

    for k in 0..sel.len()
        invariant
            sel@ == selection(cells_view(*cells), pos, depth),
            sel@.len() > 0,
            !(scan_from(sel@, 0) is Fault),
            scan_from(sel@, 0) == scan_from(sel@, k as int),
            first <==> k == 0,
            k > 0 ==> lastsuit == card_suit(sel@[k - 1]) && lastnum == cardnum(sel@[k - 1]),
    {
        let card = sel[k];
        proof {
            if k > 0 {
                assert(scan_from(sel@, k as int) == match card_verdict(Some(sel@[k - 1]), card) {
                    Verdict::Pass => scan_from(sel@, k + 1),
                    v => v,
                });
            } else {
                assert(scan_from(sel@, k as int) == match card_verdict(None, card) {
                    Verdict::Pass => scan_from(sel@, k + 1),
                    v => v,
                });
            }
        }
        if card == CARD_BACK {
            return false;
        }
        let suit = getsuit(card);
        let num = getcardnum(card);

        if !first {
            if suit == lastsuit || num == 0 || num != lastnum - 1 {
                return false;
            }
        }
        lastsuit = suit;
        lastnum = num;
        first = false;
    }
    assert(scan_from(sel@, sel@.len() as int) is Pass);
    true
}

/// Dropping the grab can be judged: the grabbed cell exists and the grab is
/// at least one deep, and when the grab is in the cell and the drop is on a
/// tableau column, that column exists and its top card is no dragon under
/// a grabbed card of another suit that is not one.
pub open spec fn candrop_ok(cells: Seq<Seq<u8>>, grabpos: u8, grabdepth: u8, droppos: u8) -> bool {
    &&& grabpos < 16
    &&& grabdepth >= 1
    &&& cells[grabpos as int].len() >= grabdepth && droppos >= START_OF_TABLEAU ==> {
        &&& droppos < 16
        &&& ({
            let c = cells[grabpos as int];
            let grabcard = c[c.len() - grabdepth];
            let d = cells[droppos as int];
            d.len() > 0 && card_suit(grabcard) != card_suit(d.last()) && cardnum(grabcard) != 0 ==> cardnum(
                d.last(),
            ) != 0
        })
    }
}

/// The grab may be dropped: the grabbed cell holds the grab, the drop is on
/// a tableau column, and that column is empty or its top card is of another
/// suit and one higher than the grabbed card, which is no dragon.
pub open spec fn candrop_spec(cells: Seq<Seq<u8>>, grabpos: u8, grabdepth: u8, droppos: u8) -> bool {
    let c = cells[grabpos as int];
    let grabcard = c[c.len() - grabdepth];
    let d = cells[droppos as int];
    &&& c.len() >= grabdepth
    &&& droppos >= START_OF_TABLEAU
    &&& d.len() == 0 || (card_suit(grabcard) != card_suit(d.last()) && cardnum(grabcard) != 0 && cardnum(
        grabcard,
    ) == cardnum(d.last()) - 1)
}

/// Whether the card `grabdepth` from the top of cell `grabpos` may be
/// dropped on cell `droppos`.
pub fn candrop(cells: &Cells, grabpos: u8, grabdepth: u8, droppos: u8) -> (b: bool)
    requires
        candrop_ok(cells_view(*cells), grabpos, grabdepth, droppos),
    ensures
        b == candrop_spec(cells_view(*cells), grabpos, grabdepth, droppos),
{
    let ghost cv = cells_view(*cells);
    let grabpos = grabpos as usize;
    let grabdepth = grabdepth as usize;

    let grabcard = {
        let len = cells[grabpos].len();
        if len < grabdepth {
            return false;
        }
        cells[grabpos][len - grabdepth]
    };
    assert(cv[grabpos as int] == cells[grabpos as int]@);

    if droppos < BUTTON_COLUMN {
        return cells[droppos as usize].len() == 0 && grabdepth == 0;
    } else if droppos >= BUTTON_COLUMN && droppos <= FLOWER_FOUNDATION {
        return false;
    } else if droppos >= START_OF_FOUNDATIONS && droppos < START_OF_TABLEAU {
        let droppos = droppos as usize;
        if grabdepth == 0 {
            if cells[droppos].len() == 0 {
                if getcardnum(grabcard) == 1 {
                    return true;
                }
            } else {
                let dropcard = top(cells, droppos);
                if getsuit(grabcard) == getsuit(dropcard) && getcardnum(grabcard) != 0
                    && getcardnum(grabcard) == getcardnum(dropcard) + 1 {
                    return true;
                }
            }
        }
        return false;
    } else {
        let droppos = droppos as usize;
        assert(cv[droppos as int] == cells[droppos as int]@);
        if cells[droppos].len() == 0 {
            return true;
        } else {
            let dropcard = top(cells, droppos);
            if getsuit(grabcard) != getsuit(dropcard) && getcardnum(grabcard) != 0
                && getcardnum(grabcard) == getcardnum(dropcard) - 1 {
                return true;
            }
        }
        return false;
    }
}

// ---------------------------------------------------------------------------
// Moving cards.

/// Moving cards can be done: the grabbed cell exists and is not empty, the
/// drop is on the top row or the first tableau column, and the grab is at
/// least one deep and no deeper than the grabbed cell after the move.
pub open spec fn movecards_ok(cells: Seq<Seq<u8>>, grabpos: u8, grabdepth: u8, droppos: u8) -> bool {
    &&& grabpos < 16
    &&& droppos <= START_OF_TABLEAU
    &&& cells[grabpos as int].len() > 0
    &&& 1 <= grabdepth
    &&& grabdepth <= cells[grabpos as int].len() + if grabpos == droppos {
        1int
    } else {
        0int
    }
}

/// The cells after moving: the top card of the grabbed cell is put under
/// the cards of the drop cell, and stays where it was too.
pub open spec fn movecards_result(cells: Seq<Seq<u8>>, grabpos: u8, droppos: u8) -> Seq<Seq<u8>> {
    cells.update(droppos as int, seq![cells[grabpos as int].last()] + cells[droppos as int])
}

/// `s` with its cells replaced.
pub open spec fn with_cells(s: GameView, cells: Seq<Seq<u8>>) -> GameView {
    GameView { cells, ..s }
}

/// Moves the grab of cell `grabpos` to cell `droppos`.
pub fn movecards(state: &mut GameState, grabpos: u8, grabdepth: u8, droppos: u8)
    requires
        movecards_ok(old(state)@.cells, grabpos, grabdepth, droppos),
    ensures
        final(state)@ == with_cells(
            old(state)@,
            movecards_result(old(state)@.cells, grabpos, droppos),
        ),
{
    let ghost cv = state@.cells;
    let grabpos = grabpos as usize;
    let grabdepth = grabdepth as usize;
    let droppos = droppos as usize;
    if droppos <= 8 {
        let last = top(&state.cells, grabpos);
        let mut d = copy_cell(&state.cells, droppos);
        d.insert(0, last);
        set_cell(&mut state.cells, droppos, d);
        assert(d@ =~= seq![cv[grabpos as int].last()] + cv[droppos as int]);
        assert(state.cells[grabpos as int]@ == cells_view(state.cells)[grabpos as int]);
        let start = state.cells[grabpos].len();
        let end = state.cells[grabpos].len() - grabdepth;
        let mut i = start;
        let ghost moved = state@;
        // The grab is at least one deep, so `start..=end` is empty.
        while i <= end
            invariant
                i == start,
                start > end,
                state@ == moved,
            decreases end - i,
        {
            let mut g = copy_cell(&state.cells, grabpos);
            g.remove(i);
            set_cell(&mut state.cells, grabpos, g);
            i += 1;
        }
        assert(state@ =~= with_cells(old(state)@, movecards_result(cv, grabpos as u8, droppos as u8)));
    } else {
        let len = state.cells[grabpos].len();
        let mut i = len - grabdepth;
        // `movecards_ok` puts the drop on the top row or the first tableau
        // column, so this branch is not reached.
        while i <= len
            invariant
                droppos <= START_OF_TABLEAU,
                droppos > 8,
            decreases len + 1 - i,
        {
            let mut g = copy_cell(&state.cells, grabpos);
            let removed = g.remove(i);
            set_cell(&mut state.cells, grabpos, g);
            let mut d = copy_cell(&state.cells, droppos);
            d.push(removed);
            set_cell(&mut state.cells, droppos, d);
            i += 1;
        }
    }
}

// ---------------------------------------------------------------------------
// Dragons.

/// The number of the first `n` cells whose top card is `card`.
pub open spec fn top_count(cells: Seq<Seq<u8>>, card: int, n: int) -> int
    decreases n,
{
    if n <= 0 {
        0
    } else {
        top_count(cells, card, n - 1) + if cells[n - 1].len() > 0 && cells[n - 1].last() == card {
            1int
        } else {
            0int
        }
    }
}

/// The dragons of `suit` can be counted: the dragon's card fits in a `u8`,
/// or every cell is empty.
pub open spec fn canmovedragons_ok(cells: Seq<Seq<u8>>, suit: u8) -> bool {
    suit <= 25 || forall|i: int| 0 <= i < 16 ==> #[trigger] cells[i].len() == 0
}

/// The four dragons of `suit` lie on top of cells, and a free cell is empty
/// or holds one of them on top.
pub open spec fn canmovedragons_spec(cells: Seq<Seq<u8>>, suit: u8) -> bool {
    &&& top_count(cells, suit * 10, 16) >= 4
    &&& exists|i: int|
        0 <= i < BUTTON_COLUMN && (#[trigger] cells[i].len() == 0 || cells[i].last() == suit * 10)
}

/// Whether the dragons of `suit` can be gathered.
pub fn canmovedragons(state: &GameState, suit: u8) -> (b: bool)
    requires
        canmovedragons_ok(state@.cells, suit),
    ensures
        b == canmovedragons_spec(state@.cells, suit),
{
    let ghost cv = state@.cells;
    let mut count: u32 = 0;
    for i in 0..CELLS_MAX_INDEX + 1
        invariant
            cv == state@.cells,
            canmovedragons_ok(cv, suit),
            count == top_count(cv, suit * 10, i as int),
            count <= i,
    {
        let i = i as usize;
        assert(cv[i as int] == state.cells[i as int]@);
        if state.cells[i].len() > 0 && top(&state.cells, i) == suit * 10 {
            count += 1;
        }
    }

    if count < 4 {
        return false;
    }

    for i in 0..BUTTON_COLUMN
        invariant
            cv == state@.cells,
            canmovedragons_ok(cv, suit),
            top_count(cv, suit * 10, 16) >= 4,
            forall|j: int| 0 <= j < i ==> !(#[trigger] cv[j].len() == 0 || cv[j].last() == suit * 10),
    {
        let i = i as usize;
        assert(cv[i as int] == state.cells[i as int]@);
        if state.cells[i].len() == 0 || top(&state.cells, i) == suit * 10 {
            assert(cv[i as int].len() == 0 || cv[i as int].last() == suit * 10);
            return true;
        }
    }
    false
}

/// Dragons can be gathered by `movedragons`: every free cell holds a card,
/// and the suit, `selectpos`, has a dragon card that fits in a `u8`.
pub open spec fn movedragons_ok(s: GameView) -> bool {
    &&& forall|i: int| 0 <= i < BUTTON_COLUMN ==> #[trigger] s.cells[i].len() > 0
    &&& s.selectpos <= 25
}

/// The cells after gathering: every top card that is the dragon of suit
/// `selectpos` is taken off.
pub open spec fn movedragons_result(cells: Seq<Seq<u8>>, suit: u8) -> Seq<Seq<u8>> {
    Seq::new(
        16,
        |i: int|
            if cells[i].len() > 0 && cells[i].last() == suit * 10 {
                cells[i].drop_last()
            } else {
                cells[i]
            },
    )
}

/// Gathers the dragons of suit `selectpos`.
pub fn movedragons(state: &mut GameState)
    requires
        movedragons_ok(old(state)@),
    ensures
        final(state)@ == with_cells(
            old(state)@,
            movedragons_result(old(state)@.cells, old(state)@.selectpos),
        ),
{
    let ghost cv = state@.cells;
    let suit = state.selectpos;
    let mut moveto: Option<usize> = None;

    for i in 0..BUTTON_COLUMN
        invariant
            state@ == old(state)@,
            movedragons_ok(state@),
            moveto.is_none(),
    {
        let i = i as usize;
        assert(state@.cells[i as int] == state.cells[i as int]@);
        if state.cells[i].len() == 0 && top(&state.cells, i) == suit * 10 && moveto.is_none() {
            moveto = Some(i);
        }
    }
    if moveto.is_none() {
        for i in 0..BUTTON_COLUMN
            invariant
                state@ == old(state)@,
                movedragons_ok(state@),
                moveto.is_none(),
        {
            let i = i as usize;
            assert(state@.cells[i as int] == state.cells[i as int]@);
            if state.cells[i].len() == 0 {
                moveto = Some(i);
                break;
            }
        }
    }

    assert(state@.cells =~= (
        Seq::new(
            16,
            |j: int|
                if j < 0 && cv[j].len() > 0 && cv[j].last() == suit * 10 {
                    cv[j].drop_last()
                } else {
                    cv[j]
                },
        )
    ));
    for i in 0..CELLS_MAX_INDEX + 1
        invariant
            suit == old(state)@.selectpos,
            suit <= 25,
            moveto.is_none(),
            state@ == with_cells(
                old(state)@,
                Seq::new(
                    16,
                    |j: int|
                        if j < i && cv[j].len() > 0 && cv[j].last() == suit * 10 {
                            cv[j].drop_last()
                        } else {
                            cv[j]
                        },
                ),
            ),
    {
        let i = i as usize;
        assert(state@.cells[i as int] == state.cells[i as int]@);
        if state.cells[i].len() != 0 && top(&state.cells, i) == suit * 10 {
            let mut c = copy_cell(&state.cells, i);
            c.pop();
            set_cell(&mut state.cells, i, c);
        }
        assert(state@.cells =~= Seq::new(
            16,
            |j: int|
                if j < i + 1 && cv[j].len() > 0 && cv[j].last() == suit * 10 {
                    cv[j].drop_last()
                } else {
                    cv[j]
                },
        ));
    }

    if let Some(moveto) = moveto {
        let mut c = copy_cell(&state.cells, moveto);
        c.push(CARD_BACK);
        set_cell(&mut state.cells, moveto, c);
    }
    assert(state@.cells =~= movedragons_result(cv, suit));
}

// ---------------------------------------------------------------------------
// Winning and moving by itself.

/// Every tableau column is empty.
pub open spec fn haswon_spec(cells: Seq<Seq<u8>>) -> bool {
    forall|i: int| START_OF_TABLEAU <= i <= CELLS_MAX_INDEX ==> #[trigger] cells[i].len() == 0
}

/// Whether the game is won.
pub fn haswon(state: &GameState) -> (b: bool)
    ensures
        b == haswon_spec(state@.cells),
{
    for i in START_OF_TABLEAU..CELLS_MAX_INDEX + 1
        invariant
            forall|j: int| START_OF_TABLEAU <= j < i ==> #[trigger] state@.cells[j].len() == 0,
    {
        let i = i as usize;
        assert(state@.cells[i as int] == state.cells[i as int]@);
        if state.cells[i].len() > 0 {
            return false;
        }
    }
    true
}

/// The value a suit foundation shows: the number of its top card, or 0 when
/// it is empty.
pub open spec fn foundation_value(cells: Seq<Seq<u8>>, i: int) -> u8 {
    if cells[i].len() > 0 {
        cardnum(cells[i].last())
    } else {
        0
    }
}

/// The least value of the suit foundations from the first up to cell
/// `k - 1`.
pub open spec fn foundation_min(cells: Seq<Seq<u8>>, k: int) -> u8
    decreases k,
{
    if k <= START_OF_FOUNDATIONS + 1 {
        foundation_value(cells, START_OF_FOUNDATIONS as int)
    } else {
        let m = foundation_min(cells, k - 1);
        if foundation_value(cells, k - 1) < m {
            foundation_value(cells, k - 1)
        } else {
            m
        }
    }
}

/// The number a card must have to go to a suit foundation by itself: one
/// more than the least foundation value, wrapping at 256.
pub open spec fn wanted_card_num(cells: Seq<Seq<u8>>) -> u8 {
    let m = foundation_min(cells, START_OF_TABLEAU as int);
    if m == 255 {
        0
    } else {
        (m + 1) as u8
    }
}

/// Cell `i` is a free cell or a tableau column whose top card would move by
/// itself: the flower, or a card of the wanted number that is not face down
/// while some suit foundation is empty or holds as many cards as a card of
/// its suit would say.
pub open spec fn automove_wants(cells: Seq<Seq<u8>>, i: int) -> bool {
    &&& (i < BUTTON_COLUMN || i >= START_OF_TABLEAU)
    &&& cells[i].len() > 0
    &&& ({
        let card = cells[i].last();
        ||| card == FLOWER_CARD
        ||| cardnum(card) == wanted_card_num(cells) && card != CARD_BACK && exists|i2: int|
            START_OF_FOUNDATIONS <= i2 < START_OF_TABLEAU && (#[trigger] cells[i2].len() == 0
                || card_suit(cells[i2].len() as u8) == card_suit(card))
    })
}

/// `automove` can run: no card would move, since a move takes a grab of
/// depth 0, which `movecards` does not take.
pub open spec fn automove_ok(cells: Seq<Seq<u8>>) -> bool {
    forall|i: int| 0 <= i < 16 ==> !#[trigger] automove_wants(cells, i)
}

/// Looks for a card to move to a foundation by itself; with none to move it
/// returns `false` and leaves the state as it is.
pub fn automove(state: &mut GameState) -> (moved: bool)
    requires
        automove_ok(old(state)@.cells),
    ensures
        !moved,
        final(state)@ == old(state)@,
{
    let ghost cv = state@.cells;
    let min_free_card_num = {
        let mut min_foundation_card_num: Option<u8> = None;

        for i in START_OF_FOUNDATIONS..START_OF_TABLEAU
            invariant
                cv == state@.cells,
                i == START_OF_FOUNDATIONS ==> min_foundation_card_num.is_none(),
                i > START_OF_FOUNDATIONS ==> min_foundation_card_num == Some(
                    foundation_min(cv, i as int),
                ),
        {
            let i = i as usize;
            assert(cv[i as int] == state.cells[i as int]@);
            let val = if state.cells[i].len() > 0 {
                let card = top(&state.cells, i);
                getcardnum(card)
            } else {
                0
            };
            let lower = match min_foundation_card_num {
                Some(v) => val < v,
                None => true,
            };
            if lower {
                min_foundation_card_num = Some(val);
            }
        }

        let m = match min_foundation_card_num {
            Some(v) => v,
            None => 255,
        };
        m.wrapping_add(1)
    };
    assert(min_free_card_num == wanted_card_num(cv));

    for i in 0..CELLS_MAX_INDEX + 1
        invariant
            cv == state@.cells,
            state@ == old(state)@,
            automove_ok(cv),
            min_free_card_num == wanted_card_num(cv),
    {
        assert(cv[i as int] == state.cells[i as int]@);
        if (i < BUTTON_COLUMN || i >= START_OF_TABLEAU) && state.cells[i as usize].len() > 0 {
            let card = top(&state.cells, i as usize);
            if card == FLOWER_CARD {
                assert(automove_wants(cv, i as int));
                movecards(state, i, 0, FLOWER_FOUNDATION);
                return true;
            } else if getcardnum(card) == min_free_card_num && card != CARD_BACK {
                let suit = getsuit(card);
                for i2 in START_OF_FOUNDATIONS..START_OF_TABLEAU
                    invariant
                        cv == state@.cells,
                        state@ == old(state)@,
                        automove_ok(cv),
                        0 <= i < 16,
                        i < BUTTON_COLUMN || i >= START_OF_TABLEAU,
                        cv[i as int].len() > 0,
                        card == cv[i as int].last(),
                        suit == card_suit(card),
                        cardnum(card) == wanted_card_num(cv),
                        card != CARD_BACK,
                {
                    assert(cv[i2 as int] == state.cells[i2 as int]@);
                    if state.cells[i2 as usize].len() > 0 {
                        let card2 = state.cells[i2 as usize].len() as u8;
                        if getsuit(card2) == suit {
                            assert(cv[i2 as int].len() == 0 || card_suit(cv[i2 as int].len() as u8)
                                == card_suit(card));
                            assert(automove_wants(cv, i as int));
                            movecards(state, i, 0, i2);
                            return true;
                        }
                    }
                }
                for i2 in START_OF_FOUNDATIONS..START_OF_TABLEAU
                    invariant
                        cv == state@.cells,
                        state@ == old(state)@,
                        automove_ok(cv),
                        0 <= i < 16,
                        i < BUTTON_COLUMN || i >= START_OF_TABLEAU,
                        cv[i as int].len() > 0,
                        card == cv[i as int].last(),
                        cardnum(card) == wanted_card_num(cv),
                        card != CARD_BACK,
                {
                    assert(cv[i2 as int] == state.cells[i2 as int]@);
                    if state.cells[i2 as usize].len() == 0 {
                        assert(automove_wants(cv, i as int));
                        movecards(state, i, 0, i2);
                        return true;
                    }
                }
            }
        }
    }

    false
}

// ---------------------------------------------------------------------------
// One frame of play.

/// The larger of two numbers.
fn max_u8(a: u8, b: u8) -> (m: u8)
    ensures
        m == if a > b {
            a
        } else {
            b
        },
{
    if a > b {
        a
    } else {
        b
    }
}

/// The smaller of two numbers.
fn min_u8(a: u8, b: u8) -> (m: u8)
    ensures
        m == if a < b {
            a
        } else {
            b
        },
{
    if a < b {
        a
    } else {
        b
    }
}

/// The number of cards in cell `pos`, as a `u8` (modulo 256).
pub open spec fn len8(cells: Seq<Seq<u8>>, pos: int) -> u8 {
    cells[pos].len() as u8
}

/// The cell above or below `pos`: the other row, same column.
pub open spec fn other_row(pos: u8) -> int {
    if pos > START_OF_TABLEAU {
        pos - START_OF_TABLEAU
    } else {
        pos + START_OF_TABLEAU
    }
}

/// The cell left of `pos`, wrapping within its row.
pub open spec fn left_of(pos: u8) -> u8 {
    if pos == 0 {
        (START_OF_TABLEAU - 1) as u8
    } else if pos == START_OF_TABLEAU {
        CELLS_MAX_INDEX
    } else {
        (pos - 1) as u8
    }
}

/// The cell right of `pos`, wrapping within its row.
pub open spec fn right_of(pos: u8) -> u8 {
    if pos == START_OF_TABLEAU - 1 {
        0
    } else if pos >= CELLS_MAX_INDEX {
        START_OF_TABLEAU
    } else {
        (pos + 1) as u8
    }
}

/// How many cards the selection keeps from the top of the cell, at least 1.
pub open spec fn kept_from_top(s: GameView) -> u8 {
    let d = (len8(s.cells, s.selectpos as int) - s.selectdepth) as u8;
    if 1 > d {
        1
    } else {
        d
    }
}

/// Moving the selection sideways to `newpos` can be done: the selected cell
/// exists, the selection is no deeper than its cards, and when not dropping,
/// the new cell holds at least as many cards as are kept.
pub open spec fn sideways_ok(s: GameView, newpos: u8) -> bool {
    &&& s.selectpos < 16
    &&& s.selectdepth <= len8(s.cells, s.selectpos as int)
    &&& !s.selectdrop ==> kept_from_top(s) <= len8(s.cells, newpos as int)
}

/// The selection moved sideways to `newpos`: at depth 0 when dropping,
/// otherwise keeping as many cards from the top as before.
pub open spec fn sideways_result(s: GameView, newpos: u8) -> GameView {
    GameView {
        selectpos: newpos,
        selectdepth: if s.selectdrop {
            0
        } else {
            (len8(s.cells, newpos as int) - kept_from_top(s)) as u8
        },
        ..s
    }
}

/// Up leaves the cell: on the buttons below the third, elsewhere when the
/// cell is empty, the selection reaches its bottom, or a grab is held.
pub open spec fn up_changes_cell(s: GameView) -> bool {
    if s.selectpos == BUTTON_COLUMN {
        s.selectdepth >= 2
    } else {
        s.cells[s.selectpos as int].len() == 0 || s.selectdepth >= len8(
            s.cells,
            s.selectpos as int,
        ) - 1 || s.selectdrop
    }
}

/// Up can be done: off the buttons, the cell exists and its count of cards
/// is not 0 modulo 256 unless it is empty.
pub open spec fn up_ok(s: GameView) -> bool {
    s.selectpos == BUTTON_COLUMN || (s.selectpos < 16 && (s.cells[s.selectpos as int].len() > 0
        ==> len8(s.cells, s.selectpos as int) > 0))
}

/// Up: to the other row at depth 0, or one card deeper.
pub open spec fn up_result(s: GameView) -> GameView {
    if up_changes_cell(s) {
        GameView { selectpos: other_row(s.selectpos) as u8, selectdepth: 0, ..s }
    } else {
        GameView { selectdepth: (s.selectdepth + 1) as u8, ..s }
    }
}

/// Down can be done: from depth 0 the other row's cell exists, and its count
/// of cards is not 0 modulo 256 when the selection goes to its top.
pub open spec fn down_ok(s: GameView) -> bool {
    s.selectdepth == 0 ==> {
        let np = other_row(s.selectpos);
        &&& np < 16
        &&& s.cells[np].len() > 0 && !s.selectdrop ==> len8(s.cells, np) > 0
    }
}

/// Down: from depth 0 to the other row, at the card under its top (depth 2
/// on the buttons, 0 otherwise); else one card shallower.
pub open spec fn down_result(s: GameView) -> GameView {
    if s.selectdepth == 0 {
        let np = other_row(s.selectpos);
        GameView {
            selectpos: np as u8,
            selectdepth: if s.cells[np].len() > 0 && !s.selectdrop {
                (len8(s.cells, np) - 1) as u8
            } else if np == BUTTON_COLUMN {
                2
            } else {
                0
            },
            ..s
        }
    } else {
        GameView { selectdepth: (s.selectdepth - 1) as u8, ..s }
    }
}

/// The A button can be handled: on the buttons the dragons can be counted
/// and, when they may be gathered, gathered; with a grab held the drop can
/// be judged and, when it may be made, made; otherwise the grab can be
/// judged.
pub open spec fn a_ok(s: GameView) -> bool {
    if s.selectpos == BUTTON_COLUMN {
        &&& canmovedragons_ok(s.cells, s.selectdepth)
        &&& canmovedragons_spec(s.cells, s.selectdepth) ==> movedragons_ok(s)
    } else if s.selectdrop {
        &&& candrop_ok(s.cells, s.grabpos, s.grabdepth, s.selectpos)
        &&& candrop_spec(s.cells, s.grabpos, s.grabdepth, s.selectpos) ==> movecards_ok(
            s.cells,
            s.grabpos,
            s.grabdepth,
            s.selectpos,
        )
    } else {
        cangrab_ok(s.cells, s.selectpos, s.selectdepth)
    }
}

/// The A button: gather dragons, drop the grab, or grab the selection.
pub open spec fn a_result(s: GameView) -> GameView {
    if s.selectpos == BUTTON_COLUMN {
        if canmovedragons_spec(s.cells, s.selectdepth) {
            GameView {
                cells: movedragons_result(s.cells, s.selectpos),
                selectdrop: false,
                movetimer: MOVE_TIMER_MAX,
                ..s
            }
        } else {
            s
        }
    } else if s.selectdrop {
        if candrop_spec(s.cells, s.grabpos, s.grabdepth, s.selectpos) {
            GameView {
                cells: movecards_result(s.cells, s.grabpos, s.selectpos),
                selectdrop: false,
                movetimer: MOVE_TIMER_MAX,
                ..s
            }
        } else {
            s
        }
    } else if cangrab_spec(s.cells, s.selectpos, s.selectdepth) {
        GameView { grabpos: s.selectpos, grabdepth: s.selectdepth, selectdrop: true, ..s }
    } else {
        s
    }
}

/// The button pressed this frame can be handled; the buttons are looked at
/// in the order left, right, up, down, A, B.
pub open spec fn input_ok(s: GameView, input: Input) -> bool {
    if input.pressed_spec(Button::Left) {
        sideways_ok(s, left_of(s.selectpos))
    } else if input.pressed_spec(Button::Right) {
        sideways_ok(s, right_of(s.selectpos))
    } else if input.pressed_spec(Button::Up) {
        up_ok(s)
    } else if input.pressed_spec(Button::Down) {
        down_ok(s)
    } else if input.pressed_spec(Button::A) {
        a_ok(s)
    } else {
        true
    }
}

/// The state after the button pressed this frame; B lets go of the grab.
pub open spec fn input_result(s: GameView, input: Input) -> GameView {
    if input.pressed_spec(Button::Left) {
        sideways_result(s, left_of(s.selectpos))
    } else if input.pressed_spec(Button::Right) {
        sideways_result(s, right_of(s.selectpos))
    } else if input.pressed_spec(Button::Up) {
        up_result(s)
    } else if input.pressed_spec(Button::Down) {
        down_result(s)
    } else if input.pressed_spec(Button::A) {
        a_result(s)
    } else if input.pressed_spec(Button::B) {
        GameView { selectdrop: false, ..s }
    } else {
        s
    }
}

/// The move timer counted down by one, stopping at 0.
pub open spec fn tick(s: GameView) -> GameView {
    if s.movetimer > 0 {
        GameView { movetimer: (s.movetimer - 1) as u8, ..s }
    } else {
        s
    }
}

/// The state after the input of a frame, before the win is counted: once the
/// timer has run out, the input is handled (no card moves by itself under
/// `update_ok`).
pub open spec fn after_input(s: GameView, input: Input) -> GameView {
    let s1 = tick(s);
    if s1.movetimer == 0 {
        input_result(s1, input)
    } else {
        s1
    }
}

/// A frame can be played: once the timer has run out no card would move by
/// itself and the input can be handled, and a first win can be counted.
pub open spec fn update_ok(s: GameView, input: Input) -> bool {
    let s1 = tick(s);
    let s2 = after_input(s, input);
    &&& s1.movetimer == 0 ==> automove_ok(s1.cells) && input_ok(s1, input)
    &&& haswon_spec(s2.cells) && !s2.win_done ==> s2.wins < u32::MAX
}

/// The state after a frame: the input handled, then a first win counted.
pub open spec fn update_spec(s: GameView, input: Input) -> GameView {
    let s2 = after_input(s, input);
    if haswon_spec(s2.cells) && !s2.win_done {
        GameView { wins: (s2.wins + 1) as u32, win_done: true, ..s2 }
    } else {
        s2
    }
}

/// Plays one frame: counts the move timer down, moves a card by itself or
/// handles the button pressed, and counts a win.
#[verifier::rlimit(50)]
pub fn update(state: &mut GameState, input: Input)
    requires
        update_ok(old(state)@, input),
    ensures
        final(state)@ == update_spec(old(state)@, input),
{
    if state.movetimer > 0 {
        state.movetimer -= 1;
    }
    let ghost s1 = state@;
    assert(s1 == tick(old(state)@));

    if state.movetimer == 0 {
        if automove(state) {
            state.movetimer = MOVE_TIMER_MAX;
        } else {
            if input.pressed_this_frame(Button::Left) {
                assert(s1.cells[state.selectpos as int] == state.cells[state.selectpos as int]@);
                let len = state.cells[state.selectpos as usize].len() as u8;
                let oldinv = max_u8(1, len - state.selectdepth);
                state.selectpos = if state.selectpos == 0 {
                    START_OF_TABLEAU - 1
                } else if state.selectpos == START_OF_TABLEAU {
                    CELLS_MAX_INDEX
                } else {
                    state.selectpos - 1
                };
                state.selectdepth = if state.selectdrop {
                    0
                } else {
                    assert(s1.cells[state.selectpos as int] == state.cells[state.selectpos as int]@);
                    let len = state.cells[state.selectpos as usize].len() as u8;
                    min_u8(max_u8(0, len - oldinv), len)
                };
                assert(state@ == sideways_result(s1, left_of(s1.selectpos)));
            } else if input.pressed_this_frame(Button::Right) {
                assert(s1.cells[state.selectpos as int] == state.cells[state.selectpos as int]@);
                let len = state.cells[state.selectpos as usize].len() as u8;
                let oldinv = max_u8(1, len - state.selectdepth);
                state.selectpos = if state.selectpos == START_OF_TABLEAU - 1 {
                    0
                } else if state.selectpos >= CELLS_MAX_INDEX {
                    START_OF_TABLEAU
                } else {
                    state.selectpos + 1
                };
                state.selectdepth = if state.selectdrop {
                    0
                } else {
                    assert(s1.cells[state.selectpos as int] == state.cells[state.selectpos as int]@);
                    let len = state.cells[state.selectpos as usize].len() as u8;
                    min_u8(max_u8(0, len - oldinv), len)
                };
                assert(state@ == sideways_result(s1, right_of(s1.selectpos)));
            } else if input.pressed_this_frame(Button::Up) {
                let changepos = if state.selectpos == BUTTON_COLUMN {
                    state.selectdepth >= 2
                } else {
                    assert(s1.cells[state.selectpos as int] == state.cells[state.selectpos as int]@);
                    let len = state.cells[state.selectpos as usize].len();
                    len == 0 || state.selectdepth >= len as u8 - 1 || state.selectdrop
                };

                if changepos {
                    state.selectpos = if state.selectpos > START_OF_TABLEAU {
                        state.selectpos - START_OF_TABLEAU
                    } else {
                        state.selectpos + START_OF_TABLEAU
                    };
                    state.selectdepth = 0;
                } else {
                    state.selectdepth += 1;
                }
                assert(state@ == up_result(s1));
            } else if input.pressed_this_frame(Button::Down) {
                if state.selectdepth == 0 {
                    state.selectpos = if state.selectpos > START_OF_TABLEAU {
                        state.selectpos - START_OF_TABLEAU
                    } else {
                        state.selectpos + START_OF_TABLEAU
                    };
                    assert(s1.cells[state.selectpos as int] == state.cells[state.selectpos as int]@);
                    let len = state.cells[state.selectpos as usize].len();
                    state.selectdepth = if len > 0 && !state.selectdrop {
                        len as u8 - 1
                    } else if state.selectpos == BUTTON_COLUMN {
                        2
                    } else {
                        0
                    };
                } else {
                    state.selectdepth = state.selectdepth - 1;
                }
                assert(state@ == down_result(s1));
            } else if input.pressed_this_frame(Button::A) {
                if state.selectpos == BUTTON_COLUMN {
                    if canmovedragons(state, state.selectdepth) {
                        movedragons(state);
                        state.selectdrop = false;
                        state.movetimer = MOVE_TIMER_MAX;
                    }
                } else {
                    if state.selectdrop {
                        if candrop(&state.cells, state.grabpos, state.grabdepth, state.selectpos) {
                            let grabpos = state.grabpos;
                            let grabdepth = state.grabdepth;
                            let selectpos = state.selectpos;
                            movecards(state, grabpos, grabdepth, selectpos);
                            state.selectdrop = false;
                            state.movetimer = MOVE_TIMER_MAX;
                        }
                    } else if cangrab(&state.cells, state.selectpos, state.selectdepth) {
                        state.grabpos = state.selectpos;
                        state.grabdepth = state.selectdepth;
                        state.selectdrop = true;
                    }
                }
                assert(state@ == a_result(s1));
            } else if input.pressed_this_frame(Button::B) {
                state.selectdrop = false;
            }
        }
    }
    assert(state@ == after_input(old(state)@, input));

    if haswon(state) && !state.win_done {
        state.wins += 1;
        state.win_done = true;
    }
}

// ---------------------------------------------------------------------------
// Drawing.

/// Draws the table.  Of the picture only the cleared frame is drawn: the
/// map and card sprites have no sprite sheet in this library.
pub fn draw(framebuffer: &mut Framebuffer, state: &GameState)
    ensures
        final(framebuffer).buffer@ == Seq::new(old(framebuffer).buffer@.len(), |i: int| 0u32),
{
    framebuffer.clear();
}

/// Renders a frame of the game; the state is left as it is.
pub fn update_and_render(framebuffer: &mut Framebuffer, state: &mut GameState, input: Input)
    ensures
        final(framebuffer).buffer@ == Seq::new(old(framebuffer).buffer@.len(), |i: int| 0u32),
        final(state)@ == old(state)@,
{
    draw(framebuffer, &state);
}

// ---------------------------------------------------------------------------
// Laws of the rules.

/// A card is its suit's ten plus its number, and the numbers of the cards
/// below the face-down card run from 0 to 9.
pub proof fn lemma_card_parts(card: u8)
    ensures
        card == card_suit(card) * 10 + cardnum(card),
        card < CARD_BACK ==> cardnum(card) <= 9,
        card < FLOWER_CARD ==> card_suit(card) <= 2,
        card < 30 ==> card_suit(card) == card / 10 && cardnum(card) == card % 10,
        card >= 30 ==> card_suit(card) == 3 && cardnum(card) == card - 30,
{
}

/// A drop on a tableau column that holds cards is allowed exactly when the
/// grabbed card is of another suit than the column's top card, is no dragon,
/// and is one lower than it; a drop on an empty tableau column is always
/// allowed when the grab fits in its cell, and a drop on the top row never
/// is.
pub proof fn lemma_candrop_rule(cells: Seq<Seq<u8>>, grabpos: u8, grabdepth: u8, droppos: u8)
    requires
        candrop_ok(cells, grabpos, grabdepth, droppos),
    ensures
        droppos < 8 ==> !candrop_spec(cells, grabpos, grabdepth, droppos),
        cells[grabpos as int].len() < grabdepth ==> !candrop_spec(
            cells,
            grabpos,
            grabdepth,
            droppos,
        ),
        ({
            let c = cells[grabpos as int];
            let g = c[c.len() - grabdepth];
            let d = cells[droppos as int];
            8 <= droppos < 16 && c.len() >= grabdepth && d.len() > 0 ==> (candrop_spec(
                cells,
                grabpos,
                grabdepth,
                droppos,
            ) <==> (card_suit(g) != card_suit(d.last()) && cardnum(g) != 0 && cardnum(g) + 1
                == cardnum(d.last())))
        }),
        8 <= droppos < 16 && cells[grabpos as int].len() >= grabdepth && cells[droppos as int].len()
            == 0 ==> candrop_spec(cells, grabpos, grabdepth, droppos),
{
}

/// The game counts as won exactly when the eight tableau columns, cells 8
/// to 15, are all empty: a card in any of them, the first included, means
/// the game is not won.
pub proof fn lemma_haswon_rule(cells: Seq<Seq<u8>>)
    ensures
        haswon_spec(cells) <==> (forall|i: int| 8 <= i < 16 ==> #[trigger] cells[i].len() == 0),
        forall|i: int| 8 <= i < 16 && #[trigger] cells[i].len() > 0 ==> !haswon_spec(cells),
        cells[8].len() > 0 ==> !haswon_spec(cells),
{
    if cells[8].len() > 0 {
        assert(!(cells[8].len() == 0));
    }
}

/// The count of cells with `card` on top grows by one at each such cell.
proof fn lemma_top_count_step(cells: Seq<Seq<u8>>, card: int, a: int, b: int)
    requires
        0 <= a <= b,
    ensures
        top_count(cells, card, a) <= top_count(cells, card, b),
        a < b && cells[a].len() > 0 && cells[a].last() == card ==> top_count(cells, card, a) + 1
            <= top_count(cells, card, b),
    decreases b - a,
{
    if a < b {
        lemma_top_count_step(cells, card, a, b - 1);
        if a == b - 1 {
        } else {
        }
    }
}

/// The dragons of a suit can be gathered when four different cells have
/// that suit's dragon on top and one of the free cells 0, 1 and 2 is empty
/// or has that dragon on top; and they can be gathered only when some free
/// cell is so.
pub proof fn lemma_canmovedragons_rule(
    cells: Seq<Seq<u8>>,
    suit: u8,
    i1: int,
    i2: int,
    i3: int,
    i4: int,
    f: int,
)
    ensures
        ({
            let dragon = suit * 10;
            &&& 0 <= i1 < i2 < i3 < i4 < 16
            &&& cells[i1].len() > 0 && cells[i1].last() == dragon
            &&& cells[i2].len() > 0 && cells[i2].last() == dragon
            &&& cells[i3].len() > 0 && cells[i3].last() == dragon
            &&& cells[i4].len() > 0 && cells[i4].last() == dragon
            &&& 0 <= f < 3
            &&& cells[f].len() == 0 || cells[f].last() == dragon
        }) ==> canmovedragons_spec(cells, suit),
        canmovedragons_spec(cells, suit) ==> (cells[0].len() == 0 || cells[0].last() == suit * 10
            || cells[1].len() == 0 || cells[1].last() == suit * 10 || cells[2].len() == 0
            || cells[2].last() == suit * 10),
{
    let dragon = suit * 10;
    if 0 <= i1 < i2 < i3 < i4 < 16 && cells[i1].len() > 0 && cells[i1].last() == dragon
        && cells[i2].len() > 0 && cells[i2].last() == dragon && cells[i3].len() > 0
        && cells[i3].last() == dragon && cells[i4].len() > 0 && cells[i4].last() == dragon && 0 <= f
        < 3 && (cells[f].len() == 0 || cells[f].last() == dragon) {
        lemma_top_count_step(cells, dragon, 0, i1);
        lemma_top_count_step(cells, dragon, i1, i2);
        lemma_top_count_step(cells, dragon, i2, i3);
        lemma_top_count_step(cells, dragon, i3, i4);
        lemma_top_count_step(cells, dragon, i4, 16);
        assert(cells[f].len() == 0 || cells[f].last() == suit * 10);
    }
    if canmovedragons_spec(cells, suit) {
        let i = choose|i: int|
            0 <= i < BUTTON_COLUMN && (#[trigger] cells[i].len() == 0 || cells[i].last() == suit
                * 10);
        assert(i == 0 || i == 1 || i == 2);
    }
}

/// The verdict on card `j` of a grab.
spec fn verdict_at(sel: Seq<u8>, j: int) -> Verdict {
    card_verdict(
        if j == 0 {
            None
        } else {
            Some(sel[j - 1])
        },
        sel[j],
    )
}

/// The scan passes from `k` on exactly when every card from `k` on passes.
proof fn lemma_scan_all_pass(sel: Seq<u8>, k: int)
    requires
        0 <= k <= sel.len(),
    ensures
        (scan_from(sel, k) is Pass) <==> (forall|j: int|
            k <= j < sel.len() ==> #[trigger] verdict_at(sel, j) is Pass),
    decreases sel.len() - k,
{
    if k < sel.len() {
        lemma_scan_all_pass(sel, k + 1);
        if !(verdict_at(sel, k) is Pass) {
            assert(!(scan_from(sel, k) is Pass));
        }
    }
}

/// A grab of `depth` cards is allowed exactly when the cards just under the
/// top of cell `pos` (not in the flower or suit foundations) form a run in
/// which no card is face down and each card after the first is no dragon,
/// is of another suit than the card before it, and is one lower than it.
pub proof fn lemma_cangrab_rule(cells: Seq<Seq<u8>>, pos: u8, depth: u8)
    requires
        cangrab_ok(cells, pos, depth),
        depth > 0,
    ensures
        ({
            let c = cells[pos as int];
            let run = c.subrange(c.len() - depth - 1, c.len() - 1);
            cangrab_spec(cells, pos, depth) <==> {
                &&& !(4 <= pos < 8)
                &&& forall|j: int| 0 <= j < run.len() ==> #[trigger] run[j] != CARD_BACK
                &&& forall|j: int|
                    1 <= j < run.len() ==> card_suit(#[trigger] run[j]) != card_suit(run[j - 1])
                        && cardnum(run[j]) != 0 && cardnum(run[j]) + 1 == cardnum(run[j - 1])
            }
        }),
{
    let c = cells[pos as int];
    let run = c.subrange(c.len() - depth - 1, c.len() - 1);
    assert(selection(cells, pos, depth) == run);
    lemma_scan_all_pass(run, 0);
    if forall|j: int| 0 <= j < run.len() ==> #[trigger] verdict_at(run, j) is Pass {
        assert forall|j: int| 0 <= j < run.len() implies #[trigger] run[j] != CARD_BACK by {
            assert(verdict_at(run, j) is Pass);
        }
        assert forall|j: int| 1 <= j < run.len() implies card_suit(#[trigger] run[j]) != card_suit(
            run[j - 1],
        ) && cardnum(run[j]) != 0 && cardnum(run[j]) + 1 == cardnum(run[j - 1]) by {
            assert(verdict_at(run, j) is Pass);
        }
    }
    if (forall|j: int| 0 <= j < run.len() ==> #[trigger] run[j] != CARD_BACK) && (forall|j: int|
        1 <= j < run.len() ==> card_suit(#[trigger] run[j]) != card_suit(run[j - 1]) && cardnum(
            run[j],
        ) != 0 && cardnum(run[j]) + 1 == cardnum(run[j - 1])) {
        assert forall|j: int| 0 <= j < run.len() implies #[trigger] verdict_at(run, j) is Pass by {
            assert(run[j] != CARD_BACK);
            if j > 0 {
                assert(card_suit(run[j]) != card_suit(run[j - 1]) && cardnum(run[j]) != 0
                    && cardnum(run[j]) + 1 == cardnum(run[j - 1]));
            }
        }
    }
}


/// A frame counts at most one win, and once a win is counted the count
/// stays: after a frame the game is marked won when it was before or its
/// tableau is empty, and the count goes up by one just when the game becomes
/// marked won.
pub proof fn lemma_update_wins(s: GameView, input: Input)
    requires
        s.wins < u32::MAX,
    ensures
        update_spec(s, input).wins == s.wins || update_spec(s, input).wins == s.wins + 1,
        s.win_done ==> update_spec(s, input).win_done && update_spec(s, input).wins == s.wins,
        update_spec(s, input).wins == s.wins + 1 ==> update_spec(s, input).win_done,
        update_spec(s, input).win_done == (s.win_done || haswon_spec(update_spec(s, input).cells)),
        update_spec(s, input).wins == s.wins + if haswon_spec(update_spec(s, input).cells)
            && !s.win_done {
            1int
        } else {
            0int
        },
{
}

/// The selection stays on the table: from a cell of the table, a frame
/// leaves the selection on a cell of the table, except when up leaves the
/// first tableau column for the cell below the table.
pub proof fn lemma_update_keeps_selection(s: GameView, input: Input)
    requires
        update_ok(s, input),
        s.selectpos < 16,
        !({
            let s1 = tick(s);
            &&& s1.movetimer == 0
            &&& !input.pressed_spec(Button::Left)
            &&& !input.pressed_spec(Button::Right)
            &&& input.pressed_spec(Button::Up)
            &&& s.selectpos == START_OF_TABLEAU
            &&& up_changes_cell(s1)
        }),
    ensures
        update_spec(s, input).selectpos < 16,
{
}

/// With no button pressed this frame, a frame only counts the move timer
/// down and counts a first win.
pub proof fn lemma_update_idle(s: GameView, input: Input)
    requires
        update_ok(s, input),
        !input.pressed_spec(Button::Left),
        !input.pressed_spec(Button::Right),
        !input.pressed_spec(Button::Up),
        !input.pressed_spec(Button::Down),
        !input.pressed_spec(Button::A),
        !input.pressed_spec(Button::B),
    ensures
        update_spec(s, input).cells == s.cells,
        update_spec(s, input).selectpos == s.selectpos,
        update_spec(s, input).selectdepth == s.selectdepth,
        update_spec(s, input).selectdrop == s.selectdrop,
        update_spec(s, input).grabpos == s.grabpos,
        update_spec(s, input).grabdepth == s.grabdepth,
        update_spec(s, input).movetimer == tick(s).movetimer,
{
}

} // verus!
