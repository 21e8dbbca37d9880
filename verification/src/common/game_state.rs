//! Dealing a new game.
use vstd::prelude::*;

use rand::Rng;
use rand::SeedableRng;

use super::inner_common::{
    CELLS_MAX_INDEX, Cells, GameState, GameView, MAX_SUIT_NUM, START_OF_TABLEAU, cells_view,
};
use crate::game::{copy_cell, set_cell};
use vstd::multiset::Multiset;

verus! {

#[verifier::external_type_specification]
#[verifier::external_body]
pub struct ExXorShiftRng(rand::XorShiftRng);

/// `rand::XorShiftRng::from_seed` (rand 0.4): a xorshift generator started
/// from `seed`.  It panics on an all-zero seed, which `requires` rules out;
/// nothing is stated of the generator it returns.
#[verifier::external_body]
fn seeded_rng(seed: [u32; 4]) -> (rng: rand::XorShiftRng)
    requires
        seed[0] != 0 || seed[1] != 0 || seed[2] != 0 || seed[3] != 0,
{
    rand::XorShiftRng::from_seed(seed)
}

/// `rand::Rng::gen_range(low, high)` (rand 0.4) on `usize`: draws from the
/// generator a value in `[low, high)`; it panics unless `low < high`.  Which
/// value comes is not stated: it depends on the generator's state.
#[verifier::external_body]
fn gen_range(rng: &mut rand::XorShiftRng, low: usize, high: usize) -> (r: usize)
    requires
        low < high,
    ensures
        low <= r < high,
{
    rng.gen_range(low, high)
}

/// Number of cards in the deck.
pub const DECK_SIZE: usize = 40;

/// The deck before shuffling: the numbers 1 to 9 of the three suits, each
/// number in suit order, then four dragons of each suit, then the flower.
pub open spec fn start_deck() -> Seq<u8> {
    seq![
        1u8, 11, 21, 2, 12, 22, 3, 13, 23, 4, 14, 24, 5, 15, 25, 6, 16, 26, 7, 17, 27, 8, 18, 28,
        9, 19, 29, 0, 10, 20, 0, 10, 20, 0, 10, 20, 0, 10, 20, 30,
    ]
}

/// Sixteen empty cells.
pub open spec fn empty_cells() -> Seq<Seq<u8>> {
    Seq::new(16, |i: int| Seq::<u8>::empty())
}

/// The tableau column after `pos`, wrapping from the last to the first.
pub open spec fn next_column(pos: int) -> int {
    if pos >= CELLS_MAX_INDEX {
        START_OF_TABLEAU as int
    } else {
        pos + 1
    }
}

/// Picks can shuffle the deck: one per card, the `k`-th below the number of
/// cards left, `DECK_SIZE - k`.
pub open spec fn picks_ok(picks: Seq<usize>) -> bool {
    &&& picks.len() == DECK_SIZE
    &&& forall|k: int| 0 <= k < DECK_SIZE ==> #[trigger] picks[k] < DECK_SIZE - k
}

/// The cells after dealing `deck` by `picks` onto the tableau from column
/// `pos` on: each pick takes the card at its index out of the deck, moving
/// the deck's last card into its place, and puts it on the next column.
pub open spec fn deal_from(deck: Seq<u8>, cells: Seq<Seq<u8>>, pos: int, picks: Seq<usize>) -> Seq<
    Seq<u8>,
>
    decreases picks.len(),
{
    if deck.len() == 0 || picks.len() == 0 {
        cells
    } else {
        let i = picks[0] as int;
        deal_from(
            deck.update(i, deck.last()).drop_last(),
            cells.update(pos, cells[pos].push(deck[i])),
            next_column(pos),
            picks.drop_first(),
        )
    }
}

/// A new game dealt by `picks`: the cards dealt from the first tableau
/// column on, the selection at the first tableau column, nothing grabbed and
/// no win counted.
pub open spec fn dealt(picks: Seq<usize>) -> GameView {
    GameView {
        cells: deal_from(start_deck(), empty_cells(), START_OF_TABLEAU as int, picks),
        wins: 0,
        win_done: false,
        selectdrop: false,
        selectpos: START_OF_TABLEAU,
        selectdepth: 0,
        grabpos: 1,
        grabdepth: 0,
        movetimer: 0,
    }
}

/// All the cards in the first `n` cells.
pub open spec fn all_cards(cells: Seq<Seq<u8>>, n: int) -> Multiset<u8>
    decreases n,
{
    if n <= 0 {
        Multiset::empty()
    } else {
        all_cards(cells, n - 1).add(cells[n - 1].to_multiset())
    }
}

/// Taking element `i` out by moving the last element into its place keeps
/// the other elements.
proof fn lemma_swap_remove_cards(s: Seq<u8>, i: int)
    requires
        0 <= i < s.len(),
    ensures
        s.update(i, s.last()).drop_last().to_multiset().insert(s[i]) == s.to_multiset(),
{
    broadcast use vstd::seq_lib::group_to_multiset_ensures;
    broadcast use vstd::multiset::group_multiset_axioms;

    let n = s.len() as int;
    let t = s.update(i, s.last()).drop_last();
    if i == n - 1 {
        assert(t =~= s.drop_last());
        assert(s =~= s.drop_last().push(s[i]));
    } else {
        let a = s.subrange(0, i);
        let b = s.subrange(i + 1, n - 1);
        assert(t =~= a + seq![s.last()] + b);
        assert(s =~= a + seq![s[i]] + b + seq![s.last()]);
        vstd::seq_lib::lemma_multiset_commutative(a + seq![s.last()], b);
        vstd::seq_lib::lemma_multiset_commutative(a, seq![s.last()]);
        vstd::seq_lib::lemma_multiset_commutative(a + seq![s[i]] + b, seq![s.last()]);
        vstd::seq_lib::lemma_multiset_commutative(a + seq![s[i]], b);
        vstd::seq_lib::lemma_multiset_commutative(a, seq![s[i]]);
        assert(seq![s.last()].to_multiset() =~= Multiset::singleton(s.last())) by {
            assert(seq![s.last()] =~= Seq::<u8>::empty().push(s.last()));
        }
        assert(seq![s[i]].to_multiset() =~= Multiset::singleton(s[i])) by {
            assert(seq![s[i]] =~= Seq::<u8>::empty().push(s[i]));
        }
        assert(t.to_multiset().insert(s[i]) =~= s.to_multiset());
    }
}

/// Putting a card on cell `p` adds it to the cards of the cells from `p` on.
proof fn lemma_all_cards_push(cells: Seq<Seq<u8>>, p: int, c: u8, n: int)
    requires
        0 <= p < cells.len(),
        n <= cells.len(),
    ensures
        all_cards(cells.update(p, cells[p].push(c)), n) == if p < n {
            all_cards(cells, n).insert(c)
        } else {
            all_cards(cells, n)
        },
    decreases n,
{
    broadcast use vstd::seq_lib::group_to_multiset_ensures;
    broadcast use vstd::multiset::group_multiset_axioms;

    if n > 0 {
        lemma_all_cards_push(cells, p, c, n - 1);
        let after = cells.update(p, cells[p].push(c));
        if n - 1 == p {
            assert(after[n - 1].to_multiset() =~= cells[n - 1].to_multiset().insert(c));
            assert(all_cards(after, n) =~= all_cards(cells, n).insert(c));
        } else if p < n - 1 {
            assert(after[n - 1] == cells[n - 1]);
            assert(all_cards(after, n) =~= all_cards(cells, n).insert(c));
        } else {
            assert(after[n - 1] == cells[n - 1]);
        }
    }
}

/// Dealing moves every card of the deck onto the cells.
pub proof fn lemma_deal_from_cards(deck: Seq<u8>, cells: Seq<Seq<u8>>, pos: int, picks: Seq<usize>)
    requires
        cells.len() == 16,
        START_OF_TABLEAU <= pos <= CELLS_MAX_INDEX,
        picks.len() == deck.len(),
        forall|k: int| 0 <= k < picks.len() ==> #[trigger] picks[k] < deck.len() - k,
    ensures
        all_cards(deal_from(deck, cells, pos, picks), 16) == all_cards(cells, 16).add(
            deck.to_multiset(),
        ),
    decreases picks.len(),
{
    broadcast use vstd::seq_lib::group_to_multiset_ensures;
    broadcast use vstd::multiset::group_multiset_axioms;

    if deck.len() == 0 || picks.len() == 0 {
        assert(deck.to_multiset() =~= Multiset::empty());
        assert(all_cards(cells, 16).add(deck.to_multiset()) =~= all_cards(cells, 16));
    } else {
        let i = picks[0] as int;
        let rest = deck.update(i, deck.last()).drop_last();
        let next_cells = cells.update(pos, cells[pos].push(deck[i]));
        assert forall|k: int| 0 <= k < picks.drop_first().len() implies #[trigger] picks.drop_first()[k]
            < rest.len() - k by {
            assert(picks.drop_first()[k] == picks[k + 1]);
        }
        lemma_deal_from_cards(rest, next_cells, next_column(pos), picks.drop_first());
        lemma_all_cards_push(cells, pos, deck[i], 16);
        lemma_swap_remove_cards(deck, i);
        assert(all_cards(next_cells, 16).add(rest.to_multiset()) =~= all_cards(cells, 16).add(
            deck.to_multiset(),
        ));
    }
}

/// Dealing fills the tableau columns from `pos` on in turn, and leaves the
/// other cells as they are.
pub proof fn lemma_deal_from_shape(
    deck: Seq<u8>,
    cells: Seq<Seq<u8>>,
    k: int,
    picks: Seq<usize>,
)
    requires
        cells.len() == 16,
        0 <= k,
        k + deck.len() == DECK_SIZE,
        picks.len() == deck.len(),
        forall|i: int| 0 <= i < picks.len() ==> #[trigger] picks[i] < deck.len() - i,
        forall|i: int| 0 <= i < START_OF_TABLEAU ==> #[trigger] cells[i].len() == 0,
        forall|j: int|
            0 <= j < 8 ==> #[trigger] cells[START_OF_TABLEAU + j].len() == k / 8 + if j < k % 8 {
                1int
            } else {
                0int
            },
    ensures
        ({
            let dealt_cells = deal_from(deck, cells, START_OF_TABLEAU + k % 8, picks);
            &&& dealt_cells.len() == 16
            &&& forall|i: int| 0 <= i < START_OF_TABLEAU ==> #[trigger] dealt_cells[i].len() == 0
            &&& forall|j: int|
                0 <= j < 8 ==> #[trigger] dealt_cells[START_OF_TABLEAU + j].len() == DECK_SIZE / 8
        }),
    decreases picks.len(),
{
    let pos = START_OF_TABLEAU + k % 8;
    if deck.len() == 0 || picks.len() == 0 {
        assert(k == DECK_SIZE);
    } else {
        let i = picks[0] as int;
        let rest = deck.update(i, deck.last()).drop_last();
        let next_cells = cells.update(pos, cells[pos].push(deck[i]));
        assert(next_column(pos) == START_OF_TABLEAU + (k + 1) % 8);
        assert forall|j: int| 0 <= j < 8 implies #[trigger] next_cells[START_OF_TABLEAU + j].len() == (
        k + 1) / 8 + if j < (k + 1) % 8 {
            1int
        } else {
            0int
        } by {
            if j == k % 8 {
                assert(next_cells[START_OF_TABLEAU + j].len() == cells[START_OF_TABLEAU + j].len()
                    + 1);
            } else {
                assert(next_cells[START_OF_TABLEAU + j] == cells[START_OF_TABLEAU + j]);
            }
        }
        assert forall|i2: int| 0 <= i2 < START_OF_TABLEAU implies #[trigger] next_cells[i2].len()
            == 0 by {
            assert(next_cells[i2] == cells[i2]);
        }
        assert forall|i2: int| 0 <= i2 < picks.drop_first().len() implies #[trigger] picks.drop_first()[i2]
            < rest.len() - i2 by {
            assert(picks.drop_first()[i2] == picks[i2 + 1]);
        }
        lemma_deal_from_shape(rest, next_cells, k + 1, picks.drop_first());
    }
}

/// Dealing a new game puts every card of the deck on the table, five to each
/// tableau column and none elsewhere.
pub proof fn lemma_dealt_game(picks: Seq<usize>)
    requires
        picks_ok(picks),
    ensures
        all_cards(dealt(picks).cells, 16) == start_deck().to_multiset(),
        dealt(picks).cells.len() == 16,
        forall|i: int| 0 <= i < START_OF_TABLEAU ==> #[trigger] dealt(picks).cells[i].len() == 0,
        forall|j: int| 0 <= j < 8 ==> #[trigger] dealt(picks).cells[START_OF_TABLEAU + j].len() == 5,
{
    broadcast use vstd::multiset::group_multiset_axioms;

    assert(start_deck().len() == DECK_SIZE);
    lemma_deal_from_cards(start_deck(), empty_cells(), START_OF_TABLEAU as int, picks);
    assert(all_cards(empty_cells(), 16) =~= Multiset::empty()) by {
        lemma_all_cards_empty(16);
    }
    assert(Multiset::<u8>::empty().add(start_deck().to_multiset()) =~= start_deck().to_multiset());
    lemma_deal_from_shape(start_deck(), empty_cells(), 0, picks);
}

/// Empty cells hold no cards.
proof fn lemma_all_cards_empty(n: int)
    requires
        n <= 16,
    ensures
        all_cards(empty_cells(), n) == Multiset::<u8>::empty(),
    decreases n,
{
    broadcast use vstd::seq_lib::group_to_multiset_ensures;
    broadcast use vstd::multiset::group_multiset_axioms;

    if n > 0 {
        lemma_all_cards_empty(n - 1);
        assert(empty_cells()[n - 1].to_multiset() =~= Multiset::empty());
        assert(all_cards(empty_cells(), n) =~= Multiset::empty());
    }
}

impl GameState {
    /// A new game, shuffled by `picks` (see [`dealt`]).
    pub fn deal(picks: &Vec<usize>) -> (state: GameState)
        requires
            picks_ok(picks@),
        ensures
            state@ == dealt(picks@),
    {
        let mut cells: Cells = [
            Vec::new(),
            Vec::new(),
            Vec::new(),
            Vec::new(),
            Vec::new(),
            Vec::new(),
            Vec::new(),
            Vec::new(),
            Vec::new(),
            Vec::new(),
            Vec::new(),
            Vec::new(),
            Vec::new(),
            Vec::new(),
            Vec::new(),
            Vec::new(),
        ];
        assert(cells_view(cells) =~= empty_cells());

        let mut deck: Vec<u8> = Vec::with_capacity(3 * (START_OF_TABLEAU as usize + 4) + 1);

        for i in 1..MAX_SUIT_NUM + 1
            invariant
                deck@ == start_deck().take(3 * (i - 1)),
        {
            deck.push(i);
            deck.push(i + 10);
            deck.push(i + 20);
            assert(deck@ =~= start_deck().take(3 * i));
        }

        for k in 1..5u8
            invariant
                deck@ == start_deck().take(27 + 3 * (k - 1)),
        {
            deck.push(0);
            deck.push(10);
            deck.push(20);
            assert(deck@ =~= start_deck().take(27 + 3 * k));
        }

        deck.push(30);
        assert(deck@ =~= start_deck());

        let mut deckpos = START_OF_TABLEAU;
        let mut k: usize = 0;
        assert(picks@.skip(0) =~= picks@);
        while deck.len() > 0
            invariant
                picks_ok(picks@),
                k <= DECK_SIZE,
                deck.len() == DECK_SIZE - k,
                START_OF_TABLEAU <= deckpos <= CELLS_MAX_INDEX,
                deal_from(deck@, cells_view(cells), deckpos as int, picks@.skip(k as int))
                    == deal_from(
                    start_deck(),
                    empty_cells(),
                    START_OF_TABLEAU as int,
                    picks@,
                ),
            decreases deck.len(),
        {
            let index = picks[k];
            let ghost before = deck@;
            assert(picks@.skip(k as int)[0] == index);
            assert(picks@.skip(k as int).drop_first() =~= picks@.skip(k + 1));
            let card = deck.swap_remove(index);
            let mut column = copy_cell(&cells, deckpos as usize);
            column.push(card);
            set_cell(&mut cells, deckpos as usize, column);

            deckpos = if deckpos >= CELLS_MAX_INDEX {
                START_OF_TABLEAU
            } else {
                deckpos + 1
            };
            k += 1;
        }
        assert(picks@.skip(k as int).len() == 0);

        GameState {
            cells,
            wins: 0,
            win_done: false,
            selectdrop: false,
            selectpos: START_OF_TABLEAU,
            selectdepth: 0,
            grabpos: 1,
            grabdepth: 0,
            movetimer: 0,
        }
    }

    /// A new game shuffled by a xorshift generator from a fixed seed: one
    /// pick per card, each below the number of cards left, then
    /// [`GameState::deal`].
    pub fn new() -> (state: GameState)
        ensures
            exists|picks: Seq<usize>| picks_ok(picks) && state@ == dealt(picks),
            all_cards(state@.cells, 16) == start_deck().to_multiset(),
            forall|i: int| 0 <= i < START_OF_TABLEAU ==> #[trigger] state@.cells[i].len() == 0,
            forall|j: int| 0 <= j < 8 ==> #[trigger] state@.cells[START_OF_TABLEAU + j].len() == 5,
    {
        //known autoplay seed
        let seed: [u32; 4] = [614731776, 1115044419, 8528335, 1030162641];
        let mut rng = seeded_rng(seed);

        let mut picks: Vec<usize> = Vec::with_capacity(DECK_SIZE);
        for k in 0..DECK_SIZE
            invariant
                picks.len() == k,
                forall|j: int| 0 <= j < k ==> #[trigger] picks@[j] < DECK_SIZE - j,
        {
            let index = gen_range(&mut rng, 0, DECK_SIZE - k);
            picks.push(index);
        }
        let state = GameState::deal(&picks);
        assert(picks_ok(picks@));
        proof {
            lemma_dealt_game(picks@);
        }
        state
    }
}

} // verus!
