//! Decks of card ids: the full deck of a pack list, and drawing from a pool of cards that
//! are still undealt.
//!
//! A pool holds the cards that were not dealt yet in the current deck cycle. A draw takes
//! one card out of the pool; a draw from an empty pool first refills it with the full
//! deck, which starts the next cycle. Which card a draw takes is decided by a roll: the
//! position of the card in the pool it is drawn from.

use vstd::prelude::*;
use crate::cards::CardID;
use crate::rng::random_index;

verus! {

/// The cards of pack `pack_number`, which holds `count` of them, in order.
pub open spec fn pack_cards(pack_number: usize, count: usize) -> Seq<CardID> {
    Seq::new(count as nat, |j: int| CardID { pack_number, card_number: j as usize })
}

/// Every card of a pack list whose packs hold `counts` cards: the cards of the first pack
/// in order, then those of the second, and so on.
pub open spec fn full_deck(counts: Seq<usize>) -> Seq<CardID>
    decreases counts.len(),
{
    if counts.len() == 0 {
        Seq::empty()
    } else {
        full_deck(counts.drop_last()) + pack_cards((counts.len() - 1) as usize, counts.last())
    }
}

/// Whether `card` names a card of a pack list whose packs hold `counts` cards.
pub open spec fn card_in_range(counts: Seq<usize>, card: CardID) -> bool {
    card.pack_number < counts.len() && card.card_number < counts[card.pack_number as int]
}

/// The full deck holds exactly the cards in range, each once.
pub proof fn lemma_full_deck(counts: Seq<usize>)
    requires
        counts.len() <= usize::MAX,
    ensures
        full_deck(counts).no_duplicates(),
        forall|card: CardID| #[trigger] full_deck(counts).contains(card)
            <==> card_in_range(counts, card),
    decreases counts.len(),
{
    if counts.len() == 0 {
    } else {
        let front = counts.drop_last();
        let last_pack = (counts.len() - 1) as usize;
        let tail = pack_cards(last_pack, counts.last());
        let deck = full_deck(counts);
        lemma_full_deck(front);
        assert forall|card: CardID| #[trigger] deck.contains(card)
            <==> card_in_range(counts, card) by {
            if deck.contains(card) {
                let i = choose|i: int| 0 <= i < deck.len() && deck[i] == card;
                if i < full_deck(front).len() {
                    assert(full_deck(front)[i] == card);
                    assert(full_deck(front).contains(card));
                    assert(card_in_range(front, card));
                } else {
                    assert(tail[i - full_deck(front).len()] == card);
                }
            }
            if card_in_range(counts, card) {
                if card.pack_number == last_pack {
                    assert(tail[card.card_number as int] == card);
                    assert(deck[full_deck(front).len() + card.card_number] == card);
                } else {
                    assert(card_in_range(front, card));
                    assert(full_deck(front).contains(card));
                    let i = choose|i: int| 0 <= i < full_deck(front).len()
                        && full_deck(front)[i] == card;
                    assert(deck[i] == card);
                }
            }
        }
        assert forall|i: int, j: int| 0 <= i < deck.len() && 0 <= j < deck.len() && i != j
            implies deck[i]
            != deck[j] by {
            let n = full_deck(front).len();
            if i < n && j < n {
                assert(full_deck(front)[i] != full_deck(front)[j]);
            } else if i >= n && j >= n {
                assert(tail[i - n].card_number != tail[j - n].card_number);
            } else {
                let (low, high) = if i < n { (i, j) } else { (j, i) };
                assert(full_deck(front).contains(full_deck(front)[low]));
                assert(card_in_range(front, deck[low]));
                assert(tail[high - n].pack_number == last_pack);
            }
        }
    }
}

/// Builds the full deck of a pack list whose packs hold `counts` cards.
pub fn full_deck_of(counts: &Vec<usize>) -> (deck: Vec<CardID>)
    ensures
        deck@ == full_deck(counts@),
{
    let mut deck: Vec<CardID> = Vec::new();
    let mut pack: usize = 0;
    while pack < counts.len()
        invariant
            pack <= counts.len(),
            deck@ == full_deck(counts@.take(pack as int)),
        decreases counts.len() - pack,
    {
        let ghost before = deck@;
        let count: usize = counts[pack];
        let mut card: usize = 0;
        while card < count
            invariant
                card <= count,
                deck@ == before + pack_cards(pack, card),
            decreases count - card,
        {
            deck.push(CardID::new(pack, card));
            assert(deck@ =~= before + pack_cards(pack, (card + 1) as usize));
            card += 1;
        }
        assert(counts@.take(pack + 1).drop_last() =~= counts@.take(pack as int));
        pack += 1;
    }
    assert(counts@.take(counts.len() as int) =~= counts@);
    deck
}

/// The cards that the next draw chooses from: the pool, or the full deck where the pool
/// has run out.
pub open spec fn draw_source(pool: Seq<CardID>, full: Seq<CardID>) -> Seq<CardID> {
    if pool.len() == 0 {
        full
    } else {
        pool
    }
}

/// Whether `roll` names a card that the next draw can take.
pub open spec fn roll_fits(pool: Seq<CardID>, full: Seq<CardID>, roll: int) -> bool {
    0 <= roll < draw_source(pool, full).len()
}

/// The card that a draw with `roll` takes.
pub open spec fn card_drawn(pool: Seq<CardID>, full: Seq<CardID>, roll: int) -> CardID {
    draw_source(pool, full)[roll]
}

/// The pool that a draw with `roll` leaves.
pub open spec fn pool_after_draw(pool: Seq<CardID>, full: Seq<CardID>, roll: int) -> Seq<CardID> {
    draw_source(pool, full).remove(roll)
}

/// The pool that the draws with `rolls`, made one after the other, leave.
pub open spec fn pool_after_deal(
    pool: Seq<CardID>,
    full: Seq<CardID>,
    rolls: Seq<int>,
) -> Seq<CardID>
    decreases rolls.len(),
{
    if rolls.len() == 0 {
        pool
    } else {
        pool_after_draw(pool_after_deal(pool, full, rolls.drop_last()), full, rolls.last())
    }
}

/// Whether each of `rolls` names a card that its draw can take.
pub open spec fn rolls_fit(pool: Seq<CardID>, full: Seq<CardID>, rolls: Seq<int>) -> bool
    decreases rolls.len(),
{
    rolls.len() == 0 || (rolls_fit(pool, full, rolls.drop_last()) && roll_fits(
        pool_after_deal(pool, full, rolls.drop_last()),
        full,
        rolls.last(),
    ))
}

/// The cards that the draws with `rolls` take, in the order in which they are drawn.
pub open spec fn cards_dealt(pool: Seq<CardID>, full: Seq<CardID>, rolls: Seq<int>) -> Seq<CardID>
    decreases rolls.len(),
{
    if rolls.len() == 0 {
        Seq::empty()
    } else {
        cards_dealt(pool, full, rolls.drop_last()).push(
            card_drawn(pool_after_deal(pool, full, rolls.drop_last()), full, rolls.last()),
        )
    }
}

/// As many cards are dealt as there are rolls.
pub proof fn lemma_cards_dealt_len(pool: Seq<CardID>, full: Seq<CardID>, rolls: Seq<int>)
    ensures
        cards_dealt(pool, full, rolls).len() == rolls.len(),
    decreases rolls.len(),
{
    if rolls.len() > 0 {
        lemma_cards_dealt_len(pool, full, rolls.drop_last());
    }
}

/// Dealing with `first` and then with `second` is dealing with the two lists of rolls joined.
pub proof fn lemma_deal_concat(
    pool: Seq<CardID>,
    full: Seq<CardID>,
    first: Seq<int>,
    second: Seq<int>,
)
    ensures
        pool_after_deal(pool, full, first + second) == pool_after_deal(
            pool_after_deal(pool, full, first),
            full,
            second,
        ),
        rolls_fit(pool, full, first + second) == (rolls_fit(pool, full, first) && rolls_fit(
            pool_after_deal(pool, full, first),
            full,
            second,
        )),
        cards_dealt(pool, full, first + second) == cards_dealt(pool, full, first) + cards_dealt(
            pool_after_deal(pool, full, first),
            full,
            second,
        ),
    decreases second.len(),
{
    let mid = pool_after_deal(pool, full, first);
    if second.len() == 0 {
        assert(first + second =~= first);
        assert(cards_dealt(pool, full, first) + cards_dealt(mid, full, second) =~= cards_dealt(
            pool,
            full,
            first,
        ));
    } else {
        lemma_deal_concat(pool, full, first, second.drop_last());
        assert((first + second).drop_last() =~= first + second.drop_last());
        assert((first + second).last() == second.last());
        assert(cards_dealt(pool, full, first + second) =~= cards_dealt(pool, full, first)
            + cards_dealt(mid, full, second));
    }
}

/// Within one deck cycle nothing is dealt twice and nothing is lost: as long as the pool
/// is not refilled, the cards dealt and the cards left are together the cards of the pool
/// that the deal started from, each once.
pub proof fn lemma_deal_conserves(pool: Seq<CardID>, full: Seq<CardID>, rolls: Seq<int>)
    requires
        pool.no_duplicates(),
        rolls.len() <= pool.len(),
        rolls_fit(pool, full, rolls),
    ensures
        cards_dealt(pool, full, rolls).len() + pool_after_deal(pool, full, rolls).len()
            == pool.len(),
        (cards_dealt(pool, full, rolls) + pool_after_deal(pool, full, rolls)).no_duplicates(),
        forall|card: CardID|
            pool.contains(card) <==> #[trigger] (cards_dealt(pool, full, rolls) + pool_after_deal(
                pool,
                full,
                rolls,
            )).contains(card),
    decreases rolls.len(),
{
    let dealt = cards_dealt(pool, full, rolls);
    let left = pool_after_deal(pool, full, rolls);
    if rolls.len() == 0 {
        assert(dealt + left =~= pool);
    } else {
        let front = rolls.drop_last();
        let dealt0 = cards_dealt(pool, full, front);
        let left0 = pool_after_deal(pool, full, front);
        lemma_deal_conserves(pool, full, front);
        lemma_cards_dealt_len(pool, full, front);
        let roll = rolls.last();
        assert(left0.len() > 0);
        assert(draw_source(left0, full) == left0);
        let card = left0[roll];
        assert(dealt == dealt0.push(card));
        assert(left == left0.remove(roll));
        let all0 = dealt0 + left0;
        let all = dealt + left;
        let n = dealt0.len() as int;
        // `all` is `all0` with the drawn card moved from its place in the pool to the end of
        // the dealt cards.
        assert forall|i: int| 0 <= i < all.len() implies exists|k: int|
            0 <= k < all0.len() && all0[k] == #[trigger] all[i] && k == (if i < n {
                i
            } else if i == n {
                n + roll
            } else if i - n - 1 < roll {
                i - 1
            } else {
                i
            }) by {
            let k = if i < n {
                i
            } else if i == n {
                n + roll
            } else if i - n - 1 < roll {
                i - 1
            } else {
                i
            };
            assert(all0[k] == all[i]);
        }
        assert forall|i: int, j: int| 0 <= i < all.len() && 0 <= j < all.len() && i != j
            implies all[i]
            != all[j] by {
            let ki = if i < n {
                i
            } else if i == n {
                n + roll
            } else if i - n - 1 < roll {
                i - 1
            } else {
                i
            };
            let kj = if j < n {
                j
            } else if j == n {
                n + roll
            } else if j - n - 1 < roll {
                j - 1
            } else {
                j
            };
            assert(all0[ki] == all[i]);
            assert(all0[kj] == all[j]);
            assert(ki != kj);
        }
        assert forall|c: CardID| pool.contains(c) <==> #[trigger] all.contains(c) by {
            if all.contains(c) {
                let i = choose|i: int| 0 <= i < all.len() && all[i] == c;
                let k = choose|k: int| 0 <= k < all0.len() && all0[k] == all[i];
                assert(all0.contains(c));
            }
            if pool.contains(c) {
                assert(all0.contains(c));
                let k = choose|k: int| 0 <= k < all0.len() && all0[k] == c;
                let i = if k < n {
                    k
                } else if k == n + roll {
                    n
                } else if k < n + roll {
                    k + 1
                } else {
                    k
                };
                assert(all[i] == c);
            }
        }
    }
}

/// Takes the card at `index` out of the pool.
pub fn take_card(pool: &mut Vec<CardID>, index: usize) -> (card: CardID)
    requires
        index < old(pool)@.len(),
    ensures
        card == old(pool)@[index as int],
        final(pool)@ == old(pool)@.remove(index as int),
{
    pool.remove(index)
}

/// Whether `pool` can be the pool of undealt cards of a pack list whose packs hold
/// `counts` cards: it holds cards of those packs only, and none twice.
pub open spec fn pool_in_order(pool: Seq<CardID>, counts: Seq<usize>) -> bool {
    &&& pool.no_duplicates()
    &&& forall|k: int| 0 <= k < pool.len() ==> card_in_range(counts, #[trigger] pool[k])
}

/// A draw leaves a pool in order, and the card it takes is a card of the packs.
pub proof fn lemma_draw_in_order(pool: Seq<CardID>, counts: Seq<usize>, roll: int)
    requires
        counts.len() <= usize::MAX,
        pool_in_order(pool, counts),
        roll_fits(pool, full_deck(counts), roll),
    ensures
        pool_in_order(pool_after_draw(pool, full_deck(counts), roll), counts),
        card_in_range(counts, card_drawn(pool, full_deck(counts), roll)),
        !pool_after_draw(pool, full_deck(counts), roll).contains(
            card_drawn(pool, full_deck(counts), roll),
        ),
{
    let full = full_deck(counts);
    let source = draw_source(pool, full);
    let left = pool_after_draw(pool, full, roll);
    lemma_full_deck(counts);
    assert forall|k: int| 0 <= k < source.len()
        implies card_in_range(counts, #[trigger] source[k]) by {
        if pool.len() == 0 {
            assert(full.contains(full[k]));
        }
    }
    assert forall|k: int| 0 <= k < left.len() implies card_in_range(counts, #[trigger] left[k]) by {
        let k0 = if k < roll { k } else { k + 1 };
        assert(left[k] == source[k0]);
    }
    assert forall|a: int, b: int| 0 <= a < left.len() && 0 <= b < left.len() && a != b
        implies left[a]
        != left[b] by {
        let a0 = if a < roll { a } else { a + 1 };
        let b0 = if b < roll { b } else { b + 1 };
        assert(left[a] == source[a0]);
        assert(left[b] == source[b0]);
    }
    if left.contains(source[roll]) {
        let k = choose|k: int| 0 <= k < left.len() && left[k] == source[roll];
        let k0 = if k < roll { k } else { k + 1 };
        assert(left[k] == source[k0]);
    }
}

/// Draws the card that `roll` names: refills the pool with the full deck if it has run
/// out, then takes the card at position `roll` out of it.
pub fn draw_at(pool: &mut Vec<CardID>, counts: &Vec<usize>, roll: usize) -> (card: CardID)
    requires
        roll_fits(old(pool)@, full_deck(counts@), roll as int),
    ensures
        card == card_drawn(old(pool)@, full_deck(counts@), roll as int),
        final(pool)@ == pool_after_draw(old(pool)@, full_deck(counts@), roll as int),
{
    if pool.len() == 0 {
        *pool = full_deck_of(counts);
    }
    take_card(pool, roll)
}

/// Draws one card at random: refills the pool with the full deck if it has run out, then
/// takes a card out of it. Returns the card and, for the proofs of its callers, the roll
/// that chose it.
pub(crate) fn draw(pool: &mut Vec<CardID>, counts: &Vec<usize>) -> (drawn: (CardID, Ghost<int>))
    requires
        full_deck(counts@).len() > 0,
        pool_in_order(old(pool)@, counts@),
    ensures
        roll_fits(old(pool)@, full_deck(counts@), drawn.1@),
        drawn.0 == card_drawn(old(pool)@, full_deck(counts@), drawn.1@),
        final(pool)@ == pool_after_draw(old(pool)@, full_deck(counts@), drawn.1@),
        pool_in_order(final(pool)@, counts@),
        card_in_range(counts@, drawn.0),
{
    if pool.len() == 0 {
        *pool = full_deck_of(counts);
    }
    let roll = random_index(pool.len());
    proof {
        assert(counts@.len() == counts.len());
        lemma_draw_in_order(old(pool)@, counts@, roll as int);
    }
    let card = take_card(pool, roll);
    (card, Ghost(roll as int))
}

/// A deal from a pool that has run out is a deal from the full deck: the first draw
/// refills the pool.
pub proof fn lemma_deal_from_empty(full: Seq<CardID>, rolls: Seq<int>)
    requires
        rolls.len() > 0,
    ensures
        pool_after_deal(Seq::empty(), full, rolls) == pool_after_deal(full, full, rolls),
        cards_dealt(Seq::empty(), full, rolls) == cards_dealt(full, full, rolls),
        rolls_fit(Seq::empty(), full, rolls) == rolls_fit(full, full, rolls),
    decreases rolls.len(),
{
    let empty = Seq::<CardID>::empty();
    let front = rolls.drop_last();
    if front.len() > 0 {
        lemma_deal_from_empty(full, front);
    } else {
        assert(pool_after_deal(empty, full, front) == empty);
        assert(pool_after_deal(full, full, front) == full);
        assert(draw_source(empty, full) == draw_source(full, full));
        assert(cards_dealt(empty, full, front) == cards_dealt(full, full, front));
        assert(rolls_fit(empty, full, front) && rolls_fit(full, full, front));
    }
    assert(roll_fits(pool_after_deal(empty, full, front), full, rolls.last()) == roll_fits(
        pool_after_deal(full, full, front),
        full,
        rolls.last(),
    ));
}

} // verus!
