//! Ranks, the deck, and the mathematical vocabulary for hands of cards.

use vstd::prelude::*;

verus! {

/// A move: `None` passes, `Some((count, rank))` plays `count` cards of `rank`.
pub type Move = Option<(u8, u8)>;

/// A hand of cards, by rank, kept in ascending order.
pub type Hand = Vec<u8>;

/// The ranks, lowest first. The joker is wild: one joker beats any play.
pub const THREE: u8 = 1;
pub const FOUR: u8 = 2;
pub const FIVE: u8 = 3;
pub const SIX: u8 = 4;
pub const SEVEN: u8 = 5;
pub const EIGHT: u8 = 6;
pub const NINE: u8 = 7;
pub const TEN: u8 = 8;
pub const JACK: u8 = 9;
pub const QUEEN: u8 = 10;
pub const KING: u8 = 11;
pub const ACE: u8 = 12;
pub const TWO: u8 = 13;
pub const JOKER: u8 = 14;

/// The number of cards in the deck.
pub const DECK_SIZE: usize = 54;

/// The deck in ascending order: four cards of each ordinary rank and two jokers.
pub const DECK: [u8; 54] = [
    THREE, THREE, THREE, THREE,
    FOUR, FOUR, FOUR, FOUR,
    FIVE, FIVE, FIVE, FIVE,
    SIX, SIX, SIX, SIX,
    SEVEN, SEVEN, SEVEN, SEVEN,
    EIGHT, EIGHT, EIGHT, EIGHT,
    NINE, NINE, NINE, NINE,
    TEN, TEN, TEN, TEN,
    JACK, JACK, JACK, JACK,
    QUEEN, QUEEN, QUEEN, QUEEN,
    KING, KING, KING, KING,
    ACE, ACE, ACE, ACE,
    TWO, TWO, TWO, TWO,
    JOKER, JOKER,
];

/// How many cards of `rank` the sequence `cards` holds.
pub open spec fn count_of(cards: Seq<u8>, rank: u8) -> nat {
    cards.to_multiset().count(rank)
}

/// How many cards of `rank` the deck holds.
pub open spec fn copies_in_deck(rank: u8) -> nat {
    if THREE <= rank <= TWO {
        4
    } else if rank == JOKER {
        2
    } else {
        0
    }
}

/// The cards are in ascending order of rank.
pub open spec fn ascending(cards: Seq<u8>) -> bool {
    forall|i: int, j: int| 0 <= i <= j < cards.len() ==> cards[i] <= cards[j]
}

/// The cards could all come from one deck: no rank occurs more often than the deck holds it.
pub open spec fn fits_deck(cards: Seq<u8>) -> bool {
    forall|rank: u8| count_of(cards, rank) <= copies_in_deck(rank)
}

/// The cards form a hand: drawn from one deck and kept in ascending order.
pub open spec fn is_hand(cards: Seq<u8>) -> bool {
    ascending(cards) && fits_deck(cards)
}

/// The cards are exactly those of the deck, in any order.
pub open spec fn is_full_deck(cards: Seq<u8>) -> bool {
    cards.to_multiset() == DECK@.to_multiset()
}

/// A card that occurs in a sequence is counted at least once.
pub proof fn lemma_count_of_member(cards: Seq<u8>, i: int)
    requires
        0 <= i < cards.len(),
    ensures
        count_of(cards, cards[i]) >= 1,
{
    broadcast use vstd::seq_lib::group_to_multiset_ensures;
}

/// Every card that fits in a deck has a rank between `THREE` and `JOKER`.
pub proof fn lemma_fits_deck_ranks(cards: Seq<u8>)
    requires
        fits_deck(cards),
    ensures
        forall|i: int| 0 <= i < cards.len() ==> THREE <= #[trigger] cards[i] <= JOKER,
{
    assert forall|i: int| 0 <= i < cards.len() implies THREE <= #[trigger] cards[i] <= JOKER by {
        lemma_count_of_member(cards, i);
        assert(count_of(cards, cards[i]) <= copies_in_deck(cards[i]));
    }
}

/// The count of a rank over a concatenation is the sum of the counts over its parts.
pub proof fn lemma_count_of_concat(a: Seq<u8>, b: Seq<u8>, rank: u8)
    ensures
        count_of(a + b, rank) == count_of(a, rank) + count_of(b, rank),
{
    vstd::seq_lib::lemma_multiset_commutative(a, b);
}

/// A rank that occurs nowhere in a range of positions is counted zero times there, and a
/// range that holds nothing else is counted in full.
pub proof fn lemma_count_of_uniform(cards: Seq<u8>, rank: u8)
    ensures
        (forall|i: int| 0 <= i < cards.len() ==> cards[i] != rank) ==> count_of(cards, rank) == 0,
        (forall|i: int| 0 <= i < cards.len() ==> cards[i] == rank) ==> count_of(cards, rank)
            == cards.len(),
    decreases cards.len(),
{
    broadcast use vstd::seq_lib::group_to_multiset_ensures;
    if cards.len() > 0 {
        let front = cards.drop_last();
        lemma_count_of_uniform(front, rank);
        assert(cards =~= front.push(cards.last()));
    }
}

/// A rank that fills the positions `lo..hi` is counted at least `hi - lo` times.
pub proof fn lemma_count_of_at_least(cards: Seq<u8>, rank: u8, lo: int, hi: int)
    requires
        0 <= lo <= hi <= cards.len(),
        forall|i: int| lo <= i < hi ==> cards[i] == rank,
    ensures
        count_of(cards, rank) >= hi - lo,
{
    let below = cards.subrange(0, lo);
    let run = cards.subrange(lo, hi);
    let above = cards.subrange(hi, cards.len() as int);
    assert(cards =~= (below + run) + above);
    lemma_count_of_concat(below + run, above, rank);
    lemma_count_of_concat(below, run, rank);
    lemma_count_of_uniform(run, rank);
}

/// A rank that occurs only at positions within `lo..hi` is counted at most `hi - lo` times.
pub proof fn lemma_count_of_at_most(cards: Seq<u8>, rank: u8, lo: int, hi: int)
    requires
        0 <= lo <= hi <= cards.len(),
        forall|i: int| 0 <= i < cards.len() && cards[i] == rank ==> lo <= i < hi,
    ensures
        count_of(cards, rank) <= hi - lo,
{
    broadcast use vstd::seq_lib::group_to_multiset_ensures;
    let below = cards.subrange(0, lo);
    let run = cards.subrange(lo, hi);
    let above = cards.subrange(hi, cards.len() as int);
    assert(cards =~= (below + run) + above);
    lemma_count_of_concat(below + run, above, rank);
    lemma_count_of_concat(below, run, rank);
    lemma_count_of_uniform(below, rank);
    lemma_count_of_uniform(above, rank);
    assert(run.to_multiset().count(rank) <= run.to_multiset().len());
}

/// The deck holds each ordinary rank four times and the joker twice.
pub proof fn lemma_deck_counts()
    ensures
        DECK@.len() == 54,
        ascending(DECK@),
        forall|rank: u8| count_of(DECK@, rank) == copies_in_deck(rank),
{
    let deck = DECK@;
    assert forall|rank: u8| count_of(deck, rank) == copies_in_deck(rank) by {
        if THREE <= rank <= TWO {
            let lo = 4 * (rank - 1);
            lemma_count_of_at_least(deck, rank, lo, lo + 4);
            lemma_count_of_at_most(deck, rank, lo, lo + 4);
        } else if rank == JOKER {
            lemma_count_of_at_least(deck, rank, 52, 54);
            lemma_count_of_at_most(deck, rank, 52, 54);
        } else {
            lemma_count_of_uniform(deck, rank);
        }
    }
}

/// The hands as sequences of cards.
pub open spec fn views_of(hands: Seq<Hand>) -> Seq<Seq<u8>> {
    Seq::new(hands.len(), |seat: int| hands[seat]@)
}

/// The cards of several hands laid end to end, in seat order.
pub open spec fn concat(hands: Seq<Seq<u8>>) -> Seq<u8>
    decreases hands.len(),
{
    if hands.len() == 0 {
        Seq::empty()
    } else {
        concat(hands.drop_last()) + hands.last()
    }
}

/// Replacing one hand changes the count of a rank over all hands by the difference between
/// the new hand's count and the old one's.
pub proof fn lemma_concat_update(hands: Seq<Seq<u8>>, seat: int, hand: Seq<u8>, rank: u8)
    requires
        0 <= seat < hands.len(),
    ensures
        count_of(concat(hands.update(seat, hand)), rank) + count_of(hands[seat], rank) == count_of(
            concat(hands),
            rank,
        ) + count_of(hand, rank),
        concat(hands.update(seat, hand)).len() + hands[seat].len() == concat(hands).len()
            + hand.len(),
    decreases hands.len(),
{
    let changed = hands.update(seat, hand);
    lemma_count_of_concat(concat(hands.drop_last()), hands.last(), rank);
    lemma_count_of_concat(concat(changed.drop_last()), changed.last(), rank);
    if seat == hands.len() - 1 {
        assert(changed.drop_last() =~= hands.drop_last());
    } else {
        assert(changed.drop_last() =~= hands.drop_last().update(seat, hand));
        lemma_concat_update(hands.drop_last(), seat, hand, rank);
    }
}

/// One hand never holds more cards of a rank than all hands together.
pub proof fn lemma_concat_holds(hands: Seq<Seq<u8>>, seat: int, rank: u8)
    requires
        0 <= seat < hands.len(),
    ensures
        count_of(hands[seat], rank) <= count_of(concat(hands), rank),
    decreases hands.len(),
{
    lemma_count_of_concat(concat(hands.drop_last()), hands.last(), rank);
    if seat < hands.len() - 1 {
        lemma_concat_holds(hands.drop_last(), seat, rank);
    }
}

/// A copy of a sequence of cards.
pub(crate) fn copy_cards(cards: &Vec<u8>) -> (copy: Vec<u8>)
    ensures
        copy@ == cards@,
{
    cards.clone()
}

/// The deck as a vector, in the order of `DECK`.
pub fn full_deck() -> (deck: Vec<u8>)
    ensures
        deck@ == DECK@,
{
    let mut deck: Vec<u8> = Vec::new();
    let mut i: usize = 0;
    while i < 54
        invariant
            0 <= i <= 54,
            DECK@.len() == 54,
            deck@ == DECK@.subrange(0, i as int),
        decreases 54 - i,
    {
        deck.push(DECK[i]);
        i += 1;
    }
    deck
}

/// `[u8]::sort` of the standard library: the same cards, in ascending order.
#[verifier::external_body]
pub(crate) fn sort_cards(cards: &mut Vec<u8>)
    ensures
        ascending(final(cards)@),
        final(cards)@.to_multiset() == old(cards)@.to_multiset(),
{
    cards.sort();
}

} // verus!
