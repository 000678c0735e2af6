//! What one player knows of a game, and the completion of that knowledge into a full state
//! that agrees with it.

use vstd::prelude::*;
use std::collections::VecDeque;
use rand::XorShiftRng;
use crate::cards::{
    ascending, concat, copies_in_deck, copy_cards, count_of, full_deck, lemma_concat_holds,
    lemma_count_of_concat, lemma_count_of_member, lemma_count_of_uniform, lemma_deck_counts,
    sort_cards, views_of, Hand, Move, DECK, DECK_SIZE,
};
use crate::chance::shuffle;
use crate::moves::{continuation_moves, leading_moves};
use crate::state::{copy_seats, first_of, lemma_first_of, Game, State, MAX_PLAYERS};

verus! {

/// One player's view of a game: their own hand, the size of every hand, and what everybody
/// sees.
pub struct PartialState {
    player: u8,
    hand_sizes: Vec<usize>,
    hand: Hand,
    discard: Vec<u8>,
    next_player: VecDeque<u8>,
    top_card: Move,
    finishing_order: Vec<u8>,
}

/// The mathematical model of a `PartialState`.
pub struct PartialGame {
    /// The player whose view this is.
    pub player: u8,
    /// The number of cards in each hand, by seat.
    pub hand_sizes: Seq<nat>,
    /// The hand of the player whose view this is.
    pub hand: Seq<u8>,
    /// The cards played so far.
    pub discard: Seq<u8>,
    /// The players still to move in this trick, the next one first.
    pub queue: Seq<u8>,
    /// The play that the next move has to beat, or `None` when the next player leads.
    pub pile: Move,
    /// The players who have emptied their hand, the first one first.
    pub finished: Seq<u8>,
}

/// The sum of the first `upto` sizes.
pub open spec fn total_upto(sizes: Seq<nat>, upto: int) -> nat
    decreases upto,
{
    if upto <= 0 {
        0
    } else {
        total_upto(sizes, upto - 1) + sizes[upto - 1]
    }
}

/// The sizes as natural numbers.
pub open spec fn naturals(sizes: Seq<usize>) -> Seq<nat> {
    Seq::new(sizes.len(), |seat: int| sizes[seat] as nat)
}

/// Where the cards of seat `seat` start in a pile that is dealt to every seat but that of
/// `player`, in seat order and from the front: after the cards of the seats before it.
pub open spec fn block_start(sizes: Seq<nat>, player: int, seat: int) -> nat {
    total_upto(sizes.update(player, 0), seat)
}

/// The cards that seat `seat` gets of such a pile: as many as its size says, from where its
/// block starts.
pub open spec fn block_of(pile: Seq<u8>, sizes: Seq<nat>, player: int, seat: int) -> Seq<u8> {
    pile.subrange(
        block_start(sizes, player, seat) as int,
        (block_start(sizes, player, seat) + sizes[seat]) as int,
    )
}

/// The sizes of the hands, by seat.
pub open spec fn sizes_of(hands: Seq<Seq<u8>>) -> Seq<nat> {
    Seq::new(hands.len(), |seat: int| hands[seat].len())
}

impl Game {
    /// What the player in seat `player` sees of the game.
    pub open spec fn seen_by(self, player: u8) -> PartialGame {
        PartialGame {
            player,
            hand_sizes: sizes_of(self.hands),
            hand: self.hands[player as int],
            discard: self.discard,
            queue: self.queue,
            pile: self.pile,
            finished: self.finished,
        }
    }
}

impl PartialGame {
    /// The number of players.
    pub open spec fn players(self) -> nat {
        self.hand_sizes.len()
    }

    /// The sizes of the hands that the player does not see.
    pub open spec fn hidden_sizes(self) -> Seq<nat> {
        self.hand_sizes.update(self.player as int, 0)
    }

    /// The number of cards that the player does not see.
    pub open spec fn hidden_cards(self) -> nat {
        total_upto(self.hidden_sizes(), self.players() as int)
    }

    /// The game is over once a player has emptied their hand.
    pub open spec fn is_terminal(self) -> bool {
        self.finished.len() > 0
    }

    /// What holds of the view that the player to move has of any state of a game: it is
    /// their turn; their hand is in ascending order and has the size recorded for their seat;
    /// their hand and the discard pile fit in one deck; the hidden hands hold the rest of the deck;
    /// and the queue, the pile and the hand sizes are as in a state of a game.
    pub open spec fn wf(self) -> bool {
        &&& 1 <= self.players() <= MAX_PLAYERS
        &&& self.player < self.players()
        &&& self.hand_sizes[self.player as int] == self.hand.len()
        &&& ascending(self.hand)
        &&& forall|rank: u8| count_of(self.hand + self.discard, rank) <= copies_in_deck(rank)
        &&& self.hidden_cards() + self.hand.len() + self.discard.len() == DECK_SIZE
        &&& 1 <= self.queue.len() <= self.players()
        &&& self.players() >= 2 ==> self.queue.len() >= 2
        &&& self.queue[0] == self.player
        &&& forall|i: int| 0 <= i < self.queue.len() ==> (#[trigger] self.queue[i]) < self.players()
        &&& self.queue.no_duplicates()
        &&& forall|i: int|
            0 <= i < self.finished.len() ==> (#[trigger] self.finished[i]) < self.players()
        &&& match self.pile {
            None => true,
            Some((count, rank)) => count >= 1 && self.players() >= 2,
        }
        &&& !self.is_terminal() ==> forall|seat: int|
            0 <= seat < self.hand_sizes.len() ==> (#[trigger] self.hand_sizes[seat]) > 0
    }

    /// The moves open to the player: they depend on nothing that the player does not see.
    pub open spec fn legal_moves(self) -> Seq<Move> {
        if self.is_terminal() {
            Seq::empty()
        } else {
            match self.pile {
                None => leading_moves(self.hand),
                Some((count, rank)) => continuation_moves(self.hand, count, rank),
            }
        }
    }
}

impl View for PartialState {
    type V = PartialGame;

    closed spec fn view(&self) -> PartialGame {
        PartialGame {
            player: self.player,
            hand_sizes: naturals(self.hand_sizes@),
            hand: self.hand@,
            discard: self.discard@,
            queue: self.next_player@,
            pile: self.top_card,
            finished: self.finishing_order@,
        }
    }
}

impl PartialState {
    /// The hand of the player whose view this is.
    pub fn hand(&self) -> (hand: &Hand)
        ensures
            hand@ == self@.hand,
    {
        &self.hand
    }

    /// The play that the next move has to beat, or `None` when the player leads.
    pub fn top_card(&self) -> (pile: &Move)
        ensures
            *pile == self@.pile,
    {
        &self.top_card
    }
}

/// A prefix of the sizes sums to no more than a longer prefix.
pub proof fn lemma_total_upto_grows(sizes: Seq<nat>, shorter: int, longer: int)
    requires
        shorter <= longer,
    ensures
        total_upto(sizes, shorter) <= total_upto(sizes, longer),
    decreases longer - shorter,
{
    if shorter < longer {
        lemma_total_upto_grows(sizes, shorter, longer - 1);
    }
}

/// The sizes of hands sum to the number of their cards.
pub proof fn lemma_total_is_concat_len(hands: Seq<Seq<u8>>, upto: int)
    requires
        0 <= upto <= hands.len(),
    ensures
        total_upto(sizes_of(hands), upto) == concat(hands.subrange(0, upto)).len(),
    decreases upto,
{
    if upto > 0 {
        lemma_total_is_concat_len(hands, upto - 1);
        assert(hands.subrange(0, upto).drop_last() =~= hands.subrange(0, upto - 1));
    }
}

/// Leaving one seat out of a sum of sizes takes that seat's size off the sum.
pub proof fn lemma_total_without_seat(sizes: Seq<nat>, seat: int, upto: int)
    requires
        0 <= seat < sizes.len(),
        0 <= upto <= sizes.len(),
    ensures
        total_upto(sizes.update(seat, 0), upto) + (if seat < upto {
            sizes[seat]
        } else {
            0
        }) == total_upto(sizes, upto),
    decreases upto,
{
    if upto > 0 {
        lemma_total_without_seat(sizes, seat, upto - 1);
    }
}

/// The player to move has a well-formed view of a well-formed game, and the same moves are
/// legal in the view and in the game.
pub proof fn lemma_view_of_game(game: Game)
    requires
        game.wf(),
    ensures
        game.seen_by(game.current_player()).wf(),
        game.seen_by(game.current_player()).legal_moves() == game.legal_moves(),
{
    let player = game.current_player();
    let seen = game.seen_by(player);
    let n = game.players() as int;
    lemma_deck_counts();
    broadcast use vstd::seq_lib::group_to_multiset_ensures;
    assert forall|rank: u8| count_of(seen.hand + seen.discard, rank) <= copies_in_deck(rank) by {
        lemma_concat_holds(game.hands, player as int, rank);
        lemma_count_of_concat(concat(game.hands), game.discard, rank);
        lemma_count_of_concat(seen.hand, seen.discard, rank);
    }
    lemma_total_is_concat_len(game.hands, n);
    assert(game.hands.subrange(0, n) =~= game.hands);
    lemma_total_without_seat(sizes_of(game.hands), player as int, n);
    assert(game.all_cards().len() == game.all_cards().to_multiset().len());
}

/// A state and the view that the player to move has of it offer the same moves.
pub proof fn lemma_same_moves(game: Game, partial: PartialGame)
    requires
        partial.wf(),
        game.seen_by(partial.player) == partial,
    ensures
        game.current_player() == partial.player,
        game.legal_moves() == partial.legal_moves(),
        game.is_terminal() == partial.is_terminal(),
{
}

/// Takes each of `cards` out of `deck`, at the first place where the deck holds it.
fn take_out(deck: &mut Vec<u8>, cards: &Vec<u8>)
    requires
        forall|rank: u8| count_of(cards@, rank) <= count_of(old(deck)@, rank),
    ensures
        forall|rank: u8|
            count_of(final(deck)@, rank) + count_of(cards@, rank) == count_of(old(deck)@, rank),
        final(deck)@.len() + cards@.len() == old(deck)@.len(),
{
    let ghost start = deck@;
    let mut taken: usize = 0;
    proof {
        lemma_count_of_uniform(cards@.subrange(0, 0), 0);
        assert forall|rank: u8| count_of(cards@.subrange(0, 0), rank) == 0 by {
            lemma_count_of_uniform(cards@.subrange(0, 0), rank);
        }
    }
    while taken < cards.len()
        invariant
            0 <= taken <= cards@.len(),
            forall|rank: u8| count_of(cards@, rank) <= count_of(start, rank),
            forall|rank: u8|
                count_of(deck@, rank) + count_of(cards@.subrange(0, taken as int), rank)
                    == count_of(start, rank),
            deck@.len() + taken == start.len(),
        decreases cards@.len() - taken,
    {
        let card = cards[taken];
        let ghost held = deck@;
        let ghost seen = cards@.subrange(0, taken as int);
        proof {
            broadcast use vstd::seq_lib::group_to_multiset_ensures;
            let rest = cards@.subrange(taken as int, cards@.len() as int);
            assert(cards@ =~= seen + rest);
            lemma_count_of_concat(seen, rest, card);
            lemma_count_of_member(rest, 0);
            assert(count_of(cards@, card) <= count_of(start, card));
            lemma_first_of(held, card);
        }
        let mut pos: usize = 0;
        while deck[pos] != card
            invariant
                deck@ == held,
                0 <= pos < first_of(held, card) + 1,
                held.len() == deck.len(),
                first_of(held, card) < held.len(),
                held[first_of(held, card)] == card,
            decreases held.len() - pos,
        {
            pos += 1;
        }
        deck.remove(pos);
        taken += 1;
        proof {
            broadcast use vstd::seq_lib::group_to_multiset_ensures;
            broadcast use vstd::multiset::group_multiset_axioms;
            let now = cards@.subrange(0, taken as int);
            assert(now =~= seen.push(card));
        }
    }
    assert(cards@.subrange(0, taken as int) =~= cards@);
}

/// Deals `pile` to every seat but that of `player`, who keeps `hand`: each other seat, in
/// seat order, gets the next cards from the front of the pile, as many as `hand_sizes` says,
/// and holds them sorted. The pile has just the cards for this.
pub fn deal_hidden(pile: Vec<u8>, hand: &Hand, hand_sizes: &Vec<usize>, player: u8) -> (hands: Vec<
    Hand,
>)
    requires
        player < hand_sizes@.len(),
        block_start(naturals(hand_sizes@), player as int, hand_sizes@.len() as int) == pile@.len(),
    ensures
        hands@.len() == hand_sizes@.len(),
        hands@[player as int]@ == hand@,
        forall|seat: int|
            0 <= seat < hands@.len() && seat != player ==> {
                &&& ascending(#[trigger] hands@[seat]@)
                &&& hands@[seat]@.len() == hand_sizes@[seat]
                &&& hands@[seat]@.to_multiset() == block_of(
                    pile@,
                    naturals(hand_sizes@),
                    player as int,
                    seat,
                ).to_multiset()
            },
        forall|rank: u8|
            count_of(concat(views_of(hands@)), rank) == count_of(pile@, rank) + count_of(
                hand@,
                rank,
            ),
{
    let ghost all = pile@;
    let ghost sizes = naturals(hand_sizes@);
    let ghost hidden = sizes.update(player as int, 0);
    let ghost players = hand_sizes@.len() as int;
    let mut deck = pile;
    let mut hands: Vec<Hand> = Vec::new();
    let mut seat: usize = 0;
    proof {
        assert(deck@ =~= all.subrange(0, all.len() as int));
        assert forall|rank: u8| count_of(concat(views_of(hands@)), rank) == 0 by {
            lemma_count_of_uniform(concat(views_of(hands@)), rank);
        }
    }
    while seat < hand_sizes.len()
        invariant
            sizes == naturals(hand_sizes@),
            hidden == sizes.update(player as int, 0),
            players == hand_sizes@.len(),
            player < players,
            total_upto(hidden, players) == all.len(),
            0 <= seat <= players,
            hands@.len() == seat,
            total_upto(hidden, seat as int) <= all.len(),
            deck@ == all.subrange(total_upto(hidden, seat as int) as int, all.len() as int),
            seat > player ==> hands@[player as int]@ == hand@,
            forall|i: int|
                0 <= i < seat && i != player ==> {
                    &&& ascending(#[trigger] hands@[i]@)
                    &&& hands@[i]@.len() == hand_sizes@[i]
                    &&& hands@[i]@.to_multiset() == block_of(all, sizes, player as int, i).to_multiset()
                },
            forall|rank: u8|
                #![trigger count_of(deck@, rank)]
                count_of(concat(views_of(hands@)), rank) + count_of(deck@, rank) + (if seat
                    <= player {
                    count_of(hand@, rank)
                } else {
                    0
                }) == count_of(all, rank) + count_of(hand@, rank),
        decreases players - seat,
    {
        let ghost dealt = views_of(hands@);
        let ghost before = deck@;
        let ghost start = total_upto(hidden, seat as int);
        proof {
            lemma_total_upto_grows(hidden, seat + 1, players);
        }
        if seat == player as usize {
            hands.push(copy_cards(hand));
        } else {
            let rest = deck.split_off(hand_sizes[seat]);
            let ghost chunk = deck@;
            sort_cards(&mut deck);
            proof {
                broadcast use vstd::seq_lib::group_to_multiset_ensures;
                assert(chunk =~= block_of(all, sizes, player as int, seat as int));
                assert(deck@.len() == deck@.to_multiset().len());
                assert(chunk.len() == chunk.to_multiset().len());
                assert(before =~= chunk + rest@);
                assert forall|rank: u8| count_of(before, rank) == count_of(rest@, rank)
                    + count_of(deck@, rank) by {
                    lemma_count_of_concat(chunk, rest@, rank);
                }
            }
            hands.push(deck);
            deck = rest;
        }
        proof {
            let now = views_of(hands@);
            assert(now.drop_last() =~= dealt);
            assert(deck@ =~= all.subrange(
                total_upto(hidden, seat + 1) as int,
                all.len() as int,
            ));
            assert forall|rank: u8|
                #![trigger count_of(deck@, rank)]
                count_of(concat(now), rank) + count_of(deck@, rank) + (if seat + 1 <= player {
                    count_of(hand@, rank)
                } else {
                    0
                }) == count_of(all, rank) + count_of(hand@, rank) by {
                lemma_count_of_concat(concat(dealt), hands@[seat as int]@, rank);
                assert(count_of(concat(dealt), rank) + count_of(before, rank) + (if seat
                    <= player {
                    count_of(hand@, rank)
                } else {
                    0
                }) == count_of(all, rank) + count_of(hand@, rank));
            }
        }
        seat += 1;
    }
    proof {
        assert forall|rank: u8|
            count_of(concat(views_of(hands@)), rank) == count_of(all, rank) + count_of(
                hand@,
                rank,
            ) by {
            assert(count_of(concat(views_of(hands@)), rank) + count_of(deck@, rank) + 0
                == count_of(all, rank) + count_of(hand@, rank));
            lemma_count_of_uniform(deck@, rank);
        }
    }
    hands
}

impl State {
    /// The view that the player to move has of the state.
    pub fn to_partial_state(&self) -> (partial: PartialState)
        requires
            self@.wf(),
        ensures
            partial@ == self@.seen_by(self@.current_player()),
            partial@.wf(),
    {
        let mut hand_sizes: Vec<usize> = Vec::new();
        let mut seat: usize = 0;
        while seat < self.num_players()
            invariant
                0 <= seat <= self@.players(),
                hand_sizes@.len() == seat,
                forall|i: int| 0 <= i < seat ==> (#[trigger] hand_sizes@[i]) == self@.hands[i].len(),
            decreases self@.players() - seat,
        {
            hand_sizes.push(self.hand(seat).len());
            seat += 1;
        }
        let player = self.current_player();
        let partial = PartialState {
            player,
            hand_sizes,
            hand: copy_cards(self.hand(player as usize)),
            discard: copy_cards(self.discard()),
            next_player: copy_seats(self.queue()),
            top_card: *self.top_card(),
            finishing_order: copy_cards(self.finishing_order()),
        };
        proof {
            lemma_view_of_game(self@);
            assert(partial@.hand_sizes =~= sizes_of(self@.hands));
        }
        partial
    }

    /// Completes a player's view to a full state by dealing the cards that the player does
    /// not see, shuffled, to the other players, as `deal_hidden` deals a pile. Whatever the
    /// shuffle gives, the state is a
    /// state of a game in which the player sees exactly the given view: their own hand as
    /// it is, every hand of the size recorded, and the cards of one deck in all.
    pub fn realisation_from(ps: &PartialState, rng: &mut XorShiftRng) -> (state: State)
        requires
            ps@.wf(),
        ensures
            state@.wf(),
            state@.seen_by(ps@.player) == ps@,
    {
        let mut deck = full_deck();
        let ghost hidden = ps@.hidden_sizes();
        let ghost players = ps@.players() as int;
        proof {
            lemma_deck_counts();
            assert forall|rank: u8| count_of(ps.hand@, rank) <= count_of(deck@, rank) by {
                lemma_count_of_concat(ps.hand@, ps.discard@, rank);
                assert(count_of(ps@.hand + ps@.discard, rank) <= copies_in_deck(rank));
            }
        }
        take_out(&mut deck, &ps.hand);
        proof {
            assert forall|rank: u8| count_of(ps.discard@, rank) <= count_of(deck@, rank) by {
                lemma_count_of_concat(ps.hand@, ps.discard@, rank);
                assert(count_of(ps@.hand + ps@.discard, rank) <= copies_in_deck(rank));
            }
        }
        take_out(&mut deck, &ps.discard);
        let ghost unseen = deck@;
        shuffle(rng, &mut deck);
        let ghost pile = deck@;
        proof {
            broadcast use vstd::seq_lib::group_to_multiset_ensures;
            assert(pile.len() == pile.to_multiset().len());
            assert(unseen.len() == unseen.to_multiset().len());
            assert(naturals(ps.hand_sizes@) =~= ps@.hand_sizes);
        }
        let hands = deal_hidden(deck, &ps.hand, &ps.hand_sizes, ps.player);
        let state = State::from_parts(
            hands,
            ps.top_card,
            copy_cards(&ps.discard),
            copy_seats(&ps.next_player),
            copy_cards(&ps.finishing_order),
        );
        proof {
            broadcast use vstd::multiset::group_multiset_axioms;
            lemma_deck_counts();
            assert(sizes_of(state@.hands) =~= ps@.hand_sizes);
            assert forall|rank: u8|
                state@.all_cards().to_multiset().count(rank) == DECK@.to_multiset().count(rank) by {
                lemma_count_of_concat(concat(state@.hands), state@.discard, rank);
                assert(count_of(pile, rank) == count_of(unseen, rank));
                assert(count_of(unseen, rank) + count_of(ps.discard@, rank) + count_of(
                    ps.hand@,
                    rank,
                ) == count_of(DECK@, rank));
            }
            assert(state@.all_cards().to_multiset() =~= DECK@.to_multiset());
            assert forall|seat: int| 0 <= seat < state@.hands.len() implies ascending(
                #[trigger] state@.hands[seat],
            ) by {
                assert(state@.hands[seat] == hands@[seat]@);
            }
        }
        state
    }
}

} // verus!
