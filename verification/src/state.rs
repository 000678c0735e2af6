//! The game state and its rules: whose turn it is, which moves are legal, and what a move
//! does.

use vstd::prelude::*;
use std::collections::VecDeque;
use crate::cards::{
    ascending, concat, copies_in_deck, copy_cards, count_of, is_full_deck, is_hand,
    lemma_concat_holds, lemma_concat_update, lemma_count_of_concat, lemma_count_of_uniform,
    lemma_deck_counts, sort_cards, views_of, Hand, Move, DECK, DECK_SIZE, JOKER, THREE, TWO,
};
use crate::moves::{
    all_moves, answer_at, answers_from, continuation_moves, leading_moves,
    lemma_continuation_moves_beat_pile, lemma_leading_moves_follow_runs, moves, opens_with,
};

verus! {

/// The largest number of players: one card each.
pub const MAX_PLAYERS: usize = 54;

/// The full state of a game: every hand, what lies on the pile, and whose turn comes next.
#[derive(Debug)]
pub struct State {
    hands: Vec<Hand>,
    top_card: Move,
    discard: Vec<u8>,
    next_player: VecDeque<u8>,
    finishing_order: Vec<u8>,
}

/// The mathematical model of a `State`.
pub struct Game {
    /// Each player's hand, by seat.
    pub hands: Seq<Seq<u8>>,
    /// The play that the next move has to beat, or `None` when the next player leads.
    pub pile: Move,
    /// The cards played so far.
    pub discard: Seq<u8>,
    /// The players still to move in this trick, the next one first.
    pub queue: Seq<u8>,
    /// The players who have emptied their hand, the first one first.
    pub finished: Seq<u8>,
}

/// The seats `start`, `start + 1`, ... around a table of `players`, each once.
pub open spec fn rotation(start: u8, players: nat) -> Seq<u8> {
    Seq::new(players, |k: int| ((start + k) % (players as int)) as u8)
}

/// A rotation seats every player once, starting with `start`.
pub proof fn lemma_rotation(start: u8, players: nat)
    requires
        start < players <= MAX_PLAYERS,
    ensures
        rotation(start, players).len() == players,
        rotation(start, players)[0] == start,
        forall|k: int|
            0 <= k < players ==> (#[trigger] rotation(start, players)[k]) == if start + k
                < players {
                start + k
            } else {
                start + k - players
            },
        forall|k: int| 0 <= k < players ==> (#[trigger] rotation(start, players)[k]) < players,
        rotation(start, players).no_duplicates(),
{
    assert forall|k: int| 0 <= k < players implies (#[trigger] rotation(start, players)[k])
        == if start + k < players {
        start + k
    } else {
        start + k - players
    } by {
        if start + k < players {
            vstd::arithmetic::div_mod::lemma_fundamental_div_mod_converse(
                start + k,
                players as int,
                0,
                start + k,
            );
        } else {
            vstd::arithmetic::div_mod::lemma_fundamental_div_mod_converse(
                start + k,
                players as int,
                1,
                start + k - players,
            );
        }
    }
}

/// `count` cards of `rank`.
pub open spec fn copies(rank: u8, count: nat) -> Seq<u8> {
    Seq::new(count, |k: int| rank)
}

/// The position of the first card of `rank` in `hand`, or the hand's length if there is none.
pub open spec fn first_of(hand: Seq<u8>, rank: u8) -> int
    decreases hand.len(),
{
    if hand.len() == 0 {
        0
    } else if hand[0] == rank {
        0
    } else {
        1 + first_of(hand.drop_first(), rank)
    }
}

/// The hand without its first `count` cards of `rank`.
pub open spec fn without(hand: Seq<u8>, rank: u8, count: nat) -> Seq<u8>
    decreases count,
{
    if count == 0 {
        hand
    } else {
        let fewer = without(hand, rank, (count - 1) as nat);
        fewer.remove(first_of(fewer, rank))
    }
}

/// Where the first card of a rank stands: before it no card has the rank, and a hand that
/// holds the rank holds it there.
pub proof fn lemma_first_of(hand: Seq<u8>, rank: u8)
    ensures
        0 <= first_of(hand, rank) <= hand.len(),
        forall|i: int| 0 <= i < first_of(hand, rank) ==> hand[i] != rank,
        first_of(hand, rank) < hand.len() ==> hand[first_of(hand, rank)] == rank,
        count_of(hand, rank) > 0 ==> first_of(hand, rank) < hand.len(),
    decreases hand.len(),
{
    if hand.len() > 0 && hand[0] != rank {
        let rest = hand.drop_first();
        lemma_first_of(rest, rank);
        assert forall|i: int| 0 <= i < first_of(hand, rank) implies hand[i] != rank by {
            if i > 0 {
                assert(hand[i] == rest[i - 1]);
            }
        }
    }
    if first_of(hand, rank) >= hand.len() {
        lemma_count_of_uniform(hand, rank);
    }
}

/// Taking `count` cards of a rank out of a hand that holds them leaves the other ranks as
/// they were, the rank itself `count` cards short, and the hand in order.
pub proof fn lemma_without(hand: Seq<u8>, rank: u8, count: nat)
    requires
        count <= count_of(hand, rank),
    ensures
        without(hand, rank, count).len() == hand.len() - count,
        forall|other: u8|
            count_of(without(hand, rank, count), other) == if other == rank {
                count_of(hand, other) - count
            } else {
                count_of(hand, other) as int
            },
        ascending(hand) ==> ascending(without(hand, rank, count)),
    decreases count,
{
    broadcast use vstd::seq_lib::group_to_multiset_ensures;
    broadcast use vstd::multiset::group_multiset_axioms;
    if count > 0 {
        let fewer = without(hand, rank, (count - 1) as nat);
        lemma_without(hand, rank, (count - 1) as nat);
        lemma_first_of(fewer, rank);
        let at = first_of(fewer, rank);
        let left = fewer.remove(at);
        assert forall|other: u8|
            count_of(left, other) == if other == rank {
                count_of(hand, other) - count
            } else {
                count_of(hand, other) as int
            } by {
            assert(count_of(fewer, other) == if other == rank {
                count_of(hand, other) - (count - 1)
            } else {
                count_of(hand, other) as int
            });
        }
    }
}

/// Whether `m` may be played from `hand` onto `pile`: a pass always; a play when the hand
/// holds the cards and, on a pile that is not empty, the play ranks higher and either has
/// the pile's number of cards or is a joker.
pub open spec fn playable(hand: Seq<u8>, pile: Move, m: Move) -> bool {
    match m {
        None => true,
        Some((count, rank)) => {
            &&& 1 <= count <= count_of(hand, rank)
            &&& THREE <= rank <= JOKER
            &&& match pile {
                None => true,
                Some((pile_count, pile_rank)) => pile_rank < rank && (pile_count == count || rank
                    == JOKER),
            }
        },
    }
}

impl Game {
    /// The number of players.
    pub open spec fn players(self) -> nat {
        self.hands.len()
    }

    /// All cards of the game: those in the hands, by seat, then those played.
    pub open spec fn all_cards(self) -> Seq<u8> {
        concat(self.hands) + self.discard
    }

    /// The game is over once a player has emptied their hand.
    pub open spec fn is_terminal(self) -> bool {
        self.finished.len() > 0
    }

    /// The player to move.
    pub open spec fn current_player(self) -> u8 {
        self.queue[0]
    }

    /// The winner: the first player to have emptied their hand.
    pub open spec fn winner(self) -> u8 {
        self.finished[0]
    }

    /// What holds of every state of a game that started from a full deck:
    /// the cards in the hands and on the discard pile are those of the deck; each hand is in
    /// ascending order; the queue names players of the game, none twice, and holds at least
    /// two of them while there is more than one player; a pile to beat has at least one card;
    /// and until somebody has finished, everybody holds cards.
    pub open spec fn wf(self) -> bool {
        &&& 1 <= self.players() <= MAX_PLAYERS
        &&& forall|seat: int| 0 <= seat < self.hands.len() ==> ascending(#[trigger] self.hands[seat])
        &&& is_full_deck(self.all_cards())
        &&& 1 <= self.queue.len() <= self.players()
        &&& self.players() >= 2 ==> self.queue.len() >= 2
        &&& forall|i: int| 0 <= i < self.queue.len() ==> (#[trigger] self.queue[i]) < self.players()
        &&& self.queue.no_duplicates()
        &&& forall|i: int|
            0 <= i < self.finished.len() ==> (#[trigger] self.finished[i]) < self.players()
        &&& match self.pile {
            None => true,
            Some((count, rank)) => count >= 1 && self.players() >= 2,
        }
        &&& !self.is_terminal() ==> forall|seat: int|
            0 <= seat < self.hands.len() ==> (#[trigger] self.hands[seat]).len() > 0
    }

    /// The moves open to the player to move: none once the game is over, else the opening
    /// plays of their hand when they lead, and the answers to the pile when they follow.
    pub open spec fn legal_moves(self) -> Seq<Move> {
        if self.is_terminal() {
            Seq::empty()
        } else {
            match self.pile {
                None => leading_moves(self.hands[self.current_player() as int]),
                Some((count, rank)) => continuation_moves(
                    self.hands[self.current_player() as int],
                    count,
                    rank,
                ),
            }
        }
    }

    /// The state after the player to move has left the queue and made the move `m`, before
    /// the trick is looked at: a pass changes nothing else; a play puts the player back at
    /// the end of the queue, moves the cards from the hand to the discard pile, becomes the
    /// pile to beat, and finishes the player whose hand it empties.
    pub open spec fn after_move(self, m: Move) -> Game {
        let player = self.current_player();
        let rest = self.queue.drop_first();
        match m {
            None => Game { queue: rest, ..self },
            Some((count, rank)) => {
                let hand = without(self.hands[player as int], rank, count as nat);
                Game {
                    hands: self.hands.update(player as int, hand),
                    pile: m,
                    discard: self.discard + copies(rank, count as nat),
                    queue: rest.push(player),
                    finished: if hand.len() == 0 {
                        self.finished.push(player)
                    } else {
                        self.finished
                    },
                }
            },
        }
    }

    /// The state after a trick that has run out: when a single player is left in the queue,
    /// the pile is cleared and that player leads a new trick, in which everybody gets a turn
    /// in seat order.
    pub open spec fn after_sweep(self) -> Game {
        if self.queue.len() == 1 {
            Game { pile: None, queue: rotation(self.queue[0], self.players()), ..self }
        } else {
            self
        }
    }

    /// The state after the move `m`.
    pub open spec fn apply(self, m: Move) -> Game {
        self.after_move(m).after_sweep()
    }

    /// The state after the moves of `line`, made one after the other.
    pub open spec fn after_line(self, line: Seq<Move>) -> Game
        decreases line.len(),
    {
        if line.len() == 0 {
            self
        } else {
            self.after_line(line.drop_last()).apply(line.last())
        }
    }

    /// Every move of `line` is legal in the state in which it is made.
    pub open spec fn legal_line(self, line: Seq<Move>) -> bool
        decreases line.len(),
    {
        line.len() == 0 || (self.legal_line(line.drop_last()) && self.after_line(
            line.drop_last(),
        ).legal_moves().contains(line.last()))
    }

    /// The state `end` is reached from this one by legal moves alone.
    pub open spec fn leads_to(self, end: Game) -> bool {
        exists|line: Seq<Move>| #[trigger] self.legal_line(line) && end == self.after_line(line)
    }

    /// The number of cards still in the players' hands.
    pub open spec fn cards_in_hands(self) -> nat {
        concat(self.hands).len()
    }

    /// A number that every legal move makes smaller: the cards still in hand weigh most,
    /// and while a pile is to be beaten each player left in the trick counts once.
    pub open spec fn moves_left_bound(self) -> nat {
        self.cards_in_hands() * 55 + if self.pile is Some {
            self.queue.len()
        } else {
            0
        }
    }
}

impl View for State {
    type V = Game;

    closed spec fn view(&self) -> Game {
        Game {
            hands: views_of(self.hands@),
            pile: self.top_card,
            discard: self.discard@,
            queue: self.next_player@,
            finished: self.finishing_order@,
        }
    }
}

/// The number of cards that seat `seat` is dealt when the deck goes to `players` players:
/// the deck is shared as evenly as it can be, and the seats that come short are the first.
pub open spec fn share(players: int, seat: int) -> int {
    (DECK_SIZE + seat) / players
}

/// The number of cards dealt to the seats before `seat`.
pub open spec fn dealt_before(players: int, seat: int) -> int
    decreases seat,
{
    if seat <= 0 {
        0
    } else {
        dealt_before(players, seat - 1) + share(players, seat - 1)
    }
}

/// The cards of `deck` that go to seat `seat`: the deal works from the end of the deck back.
pub open spec fn dealt_to(deck: Seq<u8>, players: int, seat: int) -> Seq<u8> {
    deck.subrange(
        deck.len() - dealt_before(players, seat) - share(players, seat),
        deck.len() - dealt_before(players, seat),
    )
}

/// Dealing seat by seat, each time an equal part of what is left, gives every seat its share
/// and uses up the deck.
proof fn lemma_deal(players: int, seat: int)
    requires
        1 <= players <= MAX_PLAYERS,
        0 <= seat <= players,
    ensures
        dealt_before(players, seat) == seat * (54int / players) + if seat > players - 54int % players {
            seat - (players - 54int % players)
        } else {
            0
        },
        seat < players ==> (54int - dealt_before(players, seat)) / (players - seat) == share(
            players,
            seat,
        ),
        seat < players ==> 1 <= share(players, seat) <= 54int - dealt_before(players, seat),
        seat == players ==> dealt_before(players, seat) == 54int,
    decreases seat,
{
    let q = 54int / players;
    let rem = 54int % players;
    vstd::arithmetic::div_mod::lemma_fundamental_div_mod(54int, players);
    assert(q >= 1) by (nonlinear_arith)
        requires
            54int == players * q + rem,
            0 <= rem < players,
            players <= 54int,
    ;
    if seat > 0 {
        lemma_deal(players, seat - 1);
        let s = seat - 1;
        let bump: int = if rem + s >= players {
            1
        } else {
            0
        };
        assert(54int + s == (q + bump) * players + (rem + s - bump * players)) by (nonlinear_arith)
            requires
                54int == players * q + rem,
        ;
        vstd::arithmetic::div_mod::lemma_fundamental_div_mod_converse(
            54int + s,
            players,
            q + bump,
            rem + s - bump * players,
        );
        assert(seat * q == s * q + q) by (nonlinear_arith)
            requires
                seat == s + 1,
        ;
    }
    if seat < players {
        let left = 54int - dealt_before(players, seat);
        let d = players - seat;
        let bump: int = if rem + seat >= players {
            1
        } else {
            0
        };
        assert(54int + seat == (q + bump) * players + (rem + seat - bump * players))
            by (nonlinear_arith)
            requires
                54int == players * q + rem,
        ;
        vstd::arithmetic::div_mod::lemma_fundamental_div_mod_converse(
            54int + seat,
            players,
            q + bump,
            rem + seat - bump * players,
        );
        if seat < players - rem {
            assert(left == q * d + rem) by (nonlinear_arith)
                requires
                    left == 54int - seat * q,
                    54int == players * q + rem,
                    d == players - seat,
            ;
            vstd::arithmetic::div_mod::lemma_fundamental_div_mod_converse(left, d, q, rem);
            assert(q * d >= q) by (nonlinear_arith)
                requires
                    d >= 1,
                    q >= 0,
            ;
        } else {
            assert(left == (q + 1) * d + 0) by (nonlinear_arith)
                requires
                    left == 54int - seat * q - (seat - (players - rem)),
                    54int == players * q + rem,
                    d == players - seat,
            ;
            vstd::arithmetic::div_mod::lemma_fundamental_div_mod_converse(left, d, q + 1, 0);
            assert((q + 1) * d >= q + 1) by (nonlinear_arith)
                requires
                    d >= 1,
                    q >= 0,
            ;
        }
    } else {
        assert(seat * q == players * q) by (nonlinear_arith)
            requires
                seat == players,
        ;
    }
}

impl State {
    /// Deals `deck` to `num_players` players, from the end of the deck back and the first
    /// seat first, and sorts each hand. The first seat leads the first trick.
    pub fn new(num_players: usize, deck: Vec<u8>) -> (state: State)
        requires
            1 <= num_players <= MAX_PLAYERS,
            is_full_deck(deck@),
        ensures
            state@.wf(),
            state@.players() == num_players,
            forall|seat: int|
                0 <= seat < num_players ==> (#[trigger] state@.hands[seat]).to_multiset()
                    == dealt_to(deck@, num_players as int, seat).to_multiset(),
            forall|seat: int|
                0 <= seat < num_players ==> (#[trigger] state@.hands[seat]).len() == share(
                    num_players as int,
                    seat,
                ),
            concat(state@.hands).to_multiset() == DECK@.to_multiset(),
            state@.pile == None::<(u8, u8)>,
            state@.discard == Seq::<u8>::empty(),
            state@.queue == rotation(0, num_players as nat),
            state@.finished == Seq::<u8>::empty(),
    {
        let mut deck = deck;
        let ghost full = deck@;
        let mut hands: Vec<Hand> = Vec::new();
        let mut i: usize = 0;
        proof {
            broadcast use vstd::seq_lib::group_to_multiset_ensures;
            lemma_deck_counts();
            assert(full.len() == full.to_multiset().len());
        }
        while i < num_players
            invariant
                1 <= num_players <= MAX_PLAYERS,
                0 <= i <= num_players,
                full.len() == 54,
                hands@.len() == i,
                deck@ == full.subrange(0, 54 - dealt_before(num_players as int, i as int)),
                0 <= dealt_before(num_players as int, i as int) <= 54,
                forall|seat: int| 0 <= seat < i ==> ascending(#[trigger] hands@[seat]@),
                forall|seat: int|
                    0 <= seat < i ==> (#[trigger] hands@[seat]@).to_multiset() == dealt_to(
                        full,
                        num_players as int,
                        seat,
                    ).to_multiset(),
                forall|seat: int|
                    0 <= seat < i ==> (#[trigger] hands@[seat]@).len() == share(
                        num_players as int,
                        seat,
                    ),
                (concat(views_of(hands@)) + deck@).to_multiset() == full.to_multiset(),
            decreases num_players - i,
        {
            let ghost dealt = views_of(hands@);
            let ghost before = deck@;
            let cards_left = deck.len();
            proof {
                lemma_deal(num_players as int, i as int);
            }
            let num_cards = cards_left / (num_players - i);
            let mut hand = deck.split_off(cards_left - num_cards);
            let ghost chunk = hand@;
            sort_cards(&mut hand);
            hands.push(hand);
            proof {
                broadcast use vstd::seq_lib::group_to_multiset_ensures;
                assert(chunk =~= dealt_to(full, num_players as int, i as int));
                assert(hand@.len() == hand@.to_multiset().len());
                let now = views_of(hands@);
                assert(now.drop_last() =~= dealt);
                assert(before =~= deck@ + chunk);
                vstd::seq_lib::lemma_multiset_commutative(concat(dealt), before);
                vstd::seq_lib::lemma_multiset_commutative(deck@, chunk);
                vstd::seq_lib::lemma_multiset_commutative(concat(dealt), hand@);
                vstd::seq_lib::lemma_multiset_commutative(concat(now), deck@);
            }
            i += 1;
        }
        let mut next_player: VecDeque<u8> = VecDeque::new();
        let mut p: u8 = 0;
        while (p as usize) < num_players
            invariant
                1 <= num_players <= MAX_PLAYERS,
                0 <= p <= num_players,
                next_player@ == rotation(0, num_players as nat).subrange(0, p as int),
            decreases num_players - p,
        {
            next_player.push_back(p);
            p += 1;
            proof {
                lemma_rotation(0, num_players as nat);
            }
        }
        let state = State {
            hands,
            discard: Vec::new(),
            next_player,
            top_card: None,
            finishing_order: Vec::new(),
        };
        proof {
            lemma_deal(num_players as int, num_players as int);
            lemma_rotation(0, num_players as nat);
            assert forall|seat: int| 0 <= seat < state@.hands.len() implies (
            #[trigger] state@.hands[seat]).len() > 0 by {
                lemma_deal(num_players as int, seat);
            }
        }
        state
    }

    /// Puts a state together from its parts.
    pub(crate) fn from_parts(
        hands: Vec<Hand>,
        top_card: Move,
        discard: Vec<u8>,
        next_player: VecDeque<u8>,
        finishing_order: Vec<u8>,
    ) -> (state: State)
        ensures
            state@ == (Game {
                hands: views_of(hands@),
                pile: top_card,
                discard: discard@,
                queue: next_player@,
                finished: finishing_order@,
            }),
    {
        State { hands, top_card, discard, next_player, finishing_order }
    }

    /// The cards played so far.
    pub(crate) fn discard(&self) -> (cards: &Vec<u8>)
        ensures
            cards@ == self@.discard,
    {
        &self.discard
    }

    /// The players still to move in this trick, the next one first.
    pub(crate) fn queue(&self) -> (queue: &VecDeque<u8>)
        ensures
            queue@ == self@.queue,
    {
        &self.next_player
    }

    /// The players who have emptied their hand, the first one first.
    pub(crate) fn finishing_order(&self) -> (finished: &Vec<u8>)
        ensures
            finished@ == self@.finished,
    {
        &self.finishing_order
    }

    /// The number of players.
    pub fn num_players(&self) -> (n: usize)
        ensures
            n == self@.players(),
    {
        self.hands.len()
    }

    /// Whether the game is over.
    pub fn is_terminal(&self) -> (over: bool)
        ensures
            over == self@.is_terminal(),
    {
        self.finishing_order.len() > 0
    }

    /// The player to move.
    pub fn current_player(&self) -> (player: u8)
        requires
            self@.wf(),
        ensures
            player == self@.current_player(),
    {
        self.next_player[0]
    }

    /// The winner of a game that is over.
    pub fn winner(&self) -> (player: u8)
        requires
            self@.is_terminal(),
        ensures
            player == self@.winner(),
    {
        self.finishing_order[0]
    }

    /// The play that the next move has to beat, or `None` when the next player leads.
    pub fn top_card(&self) -> (pile: &Move)
        ensures
            *pile == self@.pile,
    {
        &self.top_card
    }

    /// The hand of the player in seat `seat`.
    pub fn hand(&self, seat: usize) -> (hand: &Hand)
        requires
            seat < self@.players(),
        ensures
            hand@ == self@.hands[seat as int],
    {
        &self.hands[seat]
    }

    /// The moves open to the player to move.
    pub fn moves(&self) -> (result: Vec<Move>)
        requires
            self@.wf(),
        ensures
            result@ == self@.legal_moves(),
    {
        let player = self.next_player[0];
        let hand = &self.hands[player as usize];
        if self.is_terminal() {
            return Vec::new();
        }
        proof {
            lemma_hands_are_hands(self@, player as int);
        }
        match self.top_card {
            None => all_moves(hand),
            Some((count, card)) => moves(hand, count, card),
        }
    }

    /// Makes the move `muve` for the player to move.
    pub fn apply(&mut self, muve: Move)
        requires
            old(self)@.wf(),
            old(self)@.legal_moves().contains(muve),
        ensures
            final(self)@ == old(self)@.apply(muve),
            final(self)@.wf(),
            final(self)@.moves_left_bound() < old(self)@.moves_left_bound(),
    {
        let ghost before = self@;
        proof {
            lemma_legal_moves_playable(before, muve);
            lemma_apply_keeps_wf(before, muve);
        }
        let player = self.next_player.pop_front().unwrap();
        match muve {
            Some((count, card)) => {
                self.next_player.push_back(player);
                let mut played: u8 = 0;
                proof {
                    assert(self@.hands =~= before.hands.update(
                        player as int,
                        without(before.hands[player as int], card, 0),
                    ));
                }
                while played < count
                    invariant
                        0 <= played <= count,
                        before.wf(),
                        player == before.current_player(),
                        player < before.players(),
                        count <= count_of(before.hands[player as int], card),
                        self@ == (Game {
                            hands: before.hands.update(
                                player as int,
                                without(before.hands[player as int], card, played as nat),
                            ),
                            discard: before.discard + copies(card, played as nat),
                            queue: before.queue.drop_first().push(player),
                            ..before
                        }),
                    decreases count - played,
                {
                    proof {
                        lemma_without(before.hands[player as int], card, played as nat);
                    }
                    let ghost discard = self@.discard;
                    self.play_card(player, card);
                    played += 1;
                    proof {
                        assert(discard.push(card) =~= before.discard + copies(card, played as nat));
                        assert(self@.hands =~= before.hands.update(
                            player as int,
                            without(before.hands[player as int], card, played as nat),
                        ));
                    }
                }
                assert(self@.hands[player as int] == self.hands@[player as int]@);
                if self.hands[player as usize].len() == 0 {
                    self.finishing_order.push(player);
                }
                self.top_card = muve;
            },
            None => {},
        }
        if self.next_player.len() == 1 {
            let ghost moved = self@;
            let leader = self.next_player.pop_front().unwrap();
            let num_players = self.hands.len() as u8;
            let mut turn: u8 = 0;
            proof {
                lemma_rotation(leader, num_players as nat);
                assert(self@.queue =~= rotation(leader, num_players as nat).subrange(0, 0));
            }
            while turn < num_players
                invariant
                    0 <= turn <= num_players,
                    leader < num_players <= MAX_PLAYERS,
                    num_players == moved.players(),
                    self@ == (Game {
                        queue: rotation(leader, num_players as nat).subrange(0, turn as int),
                        ..moved
                    }),
                decreases num_players - turn,
            {
                let seat = leader + turn;
                self.next_player.push_back(seat % num_players);
                turn += 1;
                proof {
                    assert(self@.queue =~= rotation(leader, num_players as nat).subrange(
                        0,
                        turn as int,
                    ));
                }
            }
            self.top_card = None;
            proof {
                assert(self@.queue =~= rotation(leader, num_players as nat));
            }
        }
    }

    /// Moves the first card of rank `card` from the hand of `player` to the discard pile.
    fn play_card(&mut self, player: u8, card: u8)
        requires
            player < old(self)@.players(),
            count_of(old(self)@.hands[player as int], card) > 0,
        ensures
            final(self)@ == (Game {
                hands: old(self)@.hands.update(
                    player as int,
                    old(self)@.hands[player as int].remove(
                        first_of(old(self)@.hands[player as int], card),
                    ),
                ),
                discard: old(self)@.discard.push(card),
                ..old(self)@
            }),
    {
        let ghost before = self@;
        let ghost held = self.hands@[player as int]@;
        proof {
            lemma_first_of(held, card);
        }
        let hand = &mut self.hands[player as usize];
        let mut pos: usize = 0;
        while hand[pos] != card
            invariant
                hand@ == held,
                0 <= pos < first_of(held, card) + 1,
                held.len() == hand.len(),
                first_of(held, card) < held.len(),
                forall|i: int| 0 <= i < first_of(held, card) ==> held[i] != card,
                held[first_of(held, card)] == card,
            decreases held.len() - pos,
        {
            pos += 1;
        }
        hand.remove(pos);
        self.discard.push(card);
        proof {
            assert(self@.hands =~= before.hands.update(
                player as int,
                held.remove(first_of(held, card)),
            ));
        }
    }
}

impl Clone for State {
    /// A copy of the state, equal to it in every part.
    fn clone(&self) -> (copy: State)
        ensures
            copy@ == self@,
    {
        let mut hands: Vec<Hand> = Vec::new();
        let mut seat: usize = 0;
        while seat < self.hands.len()
            invariant
                0 <= seat <= self.hands@.len(),
                hands@.len() == seat,
                forall|i: int| 0 <= i < seat ==> (#[trigger] hands@[i])@ == self.hands@[i]@,
            decreases self.hands@.len() - seat,
        {
            hands.push(copy_cards(&self.hands[seat]));
            seat += 1;
        }
        let copy = State {
            hands,
            top_card: self.top_card,
            discard: copy_cards(&self.discard),
            next_player: copy_seats(&self.next_player),
            finishing_order: copy_cards(&self.finishing_order),
        };
        assert(copy@.hands =~= self@.hands);
        copy
    }
}

/// A copy of a queue of seats.
pub(crate) fn copy_seats(seats: &VecDeque<u8>) -> (copy: VecDeque<u8>)
    ensures
        copy@ == seats@,
{
    seats.clone()
}

/// Every hand of a game is a hand: in ascending order, and made of cards of the one deck.
pub proof fn lemma_hands_are_hands(game: Game, seat: int)
    requires
        game.wf(),
        0 <= seat < game.players(),
    ensures
        is_hand(game.hands[seat]),
{
    lemma_deck_counts();
    assert forall|rank: u8| count_of(game.hands[seat], rank) <= copies_in_deck(rank) by {
        lemma_concat_holds(game.hands, seat, rank);
        lemma_count_of_concat(concat(game.hands), game.discard, rank);
    }
}

/// A legal move can be played: a pass is legal only while a pile is to be beaten, and a
/// legal play is made of cards that the player holds and beats the pile.
pub proof fn lemma_legal_moves_playable(game: Game, m: Move)
    requires
        game.wf(),
        game.legal_moves().contains(m),
    ensures
        !game.is_terminal(),
        m is None ==> game.pile is Some,
        playable(game.hands[game.current_player() as int], game.pile, m),
{
    let hand = game.hands[game.current_player() as int];
    assert(game.queue[0] < game.players());
    lemma_hands_are_hands(game, game.current_player() as int);
    assert(!game.is_terminal()) by {
        if game.is_terminal() {
            assert(game.legal_moves() =~= Seq::<Move>::empty());
        }
    }
    assert(hand.len() > 0);
    match game.pile {
        None => {
            lemma_leading_moves_follow_runs(hand);
            assert(leading_moves(hand).contains(m));
            assert(opens_with(hand, TWO as int, m) || (m == Some((1u8, JOKER)) && count_of(
                hand,
                JOKER,
            ) > 0));
        },
        Some((count, rank)) => {
            lemma_continuation_moves_beat_pile(hand, count, rank);
            let all = continuation_moves(hand, count, rank);
            let k = choose|k: int| 0 <= k < all.len() && all[k] == m;
            if k > 0 {
                assert(answers_from(hand, count, rank as int, all[k]));
                let answer = answer_at(hand, count, m.unwrap().1);
                assert(answer.len() == 1 && answer[0] == m);
            }
        },
    }
}

/// A legal move leads from one state of a game to another, and brings the game nearer to
/// its end: the bound on the moves still to come gets smaller. So no game goes on for ever,
/// whatever legal moves the players choose.
pub proof fn lemma_apply_keeps_wf(game: Game, m: Move)
    requires
        game.wf(),
        game.legal_moves().contains(m),
    ensures
        game.apply(m).wf(),
        game.apply(m).moves_left_bound() < game.moves_left_bound(),
{
    let player = game.current_player();
    let hand = game.hands[player as int];
    let moved = game.after_move(m);
    let next = game.apply(m);
    lemma_legal_moves_playable(game, m);
    assert(game.queue[0] < game.players());
    assert forall|i: int, j: int|
        0 <= i < moved.queue.len() && 0 <= j < moved.queue.len() && i != j implies moved.queue[i]
        != moved.queue[j] by {
        let rest = game.queue.drop_first();
        if i < rest.len() {
            assert(rest[i] == game.queue[i + 1]);
        }
        if j < rest.len() {
            assert(rest[j] == game.queue[j + 1]);
        }
    }
    assert forall|i: int| 0 <= i < moved.queue.len() implies (#[trigger] moved.queue[i])
        < game.players() by {
        let rest = game.queue.drop_first();
        if i < rest.len() {
            assert(rest[i] == game.queue[i + 1]);
        }
    }
    match m {
        None => {
            assert(moved.all_cards() == game.all_cards());
        },
        Some((count, rank)) => {
            let left = without(hand, rank, count as nat);
            lemma_without(hand, rank, count as nat);
            assert forall|other: u8|
                moved.all_cards().to_multiset().count(other) == game.all_cards().to_multiset().count(
                    other,
                ) by {
                lemma_concat_update(game.hands, player as int, left, other);
                lemma_count_of_concat(concat(game.hands), game.discard, other);
                lemma_count_of_concat(concat(moved.hands), moved.discard, other);
                lemma_count_of_concat(game.discard, copies(rank, count as nat), other);
                lemma_count_of_uniform(copies(rank, count as nat), other);
            }
            assert(moved.all_cards().to_multiset() =~= game.all_cards().to_multiset()) by {
                broadcast use vstd::multiset::group_multiset_axioms;
            }
            lemma_concat_update(game.hands, player as int, left, rank);
            assert(moved.cards_in_hands() + count == game.cards_in_hands());
            assert(game.cards_in_hands() * 55 >= (moved.cards_in_hands() + 1) * 55)
                by (nonlinear_arith)
                requires
                    moved.cards_in_hands() + count == game.cards_in_hands(),
                    count >= 1,
            ;
        },
    }
    if moved.queue.len() == 1 {
        lemma_rotation(moved.queue[0], game.players());
    }
    assert(next.wf());
    assert(next.cards_in_hands() == moved.cards_in_hands());
    if m is None {
        assert(moved.hands == game.hands);
        assert(game.pile is Some);
    }
}

/// While a game is not over, the player to move has a legal move.
pub proof fn lemma_some_move_is_legal(game: Game)
    requires
        game.wf(),
        !game.is_terminal(),
    ensures
        game.legal_moves().len() > 0,
{
    let player = game.current_player();
    lemma_hands_are_hands(game, player as int);
    match game.pile {
        None => {
            lemma_leading_moves_follow_runs(game.hands[player as int]);
        },
        Some((count, rank)) => {
            lemma_continuation_moves_beat_pile(game.hands[player as int], count, rank);
        },
    }
}

/// The legal moves of a state are all different.
pub proof fn lemma_legal_moves_differ(game: Game)
    requires
        game.wf(),
    ensures
        game.legal_moves().no_duplicates(),
{
    if !game.is_terminal() {
        let player = game.current_player();
        lemma_hands_are_hands(game, player as int);
        match game.pile {
            None => {
                lemma_leading_moves_follow_runs(game.hands[player as int]);
            },
            Some((count, rank)) => {
                lemma_continuation_moves_beat_pile(game.hands[player as int], count, rank);
            },
        }
    }
}

/// No state of a game has more than 3024 moves still to come.
pub proof fn lemma_moves_left_bound(game: Game)
    requires
        game.wf(),
    ensures
        game.cards_in_hands() <= DECK_SIZE,
        game.moves_left_bound() <= 3024,
{
    broadcast use vstd::seq_lib::group_to_multiset_ensures;
    lemma_deck_counts();
    assert(game.all_cards().len() == game.all_cards().to_multiset().len());
}

/// A line of legal moves leads from one state of a game to another with the same players,
/// and is never longer than the bound on the moves still to come: every game ends.
pub proof fn lemma_legal_line_ends(game: Game, line: Seq<Move>)
    requires
        game.wf(),
        game.legal_line(line),
    ensures
        game.after_line(line).wf(),
        game.after_line(line).players() == game.players(),
        game.after_line(line).moves_left_bound() + line.len() <= game.moves_left_bound(),
    decreases line.len(),
{
    if line.len() > 0 {
        lemma_legal_line_ends(game, line.drop_last());
        lemma_apply_keeps_wf(game.after_line(line.drop_last()), line.last());
    }
}

/// Two lines of legal moves, the second from where the first ends, make one.
pub proof fn lemma_lines_join(game: Game, first: Seq<Move>, second: Seq<Move>)
    requires
        game.legal_line(first),
        game.after_line(first).legal_line(second),
    ensures
        game.legal_line(first + second),
        game.after_line(first + second) == game.after_line(first).after_line(second),
    decreases second.len(),
{
    if second.len() > 0 {
        lemma_lines_join(game, first, second.drop_last());
        assert((first + second).drop_last() =~= first + second.drop_last());
    }
}

/// Every state leads to itself; a legal move leads from a state to the next; and where one
/// state leads to a second and the second to a third, the first leads to the third.
pub proof fn lemma_leads_to(game: Game, m: Move, middle: Game, end: Game)
    ensures
        game.leads_to(game),
        game.legal_moves().contains(m) ==> game.leads_to(game.apply(m)),
        game.leads_to(middle) && middle.leads_to(end) ==> game.leads_to(end),
{
    let none = Seq::<Move>::empty();
    assert(game.legal_line(none) && game == game.after_line(none));
    if game.legal_moves().contains(m) {
        let one = seq![m];
        assert(one.drop_last() =~= none);
        assert(game.legal_line(one) && game.apply(m) == game.after_line(one));
    }
    if game.leads_to(middle) && middle.leads_to(end) {
        let first = choose|line: Seq<Move>| #[trigger]
            game.legal_line(line) && middle == game.after_line(line);
        let second = choose|line: Seq<Move>| #[trigger]
            middle.legal_line(line) && end == middle.after_line(line);
        lemma_lines_join(game, first, second);
    }
}

/// A state that is reached by legal moves from a state of a game is a state of a game with
/// the same players.
pub proof fn lemma_leads_to_wf(game: Game, end: Game)
    requires
        game.wf(),
        game.leads_to(end),
    ensures
        end.wf(),
        end.players() == game.players(),
        end.moves_left_bound() <= game.moves_left_bound(),
{
    let line = choose|line: Seq<Move>| #[trigger]
        game.legal_line(line) && end == game.after_line(line);
    lemma_legal_line_ends(game, line);
}

} // verus!
