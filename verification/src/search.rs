//! The search: random playouts, and a tree of the moves tried so far that the playouts'
//! results grow and guide.

use vstd::prelude::*;
use vstd::string::StringExecFns;
use rand::XorShiftRng;
use crate::cards::Move;
use crate::chance::{pick, shuffle};
use crate::score::{uct_key, uct_score};
use crate::state::{
    lemma_leads_to, lemma_legal_moves_differ, lemma_some_move_is_legal, Game, State,
};
use crate::text::{
    decimal_text, move_debug_text, moves_debug_text, write_decimal, write_move_debug,
    write_moves_debug,
};

verus! {

/// Plays the game to its end with moves picked at random from the legal ones. However the
/// picks fall, the game ends, and the state it ends in is reached by legal moves alone.
pub fn play_randomly(state: &mut State, rng: &mut XorShiftRng)
    requires
        old(state)@.wf(),
    ensures
        final(state)@.wf(),
        final(state)@.is_terminal(),
        old(state)@.leads_to(final(state)@),
        old(state)@.is_terminal() ==> final(state)@ == old(state)@,
{
    let ghost start = state@;
    let ghost line = Seq::<Move>::empty();
    while !state.is_terminal()
        invariant
            start.wf(),
            state@.wf(),
            start.legal_line(line),
            state@ == start.after_line(line),
            start.is_terminal() ==> line.len() == 0,
        decreases state@.moves_left_bound(),
    {
        let moves = state.moves();
        proof {
            lemma_some_move_is_legal(state@);
        }
        let action = pick(rng, &moves).unwrap();
        state.apply(action);
        proof {
            let longer = line.push(action);
            assert(longer.drop_last() =~= line);
            line = longer;
        }
    }
}

/// Text put after text put after text is the first text before the other two together.
proof fn lemma_concat_twice(a: Seq<char>, b: Seq<char>, c: Seq<char>)
    ensures
        (a + b) + c == a + (b + c),
{
}

/// The tag of a root: no player moved into it.
pub const NOBODY: u8 = 255;

/// A node of the search tree: the position after one move, with the moves tried from it and
/// the results of the simulations that went through it.
pub struct Node {
    children: Vec<(Move, Node)>,
    untried_moves: Vec<Move>,
    player: u8,
    wins: u64,
    plays: u64,
}

/// `best` is the place of the greatest of `keys`, and of the last one where several are
/// greatest.
pub open spec fn is_last_best(keys: Seq<nat>, best: int) -> bool {
    &&& 0 <= best < keys.len()
    &&& forall|i: int| 0 <= i < keys.len() ==> keys[i] <= keys[best]
    &&& forall|i: int| best < i < keys.len() ==> keys[i] < keys[best]
}

/// The sum of the counts.
pub open spec fn sum_of(counts: Seq<nat>) -> nat
    decreases counts.len(),
{
    if counts.len() == 0 {
        0
    } else {
        sum_of(counts.drop_last()) + counts.last()
    }
}

/// One more count adds itself to the sum.
pub proof fn lemma_sum_of_push(counts: Seq<nat>, count: nat)
    ensures
        sum_of(counts.push(count)) == sum_of(counts) + count,
{
    assert(counts.push(count).drop_last() =~= counts);
}

/// Changing one count changes the sum by as much.
pub proof fn lemma_sum_of_update(counts: Seq<nat>, i: int, count: nat)
    requires
        0 <= i < counts.len(),
    ensures
        sum_of(counts.update(i, count)) + counts[i] == sum_of(counts) + count,
    decreases counts.len(),
{
    let changed = counts.update(i, count);
    if i == counts.len() - 1 {
        assert(changed.drop_last() =~= counts.drop_last());
    } else {
        assert(changed.drop_last() =~= counts.drop_last().update(i, count));
        lemma_sum_of_update(counts.drop_last(), i, count);
    }
}

/// Only one place is the last of the best.
pub proof fn lemma_last_best_unique(keys: Seq<nat>, a: int, b: int)
    requires
        is_last_best(keys, a),
        is_last_best(keys, b),
    ensures
        a == b,
{
    if a < b {
        assert(keys[b] < keys[a]);
    } else if b < a {
        assert(keys[a] < keys[b]);
    }
}

impl Node {
    /// The player who made the move that leads into this node.
    pub closed spec fn mover(&self) -> u8 {
        self.player
    }

    /// The number of simulations that went through this node.
    pub closed spec fn play_count(&self) -> nat {
        self.plays as nat
    }

    /// The number of those simulations that the mover won.
    pub closed spec fn win_count(&self) -> nat {
        self.wins as nat
    }

    /// The moves not tried yet; the last one is tried next.
    pub closed spec fn untried(&self) -> Seq<Move> {
        self.untried_moves@
    }

    /// The children, each with the move that leads to it, in the order in which they were
    /// tried.
    pub closed spec fn children(&self) -> Seq<(Move, Node)> {
        self.children@
    }

    /// The moves tried, in the order in which they were tried.
    pub open spec fn tried(&self) -> Seq<Move> {
        Seq::new(self.children().len(), |i: int| self.children()[i].0)
    }

    /// The number of simulations that went through each child.
    pub open spec fn child_plays(&self) -> Seq<nat> {
        Seq::new(self.children().len(), |i: int| self.children()[i].1.play_count())
    }

    /// The score of each child under this node, given the scaled logarithm of this node's
    /// number of simulations.
    pub open spec fn child_keys(&self, ln_visits: nat) -> Seq<nat> {
        Seq::new(
            self.children().len(),
            |i: int|
                uct_key(
                    self.children()[i].1.win_count(),
                    self.children()[i].1.play_count(),
                    ln_visits,
                ),
        )
    }

    /// `m` is the move of the child that the most simulations went through, and of the last
    /// such child where several tie.
    pub open spec fn most_visited_move(&self, m: Move) -> bool {
        exists|best: int|
            is_last_best(self.child_plays(), best) && m == #[trigger] self.tried()[best]
    }

    /// The tree below this node was grown from the state `game`: the moves tried and those
    /// still untried are together the legal moves of `game`, each once; no node counts more
    /// wins than simulations; and every child was moved into by the player to move in
    /// `game`, has been simulated, and was itself grown from the state that its move leads
    /// to.
    pub open spec fn grown_from(&self, game: Game) -> bool
        decreases self,
    {
        &&& (self.tried() + self.untried()).to_multiset() == game.legal_moves().to_multiset()
        &&& self.win_count() <= self.play_count()
        &&& forall|i: int|
            0 <= i < self.children().len() ==> {
                &&& (#[trigger] self.children()[i]).1.mover() == game.current_player()
                &&& self.children()[i].1.play_count() >= 1
                &&& self.children()[i].1.grown_from(game.apply(self.children()[i].0))
            }
    }

    /// No node of the tree has been simulated `limit` times or more.
    pub open spec fn within(&self, limit: nat) -> bool
        decreases self,
    {
        &&& self.play_count() < limit
        &&& forall|i: int|
            0 <= i < self.children().len() ==> (#[trigger] self.children()[i]).1.within(limit)
    }

    /// This node after one more simulation, won by its mover or not.
    pub closed spec fn with_result(&self, won: bool) -> Node {
        Node {
            children: self.children,
            untried_moves: self.untried_moves,
            player: self.player,
            wins: if won {
                (self.wins + 1) as u64
            } else {
                self.wins
            },
            plays: (self.plays + 1) as u64,
        }
    }

    /// The line of this node in the text of a tree: after the indentation `indent` the move
    /// `m` that leads to the node, the mover, the wins and simulations, and the untried
    /// moves.
    pub open spec fn line_text(&self, indent: Seq<char>, m: Move) -> Seq<char> {
        "\n"@ + indent + move_debug_text(m) + ": [P:"@ + decimal_text(self.mover() as nat)
            + " W/P:"@ + decimal_text(self.win_count()) + "/"@ + decimal_text(self.play_count())
            + " U:"@ + moves_debug_text(self.untried()) + "]"@
    }

    /// The text of the tree below this node, which the move `m` leads to: the node's own
    /// line after the indentation `indent`, then the text of each child, one step further
    /// in.
    pub open spec fn tree_text(&self, indent: Seq<char>, m: Move) -> Seq<char>
        decreases self, 1nat, 0nat,
    {
        self.line_text(indent, m) + self.subtrees_text(indent + "| "@, self.children().len())
    }

    /// The text of the first `upto` children, each with its tree, after the indentation
    /// `indent`.
    pub open spec fn subtrees_text(&self, indent: Seq<char>, upto: nat) -> Seq<char>
        decreases self, 0nat, upto,
    {
        if upto == 0 || upto > self.children().len() {
            Seq::empty()
        } else {
            self.subtrees_text(indent, (upto - 1) as nat) + self.children()[upto - 1].1.tree_text(
                indent,
                self.children()[upto - 1].0,
            )
        }
    }

    /// A tree that stays under a limit stays under every greater one.
    pub proof fn lemma_within_grows(&self, limit: nat, greater: nat)
        requires
            self.within(limit),
            limit <= greater,
        ensures
            self.within(greater),
        decreases self,
    {
        assert forall|i: int| 0 <= i < self.children@.len() implies (
        #[trigger] self.children()[i]).1.within(greater) by {
            self.children()[i].1.lemma_within_grows(limit, greater);
        }
    }

    /// A node stays grown from a state when its next untried move becomes a child that was
    /// grown from the state after that move.
    proof fn lemma_child_added(&self, after: Node, game: Game, move_: Move, node: Node)
        requires
            self.grown_from(game),
            after.children@ == self.children@.push((move_, node)),
            self.untried_moves@ == after.untried_moves@.push(move_),
            after.wins == self.wins,
            after.plays == self.plays,
            node.player == game.current_player(),
            node.plays >= 1,
            node.grown_from(game.apply(move_)),
        ensures
            after.grown_from(game),
    {
        broadcast use vstd::seq_lib::group_to_multiset_ensures;
        assert(after.tried() =~= self.tried().push(move_));
        vstd::seq_lib::lemma_multiset_commutative(after.tried(), after.untried_moves@);
        vstd::seq_lib::lemma_multiset_commutative(self.tried(), self.untried_moves@);
        assert((after.tried() + after.untried_moves@).to_multiset() =~= (self.tried()
            + self.untried_moves@).to_multiset());
    }

    /// A tree under a limit stays under the next limit when its root gets a child that has
    /// been simulated once and has no children.
    proof fn lemma_child_added_within(&self, after: Node, limit: nat, move_: Move, node: Node)
        requires
            self.within(limit),
            after.children@ == self.children@.push((move_, node)),
            after.plays == self.plays,
            node.within(2),
        ensures
            after.within(limit + 1),
    {
        assert forall|i: int| 0 <= i < after.children@.len() implies (
        #[trigger] after.children()[i]).1.within(limit + 1) by {
            if i < self.children@.len() {
                assert(after.children()[i] == self.children()[i]);
                after.children()[i].1.lemma_within_grows(limit, limit + 1);
            } else {
                node.lemma_within_grows(2, limit + 1);
            }
        }
    }

    /// A node without children or results, moved into by `player`, that has the moves
    /// `untried_moves` to try, the last one first.
    pub fn new(player: u8, untried_moves: Vec<Move>) -> (node: Node)
        ensures
            node.mover() == player,
            node.untried() == untried_moves@,
            node.children().len() == 0,
            node.play_count() == 0,
            node.win_count() == 0,
            node.within(1),
            forall|game: Game|
                untried_moves@.to_multiset() == game.legal_moves().to_multiset()
                    ==> #[trigger] node.grown_from(game),
    {
        Node { children: Vec::new(), untried_moves, player, plays: 0, wins: 0 }
    }

    /// The number of simulations that went through this node.
    pub fn plays(&self) -> (n: u64)
        ensures
            n == self.play_count(),
    {
        self.plays
    }

    /// The number of simulations through this node that its mover won.
    pub fn wins(&self) -> (n: u64)
        ensures
            n == self.win_count(),
    {
        self.wins
    }

    /// Counts one more simulation, which ended in `state`, and one more win if the mover
    /// of this node won it.
    pub fn update(&mut self, state: &State)
        requires
            state@.is_terminal(),
            old(self).win_count() <= old(self).play_count() < u64::MAX,
        ensures
            *final(self) == old(self).with_result(state@.winner() == old(self).mover()),
            final(self).play_count() == old(self).play_count() + 1,
            final(self).win_count() == old(self).win_count() + if state@.winner() == old(
                self,
            ).mover() {
                1nat
            } else {
                0nat
            },
            final(self).mover() == old(self).mover(),
            final(self).untried() == old(self).untried(),
            final(self).children() == old(self).children(),
            forall|game: Game| old(self).grown_from(game) ==> final(self).grown_from(game),
            forall|limit: nat| old(self).within(limit) ==> final(self).within(limit + 1),
    {
        let ghost before = *self;
        self.plays += 1;
        if state.winner() == self.player {
            self.wins += 1;
        }
        proof {
            assert forall|limit: nat| before.within(limit) implies self.within(limit + 1) by {
                assert forall|i: int| 0 <= i < self.children@.len() implies (
                #[trigger] self.children()[i]).1.within(limit + 1) by {
                    assert(before.children()[i].1.within(limit));
                    self.children()[i].1.lemma_within_grows(limit, limit + 1);
                }
            }
        }
    }

    /// The child to descend into: the one with the greatest score, and the last of those
    /// where several score the same. `ln_table` holds at each index the scaled natural
    /// logarithm of the index.
    pub fn select_child(&self, ln_table: &Vec<u64>) -> (best: usize)
        requires
            self.children().len() > 0,
            forall|i: int| 0 <= i < self.children().len() ==> self.child_plays()[i] >= 1,
            self.play_count() < ln_table@.len(),
        ensures
            is_last_best(self.child_keys(ln_table@[self.play_count() as int] as nat), best as int),
    {
        let entries = ln_table.len();
        assert(self.plays < entries);
        let ln_visits = ln_table[self.plays as usize];
        let ghost keys = self.child_keys(ln_visits as nat);
        let mut best: usize = 0;
        assert(self.child_plays()[0] >= 1);
        let mut best_score = uct_score(self.children[0].1.wins, self.children[0].1.plays, ln_visits);
        let mut i: usize = 1;
        while i < self.children.len()
            invariant
                1 <= i <= self.children@.len(),
                keys == self.child_keys(ln_visits as nat),
                forall|k: int| 0 <= k < self.children().len() ==> self.child_plays()[k] >= 1,
                best < i,
                best_score == keys[best as int],
                forall|k: int| 0 <= k < i ==> keys[k] <= keys[best as int],
                forall|k: int| best < k < i ==> keys[k] < keys[best as int],
            decreases self.children@.len() - i,
        {
            assert(self.child_plays()[i as int] >= 1);
            let score = uct_score(self.children[i].1.wins, self.children[i].1.plays, ln_visits);
            if score >= best_score {
                best = i;
                best_score = score;
            }
            i += 1;
        }
        best
    }

    /// Tries the next untried move: makes it in `state`, plays the game out at random from
    /// there, and adds a child for the move, with the result of that one simulation and with
    /// the moves open after the move, shuffled, still to try.
    pub fn add_child(&mut self, state: &mut State, rng: &mut XorShiftRng)
        requires
            old(state)@.wf(),
            old(self).grown_from(old(state)@),
            old(self).untried().len() > 0,
        ensures
            final(state)@.wf(),
            final(state)@.is_terminal(),
            old(state)@.apply(old(self).untried().last()).leads_to(final(state)@),
            final(self).grown_from(old(state)@),
            final(self).mover() == old(self).mover(),
            final(self).play_count() == old(self).play_count(),
            final(self).win_count() == old(self).win_count(),
            final(self).untried() == old(self).untried().drop_last(),
            final(self).children().len() == old(self).children().len() + 1,
            final(self).children().drop_last() == old(self).children(),
            final(self).children().last().0 == old(self).untried().last(),
            final(self).children().last().1.mover() == old(state)@.current_player(),
            final(self).children().last().1.play_count() == 1,
            final(self).children().last().1.win_count() == if final(state)@.winner() == old(
                state,
            )@.current_player() {
                1nat
            } else {
                0nat
            },
            final(self).children().last().1.children().len() == 0,
            final(self).children().last().1.untried().to_multiset() == old(state)@.apply(
                old(self).untried().last(),
            ).legal_moves().to_multiset(),
            forall|limit: nat| old(self).within(limit) ==> final(self).within(limit + 1),
    {
        let ghost game = state@;
        let ghost before = *self;
        let player = state.current_player();
        let move_ = self.untried_moves.pop().unwrap();
        proof {
            broadcast use vstd::seq_lib::group_to_multiset_ensures;
            let all = before.tried() + before.untried_moves@;
            assert(all[all.len() - 1] == move_);
            assert(game.legal_moves().to_multiset().count(move_) > 0);
        }
        state.apply(move_);
        let mut moves = state.moves();
        shuffle(rng, &mut moves);
        let mut node = Node::new(player, moves);
        play_randomly(state, rng);
        node.update(state);
        self.children.push((move_, node));
        proof {
            assert(before.untried_moves@ =~= self.untried_moves@.push(move_));
            before.lemma_child_added(*self, game, move_, node);
            assert forall|limit: nat| before.within(limit) implies self.within(limit + 1) by {
                before.lemma_child_added_within(*self, limit, move_, node);
            }
        }
    }

    /// One simulation from this node, which was grown from `state`: descends by the
    /// greatest score through the nodes that have tried all their moves, tries one new move
    /// where it finds one untried, plays the game out at random, and counts the result in
    /// every node on the way back up. `state` is played to its end on the way.
    pub fn uct(&mut self, state: &mut State, rng: &mut XorShiftRng, ln_table: &Vec<u64>)
        requires
            old(state)@.wf(),
            old(self).grown_from(old(state)@),
            old(self).within(ln_table@.len()),
        ensures
            final(state)@.wf(),
            final(state)@.is_terminal(),
            old(state)@.leads_to(final(state)@),
            final(self).grown_from(old(state)@),
            final(self).mover() == old(self).mover(),
            final(self).play_count() == old(self).play_count() + 1,
            final(self).win_count() == old(self).win_count() + if final(state)@.winner() == old(
                self,
            ).mover() {
                1nat
            } else {
                0nat
            },
            old(self).untried().len() > 0 ==> {
                &&& final(self).untried() == old(self).untried().drop_last()
                &&& final(self).children().len() == old(self).children().len() + 1
                &&& final(self).children().drop_last() == old(self).children()
                &&& final(self).children().last().0 == old(self).untried().last()
                &&& final(self).children().last().1.mover() == old(state)@.current_player()
                &&& final(self).children().last().1.play_count() == 1
                &&& final(self).children().last().1.win_count() == if final(state)@.winner()
                    == old(state)@.current_player() {
                    1nat
                } else {
                    0nat
                }
                &&& final(self).children().last().1.children().len() == 0
                &&& final(self).children().last().1.untried().to_multiset() == old(state)@.apply(
                    old(self).untried().last(),
                ).legal_moves().to_multiset()
            },
            old(self).untried().len() == 0 ==> {
                &&& final(self).untried() == old(self).untried()
                &&& final(self).tried() == old(self).tried()
                &&& old(self).children().len() > 0 ==> exists|best: int|
                    #![trigger old(self).child_plays()[best]]
                    is_last_best(
                        old(self).child_keys(ln_table@[old(self).play_count() as int] as nat),
                        best,
                    ) && final(self).child_plays() == old(self).child_plays().update(
                        best,
                        old(self).child_plays()[best] + 1,
                    )
                &&& forall|best: int|
                    is_last_best(
                        old(self).child_keys(ln_table@[old(self).play_count() as int] as nat),
                        best,
                    ) ==> final(self).child_plays() == old(self).child_plays().update(
                        best,
                        old(self).child_plays()[best] + 1,
                    )
            },
            old(state)@.legal_moves().len() > 0 ==> final(self).children().len() > 0,
            old(state)@.legal_moves().len() > 0 ==> sum_of(final(self).child_plays()) == sum_of(
                old(self).child_plays(),
            ) + 1,
            forall|limit: nat| old(self).within(limit) ==> final(self).within(limit + 1),
        decreases *old(self),
    {
        let ghost game = state@;
        let ghost before = *self;
        proof {
            broadcast use vstd::seq_lib::group_to_multiset_ensures;
            let all = before.tried() + before.untried_moves@;
            assert(all.len() == all.to_multiset().len());
        }
        if self.untried_moves.len() == 0 && self.children.len() > 0 {
            let i = self.select_child(ln_table);
            let move_ = self.children[i].0;
            proof {
                broadcast use vstd::seq_lib::group_to_multiset_ensures;
                let all = before.tried() + before.untried_moves@;
                assert(all[i as int] == move_);
                assert(game.legal_moves().to_multiset().count(move_) > 0);
            }
            state.apply(move_);
            let ghost moved = state@;
            let child = &mut self.children[i];
            child.1.uct(state, rng, ln_table);
            proof {
                lemma_leads_to(game, move_, moved, state@);
                assert forall|best: int|
                    is_last_best(
                        before.child_keys(ln_table@[before.play_count() as int] as nat),
                        best,
                    ) implies self.child_plays() == before.child_plays().update(
                    best,
                    before.child_plays()[best] + 1,
                ) by {
                    lemma_last_best_unique(
                        before.child_keys(ln_table@[before.play_count() as int] as nat),
                        best,
                        i as int,
                    );
                    assert forall|k: int| 0 <= k < self.children().len() && k != i implies self.children()[k]
                        == before.children()[k] by {}
                    assert(self.child_plays() =~= before.child_plays().update(
                        best,
                        before.child_plays()[best] + 1,
                    ));
                }
                assert(self.tried() =~= before.tried());
                assert forall|k: int| 0 <= k < self.children().len() && k != i implies self.children()[k]
                    == before.children()[k] by {}
                assert(self.child_plays() =~= before.child_plays().update(
                    i as int,
                    before.child_plays()[i as int] + 1,
                ));
                lemma_sum_of_update(
                    before.child_plays(),
                    i as int,
                    before.child_plays()[i as int] + 1,
                );
                assert forall|limit: nat| before.within(limit) implies self.within(limit + 1)
                    && self.plays + 1 < limit + 1 by {
                    assert forall|k: int| 0 <= k < self.children@.len() implies (
                    #[trigger] self.children()[k]).1.within(limit + 1) by {
                        assert(before.children()[k].1.within(limit));
                        if k != i {
                            self.children()[k].1.lemma_within_grows(limit, limit + 1);
                        }
                    }
                }
            }
        } else if self.untried_moves.len() > 0 {
            let ghost next = self.untried_moves@.last();
            proof {
                broadcast use vstd::seq_lib::group_to_multiset_ensures;
                let all = before.tried() + before.untried_moves@;
                assert(all[all.len() - 1] == next);
                assert(game.legal_moves().to_multiset().count(next) > 0);
            }
            self.add_child(state, rng);
            proof {
                lemma_leads_to(game, next, game.apply(next), state@);
                assert(self.child_plays().drop_last() =~= before.child_plays());
                assert(self.child_plays() =~= before.child_plays().push(1));
                lemma_sum_of_push(before.child_plays(), 1);
            }
        } else {
            proof {
                if !game.is_terminal() {
                    lemma_some_move_is_legal(game);
                }
                lemma_leads_to(game, None, game, game);
            }
        }
        let entries = ln_table.len();
        assert(self.plays < entries);
        let ghost grown = *self;
        self.update(state);
        assert(self.child_plays() =~= grown.child_plays());
    }

    /// The number of children.
    pub fn child_count(&self) -> (n: usize)
        ensures
            n == self.children().len(),
    {
        self.children.len()
    }

    /// The move that leads to the child at place `i`.
    pub fn child_move(&self, i: usize) -> (m: Move)
        requires
            i < self.children().len(),
        ensures
            m == self.tried()[i as int],
    {
        self.children[i].0
    }

    /// The child at place `i`.
    pub fn child(&self, i: usize) -> (node: &Node)
        requires
            i < self.children().len(),
        ensures
            *node == self.children()[i as int].1,
    {
        &self.children[i].1
    }

    /// The moves tried from a node are legal in the state that it was grown from, and no
    /// move was tried twice.
    pub proof fn lemma_tried_moves(&self, game: Game)
        requires
            game.wf(),
            self.grown_from(game),
        ensures
            self.tried().no_duplicates(),
            forall|i: int|
                0 <= i < self.tried().len() ==> game.legal_moves().contains(
                    #[trigger] self.tried()[i],
                ),
            self.tried().len() + self.untried().len() == game.legal_moves().len(),
            forall|i: int|
                0 <= i < self.children().len() ==> (#[trigger] self.children()[i]).1.play_count()
                    >= 1,
    {
        broadcast use vstd::seq_lib::group_to_multiset_ensures;
        let all = self.tried() + self.untried_moves@;
        let legal = game.legal_moves();
        lemma_legal_moves_differ(game);
        legal.lemma_multiset_has_no_duplicates();
        all.lemma_multiset_has_no_duplicates_conv();
        assert(all.len() == all.to_multiset().len());
        assert forall|i: int, j: int|
            0 <= i < self.tried().len() && 0 <= j < self.tried().len() && i != j implies self.tried()[i]
            != self.tried()[j] by {
            assert(all[i] == self.tried()[i] && all[j] == self.tried()[j]);
        }
        assert forall|i: int| 0 <= i < self.tried().len() implies legal.contains(
            #[trigger] self.tried()[i],
        ) by {
            assert(all[i] == self.tried()[i]);
            assert(legal.to_multiset().count(self.tried()[i]) > 0);
        }
    }

    /// In a tree that stays under a limit, every child of the root does.
    pub proof fn lemma_children_within(&self, limit: nat)
        requires
            self.within(limit),
        ensures
            self.play_count() < limit,
            forall|i: int|
                0 <= i < self.children().len() ==> (#[trigger] self.child_plays()[i]) < limit,
    {
        assert forall|i: int| 0 <= i < self.children().len() implies (
        #[trigger] self.child_plays()[i]) < limit by {
            assert(self.children()[i].1.within(limit));
        }
    }

    /// The tree as text, one line for each node and the lines of a node's children, each
    /// one step further in, below its own.
    pub fn tree_string(&self) -> (text: String)
        ensures
            text@ == self.tree_text(Seq::empty(), None),
    {
        let mut text = String::new();
        let indent = String::new();
        self.write_tree(&indent, None, &mut text);
        text
    }

    /// The line of this node in the text of a tree.
    fn line(&self, indent: &String, m: Move) -> (line: String)
        ensures
            line@ == self.line_text(indent@, m),
    {
        let mut line = String::from_str("\n");
        line.append(indent.as_str());
        write_move_debug(&mut line, m);
        line.append(": [P:");
        write_decimal(&mut line, self.player as u64);
        line.append(" W/P:");
        write_decimal(&mut line, self.wins);
        line.append("/");
        write_decimal(&mut line, self.plays);
        line.append(" U:");
        write_moves_debug(&mut line, &self.untried_moves);
        line.append("]");
        line
    }

    /// Writes the tree at the end of `w`: the line of this node, which the move `m` leads
    /// to, after the indentation `indent`, then its children.
    fn write_tree(&self, indent: &String, m: Move, w: &mut String)
        ensures
            final(w)@ == old(w)@ + self.tree_text(indent@, m),
        decreases self,
    {
        let line = self.line(indent, m);
        let mut deeper = indent.clone();
        deeper.append("| ");
        let mut below = String::new();
        let mut i: usize = 0;
        while i < self.children.len()
            invariant
                0 <= i <= self.children@.len(),
                deeper@ == indent@ + "| "@,
                below@ == self.subtrees_text(deeper@, i as nat),
            decreases self.children@.len() - i,
        {
            self.children[i].1.write_tree(&deeper, self.children[i].0, &mut below);
            i += 1;
        }
        w.append(line.as_str());
        w.append(below.as_str());
        proof {
            lemma_concat_twice(old(w)@, line@, below@);
        }
    }

    /// The child that the most simulations went through, and the last of those where several
    /// tie.
    pub fn most_visited(&self) -> (best: usize)
        requires
            self.children().len() > 0,
        ensures
            is_last_best(self.child_plays(), best as int),
    {
        let ghost plays = self.child_plays();
        let mut best: usize = 0;
        let mut i: usize = 1;
        while i < self.children.len()
            invariant
                1 <= i <= self.children@.len(),
                plays == self.child_plays(),
                best < i,
                forall|k: int| 0 <= k < i ==> plays[k] <= plays[best as int],
                forall|k: int| best < k < i ==> plays[k] < plays[best as int],
            decreases self.children@.len() - i,
        {
            if self.children[i].1.plays >= self.children[best].1.plays {
                best = i;
            }
            i += 1;
        }
        best
    }
}

} // verus!
