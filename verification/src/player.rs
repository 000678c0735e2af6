//! Players: what decides on a move, from the full state or from a player's view of it.

use vstd::prelude::*;
use rand::XorShiftRng;
use crate::cards::Move;
use crate::chance::fresh_rng;
use crate::partial::{lemma_view_of_game, PartialState};
use crate::recommend::{best_move, grow_tree};
use crate::search::{Node, NOBODY};
use crate::state::State;

verus! {

/// A player who sees the full state.
pub trait Player {
    /// The move that the player makes in the state `s`: one of its legal moves.
    fn choose_move(&mut self, s: State) -> (m: Move)
        requires
            s@.wf(),
            !s@.is_terminal(),
        ensures
            s@.legal_moves().contains(m),
            s@.legal_moves().len() == 1 ==> m == s@.legal_moves()[0],
    ;
}

/// A player who sees only their own view of the state.
pub trait FairPlayer {
    /// The move that the player makes in the position that `p` shows: one of its legal
    /// moves.
    fn choose_move(&mut self, p: PartialState) -> (m: Move)
        requires
            p@.wf(),
            !p@.is_terminal(),
        ensures
            p@.legal_moves().contains(m),
            p@.legal_moves().len() == 1 ==> m == p@.legal_moves()[0],
    ;
}

impl<T: FairPlayer> Player for T {
    /// A fair player plays the full state by looking only at the view that the player to
    /// move has of it.
    fn choose_move(&mut self, s: State) -> (m: Move) {
        proof {
            lemma_view_of_game(s@);
        }
        FairPlayer::choose_move(self, s.to_partial_state())
    }
}

/// How much a player searches for a move: the number of search trees, the number of
/// simulations in each, and the logarithms that the search scores by. The table of
/// logarithms is long enough for the simulations of one tree.
struct Budget {
    reals: usize,
    iters: usize,
    ln_table: Vec<u64>,
}

impl Budget {
    #[verifier::type_invariant]
    spec fn inv(self) -> bool {
        &&& 1 <= self.reals
        &&& 1 <= self.iters <= self.ln_table@.len()
        &&& self.reals * self.iters <= u64::MAX
    }

    /// A budget of `reals` trees of `iters` simulations each. `ln_table` holds at each index
    /// the scaled natural logarithm of the index.
    fn new(reals: usize, iters: usize, ln_table: Vec<u64>) -> (budget: Budget)
        requires
            1 <= reals,
            1 <= iters <= ln_table@.len(),
            reals * iters <= u64::MAX,
        ensures
            budget.reals == reals,
            budget.iters == iters,
            budget.ln_table == ln_table,
    {
        Budget { reals, iters, ln_table }
    }
}

/// A player that searches the full state, hidden hands included.
pub struct CheatingUCT {
    rng: XorShiftRng,
    budget: Budget,
}

impl CheatingUCT {
    /// The number of simulations that the player runs for a move.
    pub closed spec fn iters(&self) -> usize {
        self.budget.iters
    }

    /// The logarithms that the player's search scores by.
    pub closed spec fn ln_table(&self) -> Seq<u64> {
        self.budget.ln_table@
    }

    /// A player that runs `iters` simulations for a move, with a random source of its own.
    /// `ln_table` holds at each index the scaled natural logarithm of the index.
    pub fn new(iters: usize, ln_table: Vec<u64>) -> (player: CheatingUCT)
        requires
            1 <= iters <= ln_table@.len(),
        ensures
            player.iters() == iters,
            player.ln_table() == ln_table@,
    {
        CheatingUCT { rng: fresh_rng(), budget: Budget::new(1, iters, ln_table) }
    }
}

impl Player for CheatingUCT {
    /// The only legal move where there is just one; else the move that the most
    /// simulations of one search tree went through, grown from the state with the
    /// player's number of simulations. The player's budget stays as it is.
    fn choose_move(&mut self, s: State) -> (m: Move)
        ensures
            final(self).iters() == old(self).iters(),
            final(self).ln_table() == old(self).ln_table(),
            s@.legal_moves().len() != 1 ==> exists|tree: Node|
                #![trigger tree.grown_from(s@)]
                {
                    &&& tree.grown_from(s@)
                    &&& tree.mover() == NOBODY
                    &&& tree.play_count() == old(self).iters()
                    &&& tree.most_visited_move(m)
                },
    {
        proof {
            use_type_invariant(&self.budget);
        }
        let moves = s.moves();
        if moves.len() == 1 {
            return moves[0];
        }
        let root = grow_tree(&s, self.budget.iters, &mut self.rng, &self.budget.ln_table);
        let best = root.most_visited();
        proof {
            root.lemma_tried_moves(s@);
            assert(root.most_visited_move(root.tried()[best as int]));
        }
        root.child_move(best)
    }
}

/// A player that searches completions of its own view of the state.
pub struct FairUCT {
    rng: XorShiftRng,
    budget: Budget,
}

impl FairUCT {
    /// The number of search trees that the player grows for a move.
    pub closed spec fn reals(&self) -> usize {
        self.budget.reals
    }

    /// The number of simulations that the player runs in each tree.
    pub closed spec fn iters(&self) -> usize {
        self.budget.iters
    }

    /// The logarithms that the player's search scores by.
    pub closed spec fn ln_table(&self) -> Seq<u64> {
        self.budget.ln_table@
    }

    /// A player that grows `reals` search trees of `iters` simulations each for a move, with
    /// a random source of its own. `ln_table` holds at each index the scaled natural
    /// logarithm of the index.
    pub fn new(reals: usize, iters: usize, ln_table: Vec<u64>) -> (player: FairUCT)
        requires
            1 <= reals,
            1 <= iters <= ln_table@.len(),
            reals * iters <= u64::MAX,
        ensures
            player.reals() == reals,
            player.iters() == iters,
            player.ln_table() == ln_table@,
    {
        FairUCT { rng: fresh_rng(), budget: Budget::new(reals, iters, ln_table) }
    }
}

impl FairPlayer for FairUCT {
    /// The move that `best_move` recommends for the player's budget.
    fn choose_move(&mut self, p: PartialState) -> (m: Move) {
        proof {
            use_type_invariant(&self.budget);
        }
        best_move(&p, self.budget.reals, self.budget.iters, &mut self.rng, &self.budget.ln_table)
    }
}

} // verus!
