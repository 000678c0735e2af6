//! The move recommender: grows search trees, one for each way in which the cards that a
//! player does not see may lie, and adds up what the trees say.

use vstd::prelude::*;
use rand::XorShiftRng;
use crate::cards::Move;
use crate::chance::shuffle;
use crate::partial::{lemma_same_moves, PartialGame, PartialState};
use crate::search::{sum_of, Node, NOBODY};
use crate::state::{lemma_legal_moves_differ, lemma_some_move_is_legal, Game, State};

verus! {

/// The number counted for `m`, which is zero where none is held.
pub open spec fn count_for(counts: Map<Move, nat>, m: Move) -> nat {
    if counts.contains_key(m) {
        counts[m]
    } else {
        0
    }
}

/// The counts after each of the first `upto` of `moves` has had its number of `plays` added
/// to the counts `before`.
pub open spec fn counted(before: Map<Move, nat>, moves: Seq<Move>, plays: Seq<nat>, upto: int) -> Map<
    Move,
    nat,
>
    decreases upto,
{
    if upto <= 0 {
        before
    } else {
        let so_far = counted(before, moves, plays, upto - 1);
        so_far.insert(moves[upto - 1], count_for(so_far, moves[upto - 1]) + plays[upto - 1])
    }
}

/// Counting moves that are all different, each with at most `limit` plays, holds a count
/// for the moves that had one and for the moves counted, and adds at most `limit` to any
/// count.
pub proof fn lemma_counted(
    before: Map<Move, nat>,
    moves: Seq<Move>,
    plays: Seq<nat>,
    upto: int,
    limit: nat,
    m: Move,
)
    requires
        0 <= upto <= moves.len() == plays.len(),
        moves.no_duplicates(),
        forall|i: int| 0 <= i < plays.len() ==> plays[i] <= limit,
    ensures
        counted(before, moves, plays, upto).contains_key(m) <==> before.contains_key(m)
            || moves.subrange(0, upto).contains(m),
        !moves.subrange(0, upto).contains(m) ==> count_for(
            counted(before, moves, plays, upto),
            m,
        ) == count_for(before, m),
        count_for(counted(before, moves, plays, upto), m) <= count_for(before, m) + limit,
    decreases upto,
{
    if upto > 0 {
        lemma_counted(before, moves, plays, upto - 1, limit, m);
        let shorter = moves.subrange(0, upto - 1);
        let longer = moves.subrange(0, upto);
        assert(longer[upto - 1] == moves[upto - 1]);
        if shorter.contains(m) {
            let k = choose|k: int| 0 <= k < shorter.len() && shorter[k] == m;
        }
        if longer.contains(m) && m != moves[upto - 1] {
            let k = choose|k: int| 0 <= k < longer.len() && longer[k] == m;
        }
    }
}

/// For each move the number of simulations counted for it so far. No move is held twice;
/// the moves stand in the order in which they were first counted.
pub struct Tally {
    entries: Vec<(Move, u64)>,
}

impl Tally {
    /// The place at which `m` is held.
    pub closed spec fn place_of(&self, m: Move) -> int {
        choose|i: int| 0 <= i < self.entries@.len() && self.entries@[i].0 == m
    }

    /// Whether a count is held for `m`.
    pub closed spec fn holds(&self, m: Move) -> bool {
        exists|i: int| 0 <= i < self.entries@.len() && self.entries@[i].0 == m
    }

    /// No move is held twice.
    pub closed spec fn wf(&self) -> bool {
        forall|i: int, j: int|
            0 <= i < j < self.entries@.len() ==> self.entries@[i].0 != self.entries@[j].0
    }
}

impl View for Tally {
    type V = Map<Move, nat>;

    closed spec fn view(&self) -> Map<Move, nat> {
        Map::new(|m: Move| self.holds(m), |m: Move| self.entries@[self.place_of(m)].1 as nat)
    }
}

impl Tally {
    /// A move that stands at a place is held, at that place and no other.
    proof fn lemma_place(&self, m: Move, i: int)
        requires
            self.wf(),
            0 <= i < self.entries@.len(),
            self.entries@[i].0 == m,
        ensures
            self.holds(m),
            self.place_of(m) == i,
            self@.contains_key(m),
            self@[m] == self.entries@[i].1,
    {
    }

    /// A tally without counts.
    pub fn new() -> (tally: Tally)
        ensures
            tally.wf(),
            tally@ == Map::<Move, nat>::empty(),
    {
        let tally = Tally { entries: Vec::new() };
        tally
    }

    /// Adds `n` to the count held for `m`, which is zero if none is held yet.
    pub fn add(&mut self, m: Move, n: u64)
        requires
            old(self).wf(),
            count_for(old(self)@, m) + n <= u64::MAX,
        ensures
            final(self).wf(),
            final(self)@ == old(self)@.insert(m, count_for(old(self)@, m) + n as nat),
    {
        let ghost before = *self;
        let mut i: usize = 0;
        while i < self.entries.len()
            invariant
                *self == before,
                before == *old(self),
                before.wf(),
                count_for(before@, m) + n <= u64::MAX,
                0 <= i <= self.entries@.len(),
                forall|k: int| 0 <= k < i ==> self.entries@[k].0 != m,
            decreases self.entries@.len() - i,
        {
            if self.entries[i].0 == m {
                proof {
                    before.lemma_place(m, i as int);
                }
                let sum = self.entries[i].1 + n;
                self.entries[i] = (m, sum);
                proof {
                    assert forall|other: Move| self.holds(other) <==> before.holds(other) by {
                        if before.holds(other) {
                            let k = before.place_of(other);
                            assert(self.entries@[k].0 == other);
                        }
                        if self.holds(other) {
                            let k = self.place_of(other);
                        }
                    }
                    assert forall|other: Move| self.holds(other) implies self.entries@[self.place_of(
                        other,
                    )].1 == if other == m {
                        sum
                    } else {
                        before.entries@[before.place_of(other)].1
                    } by {
                        let k = self.place_of(other);
                        before.lemma_place(other, k);
                    }
                }
                return ;
            }
            i += 1;
        }
        self.entries.push((m, n));
        proof {
            assert(self.entries@[before.entries@.len() as int].0 == m);
            assert forall|other: Move| self.holds(other) <==> before.holds(other) || other == m by {
                if before.holds(other) {
                    let k = before.place_of(other);
                    assert(self.entries@[k].0 == other);
                }
                if self.holds(other) && other != m {
                    let k = self.place_of(other);
                }
            }
            assert forall|other: Move| self.holds(other) implies self.entries@[self.place_of(
                other,
            )].1 == if other == m {
                n
            } else {
                before.entries@[before.place_of(other)].1
            } by {
                let k = self.place_of(other);
                if other != m {
                    before.lemma_place(other, k);
                } else {
                    self.lemma_place(m, before.entries@.len() as int);
                }
            }
        }
    }

    /// The number counted for `m`.
    pub fn count(&self, m: Move) -> (n: u64)
        requires
            self.wf(),
        ensures
            n == count_for(self@, m),
    {
        let mut i: usize = 0;
        while i < self.entries.len()
            invariant
                self.wf(),
                0 <= i <= self.entries@.len(),
                forall|k: int| 0 <= k < i ==> self.entries@[k].0 != m,
            decreases self.entries@.len() - i,
        {
            if self.entries[i].0 == m {
                proof {
                    self.lemma_place(m, i as int);
                }
                return self.entries[i].1;
            }
            i += 1;
        }
        0
    }

    /// The move with the greatest count; where several moves have it, the one that was
    /// counted first.
    pub fn best(&self) -> (m: Move)
        requires
            self.wf(),
            exists|any: Move| self@.contains_key(any),
        ensures
            self@.contains_key(m),
            forall|other: Move| self@.contains_key(other) ==> self@[other] <= self@[m],
    {
        let mut best: usize = 0;
        let mut i: usize = 1;
        while i < self.entries.len()
            invariant
                1 <= i <= self.entries@.len(),
                best < i,
                forall|k: int| 0 <= k < i ==> self.entries@[k].1 <= self.entries@[best as int].1,
            decreases self.entries@.len() - i,
        {
            if self.entries[i].1 > self.entries[best].1 {
                best = i;
            }
            i += 1;
        }
        let m = self.entries[best].0;
        proof {
            self.lemma_place(m, best as int);
            assert forall|other: Move| self@.contains_key(other) implies self@[other] <= self@[m] by {
                self.lemma_place(other, self.place_of(other));
            }
        }
        m
    }
}

/// Grows a search tree from `state` by `iters` simulations, each on a copy of the state.
/// The moves of the root are tried in a shuffled order.
pub fn grow_tree(state: &State, iters: usize, rng: &mut XorShiftRng, ln_table: &Vec<u64>) -> (root:
    Node)
    requires
        state@.wf(),
        iters <= ln_table@.len(),
    ensures
        root.grown_from(state@),
        root.within(iters as nat + 1),
        root.mover() == NOBODY,
        root.play_count() == iters,
        iters >= 1 && !state@.is_terminal() ==> root.children().len() > 0,
        !state@.is_terminal() ==> sum_of(root.child_plays()) == iters,
{
    let mut moves = state.moves();
    shuffle(rng, &mut moves);
    let mut root = Node::new(NOBODY, moves);
    let mut done: usize = 0;
    proof {
        if !state@.is_terminal() {
            lemma_some_move_is_legal(state@);
        }
    }
    while done < iters
        invariant
            0 <= done <= iters <= ln_table@.len(),
            state@.wf(),
            root.grown_from(state@),
            root.within(done as nat + 1),
            root.mover() == NOBODY,
            root.play_count() == done,
            !state@.is_terminal() ==> state@.legal_moves().len() > 0,
            done >= 1 && !state@.is_terminal() ==> root.children().len() > 0,
            !state@.is_terminal() ==> sum_of(root.child_plays()) == done,
        decreases iters - done,
    {
        let mut working = state.clone();
        proof {
            root.lemma_within_grows(done as nat + 1, ln_table@.len());
        }
        root.uct(&mut working, rng, ln_table);
        done += 1;
    }
    root
}

/// Adds to the counts, for each move tried at `root`, the number of simulations that went
/// through the move's child.
pub fn count_children(outcomes: &mut Tally, root: &Node, limit: u64)
    requires
        old(outcomes).wf(),
        root.tried().no_duplicates(),
        forall|i: int| 0 <= i < root.children().len() ==> root.child_plays()[i] <= limit,
        forall|m: Move| count_for(old(outcomes)@, m) + limit <= u64::MAX,
    ensures
        final(outcomes).wf(),
        final(outcomes)@ == counted(
            old(outcomes)@,
            root.tried(),
            root.child_plays(),
            root.children().len() as int,
        ),
{
    let mut j: usize = 0;
    while j < root.child_count()
        invariant
            0 <= j <= root.children().len(),
            root.tried().len() == root.children().len(),
            root.child_plays().len() == root.children().len(),
            root.tried().no_duplicates(),
            forall|i: int| 0 <= i < root.children().len() ==> root.child_plays()[i] <= limit,
            forall|m: Move| count_for(old(outcomes)@, m) + limit <= u64::MAX,
            outcomes.wf(),
            outcomes@ == counted(old(outcomes)@, root.tried(), root.child_plays(), j as int),
        decreases root.children().len() - j,
    {
        let m = root.child_move(j);
        let plays = root.child(j).plays();
        proof {
            assert(root.child_plays()[j as int] <= limit);
            lemma_counted(
                old(outcomes)@,
                root.tried(),
                root.child_plays(),
                j as int,
                limit as nat,
                m,
            );
            let seen = root.tried().subrange(0, j as int);
            if seen.contains(m) {
                let k = choose|k: int| 0 <= k < seen.len() && seen[k] == m;
            }
        }
        outcomes.add(m, plays);
        j += 1;
    }
}

/// The counts after the children of each of the first `upto` of `trees` have been counted,
/// one tree after the other: for each move the sum, over those trees, of the simulations
/// that went through the move's child at the root.
pub open spec fn tallied(trees: Seq<Node>, upto: int) -> Map<Move, nat>
    decreases upto,
{
    if upto <= 0 {
        Map::empty()
    } else {
        counted(
            tallied(trees, upto - 1),
            trees[upto - 1].tried(),
            trees[upto - 1].child_plays(),
            trees[upto - 1].children().len() as int,
        )
    }
}

/// The sum of the counts held for the first `upto` of `moves`.
pub open spec fn total_for(counts: Map<Move, nat>, moves: Seq<Move>, upto: int) -> nat
    decreases upto,
{
    if upto <= 0 {
        0
    } else {
        total_for(counts, moves, upto - 1) + count_for(counts, moves[upto - 1])
    }
}

/// Adding to the count of one move adds as much to the sum over moves that are all
/// different, if the move is among them, and nothing if it is not.
pub proof fn lemma_total_for_add(
    counts: Map<Move, nat>,
    moves: Seq<Move>,
    upto: int,
    m: Move,
    added: nat,
)
    requires
        0 <= upto <= moves.len(),
        moves.no_duplicates(),
    ensures
        total_for(counts.insert(m, count_for(counts, m) + added), moves, upto) == total_for(
            counts,
            moves,
            upto,
        ) + if moves.subrange(0, upto).contains(m) {
            added
        } else {
            0
        },
    decreases upto,
{
    if upto > 0 {
        lemma_total_for_add(counts, moves, upto - 1, m, added);
        let shorter = moves.subrange(0, upto - 1);
        let longer = moves.subrange(0, upto);
        assert(longer[upto - 1] == moves[upto - 1]);
        if shorter.contains(m) {
            let k = choose|k: int| 0 <= k < shorter.len() && shorter[k] == m;
            assert(longer[k] == m);
            assert(moves[k] != moves[upto - 1]);
        }
        if longer.contains(m) && m != moves[upto - 1] {
            let k = choose|k: int| 0 <= k < longer.len() && longer[k] == m;
            assert(shorter[k] == m);
        }
    }
}

/// Counting the children of a tree adds the simulations that went through them to the sum
/// of the counts over the legal moves.
pub proof fn lemma_total_for_counted(
    before: Map<Move, nat>,
    tried: Seq<Move>,
    plays: Seq<nat>,
    upto: int,
    legal: Seq<Move>,
)
    requires
        0 <= upto <= tried.len() == plays.len(),
        legal.no_duplicates(),
        forall|i: int| 0 <= i < tried.len() ==> legal.contains(#[trigger] tried[i]),
    ensures
        total_for(counted(before, tried, plays, upto), legal, legal.len() as int) == total_for(
            before,
            legal,
            legal.len() as int,
        ) + sum_of(plays.subrange(0, upto)),
    decreases upto,
{
    if upto > 0 {
        lemma_total_for_counted(before, tried, plays, upto - 1, legal);
        let so_far = counted(before, tried, plays, upto - 1);
        lemma_total_for_add(so_far, legal, legal.len() as int, tried[upto - 1], plays[upto - 1]);
        assert(legal.subrange(0, legal.len() as int) =~= legal);
        assert(legal.contains(tried[upto - 1]));
        assert(plays.subrange(0, upto).drop_last() =~= plays.subrange(0, upto - 1));
    } else {
        assert(plays.subrange(0, 0) =~= Seq::<nat>::empty());
    }
}

/// The counts of `upto` searches of `iters` simulations each sum, over the legal moves, to
/// `upto` times `iters`: every simulation is counted once.
pub proof fn lemma_tallied_total(
    trees: Seq<Node>,
    worlds: Seq<Game>,
    partial: PartialGame,
    iters: nat,
    upto: int,
)
    requires
        partial.wf(),
        0 <= upto <= trees.len() == worlds.len(),
        forall|i: int|
            0 <= i < trees.len() ==> is_search_of(#[trigger] trees[i], worlds[i], partial, iters),
    ensures
        total_for(tallied(trees, upto), partial.legal_moves(), partial.legal_moves().len() as int)
            == upto * iters,
    decreases upto,
{
    let legal = partial.legal_moves();
    if upto > 0 {
        lemma_tallied_total(trees, worlds, partial, iters, upto - 1);
        let tree = trees[upto - 1];
        let world = worlds[upto - 1];
        assert(is_search_of(tree, world, partial, iters));
        lemma_same_moves(world, partial);
        lemma_legal_moves_differ(world);
        tree.lemma_tried_moves(world);
        let n = tree.children().len() as int;
        lemma_total_for_counted(tallied(trees, upto - 1), tree.tried(), tree.child_plays(), n, legal);
        assert(tree.child_plays().subrange(0, n) =~= tree.child_plays());
        assert(total_for(tallied(trees, upto), legal, legal.len() as int) == total_for(
            tallied(trees, upto - 1),
            legal,
            legal.len() as int,
        ) + iters);
        assert(upto * iters == (upto - 1) * iters + iters) by (nonlinear_arith);
    } else {
        lemma_total_for_empty(legal, legal.len() as int);
        assert(upto * iters == 0) by (nonlinear_arith)
            requires
                upto == 0,
        ;
    }
}

/// Where no count is held, the counts sum to nothing.
pub proof fn lemma_total_for_empty(moves: Seq<Move>, upto: int)
    ensures
        total_for(Map::<Move, nat>::empty(), moves, upto) == 0,
    decreases upto,
{
    if upto > 0 {
        lemma_total_for_empty(moves, upto - 1);
    }
}

/// `tree` is a search tree of `iters` simulations, grown from the state `world`, which is a
/// state of a game of which the player sees exactly `partial`. Each of the simulations went
/// through one child of the root.
pub open spec fn is_search_of(tree: Node, world: Game, partial: PartialGame, iters: nat) -> bool {
    &&& world.wf()
    &&& world.seen_by(partial.player) == partial
    &&& tree.grown_from(world)
    &&& tree.mover() == NOBODY
    &&& tree.play_count() == iters
    &&& sum_of(tree.child_plays()) == iters
}

/// `best` is the recommendation of the `trees`, one for each of the `worlds`: every tree is
/// a search of `iters` simulations from its world, a completion of `partial`; no move has a
/// greater sum of simulations over the trees than `best`, which has been tried; and the
/// sums over the legal moves make up all the simulations.
pub open spec fn recommended_by(
    trees: Seq<Node>,
    worlds: Seq<Game>,
    partial: PartialGame,
    iters: nat,
    best: Move,
) -> bool {
    &&& trees.len() == worlds.len()
    &&& forall|i: int|
        0 <= i < trees.len() ==> is_search_of(#[trigger] trees[i], worlds[i], partial, iters)
    &&& tallied(trees, trees.len() as int).contains_key(best)
    &&& forall|m: Move|
        count_for(tallied(trees, trees.len() as int), m) <= count_for(
            tallied(trees, trees.len() as int),
            best,
        )
    &&& total_for(
        tallied(trees, trees.len() as int),
        partial.legal_moves(),
        partial.legal_moves().len() as int,
    ) == trees.len() * iters
}

/// The counts over the first trees do not depend on the trees after them.
pub proof fn lemma_tallied_prefix(trees: Seq<Node>, others: Seq<Node>, upto: int)
    requires
        upto <= trees.len(),
        upto <= others.len(),
        forall|i: int| 0 <= i < upto ==> trees[i] == others[i],
    ensures
        tallied(trees, upto) == tallied(others, upto),
    decreases upto,
{
    if upto > 0 {
        lemma_tallied_prefix(trees, others, upto - 1);
    }
}

/// The move to make in the position that `partial` shows: the only legal move where there
/// is just one; else the move that the most simulations went through, added up over
/// `reals` search trees of `iters` simulations, each grown from another completion of the
/// view. `ln_table` holds at each index the scaled natural logarithm of the index.
pub fn best_move(
    partial: &PartialState,
    reals: usize,
    iters: usize,
    rng: &mut XorShiftRng,
    ln_table: &Vec<u64>,
) -> (best: Move)
    requires
        partial@.wf(),
        !partial@.is_terminal(),
        reals >= 1,
        iters <= ln_table@.len(),
        iters >= 1 || partial@.legal_moves().len() == 1,
        reals * iters <= u64::MAX,
    ensures
        partial@.legal_moves().contains(best),
        partial@.legal_moves().len() == 1 ==> best == partial@.legal_moves()[0],
        partial@.legal_moves().len() != 1 ==> exists|trees: Seq<Node>, worlds: Seq<Game>|
            trees.len() == reals && #[trigger] recommended_by(
                trees,
                worlds,
                partial@,
                iters as nat,
                best,
            ),
{
    let mut outcomes = Tally::new();
    let mut r: usize = 0;
    let ghost mut trees = Seq::<Node>::empty();
    let ghost mut worlds = Seq::<Game>::empty();
    while r < reals
        invariant
            0 <= r <= reals,
            partial@.wf(),
            !partial@.is_terminal(),
            iters <= ln_table@.len(),
            iters >= 1 || partial@.legal_moves().len() == 1,
            reals * iters <= u64::MAX,
            outcomes.wf(),
            trees.len() == r,
            worlds.len() == r,
            forall|i: int|
                0 <= i < r ==> is_search_of(#[trigger] trees[i], worlds[i], partial@, iters as nat),
            outcomes@ == tallied(trees, r as int),
            forall|m: Move|
                #![trigger outcomes@.contains_key(m)]
                outcomes@.contains_key(m) ==> partial@.legal_moves().contains(m) && outcomes@[m]
                    <= r * iters,
            r >= 1 ==> partial@.legal_moves().len() != 1 && exists|any: Move|
                outcomes@.contains_key(any),
        decreases reals - r,
    {
        let state = State::realisation_from(partial, rng);
        proof {
            lemma_same_moves(state@, partial@);
        }
        let moves = state.moves();
        if moves.len() == 1 {
            return moves[0];
        }
        let root = grow_tree(&state, iters, rng, ln_table);
        let ghost before = outcomes@;
        let ghost base: int = r * iters;
        proof {
            assert((r + 1) * iters <= reals * iters) by (nonlinear_arith)
                requires
                    r + 1 <= reals,
                    iters >= 0,
            ;
            assert((r + 1) * iters == base + iters) by (nonlinear_arith)
                requires
                    base == r * iters,
            ;
            root.lemma_tried_moves(state@);
            root.lemma_children_within(iters as nat + 1);
        }
        count_children(&mut outcomes, &root, iters as u64);
        proof {
            let n = root.children().len() as int;
            assert(root.tried().subrange(0, n) =~= root.tried());
            assert forall|m: Move|
                #![trigger outcomes@.contains_key(m)]
                outcomes@.contains_key(m) implies partial@.legal_moves().contains(m)
                && outcomes@[m] <= (r + 1) * iters by {
                lemma_counted(before, root.tried(), root.child_plays(), n, iters as nat, m);
            }
            lemma_counted(before, root.tried(), root.child_plays(), n, iters as nat, root.tried()[0]);
            let grown = trees.push(root);
            lemma_tallied_prefix(trees, grown, r as int);
            assert(grown[r as int] == root);
            trees = grown;
            worlds = worlds.push(state@);
        }
        r += 1;
    }
    let best = outcomes.best();
    proof {
        assert(forall|m: Move| count_for(outcomes@, m) <= count_for(outcomes@, best));
        lemma_tallied_total(trees, worlds, partial@, iters as nat, reals as int);
        assert(recommended_by(trees, worlds, partial@, iters as nat, best));
    }
    best
}

} // verus!
