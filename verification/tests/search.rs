use rand::{Rng, SeedableRng, XorShiftRng};
use scum::partial::deal_hidden;
use scum::player::{CheatingUCT, FairPlayer, FairUCT, Player};
use scum::recommend::{best_move, count_children, grow_tree, Tally};
use scum::score::{integer_sqrt, uct_score};
use scum::search::{play_randomly, Node, NOBODY};
use scum::{Move, State, DECK, JOKER};

fn seeded(seed: u32) -> XorShiftRng {
    XorShiftRng::from_seed([seed, 0x9e37_79b9, 0x85eb_ca6b, 0xc2b2_ae35])
}

fn ln_table(entries: usize) -> Vec<u64> {
    (0..entries)
        .map(|n| if n == 0 { 0 } else { ((n as f64).ln() * 4294967296.0) as u64 })
        .collect()
}

fn shuffled_deck(rng: &mut XorShiftRng) -> Vec<u8> {
    let mut deck = DECK.to_vec();
    rng.shuffle(&mut deck[..]);
    deck
}

fn all_cards_sorted(state: &State) -> Vec<u8> {
    let mut cards: Vec<u8> = vec![];
    for seat in 0..state.num_players() {
        cards.extend_from_slice(&state.hand(seat)[..]);
    }
    cards.sort();
    cards
}

#[test]
fn integer_sqrt_rounds_down() {
    assert_eq!(0, integer_sqrt(0));
    assert_eq!(1, integer_sqrt(1));
    assert_eq!(1, integer_sqrt(3));
    assert_eq!(2, integer_sqrt(4));
    assert_eq!(9, integer_sqrt(99));
    assert_eq!(10, integer_sqrt(100));
    assert_eq!(1_000_000, integer_sqrt(1_000_000_000_000));
    assert_eq!(999_999, integer_sqrt(999_999_999_999));
    assert_eq!(u64::MAX as u128, integer_sqrt(u128::MAX));
}

#[test]
fn uct_score_adds_win_rate_and_exploration() {
    // a win rate of one half, and no exploration under a parent with logarithm zero
    assert_eq!(500_000, uct_score(1, 2, 0));
    assert_eq!(333_333, uct_score(1, 3, 0));
    // logarithm one, one simulation: 0.7 * sqrt(1 / 1)
    assert_eq!(700_000, uct_score(0, 1, 1 << 32));
    // logarithm four, one simulation: 0.7 * sqrt(4)
    assert_eq!(1_000_000 + 1_400_000, uct_score(1, 1, 4 << 32));
    // logarithm one, four simulations: 0.7 * sqrt(1 / 4)
    assert_eq!(250_000 + 350_000, uct_score(1, 4, 1 << 32));
    // logarithm two, one simulation: 0.7 * sqrt(2) = 0.989949...
    assert_eq!(989_949, uct_score(0, 1, 2 << 32));
}

#[test]
fn uct_score_agrees_with_the_formula() {
    let table = ln_table(2000);
    for visits in [1usize, 2, 3, 10, 57, 1999] {
        for plays in [1u64, 2, 7, 100] {
            for wins in [0u64, 1, plays / 2, plays] {
                let exact = wins as f64 / plays as f64
                    + 0.7 * ((visits as f64).ln() / plays as f64).sqrt();
                let score = uct_score(wins, plays, table[visits]) as f64 / 1e6;
                assert!((score - exact).abs() < 3e-6, "{} against {}", score, exact);
            }
        }
    }
}

#[test]
fn random_playouts_end() {
    for players in 2..=10usize {
        for seed in 1..=20u32 {
            let mut rng = seeded(seed * 31 + players as u32);
            let mut state = State::new(players, shuffled_deck(&mut rng));
            let mut steps = 0;
            while !state.is_terminal() {
                let moves = state.moves();
                let action = *rng.choose(&moves[..]).expect("no legal move");
                state.apply(action);
                steps += 1;
                assert!(steps <= 3024);
            }
            assert!(state.hand(state.winner() as usize).is_empty());
            assert_eq!(Vec::<Move>::new(), state.moves());
        }
    }
}

#[test]
fn play_randomly_reaches_the_end() {
    for seed in 1..=10u32 {
        let mut rng = seeded(seed);
        let mut state = State::new(5, shuffled_deck(&mut rng));
        play_randomly(&mut state, &mut rng);
        assert!(state.is_terminal());
        let winner = state.winner() as usize;
        assert!(winner < 5);
        assert!(state.hand(winner).is_empty());
        for seat in 0..5 {
            assert_eq!(seat == winner, state.hand(seat).is_empty());
        }
    }
}

#[test]
fn play_randomly_leaves_a_finished_game_alone() {
    let mut rng = seeded(7);
    let mut state = State::new(54, DECK.to_vec());
    state.apply(Some((1, JOKER)));
    let before = format!("{:?}", state);
    play_randomly(&mut state, &mut rng);
    assert_eq!(before, format!("{:?}", state));
}

#[test]
fn play_randomly_does_not_always_play_the_same_game() {
    let deck = shuffled_deck(&mut seeded(99));
    let mut ends = vec![];
    for seed in 1..=30u32 {
        let mut rng = seeded(seed);
        let mut state = State::new(4, deck.clone());
        play_randomly(&mut state, &mut rng);
        ends.push(format!("{:?}", state));
    }
    ends.sort();
    ends.dedup();
    assert!(ends.len() > 1);
}

#[test]
fn a_realisation_agrees_with_the_view() {
    for players in 2..=8usize {
        for seed in 1..=10u32 {
            let mut rng = seeded(seed + 100 * players as u32);
            let mut state = State::new(players, shuffled_deck(&mut rng));
            for _ in 0..(seed as usize % 7) {
                if state.is_terminal() {
                    break;
                }
                let moves = state.moves();
                let action = *rng.choose(&moves[..]).expect("no legal move");
                state.apply(action);
            }
            if state.is_terminal() {
                continue;
            }
            let owner = state.current_player() as usize;
            let partial = state.to_partial_state();
            let world = State::realisation_from(&partial, &mut rng);
            assert_eq!(players, world.num_players());
            assert_eq!(state.hand(owner), world.hand(owner));
            let mut cards = all_cards_sorted(&world);
            let mut seen_cards = all_cards_sorted(&state);
            assert_eq!(seen_cards.len(), cards.len());
            for seat in 0..players {
                assert_eq!(state.hand(seat).len(), world.hand(seat).len());
                let mut sorted = world.hand(seat).clone();
                sorted.sort();
                assert_eq!(&sorted, world.hand(seat));
            }
            cards.sort();
            seen_cards.sort();
            assert_eq!(seen_cards, cards);
            assert_eq!(state.current_player(), world.current_player());
            assert_eq!(state.top_card(), world.top_card());
            assert_eq!(state.moves(), world.moves());
        }
    }
}

#[test]
fn a_realisation_shuffles_the_hidden_cards() {
    let state = State::new(2, DECK.to_vec());
    let partial = state.to_partial_state();
    // unshuffled, the other player would get the 27 lowest cards as they lie in the deck
    let unshuffled = DECK[..27].to_vec();
    let mut different = 0;
    for seed in 1..=5u32 {
        let mut rng = seeded(seed);
        let world = State::realisation_from(&partial, &mut rng);
        assert_eq!(&unshuffled, world.hand(1));
        assert_eq!(state.hand(0), world.hand(0));
        different += 1;
    }
    assert_eq!(5, different);
    // with three players the hidden cards can lie in more than one way
    let state = State::new(3, DECK.to_vec());
    let partial = state.to_partial_state();
    let mut rng = seeded(11);
    let first = State::realisation_from(&partial, &mut rng);
    let mut found_other = false;
    for _ in 0..5 {
        let next = State::realisation_from(&partial, &mut rng);
        if next.hand(1) != first.hand(1) {
            found_other = true;
        }
    }
    assert!(found_other);
    // and not as the deck lies unshuffled
    let mut hidden = DECK[..36].to_vec();
    let second = hidden.split_off(18);
    assert!(first.hand(1) != &hidden || first.hand(2) != &second);
}

#[test]
fn hidden_cards_are_dealt_from_the_front_in_seat_order() {
    let pile = vec![9u8, 3, 14, 1, 1, 7, 2, 13, 5, 4];
    let hand = vec![6u8, 6, 8];
    let hands = deal_hidden(pile, &hand, &vec![4, 2, 3, 0, 4], 2);
    assert_eq!(
        vec![vec![1u8, 3, 9, 14], vec![1, 7], vec![6, 6, 8], vec![], vec![2, 4, 5, 13]],
        hands
    );
    let hands = deal_hidden(vec![5u8, 4, 3], &hand, &vec![3, 1, 2], 0);
    assert_eq!(vec![vec![6u8, 6, 8], vec![5], vec![3, 4]], hands);
    let hands = deal_hidden(vec![], &hand, &vec![3], 0);
    assert_eq!(vec![vec![6u8, 6, 8]], hands);
}

#[test]
fn a_realisation_deals_the_shuffled_pile_from_the_front() {
    // the same seed shuffles the same pile: what the library deals is dealt from its front
    let state = State::new(4, DECK.to_vec());
    let partial = state.to_partial_state();
    let mut unseen = DECK.to_vec();
    for card in state.hand(0).iter() {
        let at = unseen.iter().position(|c| c == card).expect("a card twice");
        unseen.remove(at);
    }
    for seed in 1..=5u32 {
        let world = State::realisation_from(&partial, &mut seeded(seed));
        let mut pile = unseen.clone();
        seeded(seed).shuffle(&mut pile[..]);
        let mut from = 0;
        for seat in 1..4 {
            let size = state.hand(seat).len();
            let mut block = pile[from..from + size].to_vec();
            block.sort();
            assert_eq!(&block, world.hand(seat));
            from += size;
        }
        assert_eq!(pile.len(), from);
    }
}

#[test]
fn a_grown_tree_counts_every_simulation_in_one_child() {
    let mut rng = seeded(3);
    let table = ln_table(120);
    for players in 2..=5usize {
        let state = State::new(players, shuffled_deck(&mut rng));
        for iters in [0usize, 1, 2, 17, 120] {
            let root = grow_tree(&state, iters, &mut rng, &table);
            assert_eq!(iters as u64, root.plays());
            let through: u64 = (0..root.child_count()).map(|i| root.child(i).plays()).sum();
            assert_eq!(iters as u64, through);
        }
    }
}

#[test]
fn a_new_node_has_no_results() {
    let node = Node::new(3, vec![None, Some((1, 4))]);
    assert_eq!(0, node.plays());
    assert_eq!(0, node.wins());
    assert_eq!(0, node.child_count());
}

#[test]
fn update_counts_a_win_for_the_mover_only() {
    let mut state = State::new(54, DECK.to_vec());
    state.apply(Some((1, JOKER)));
    assert_eq!(0, state.winner());
    let mut winner = Node::new(0, vec![]);
    let mut loser = Node::new(1, vec![]);
    for _ in 0..3 {
        winner.update(&state);
        loser.update(&state);
    }
    assert_eq!((3, 3), (winner.plays(), winner.wins()));
    assert_eq!((3, 0), (loser.plays(), loser.wins()));
}

#[test]
fn add_child_tries_the_last_untried_move() {
    let mut rng = seeded(5);
    let state = State::new(3, DECK.to_vec());
    let moves = state.moves();
    let last = *moves.last().expect("no move");
    let mut root = Node::new(NOBODY, moves);
    let mut working = state.clone();
    root.add_child(&mut working, &mut rng);
    assert!(working.is_terminal());
    assert_eq!(1, root.child_count());
    assert_eq!(last, root.child_move(0));
    assert_eq!(0, root.plays());
    assert_eq!(1, root.child(0).plays());
    assert!(root.child(0).wins() <= 1);
    assert_eq!(0, root.child(0).child_count());
}

#[test]
fn uct_counts_every_simulation() {
    let mut rng = seeded(9);
    let table = ln_table(400);
    let state = State::new(4, shuffled_deck(&mut rng));
    let moves = state.moves();
    let width = moves.len();
    let mut root = Node::new(NOBODY, moves);
    for done in 1..=300u64 {
        let mut working = state.clone();
        root.uct(&mut working, &mut rng, &table);
        assert!(working.is_terminal());
        assert_eq!(done, root.plays());
        assert_eq!(0, root.wins());
        assert_eq!((done as usize).min(width), root.child_count());
        let through: u64 = (0..root.child_count()).map(|i| root.child(i).plays()).sum();
        assert_eq!(done, through);
    }
    let mut tried: Vec<Move> = (0..root.child_count()).map(|i| root.child_move(i)).collect();
    let mut legal = state.moves();
    tried.sort();
    legal.sort();
    assert_eq!(legal, tried);
    for i in 0..root.child_count() {
        let child = root.child(i);
        assert!(child.wins() <= child.plays());
        let below: u64 = (0..child.child_count()).map(|k| child.child(k).plays()).sum();
        assert!(below < child.plays() || child.plays() == 0);
    }
}

#[test]
fn uct_on_a_finished_game_only_counts() {
    let mut rng = seeded(2);
    let table = ln_table(10);
    let mut state = State::new(54, DECK.to_vec());
    state.apply(Some((1, JOKER)));
    let mut same_mover = Node::new(0, state.moves());
    let mut other_mover = Node::new(7, state.moves());
    for _ in 0..4 {
        same_mover.uct(&mut state.clone(), &mut rng, &table);
        other_mover.uct(&mut state.clone(), &mut rng, &table);
    }
    assert_eq!((4, 4, 0), (same_mover.plays(), same_mover.wins(), same_mover.child_count()));
    assert_eq!((4, 0, 0), (other_mover.plays(), other_mover.wins(), other_mover.child_count()));
}

#[test]
fn select_child_takes_the_greatest_score() {
    let mut rng = seeded(21);
    let table = ln_table(200);
    let state = State::new(3, shuffled_deck(&mut rng));
    let root = grow_tree(&state, 150, &mut rng, &table);
    assert_eq!(150, root.plays());
    let keys: Vec<u128> = (0..root.child_count())
        .map(|i| uct_score(root.child(i).wins(), root.child(i).plays(), table[150]))
        .collect();
    let best = root.select_child(&table);
    for (i, key) in keys.iter().enumerate() {
        assert!(*key <= keys[best]);
        if i > best {
            assert!(*key < keys[best]);
        }
    }
    let most = root.most_visited();
    for i in 0..root.child_count() {
        assert!(root.child(i).plays() <= root.child(most).plays());
        if i > most {
            assert!(root.child(i).plays() < root.child(most).plays());
        }
    }
}

#[test]
fn tally_adds_up_by_move() {
    let mut tally = Tally::new();
    tally.add(Some((1, 3)), 5);
    tally.add(None, 7);
    assert_eq!(None, tally.best());
    tally.add(Some((1, 3)), 1);
    assert_eq!(None, tally.best());
    // of two moves with the same count, the one counted first
    tally.add(Some((1, 3)), 1);
    assert_eq!(Some((1, 3)), tally.best());
    tally.add(Some((2, 3)), 7);
    assert_eq!(Some((1, 3)), tally.best());
    tally.add(Some((2, 3)), 1);
    assert_eq!(Some((2, 3)), tally.best());
    tally.add(None, 1);
    assert_eq!(None, tally.best());
}

#[test]
fn tally_counts_what_was_added() {
    let mut tally = Tally::new();
    assert_eq!(0, tally.count(None));
    tally.add(Some((2, 5)), 9);
    tally.add(None, 1);
    tally.add(Some((2, 5)), 11);
    assert_eq!(20, tally.count(Some((2, 5))));
    assert_eq!(1, tally.count(None));
    assert_eq!(0, tally.count(Some((5, 2))));
}

#[test]
fn count_children_adds_the_plays_of_each_child() {
    let mut rng = seeded(17);
    let table = ln_table(80);
    let state = State::new(4, shuffled_deck(&mut rng));
    let mut tally = Tally::new();
    let first = grow_tree(&state, 80, &mut rng, &table);
    count_children(&mut tally, &first, 80);
    for i in 0..first.child_count() {
        assert_eq!(first.child(i).plays(), tally.count(first.child_move(i)));
    }
    let second = grow_tree(&state, 60, &mut rng, &table);
    count_children(&mut tally, &second, 60);
    let mut total = 0;
    for m in state.moves() {
        let in_first = (0..first.child_count())
            .find(|i| first.child_move(*i) == m)
            .map(|i| first.child(i).plays())
            .unwrap_or(0);
        let in_second = (0..second.child_count())
            .find(|i| second.child_move(*i) == m)
            .map(|i| second.child(i).plays())
            .unwrap_or(0);
        assert_eq!(in_first + in_second, tally.count(m));
        total += tally.count(m);
    }
    assert_eq!(140, total);
    let best = tally.best();
    for m in state.moves() {
        assert!(tally.count(m) <= tally.count(best));
    }
}

#[test]
fn best_move_is_a_legal_move() {
    let table = ln_table(60);
    for seed in 1..=6u32 {
        let mut rng = seeded(seed);
        let mut state = State::new(3 + seed as usize % 3, shuffled_deck(&mut rng));
        for _ in 0..(2 * seed) {
            if state.is_terminal() {
                break;
            }
            let partial = state.to_partial_state();
            let best = best_move(&partial, 3, 50, &mut rng, &table);
            assert!(state.moves().contains(&best));
            state.apply(best);
        }
    }
}

#[test]
fn best_move_takes_the_only_move_without_searching() {
    let mut rng = seeded(4);
    let mut state = State::new(3, DECK.to_vec());
    state.apply(Some((1, JOKER)));
    assert_eq!(vec![None], state.moves());
    let partial = state.to_partial_state();
    let table = ln_table(1);
    assert_eq!(None, best_move(&partial, 1, 1, &mut rng, &table));
}

#[test]
fn best_move_needs_no_simulation_for_the_only_move() {
    let mut rng = seeded(4);
    let state = State::new(54, DECK.to_vec());
    let partial = state.to_partial_state();
    let table = ln_table(0);
    assert_eq!(Some((1, JOKER)), best_move(&partial, 1, 0, &mut rng, &table));
}

#[test]
fn best_move_takes_the_move_with_the_greatest_sum_over_the_trees() {
    // the library's search, step by step with the same random numbers
    let table = ln_table(60);
    for seed in 1..=4u32 {
        let state = State::new(3, shuffled_deck(&mut seeded(seed + 40)));
        let partial = state.to_partial_state();
        let best = best_move(&partial, 3, 60, &mut seeded(seed), &table);
        let mut rng = seeded(seed);
        let mut tally = Tally::new();
        for _ in 0..3 {
            let world = State::realisation_from(&partial, &mut rng);
            let tree = grow_tree(&world, 60, &mut rng, &table);
            count_children(&mut tally, &tree, 60);
        }
        assert_eq!(tally.best(), best);
        let total: u64 = state.moves().iter().map(|m| tally.count(*m)).sum();
        assert_eq!(180, total);
        for m in state.moves() {
            assert!(tally.count(m) <= tally.count(best));
        }
    }
}

#[test]
fn the_cheating_player_takes_the_most_visited_child() {
    let table = ln_table(50);
    let state = State::new(3, shuffled_deck(&mut seeded(77)));
    let mut cheat = CheatingUCT::new(50, table);
    let chosen = cheat.choose_move(state.clone());
    assert!(state.moves().contains(&chosen));
}

#[test]
fn best_move_finds_the_winning_play() {
    // seat 0 holds a single joker: playing it ends the game at once
    let mut rng = seeded(8);
    let mut deck = DECK.to_vec();
    deck.swap(0, 53);
    let mut state = State::new(2, deck);
    // play seat 0 down to its last cards, seat 1 passing
    while state.hand(0).len() > 2 {
        let action = if state.current_player() == 0 {
            *state.moves().first().expect("no move")
        } else {
            None
        };
        state.apply(action);
    }
    while state.current_player() != 0 || state.top_card().is_some() {
        state.apply(None);
    }
    assert!(!state.is_terminal());
    let held = state.hand(0).clone();
    assert_eq!(2, held.len());
    let table = ln_table(400);
    let partial = state.to_partial_state();
    let best = best_move(&partial, 4, 300, &mut rng, &table);
    assert!(state.moves().contains(&best));
    if held[0] == held[1] {
        assert_eq!(Some((2, held[0])), best);
    }
}

#[test]
fn players_choose_legal_moves() {
    let mut rng = seeded(13);
    let mut state = State::new(4, shuffled_deck(&mut rng));
    let mut cheat = CheatingUCT::new(40, ln_table(40));
    let mut fair = FairUCT::new(2, 30, ln_table(30));
    let mut turn = 0;
    while !state.is_terminal() && turn < 12 {
        let chosen = if turn % 2 == 0 {
            cheat.choose_move(state.clone())
        } else if turn % 4 == 1 {
            Player::choose_move(&mut fair, state.clone())
        } else {
            FairPlayer::choose_move(&mut fair, state.to_partial_state())
        };
        assert!(state.moves().contains(&chosen));
        state.apply(chosen);
        turn += 1;
    }
}
