use scum::cards::full_deck;
use scum::{all_moves, moves, Move, State};
use scum::{DECK, FIVE, FOUR, JOKER, THREE};

#[allow(non_snake_case)]
fn M(count: u8, card: u8) -> Move {
    Some((count, card))
}

#[test]
fn test_moves() {
    let hand = vec![THREE, FOUR, FOUR, FOUR, FOUR, JOKER, JOKER];

    assert_eq!(vec![None, M(1, JOKER), M(1, FOUR)], moves(&hand, 1, THREE));
    assert_eq!(vec![None, M(1, JOKER)], moves(&hand, 1, FOUR));
    assert_eq!(vec![None, M(1, JOKER)], moves(&hand, 1, FIVE));

    assert_eq!(vec![None, M(1, JOKER), M(2, FOUR)], moves(&hand, 2, THREE));
    assert_eq!(vec![None, M(1, JOKER)], moves(&hand, 2, FOUR));
    assert_eq!(vec![None, M(1, JOKER)], moves(&hand, 2, FIVE));

    assert_eq!(vec![None, M(1, JOKER), M(3, FOUR)], moves(&hand, 3, THREE));
    assert_eq!(vec![None, M(1, JOKER)], moves(&hand, 3, FOUR));
    assert_eq!(vec![None, M(1, JOKER)], moves(&hand, 3, FIVE));

    assert_eq!(vec![None, M(1, JOKER), M(4, FOUR)], moves(&hand, 4, THREE));
    assert_eq!(vec![None, M(1, JOKER)], moves(&hand, 4, FOUR));
    assert_eq!(vec![None, M(1, JOKER)], moves(&hand, 4, FIVE));
}

#[test]
fn test_moves_close() {
    let hand = vec![1, 9, 11, 12, 13];
    let top_card = 11;
    assert_eq!(vec![None, Some((1, 13)), Some((1, 12))], moves(&hand, 1, top_card));
}

#[test]
fn test_moves_duplicate_move() {
    let hand = vec![7, 7, 9, 10, 11, 12, 13];
    let top_card = 4;
    assert_eq!(
        vec![
            None,
            Some((1, 13)),
            Some((1, 12)),
            Some((1, 11)),
            Some((1, 10)),
            Some((1, 9)),
            Some((1, 7))
        ],
        moves(&hand, 1, top_card)
    );
}

#[test]
fn test_all_moves() {
    let hand = vec![THREE, FOUR, FOUR, FOUR, FOUR, JOKER, JOKER];

    assert_eq!(
        vec![M(1, THREE), M(1, FOUR), M(2, FOUR), M(3, FOUR), M(4, FOUR), M(1, JOKER)],
        all_moves(&hand)
    );
}

#[test]
fn test_num_players() {
    for i in 1..55 {
        assert_eq!(i, State::new(i, DECK.to_vec()).num_players());
    }
}

#[test]
fn test_new() {
    let state = State::new(5, DECK.to_vec());
    assert_eq!(10, state.hand(0).len());
    assert_eq!(11, state.hand(1).len());
    assert_eq!(11, state.hand(2).len());
    assert_eq!(11, state.hand(3).len());
    assert_eq!(11, state.hand(4).len());

    let mut all_cards = vec![];
    all_cards.extend_from_slice(&state.hand(0)[..]);
    all_cards.extend_from_slice(&state.hand(1)[..]);
    all_cards.extend_from_slice(&state.hand(2)[..]);
    all_cards.extend_from_slice(&state.hand(3)[..]);
    all_cards.extend_from_slice(&state.hand(4)[..]);
    all_cards.sort();
    assert_eq!(all_cards, DECK.to_vec());
}

#[test]
fn smoke_test() {
    let mut state = State::new(4, DECK.to_vec());
    while !state.is_terminal() {
        let action = state
            .moves()
            .pop()
            .expect(&(format!("State didn't produce moves: {:?}", state)));
        state.apply(action);
    }
}

#[test]
fn continuation_lists_pass_first_and_only_higher_ranks() {
    let hands: Vec<Vec<u8>> = vec![
        vec![],
        vec![JOKER],
        vec![1, 1, 2, 2, 2, 5, 9, 9, 9, 9, 13, 14, 14],
        vec![3, 3, 3, 3, 4, 4, 4, 4],
        vec![13, 13, 13, 13, 14],
    ];
    for hand in hands.iter() {
        for count in 1..=4u8 {
            for rank in 0..=15u8 {
                let found = moves(hand, count, rank);
                assert_eq!(None, found[0]);
                for m in found[1..].iter() {
                    let (c, r) = m.expect("a second pass");
                    assert!(r > rank);
                    if r == JOKER {
                        assert_eq!(1, c);
                    } else {
                        assert_eq!(count, c);
                        assert!(hand.iter().filter(|card| **card == r).count() >= count as usize);
                    }
                }
            }
        }
    }
}

#[test]
fn continuation_needs_the_full_count() {
    let hand = vec![2, 2, 6, 6, 6, 8];
    assert_eq!(vec![None, M(2, 6), M(2, 2)], moves(&hand, 2, 1));
    assert_eq!(vec![None, M(3, 6)], moves(&hand, 3, 1));
    assert_eq!(vec![None], moves(&hand, 4, 1));
    assert_eq!(vec![None, M(1, 8), M(1, 6)], moves(&hand, 1, 2));
}

#[test]
fn nothing_beats_a_joker() {
    let hand = vec![13, 13, 14, 14];
    assert_eq!(vec![None], moves(&hand, 1, JOKER));
    assert_eq!(vec![None, M(1, JOKER)], moves(&hand, 1, 13));
    assert_eq!(vec![None, M(1, JOKER)], moves(&hand, 3, 12));
}

#[test]
fn empty_hand_answers_with_a_pass() {
    let hand: Vec<u8> = vec![];
    assert_eq!(vec![None], moves(&hand, 1, THREE));
}

#[test]
fn empty_hand_leads_with_a_pass() {
    let hand: Vec<u8> = vec![];
    assert_eq!(vec![None], all_moves(&hand));
}

#[test]
fn leading_lists_one_move_per_card_of_a_rank() {
    let hand = vec![1, 1, 2, 5, 5, 5, 9, 9, 9, 9, 13, 14, 14];
    let found = all_moves(&hand);
    assert_eq!(
        vec![
            M(1, 1),
            M(2, 1),
            M(1, 2),
            M(1, 5),
            M(2, 5),
            M(3, 5),
            M(1, 9),
            M(2, 9),
            M(3, 9),
            M(4, 9),
            M(1, 13),
            M(1, JOKER)
        ],
        found
    );
    for rank in 1..=13u8 {
        let held = hand.iter().filter(|card| **card == rank).count();
        let listed = found.iter().filter(|m| m.map(|p| p.1) == Some(rank)).count();
        assert_eq!(held, listed);
    }
}

#[test]
fn leading_without_a_joker_ends_with_the_highest_rank() {
    let hand = vec![4, 4, 12];
    assert_eq!(vec![M(1, 4), M(2, 4), M(1, 12)], all_moves(&hand));
}

#[test]
fn leading_with_jokers_only() {
    let hand = vec![JOKER, JOKER];
    assert_eq!(vec![M(1, JOKER)], all_moves(&hand));
}

#[test]
fn dealing_gives_back_the_deck() {
    for players in 1..=54usize {
        let mut deck = DECK.to_vec();
        deck.reverse();
        let state = State::new(players, deck);
        let mut all_cards: Vec<u8> = vec![];
        for seat in 0..players {
            let hand = state.hand(seat);
            assert_eq!((54 + seat) / players, hand.len());
            let mut sorted = hand.clone();
            sorted.sort();
            assert_eq!(&sorted, hand);
            all_cards.extend_from_slice(&hand[..]);
        }
        all_cards.sort();
        assert_eq!(DECK.to_vec(), all_cards);
    }
}

#[test]
fn the_full_deck_is_the_deck() {
    assert_eq!(DECK.to_vec(), full_deck());
    assert_eq!(54, full_deck().len());
}

#[test]
fn dealing_works_from_the_end_of_the_deck() {
    let state = State::new(2, DECK.to_vec());
    assert_eq!(&DECK[27..].to_vec(), state.hand(0));
    assert_eq!(&DECK[..27].to_vec(), state.hand(1));
    assert_eq!(0, state.current_player());
    assert_eq!(None, *state.top_card());
    assert!(!state.is_terminal());
}

#[test]
fn a_play_sets_the_pile_and_requeues_the_player() {
    let mut state = State::new(3, DECK.to_vec());
    assert_eq!(&DECK[36..].to_vec(), state.hand(0));
    state.apply(Some((2, 10)));
    assert_eq!(Some((2, 10)), *state.top_card());
    assert_eq!(1, state.current_player());
    assert_eq!(16, state.hand(0).len());
    assert_eq!(&vec![10u8, 10, 11, 11, 11, 11, 12, 12, 12, 12, 13, 13, 13, 13, 14, 14], state.hand(0));
    assert_eq!(vec![None], state.moves());
    state.apply(None);
    assert_eq!(2, state.current_player());
    assert_eq!(Some((2, 10)), *state.top_card());
    state.apply(None);
    assert_eq!(0, state.current_player());
    assert_eq!(None, *state.top_card());
    assert_eq!(all_moves(state.hand(0)), state.moves());
    state.apply(Some((1, JOKER)));
    assert_eq!(vec![None], state.moves());
    state.apply(None);
    state.apply(None);
    assert_eq!(0, state.current_player());
    assert_eq!(1, state.hand(0).iter().filter(|card| **card == JOKER).count());
}

#[test]
fn the_trick_goes_round_in_seat_order_after_a_sweep() {
    let mut state = State::new(4, DECK.to_vec());
    state.apply(Some((1, 11)));
    assert_eq!(1, state.current_player());
    state.apply(None);
    assert_eq!(2, state.current_player());
    state.apply(None);
    assert_eq!(3, state.current_player());
    state.apply(None);
    assert_eq!(0, state.current_player());
    assert_eq!(None, *state.top_card());
    state.apply(Some((1, 11)));
    for seat in 1..4 {
        assert_eq!(seat, state.current_player());
        state.apply(None);
    }
    assert_eq!(0, state.current_player());
}

#[test]
fn the_first_empty_hand_wins() {
    let mut state = State::new(54, DECK.to_vec());
    assert_eq!(&vec![JOKER], state.hand(0));
    assert_eq!(vec![Some((1, JOKER))], state.moves());
    state.apply(Some((1, JOKER)));
    assert!(state.is_terminal());
    assert_eq!(0, state.winner());
    assert_eq!(Vec::<Move>::new(), state.moves());
}

#[test]
fn one_player_plays_alone_to_the_end() {
    let mut state = State::new(1, DECK.to_vec());
    let mut steps = 0;
    while !state.is_terminal() {
        assert_eq!(None, *state.top_card());
        assert_eq!(0, state.current_player());
        let action = state.moves().pop().expect("no move");
        state.apply(action);
        steps += 1;
    }
    assert_eq!(15, steps);
    assert_eq!(0, state.winner());
}

#[test]
fn a_copy_of_a_state_goes_its_own_way() {
    let state = State::new(3, DECK.to_vec());
    let mut copy = state.clone();
    copy.apply(Some((1, 14)));
    assert_eq!(18, state.hand(0).len());
    assert_eq!(17, copy.hand(0).len());
    assert_eq!(None, *state.top_card());
    assert_eq!(0, state.current_player());
    assert_eq!(1, copy.current_player());
}
