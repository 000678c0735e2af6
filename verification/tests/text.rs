use rand::{SeedableRng, XorShiftRng};
use scum::recommend::grow_tree;
use scum::search::{Node, NOBODY};
use scum::text::{
    card_name, choice_label, move_label, write_decimal, write_move_debug, write_moves_debug,
};
use scum::{Move, State, DECK, JOKER};

#[test]
fn numbers_are_written_in_decimal() {
    for n in [0u64, 1, 9, 10, 11, 99, 100, 255, 1_000_000, 18_446_744_073_709_551_615] {
        let mut out = String::from("n=");
        write_decimal(&mut out, n);
        assert_eq!(format!("n={}", n), out);
    }
}

#[test]
fn moves_are_written_as_debug_prints_them() {
    let moves: Vec<Move> = vec![None, Some((1, 14)), Some((4, 3)), Some((255, 0))];
    for m in moves.iter() {
        let mut out = String::new();
        write_move_debug(&mut out, *m);
        assert_eq!(format!("{:?}", m), out);
    }
    for upto in 0..=moves.len() {
        let list: Vec<Move> = moves[..upto].to_vec();
        let mut out = String::from("U:");
        write_moves_debug(&mut out, &list);
        assert_eq!(format!("U:{:?}", list), out);
    }
}

#[test]
fn cards_have_names() {
    let names = [
        "3", "4", "5", "6", "7", "8", "9", "10", "Jack", "Queen", "King", "Ace", "2", "Joker",
    ];
    for rank in 1..=14u8 {
        assert_eq!(names[rank as usize - 1], card_name(rank));
    }
}

#[test]
fn moves_have_labels() {
    assert_eq!("Pass", move_label(None));
    assert_eq!("1x Joker", move_label(Some((1, JOKER))));
    assert_eq!("4x 10", move_label(Some((4, 8))));
    assert_eq!("2x 3", move_label(Some((2, 1))));
    assert_eq!("0: Pass", choice_label(0, None));
    assert_eq!("12: 3x Queen", choice_label(12, Some((3, 10))));
}

#[test]
fn a_new_node_is_one_line() {
    let node = Node::new(NOBODY, vec![Some((1, 14)), None]);
    assert_eq!("\nNone: [P:255 W/P:0/0 U:[Some((1, 14)), None]]", node.tree_string());
}

#[test]
fn a_tree_lists_children_below_their_parent() {
    let mut rng = XorShiftRng::from_seed([1, 2, 3, 4]);
    let state = State::new(54, DECK.to_vec());
    let mut root = Node::new(NOBODY, state.moves());
    let table = vec![0u64, 0, 2_977_044_471, 4_718_499_558];
    root.uct(&mut state.clone(), &mut rng, &table);
    assert_eq!(
        "\nNone: [P:255 W/P:0/1 U:[]]\n| Some((1, 14)): [P:0 W/P:1/1 U:[]]",
        root.tree_string()
    );
    root.uct(&mut state.clone(), &mut rng, &table);
    assert_eq!(
        "\nNone: [P:255 W/P:0/2 U:[]]\n| Some((1, 14)): [P:0 W/P:2/2 U:[]]",
        root.tree_string()
    );
}

#[test]
fn a_grown_tree_has_a_line_for_every_node() {
    let mut rng = XorShiftRng::from_seed([5, 6, 7, 8]);
    let state = State::new(3, DECK.to_vec());
    let table: Vec<u64> =
        (0..40).map(|n| if n == 0 { 0 } else { ((n as f64).ln() * 4294967296.0) as u64 }).collect();
    let root = grow_tree(&state, 40, &mut rng, &table);
    let text = root.tree_string();
    let lines: Vec<&str> = text.split('\n').collect();
    assert_eq!("", lines[0]);
    assert!(lines[1].starts_with("None: [P:255 W/P:0/40 U:["));
    // every simulation adds one node
    assert_eq!(1 + 1 + 40, lines.len());
    let depth_one = lines.iter().filter(|l| l.starts_with("| Some") || l.starts_with("| None")).count();
    assert_eq!(root.child_count(), depth_one);
    for line in lines[2..].iter() {
        assert!(line.starts_with("| "));
        assert!(line.ends_with("]"));
    }
}
