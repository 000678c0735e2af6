//! Text: numbers, moves and cards as a person reads them.

use vstd::prelude::*;
use vstd::string::StringExecFns;
use crate::cards::{Move, JOKER, THREE};

verus! {

/// The character of the digit `d`.
pub open spec fn digit_char(d: nat) -> char {
    if d == 0 {
        '0'
    } else if d == 1 {
        '1'
    } else if d == 2 {
        '2'
    } else if d == 3 {
        '3'
    } else if d == 4 {
        '4'
    } else if d == 5 {
        '5'
    } else if d == 6 {
        '6'
    } else if d == 7 {
        '7'
    } else if d == 8 {
        '8'
    } else {
        '9'
    }
}

/// The number `n` in decimal digits, without leading zeros.
pub open spec fn decimal_text(n: nat) -> Seq<char>
    decreases n,
{
    if n < 10 {
        seq![digit_char(n)]
    } else {
        decimal_text(n / 10).push(digit_char(n % 10))
    }
}

/// A move as `Debug` prints it: `None`, or `Some((count, rank))`.
pub open spec fn move_debug_text(m: Move) -> Seq<char> {
    match m {
        None => "None"@,
        Some((count, rank)) => "Some(("@ + decimal_text(count as nat) + ", "@ + decimal_text(
            rank as nat,
        ) + "))"@,
    }
}

/// The first `upto` moves as `Debug` prints them in a list, without the brackets.
pub open spec fn moves_listed_text(moves: Seq<Move>, upto: int) -> Seq<char>
    decreases upto,
{
    if upto <= 0 {
        Seq::empty()
    } else if upto == 1 {
        move_debug_text(moves[0])
    } else {
        moves_listed_text(moves, upto - 1) + ", "@ + move_debug_text(moves[upto - 1])
    }
}

/// A list of moves as `Debug` prints it.
pub open spec fn moves_debug_text(moves: Seq<Move>) -> Seq<char> {
    "["@ + moves_listed_text(moves, moves.len() as int) + "]"@
}

/// The name of a card by its rank.
pub open spec fn card_name_text(rank: u8) -> Seq<char> {
    if rank == 1 {
        "3"@
    } else if rank == 2 {
        "4"@
    } else if rank == 3 {
        "5"@
    } else if rank == 4 {
        "6"@
    } else if rank == 5 {
        "7"@
    } else if rank == 6 {
        "8"@
    } else if rank == 7 {
        "9"@
    } else if rank == 8 {
        "10"@
    } else if rank == 9 {
        "Jack"@
    } else if rank == 10 {
        "Queen"@
    } else if rank == 11 {
        "King"@
    } else if rank == 12 {
        "Ace"@
    } else if rank == 13 {
        "2"@
    } else {
        "Joker"@
    }
}

/// A move as a player reads it: `Pass`, or the number of cards, an `x` and the card's name.
pub open spec fn move_label_text(m: Move) -> Seq<char> {
    match m {
        None => "Pass"@,
        Some((count, rank)) => decimal_text(count as nat) + "x "@ + card_name_text(rank),
    }
}

/// A numbered choice: the number, a colon and the move.
pub open spec fn choice_text(index: nat, m: Move) -> Seq<char> {
    decimal_text(index) + ": "@ + move_label_text(m)
}

/// The digit `d` as text.
fn digit_str(d: u64) -> (text: &'static str)
    requires
        d < 10,
    ensures
        text@ == seq![digit_char(d as nat)],
{
    proof {
        reveal_strlit("0");
        reveal_strlit("1");
        reveal_strlit("2");
        reveal_strlit("3");
        reveal_strlit("4");
        reveal_strlit("5");
        reveal_strlit("6");
        reveal_strlit("7");
        reveal_strlit("8");
        reveal_strlit("9");
    }
    let text = if d == 0 {
        "0"
    } else if d == 1 {
        "1"
    } else if d == 2 {
        "2"
    } else if d == 3 {
        "3"
    } else if d == 4 {
        "4"
    } else if d == 5 {
        "5"
    } else if d == 6 {
        "6"
    } else if d == 7 {
        "7"
    } else if d == 8 {
        "8"
    } else {
        "9"
    };
    text
}

/// Writes the number `n` in decimal digits at the end of `out`.
pub fn write_decimal(out: &mut String, n: u64)
    ensures
        final(out)@ == old(out)@ + decimal_text(n as nat),
    decreases n,
{
    if n >= 10 {
        write_decimal(out, n / 10);
    }
    out.append(digit_str(n % 10));
}

/// Writes the move `m` as `Debug` prints it at the end of `out`.
pub fn write_move_debug(out: &mut String, m: Move)
    ensures
        final(out)@ == old(out)@ + move_debug_text(m),
{
    match m {
        None => {
            out.append("None");
        },
        Some((count, rank)) => {
            out.append("Some((");
            write_decimal(out, count as u64);
            out.append(", ");
            write_decimal(out, rank as u64);
            out.append("))");
        },
    }
}

/// Writes the list `moves` as `Debug` prints it at the end of `out`.
pub fn write_moves_debug(out: &mut String, moves: &Vec<Move>)
    ensures
        final(out)@ == old(out)@ + moves_debug_text(moves@),
{
    let ghost start = out@;
    out.append("[");
    let mut i: usize = 0;
    while i < moves.len()
        invariant
            0 <= i <= moves@.len(),
            out@ == start + "["@ + moves_listed_text(moves@, i as int),
        decreases moves@.len() - i,
    {
        if i > 0 {
            out.append(", ");
        }
        write_move_debug(out, moves[i]);
        i += 1;
    }
    out.append("]");
}

/// The name of the card of rank `rank`.
pub fn card_name(rank: u8) -> (name: &'static str)
    requires
        THREE <= rank <= JOKER,
    ensures
        name@ == card_name_text(rank),
{
    if rank == 1 {
        "3"
    } else if rank == 2 {
        "4"
    } else if rank == 3 {
        "5"
    } else if rank == 4 {
        "6"
    } else if rank == 5 {
        "7"
    } else if rank == 6 {
        "8"
    } else if rank == 7 {
        "9"
    } else if rank == 8 {
        "10"
    } else if rank == 9 {
        "Jack"
    } else if rank == 10 {
        "Queen"
    } else if rank == 11 {
        "King"
    } else if rank == 12 {
        "Ace"
    } else if rank == 13 {
        "2"
    } else {
        "Joker"
    }
}

/// The move `m` as a player reads it.
pub fn move_label(m: Move) -> (label: String)
    requires
        m is Some ==> THREE <= m.unwrap().1 <= JOKER,
    ensures
        label@ == move_label_text(m),
{
    let mut label = String::new();
    match m {
        None => {
            label.append("Pass");
        },
        Some((count, rank)) => {
            write_decimal(&mut label, count as u64);
            label.append("x ");
            label.append(card_name(rank));
        },
    }
    label
}

/// The choice of the move `m` under the number `index`, as a player reads it.
pub fn choice_label(index: usize, m: Move) -> (label: String)
    requires
        m is Some ==> THREE <= m.unwrap().1 <= JOKER,
    ensures
        label@ == choice_text(index as nat, m),
{
    let mut label = String::new();
    write_decimal(&mut label, index as u64);
    label.append(": ");
    let text = move_label(m);
    label.append(text.as_str());
    label
}

} // verus!
