//! Move generation: the moves that a hand offers when it leads a trick and when it has to
//! answer the cards on the pile.

use vstd::prelude::*;
use crate::cards::{
    copies_in_deck, count_of, fits_deck, is_hand, lemma_count_of_at_least,
    lemma_count_of_at_most, lemma_count_of_member, lemma_count_of_uniform,
    lemma_fits_deck_ranks, Hand, Move, JOKER, THREE, TWO,
};

verus! {

/// The single joker that a hand holding one may always play.
pub open spec fn joker_option(hand: Seq<u8>) -> Seq<Move> {
    if count_of(hand, JOKER) > 0 {
        seq![Some((1u8, JOKER))]
    } else {
        Seq::empty()
    }
}

/// What `rank` contributes to the answers to a pile of `count` cards: the joker for a hand that
/// holds one, and for an ordinary rank the play of exactly `count` cards, if the hand holds
/// that many.
pub open spec fn answer_at(hand: Seq<u8>, count: u8, rank: u8) -> Seq<Move> {
    if rank == JOKER {
        joker_option(hand)
    } else if count_of(hand, rank) >= count {
        seq![Some((count, rank))]
    } else {
        Seq::empty()
    }
}

/// The answers of all ranks above `floor`, from the highest rank down.
pub open spec fn answers_above(hand: Seq<u8>, count: u8, floor: int) -> Seq<Move>
    decreases JOKER - floor,
{
    if floor >= JOKER {
        Seq::empty()
    } else {
        answers_above(hand, count, floor + 1) + answer_at(hand, count, (floor + 1) as u8)
    }
}

/// The moves open to a hand that must answer `count` cards of `rank`: a pass, then every
/// answer of a higher rank, highest first.
pub open spec fn continuation_moves(hand: Seq<u8>, count: u8, rank: u8) -> Seq<Move> {
    seq![None] + answers_above(hand, count, rank as int)
}

/// The plays of one to `len` cards of `rank`, fewest first.
pub open spec fn run_prefixes(rank: u8, len: nat) -> Seq<Move> {
    Seq::new(len, |k: int| Some(((k + 1) as u8, rank)))
}

/// The opening plays of the ordinary ranks up to `top`, lowest rank first: for each rank one
/// play per number of cards that the hand holds of it.
pub open spec fn openings_upto(hand: Seq<u8>, top: int) -> Seq<Move>
    decreases top,
{
    if top <= 0 {
        Seq::empty()
    } else {
        openings_upto(hand, top - 1) + run_prefixes(top as u8, count_of(hand, top as u8))
    }
}

/// The moves open to a hand that leads a trick: every opening play of an ordinary rank,
/// then the joker. A hand without cards can only pass.
pub open spec fn leading_moves(hand: Seq<u8>) -> Seq<Move> {
    if hand.len() == 0 {
        seq![None]
    } else {
        openings_upto(hand, TWO as int) + joker_option(hand)
    }
}

/// The rank just below the card at position `i`, or the highest rank when `i` is past the end.
pub open spec fn floor_at(hand: Seq<u8>, i: int, top: int) -> int {
    if i >= hand.len() {
        top
    } else {
        hand[i] - 1
    }
}

/// Ranks that contribute no answer may be left out: the answers above `lo` are those above
/// `hi` when no rank above `lo` and up to `hi` contributes one.
proof fn lemma_answers_skip(hand: Seq<u8>, count: u8, lo: int, hi: int)
    requires
        lo <= hi <= JOKER,
        forall|r: int| lo < r <= hi ==> #[trigger] answer_at(hand, count, r as u8) =~= Seq::empty(),
    ensures
        answers_above(hand, count, lo) == answers_above(hand, count, hi),
    decreases hi - lo,
{
    if lo < hi {
        lemma_answers_skip(hand, count, lo + 1, hi);
    }
}

/// Between two neighbouring cards of an ascending hand no rank is held: the ranks above
/// `lo` and up to `hi` contribute no answer when the cards up to position `i` rank at most
/// `lo` and the cards after it rank above `hi`.
proof fn lemma_answers_gap(hand: Seq<u8>, count: u8, i: int, lo: int, hi: int)
    requires
        count >= 1,
        0 <= lo <= hi <= JOKER,
        -1 <= i < hand.len(),
        forall|k: int| 0 <= k <= i ==> hand[k] <= lo,
        forall|k: int| i < k < hand.len() ==> hand[k] > hi,
    ensures
        answers_above(hand, count, lo) == answers_above(hand, count, hi),
{
    assert forall|r: int| lo < r <= hi implies #[trigger] answer_at(hand, count, r as u8)
        =~= Seq::empty() by {
        lemma_count_of_uniform(hand, r as u8);
    }
    lemma_answers_skip(hand, count, lo, hi);
}

/// Ranks that the hand does not hold may be left out: the opening plays up to `hi` are
/// those up to `lo` when the hand holds no rank above `lo` and up to `hi`.
proof fn lemma_openings_skip(hand: Seq<u8>, lo: int, hi: int)
    requires
        0 <= lo <= hi <= TWO,
        forall|r: int| lo < r <= hi ==> #[trigger] count_of(hand, r as u8) == 0,
    ensures
        openings_upto(hand, lo) == openings_upto(hand, hi),
    decreases hi - lo,
{
    if lo < hi {
        lemma_openings_skip(hand, lo, hi - 1);
    }
}

/// Between two neighbouring cards of an ascending hand no rank is held: the ranks above
/// `lo` and up to `hi` contribute no opening play when the cards up to position `i` rank at
/// most `lo` and the cards after it rank above `hi`.
proof fn lemma_openings_gap(hand: Seq<u8>, i: int, lo: int, hi: int)
    requires
        0 <= lo <= hi <= TWO,
        -1 <= i < hand.len(),
        forall|k: int| 0 <= k <= i ==> hand[k] <= lo,
        forall|k: int| i < k < hand.len() ==> hand[k] > hi,
    ensures
        openings_upto(hand, lo) == openings_upto(hand, hi),
{
    assert forall|r: int| lo < r <= hi implies #[trigger] count_of(hand, r as u8) == 0 by {
        lemma_count_of_uniform(hand, r as u8);
    }
    lemma_openings_skip(hand, lo, hi);
}

/// The moves with which `hand` can answer a pile of `count` cards of rank `card`.
pub fn moves(hand: &Hand, count: u8, card: u8) -> (result: Vec<Move>)
    requires
        is_hand(hand@),
        count >= 1,
    ensures
        result@ == continuation_moves(hand@, count, card),
{
    let mut moves: Vec<Move> = Vec::new();
    moves.push(None);
    let n = hand.len();
    let mut i: usize = n;
    let offset: usize = count as usize - 1;
    let mut has_joker = false;
    let mut scanning = true;
    proof {
        lemma_fits_deck_ranks(hand@);
    }
    while scanning && i > 0
        invariant
            is_hand(hand@),
            count >= 1,
            n == hand@.len(),
            offset == count - 1,
            0 <= i <= n,
            forall|k: int| 0 <= k < n ==> THREE <= #[trigger] hand@[k] <= JOKER,
            scanning ==> moves@ == seq![None] + answers_above(
                hand@,
                count,
                floor_at(hand@, i as int, JOKER as int),
            ),
            scanning && i < n ==> hand@[i as int] > card,
            scanning ==> (has_joker <==> i < n && hand@[n - 1] == JOKER),
            scanning && 0 < i < n && hand@[i - 1] == hand@[i as int] && hand@[i as int] != JOKER
                ==> count_of(hand@, hand@[i as int]) < count,
            !scanning ==> moves@ == continuation_moves(hand@, count, card),
        decreases i + (if scanning { 1int } else { 0int }),
    {
        let ghost above = floor_at(hand@, i as int, JOKER as int);
        i -= 1;
        let rank = hand[i];
        if rank <= card {
            proof {
                if card >= JOKER {
                    lemma_answers_gap(hand@, count, i as int, JOKER as int, JOKER as int);
                    lemma_answers_skip(hand@, count, above, JOKER as int);
                } else {
                    lemma_answers_gap(hand@, count, i as int, card as int, above);
                }
            }
            scanning = false;
        } else if rank == JOKER {
            if !has_joker {
                proof {
                    lemma_count_of_member(hand@, i as int);
                }
                moves.push(Some((1, JOKER)));
                has_joker = true;
            }
        } else if i < offset {
            proof {
                assert forall|r: int| card < r <= above implies #[trigger] answer_at(
                    hand@,
                    count,
                    r as u8,
                ) =~= Seq::empty() by {
                    if r > rank {
                        lemma_count_of_uniform(hand@, r as u8);
                    } else {
                        lemma_count_of_at_most(hand@, r as u8, 0, i + 1);
                    }
                }
                lemma_answers_skip(hand@, count, card as int, above);
            }
            scanning = false;
        } else if rank == hand[i - offset] {
            proof {
                lemma_count_of_at_least(hand@, rank, i - offset, i + 1);
                lemma_answers_gap(hand@, count, i as int, rank as int, above);
            }
            moves.push(Some((count, rank)));
            i -= offset;
            while i > 0 && hand[i - 1] == rank
                invariant
                    0 <= i < n,
                    n == hand@.len(),
                    hand@[i as int] == rank,
                decreases i,
            {
                i -= 1;
            }
        } else {
            proof {
                if !(i + 1 < n && hand@[i + 1] == rank) {
                    assert forall|k: int| 0 <= k < n && hand@[k] == rank implies i - offset < k < i
                        + 1 by {
                        if k <= i - offset {
                            assert(hand@[k] <= hand@[i - offset]);
                        }
                        if k > i {
                            assert(hand@[i as int] <= hand@[i + 1]);
                        }
                    }
                    lemma_count_of_at_most(hand@, rank, i - offset + 1, i + 1);
                    lemma_answers_gap(hand@, count, i as int, rank as int, above);
                }
            }
        }
    }
    proof {
        if scanning {
            if n == 0 {
                lemma_answers_gap(hand@, count, -1, 0, JOKER as int);
                if 0 < card < JOKER {
                    lemma_answers_gap(hand@, count, -1, card as int, JOKER as int);
                }
            } else {
                lemma_answers_gap(hand@, count, -1, card as int, hand@[0] - 1);
            }
        }
    }
    moves
}

/// The moves with which `hand` can lead a trick.
pub fn all_moves(hand: &Hand) -> (result: Vec<Move>)
    requires
        is_hand(hand@),
    ensures
        result@ == leading_moves(hand@),
{
    let mut moves: Vec<Move> = Vec::new();
    if hand.len() == 0 {
        moves.push(None);
        return moves;
    }
    let end = hand.len();
    let mut i: usize = 0;
    let mut joker_seen = false;
    proof {
        lemma_fits_deck_ranks(hand@);
        lemma_openings_gap(hand@, -1, 0, hand@[0] - 1);
    }
    while i < end && !joker_seen
        invariant
            is_hand(hand@),
            end == hand@.len(),
            end > 0,
            0 <= i <= end,
            forall|k: int| 0 <= k < end ==> THREE <= #[trigger] hand@[k] <= JOKER,
            !joker_seen && i > 0 ==> hand@[i - 1] < JOKER,
            !joker_seen && 0 < i < end ==> hand@[i - 1] < hand@[i as int],
            !joker_seen ==> moves@ == openings_upto(
                hand@,
                floor_at(hand@, i as int, TWO as int),
            ),
            joker_seen ==> moves@ == leading_moves(hand@),
        decreases end - i + (if joker_seen { 0int } else { 1int }),
    {
        let rank = hand[i];
        if rank == JOKER {
            proof {
                lemma_count_of_member(hand@, i as int);
            }
            moves.push(Some((1, JOKER)));
            joker_seen = true;
        } else {
            let start = i;
            let mut taken: u8 = 0;
            while i < end && hand[i] == rank
                invariant
                    is_hand(hand@),
                    end == hand@.len(),
                    start <= i <= end,
                    taken == i - start,
                    THREE <= rank <= TWO,
                    forall|k: int| start <= k < i ==> hand@[k] == rank,
                    moves@ == openings_upto(hand@, rank - 1) + run_prefixes(rank, taken as nat),
                decreases end - i,
            {
                proof {
                    lemma_count_of_at_least(hand@, rank, start as int, i + 1);
                    assert(count_of(hand@, rank) <= copies_in_deck(rank));
                    assert(run_prefixes(rank, taken as nat).push(Some(((taken + 1) as u8, rank)))
                        =~= run_prefixes(rank, (taken + 1) as nat));
                }
                taken += 1;
                moves.push(Some((taken, rank)));
                i += 1;
                proof {
                    assert(moves@ =~= openings_upto(hand@, rank - 1) + run_prefixes(
                        rank,
                        taken as nat,
                    ));
                }
            }
            proof {
                assert forall|k: int| 0 <= k < end && hand@[k] == rank implies start <= k < i by {
                    if k < start {
                        assert(hand@[k] <= hand@[start - 1]);
                    }
                    if k >= i {
                        assert(hand@[i as int] <= hand@[k]);
                        assert(hand@[start as int] <= hand@[i as int]);
                    }
                }
                lemma_count_of_at_most(hand@, rank, start as int, i as int);
                lemma_count_of_at_least(hand@, rank, start as int, i as int);
                let next = floor_at(hand@, i as int, TWO as int);
                lemma_openings_gap(hand@, i - 1, rank as int, next);
            }
        }
    }
    proof {
        if !joker_seen {
            assert forall|k: int| 0 <= k < end implies hand@[k] != JOKER by {
                assert(hand@[k] <= hand@[end - 1]);
            }
            lemma_count_of_uniform(hand@, JOKER);
        }
    }
    moves
}

/// The rank that a move plays; a pass ranks below every card.
pub open spec fn rank_of(m: Move) -> int {
    match m {
        None => 0,
        Some((_, rank)) => rank as int,
    }
}

/// The number of cards that a move plays; a pass plays none.
pub open spec fn count_in(m: Move) -> int {
    match m {
        None => 0,
        Some((count, _)) => count as int,
    }
}

/// `m` is the answer that its own rank contributes, and that rank lies above `floor`.
pub open spec fn answers_from(hand: Seq<u8>, count: u8, floor: int, m: Move) -> bool {
    &&& m is Some
    &&& floor < rank_of(m) <= JOKER
    &&& answer_at(hand, count, m.unwrap().1) == seq![m]
}

/// Every answer above `floor` is the answer of a rank above `floor`, each such answer is
/// there, and the ranks strictly descend.
pub proof fn lemma_answers_above(hand: Seq<u8>, count: u8, floor: int)
    requires
        0 <= floor,
    ensures
        forall|i: int|
            0 <= i < answers_above(hand, count, floor).len() ==> answers_from(
                hand,
                count,
                floor,
                #[trigger] answers_above(hand, count, floor)[i],
            ),
        forall|i: int, j: int|
            0 <= i < j < answers_above(hand, count, floor).len() ==> rank_of(
                answers_above(hand, count, floor)[i],
            ) > rank_of(answers_above(hand, count, floor)[j]),
        forall|m: Move|
            answers_from(hand, count, floor, m) ==> answers_above(hand, count, floor).contains(m),
    decreases JOKER - floor,
{
    let all = answers_above(hand, count, floor);
    if floor < JOKER {
        let higher = answers_above(hand, count, floor + 1);
        let here = answer_at(hand, count, (floor + 1) as u8);
        lemma_answers_above(hand, count, floor + 1);
        assert(all =~= higher + here);
        assert forall|i: int| 0 <= i < all.len() implies answers_from(
            hand,
            count,
            floor,
            #[trigger] all[i],
        ) by {
            if i < higher.len() {
                assert(answers_from(hand, count, floor + 1, higher[i]));
            } else {
                assert(all[i] == here[0]);
                assert(here =~= seq![all[i]]);
            }
        }
        assert forall|i: int, j: int| 0 <= i < j < all.len() implies rank_of(all[i]) > rank_of(
            all[j],
        ) by {
            assert(answers_from(hand, count, floor + 1, higher[i]));
            if j >= higher.len() {
                assert(all[j] == here[0]);
            }
        }
        assert forall|m: Move| answers_from(hand, count, floor, m) implies all.contains(m) by {
            if rank_of(m) == floor + 1 {
                assert(here[0] == m);
                assert(all[higher.len() as int] == m);
            } else {
                assert(answers_from(hand, count, floor + 1, m));
                let k = choose|k: int| 0 <= k < higher.len() && higher[k] == m;
                assert(all[k] == m);
            }
        }
    }
}

/// A hand that answers a pile may always pass, and passing is listed first. Every other move
/// listed plays a rank above the pile's: a single joker, or exactly `count` cards of an
/// ordinary rank that the hand holds that often. Each such play is listed once, highest
/// rank first.
pub proof fn lemma_continuation_moves_beat_pile(hand: Seq<u8>, count: u8, rank: u8)
    ensures
        continuation_moves(hand, count, rank).len() >= 1,
        continuation_moves(hand, count, rank)[0] == None::<(u8, u8)>,
        forall|i: int|
            1 <= i < continuation_moves(hand, count, rank).len() ==> answers_from(
                hand,
                count,
                rank as int,
                #[trigger] continuation_moves(hand, count, rank)[i],
            ),
        forall|i: int, j: int|
            0 <= i < j < continuation_moves(hand, count, rank).len() ==> rank_of(
                continuation_moves(hand, count, rank)[i],
            ) != rank_of(continuation_moves(hand, count, rank)[j]),
        forall|m: Move|
            answers_from(hand, count, rank as int, m) ==> continuation_moves(
                hand,
                count,
                rank,
            ).contains(m),
{
    let answers = answers_above(hand, count, rank as int);
    let all = continuation_moves(hand, count, rank);
    lemma_answers_above(hand, count, rank as int);
    assert forall|i: int| 1 <= i < all.len() implies answers_from(
        hand,
        count,
        rank as int,
        #[trigger] all[i],
    ) by {
        assert(all[i] == answers[i - 1]);
    }
    assert forall|i: int, j: int| 0 <= i < j < all.len() implies rank_of(all[i]) != rank_of(
        all[j],
    ) by {
        assert(all[j] == answers[j - 1]);
        assert(answers_from(hand, count, rank as int, answers[j - 1]));
        if i > 0 {
            assert(all[i] == answers[i - 1]);
        }
    }
    assert forall|m: Move| answers_from(hand, count, rank as int, m) implies all.contains(m) by {
        let k = choose|k: int| 0 <= k < answers.len() && answers[k] == m;
        assert(all[k + 1] == m);
    }
}

/// `m` plays between one card and as many cards of an ordinary rank up to `top` as the hand
/// holds of it.
pub open spec fn opens_with(hand: Seq<u8>, top: int, m: Move) -> bool {
    &&& m is Some
    &&& THREE <= rank_of(m) <= top
    &&& 1 <= count_in(m) <= count_of(hand, m.unwrap().1)
}

/// Orders plays by rank, and plays of one rank by their number of cards.
pub open spec fn play_order(m: Move) -> int {
    rank_of(m) * 256 + count_in(m)
}

/// The opening plays up to `top` are exactly the plays of one to as many cards as the hand
/// holds, for each ordinary rank up to `top`; they are listed in ascending order, by rank
/// and then by number of cards.
pub proof fn lemma_openings_upto(hand: Seq<u8>, top: int)
    requires
        fits_deck(hand),
        top <= TWO,
    ensures
        forall|i: int|
            0 <= i < openings_upto(hand, top).len() ==> opens_with(
                hand,
                top,
                #[trigger] openings_upto(hand, top)[i],
            ),
        forall|i: int, j: int|
            0 <= i < j < openings_upto(hand, top).len() ==> play_order(
                openings_upto(hand, top)[i],
            ) < play_order(openings_upto(hand, top)[j]),
        forall|m: Move| opens_with(hand, top, m) ==> openings_upto(hand, top).contains(m),
    decreases top,
{
    let all = openings_upto(hand, top);
    if top > 0 {
        let lower = openings_upto(hand, top - 1);
        let held = count_of(hand, top as u8);
        let here = run_prefixes(top as u8, held);
        lemma_openings_upto(hand, top - 1);
        assert(held <= copies_in_deck(top as u8));
        assert(all =~= lower + here);
        assert forall|i: int| 0 <= i < all.len() implies opens_with(hand, top, #[trigger] all[i]) by {
            if i < lower.len() {
                assert(opens_with(hand, top - 1, lower[i]));
            } else {
                assert(all[i] == here[i - lower.len()]);
            }
        }
        assert forall|i: int, j: int| 0 <= i < j < all.len() implies play_order(all[i])
            < play_order(all[j]) by {
            if j >= lower.len() {
                assert(all[j] == here[j - lower.len()]);
                if i < lower.len() {
                    assert(opens_with(hand, top - 1, lower[i]));
                } else {
                    assert(all[i] == here[i - lower.len()]);
                }
            }
        }
        assert forall|m: Move| opens_with(hand, top, m) implies all.contains(m) by {
            if rank_of(m) == top {
                let k = count_in(m) - 1;
                assert(here[k] == m);
                assert(all[lower.len() + k] == m);
            } else {
                assert(opens_with(hand, top - 1, m));
                let k = choose|k: int| 0 <= k < lower.len() && lower[k] == m;
                assert(all[k] == m);
            }
        }
    }
}

/// A hand that leads a trick and holds cards may not pass. For each ordinary rank it may play
/// one card, two, and so on up to the number it holds, and no more; holding a joker it may
/// play one joker. Each of these plays is listed once, so a rank held `n` times is listed
/// with exactly `n` moves.
pub proof fn lemma_leading_moves_follow_runs(hand: Seq<u8>)
    requires
        is_hand(hand),
        hand.len() > 0,
    ensures
        leading_moves(hand).len() > 0,
        forall|m: Move|
            leading_moves(hand).contains(m) <==> opens_with(hand, TWO as int, m) || (m == Some(
                (1u8, JOKER),
            ) && count_of(hand, JOKER) > 0),
        leading_moves(hand).no_duplicates(),
{
    let openings = openings_upto(hand, TWO as int);
    let all = leading_moves(hand);
    lemma_openings_upto(hand, TWO as int);
    lemma_fits_deck_ranks(hand);
    lemma_count_of_member(hand, 0);
    if hand[0] == JOKER {
        assert(all[openings.len() as int] == Some((1u8, JOKER)));
    } else {
        let first: Move = Some((1u8, hand[0]));
        assert(opens_with(hand, TWO as int, first));
        assert(openings.contains(first));
    }
    assert forall|m: Move|
        leading_moves(hand).contains(m) <==> opens_with(hand, TWO as int, m) || (m == Some(
            (1u8, JOKER),
        ) && count_of(hand, JOKER) > 0) by {
        if all.contains(m) {
            let k = choose|k: int| 0 <= k < all.len() && all[k] == m;
            if k < openings.len() {
                assert(opens_with(hand, TWO as int, openings[k]));
            }
        }
        if opens_with(hand, TWO as int, m) {
            let k = choose|k: int| 0 <= k < openings.len() && openings[k] == m;
            assert(all[k] == m);
        }
        if m == Some((1u8, JOKER)) && count_of(hand, JOKER) > 0 {
            assert(all[openings.len() as int] == m);
        }
    }
    assert forall|i: int, j: int| 0 <= i < all.len() && 0 <= j < all.len() && i != j implies all[i]
        != all[j] by {
        let (a, b) = if i < j {
            (i, j)
        } else {
            (j, i)
        };
        assert(opens_with(hand, TWO as int, openings[a]));
        if b < openings.len() {
            assert(play_order(openings[a]) < play_order(openings[b]));
        }
    }
}

} // verus!
