//! What the bytes of a score hold, stated by counting the cards: the
//! category, then the ranks that decide between hands of that category.
use vstd::prelude::*;

use crate::best_hand::{distinct_valid, lemma_nth_member, lemma_nth_strict, lemma_nth_ge};
use crate::card::Card;
use crate::eval::{
    five_card_score, lemma_nth_range, lemma_packed_bytes, lemma_run_range, nth_highest, packed,
    rank_count, rank_is, seven_card_score, with_low_ace,
};
use crate::trim::{among5, lemma_card_counted, lemma_cover5, lemma_nth_count};
use crate::best_hand::{lemma_two_ranks, lemma_valid_counts};
use crate::eval::{first_flush_suit, present_ranks, suit_count, suit_ranks, suited_count};
use crate::best_hand::{of_rank, of_rank_suit, of_suit};

verus! {

// ---------------------------------------------------------------------------
// Reading a score
// ---------------------------------------------------------------------------

/// The category of a score: its byte at bits 47..40.
pub open spec fn category(v: int) -> int {
    ((v as u64) >> 40u64) as int
}

/// The `k`-th tiebreaker of a score (1..=5): its byte at bits 39..32 for
/// the first, down to bits 7..0 for the fifth.
pub open spec fn tiebreak(v: int, k: int) -> int {
    let x = v as u64;
    if k == 1 {
        ((x >> 32u64) & 0xff) as int
    } else if k == 2 {
        ((x >> 24u64) & 0xff) as int
    } else if k == 3 {
        ((x >> 16u64) & 0xff) as int
    } else if k == 4 {
        ((x >> 8u64) & 0xff) as int
    } else {
        (x & 0xff) as int
    }
}

/// `x` is the highest rank below `bound` that the hand holds exactly `m`
/// times.
pub open spec fn highest_held(c: Seq<Card>, m: nat, bound: int, x: int) -> bool {
    &&& 2 <= x < bound
    &&& rank_count(c, x) == m
    &&& forall|r: int| x < r < bound ==> #[trigger] rank_count(c, r) != m
}

/// The parts of a packed score are read back from its bytes.
proof fn lemma_packed_parts(c: int, t1: int, t2: int, t3: int, t4: int, t5: int)
    requires
        0 <= c < 256,
        0 <= t1 < 256,
        0 <= t2 < 256,
        0 <= t3 < 256,
        0 <= t4 < 256,
        0 <= t5 < 256,
    ensures
        category(packed(c, t1, t2, t3, t4, t5)) == c,
        tiebreak(packed(c, t1, t2, t3, t4, t5), 1) == t1,
        tiebreak(packed(c, t1, t2, t3, t4, t5), 2) == t2,
        tiebreak(packed(c, t1, t2, t3, t4, t5), 3) == t3,
        tiebreak(packed(c, t1, t2, t3, t4, t5), 4) == t4,
        tiebreak(packed(c, t1, t2, t3, t4, t5), 5) == t5,
{
    lemma_packed_bytes(c as u64, t1 as u64, t2 as u64, t3 as u64, t4 as u64, t5 as u64);
}

/// Every packed score built from parts in range reads back as those parts.
proof fn lemma_all_packed_parts()
    ensures
        forall|c: int, t1: int, t2: int, t3: int, t4: int, t5: int|
            #![trigger packed(c, t1, t2, t3, t4, t5)]
            0 <= c < 256 && 0 <= t1 < 256 && 0 <= t2 < 256 && 0 <= t3 < 256 && 0 <= t4 < 256 && 0
                <= t5 < 256 ==> category(packed(c, t1, t2, t3, t4, t5)) == c && tiebreak(
                packed(c, t1, t2, t3, t4, t5),
                1,
            ) == t1 && tiebreak(packed(c, t1, t2, t3, t4, t5), 2) == t2 && tiebreak(
                packed(c, t1, t2, t3, t4, t5),
                3,
            ) == t3 && tiebreak(packed(c, t1, t2, t3, t4, t5), 4) == t4 && tiebreak(
                packed(c, t1, t2, t3, t4, t5),
                5,
            ) == t5,
{
    assert forall|c: int, t1: int, t2: int, t3: int, t4: int, t5: int|
        #![trigger packed(c, t1, t2, t3, t4, t5)]
        0 <= c < 256 && 0 <= t1 < 256 && 0 <= t2 < 256 && 0 <= t3 < 256 && 0 <= t4 < 256 && 0 <= t5
            < 256 implies category(packed(c, t1, t2, t3, t4, t5)) == c && tiebreak(
        packed(c, t1, t2, t3, t4, t5),
        1,
    ) == t1 && tiebreak(packed(c, t1, t2, t3, t4, t5), 2) == t2 && tiebreak(
        packed(c, t1, t2, t3, t4, t5),
        3,
    ) == t3 && tiebreak(packed(c, t1, t2, t3, t4, t5), 4) == t4 && tiebreak(
        packed(c, t1, t2, t3, t4, t5),
        5,
    ) == t5 by {
        lemma_packed_parts(c, t1, t2, t3, t4, t5);
    }
}

/// Ranges of the parts that scores are built from.
proof fn lemma_parts_in_range(c: Seq<Card>)
    ensures
        forall|m: nat, k: int| #[trigger] nth_highest(rank_is(c, m), 14, k) == 0 || 2 <= nth_highest(rank_is(c, m), 14, k) <= 14,
{
    assert forall|m: nat, k: int| #[trigger] nth_highest(rank_is(c, m), 14, k) == 0 || 2 <= nth_highest(
        rank_is(c, m),
        14,
        k,
    ) <= 14 by {
        lemma_nth_range(rank_is(c, m), 14, k);
    }
}

/// The `k`-th highest rank held `m` times, when there is one, is the highest
/// such rank below the one before it.
proof fn lemma_nth_is_highest_held(c: Seq<Card>, m: nat, k: int)
    requires
        distinct_valid(c),
        m >= 1,
        0 <= k <= 4,
        nth_highest(rank_is(c, m), 14, k) != 0,
    ensures
        highest_held(
            c,
            m,
            if k == 0 {
                15
            } else {
                nth_highest(rank_is(c, m), 14, k - 1)
            },
            nth_highest(rank_is(c, m), 14, k),
        ),
{
    let q = rank_is(c, m);
    let x = nth_highest(q, 14, k);
    lemma_nth_member(q, 14, k);
    if k >= 1 {
        lemma_nth_strict(q, 14, k - 1);
    }
    if k >= 2 {
        lemma_nth_strict(q, 14, k - 2);
    }
    if k >= 3 {
        lemma_nth_strict(q, 14, k - 3);
    }
    if k >= 4 {
        lemma_nth_strict(q, 14, k - 4);
    }
    let bound = if k == 0 {
        15
    } else {
        nth_highest(q, 14, k - 1)
    };
    assert forall|r: int| x < r < bound implies #[trigger] rank_count(c, r) != m by {
        lemma_valid_counts(c, r, 0);
        if rank_count(c, r) == m {
            assert(q(r));
            lemma_nth_ge(q, 14, k, r);
        }
    }
}

/// The parts of every score of `c` lie in range, so its bytes read them back.
proof fn lemma_score_parts(c: Seq<Card>)
    ensures
        forall|c0: int, t1: int, t2: int, t3: int, t4: int, t5: int|
            #![trigger packed(c0, t1, t2, t3, t4, t5)]
            0 <= c0 < 256 && 0 <= t1 < 256 && 0 <= t2 < 256 && 0 <= t3 < 256 && 0 <= t4 < 256 && 0
                <= t5 < 256 ==> category(packed(c0, t1, t2, t3, t4, t5)) == c0 && tiebreak(
                packed(c0, t1, t2, t3, t4, t5),
                1,
            ) == t1 && tiebreak(packed(c0, t1, t2, t3, t4, t5), 2) == t2 && tiebreak(
                packed(c0, t1, t2, t3, t4, t5),
                3,
            ) == t3 && tiebreak(packed(c0, t1, t2, t3, t4, t5), 4) == t4 && tiebreak(
                packed(c0, t1, t2, t3, t4, t5),
                5,
            ) == t5,
        forall|m: nat, k: int| #[trigger] nth_highest(rank_is(c, m), 14, k) == 0 || 2 <= nth_highest(rank_is(c, m), 14, k) <= 14,
        0 <= crate::eval::straight_high_of(present_ranks(c)) <= 14,
        forall|k: int| 0 <= #[trigger] nth_highest(suit_ranks(c, first_flush_suit(c)), 14, k) <= 14,
        0 <= crate::eval::straight_high_of(suit_ranks(c, first_flush_suit(c))) <= 14,
{
    lemma_all_packed_parts();
    lemma_parts_in_range(c);
    lemma_run_range(with_low_ace(present_ranks(c)), 14);
    let fp = suit_ranks(c, first_flush_suit(c));
    lemma_run_range(with_low_ace(fp), 14);
    assert forall|k: int| 0 <= #[trigger] nth_highest(fp, 14, k) <= 14 by {
        lemma_nth_range(fp, 14, k);
    }
}

/// With trips held `t` and no other rank held twice or more, fewer than
/// two single ranks would leave at most `t`'s three cards and one more.
proof fn lemma_two_singles(c: Seq<Card>)
    requires
        c.len() >= 5,
        distinct_valid(c),
        nth_highest(rank_is(c, 4), 14, 0) == 0,
        nth_highest(rank_is(c, 3), 14, 0) != 0,
        nth_highest(rank_is(c, 2), 14, 0) == 0,
        c.len() == 5 || nth_highest(rank_is(c, 3), 14, 1) == 0,
    ensures
        nth_highest(rank_is(c, 1), 14, 1) != 0,
{
    let t = nth_highest(rank_is(c, 3), 14, 0);
    let s0 = nth_highest(rank_is(c, 1), 14, 0);
    if nth_highest(rank_is(c, 1), 14, 1) == 0 {
        lemma_nth_count(c, 3, 0);
        lemma_nth_count(c, 1, 0);
        lemma_valid_counts(c, 0, 0);
        assert forall|k: int| 0 <= k < c.len() implies among5((#[trigger] c[k]).rank.0 as int, t, s0, 0, 0, 0) by {
            let r = c[k].rank.0 as int;
            lemma_card_counted(c, k);
            let m = rank_count(c, r);
            if m == 4 {
                lemma_nth_ge(rank_is(c, 4), 14, 0, r);
            } else if m == 3 {
                if r != t {
                    if c.len() == 5 {
                        lemma_two_ranks(c, t, r);
                    } else {
                        lemma_nth_ge(rank_is(c, 3), 14, 1, r);
                    }
                }
            } else if m == 2 {
                lemma_nth_ge(rank_is(c, 2), 14, 0, r);
            } else if r != s0 {
                lemma_nth_ge(rank_is(c, 1), 14, 1, r);
            }
        }
        lemma_cover5(c, t, s0, 0, 0, 0);
    }
}

/// Three of a kind among seven cards: the first tiebreaker is the rank held
/// three times, the next two are the two highest ranks held once (the
/// kickers), and the last two are empty.
pub proof fn lemma_seven_trips_kickers(c: Seq<Card>)
    requires
        c.len() == 7,
        distinct_valid(c),
        category(seven_card_score(c)) == 3,
    ensures
        highest_held(c, 3, 15, tiebreak(seven_card_score(c), 1)),
        highest_held(c, 1, 15, tiebreak(seven_card_score(c), 2)),
        highest_held(c, 1, tiebreak(seven_card_score(c), 2), tiebreak(seven_card_score(c), 3)),
        tiebreak(seven_card_score(c), 4) == 0,
        tiebreak(seven_card_score(c), 5) == 0,
{
    lemma_score_parts(c);
    lemma_two_singles(c);
    lemma_nth_strict(rank_is(c, 1), 14, 0);
    lemma_nth_is_highest_held(c, 3, 0);
    lemma_nth_is_highest_held(c, 1, 0);
    lemma_nth_is_highest_held(c, 1, 1);
}

/// Three of a kind among five cards: the first tiebreaker is the rank held
/// three times, the next two are the two other ranks (the kickers), higher
/// first, and the last two are empty.
pub proof fn lemma_five_trips_kickers(c: Seq<Card>)
    requires
        c.len() == 5,
        distinct_valid(c),
        category(five_card_score(c)) == 3,
    ensures
        highest_held(c, 3, 15, tiebreak(five_card_score(c), 1)),
        highest_held(c, 1, 15, tiebreak(five_card_score(c), 2)),
        highest_held(c, 1, tiebreak(five_card_score(c), 2), tiebreak(five_card_score(c), 3)),
        tiebreak(five_card_score(c), 4) == 0,
        tiebreak(five_card_score(c), 5) == 0,
{
    lemma_score_parts(c);
    lemma_two_singles(c);
    lemma_nth_strict(rank_is(c, 1), 14, 0);
    lemma_nth_is_highest_held(c, 3, 0);
    lemma_nth_is_highest_held(c, 1, 0);
    lemma_nth_is_highest_held(c, 1, 1);
}

/// With no rank held twice or more but one pair and fewer than three single
/// ranks, a hand holds at most five cards.
proof fn lemma_three_singles(c: Seq<Card>)
    requires
        c.len() >= 6,
        distinct_valid(c),
        nth_highest(rank_is(c, 4), 14, 0) == 0,
        nth_highest(rank_is(c, 3), 14, 0) == 0,
        nth_highest(rank_is(c, 2), 14, 1) == 0,
    ensures
        nth_highest(rank_is(c, 1), 14, 2) != 0,
{
    let p = nth_highest(rank_is(c, 2), 14, 0);
    let s0 = nth_highest(rank_is(c, 1), 14, 0);
    let s1 = nth_highest(rank_is(c, 1), 14, 1);
    if nth_highest(rank_is(c, 1), 14, 2) == 0 {
        lemma_nth_count(c, 2, 0);
        lemma_nth_count(c, 1, 0);
        lemma_nth_count(c, 1, 1);
        lemma_valid_counts(c, 0, 0);
        assert forall|k: int| 0 <= k < c.len() implies among5((#[trigger] c[k]).rank.0 as int, p, s0, s1, 0, 0) by {
            let r = c[k].rank.0 as int;
            lemma_card_counted(c, k);
            let m = rank_count(c, r);
            if m == 4 {
                lemma_nth_ge(rank_is(c, 4), 14, 0, r);
            } else if m == 3 {
                lemma_nth_ge(rank_is(c, 3), 14, 0, r);
            } else if m == 2 {
                if r != p {
                    lemma_nth_ge(rank_is(c, 2), 14, 1, r);
                }
            } else if r != s0 && r != s1 {
                lemma_nth_ge(rank_is(c, 1), 14, 2, r);
            }
        }
        lemma_cover5(c, p, s0, s1, 0, 0);
    }
}

/// One pair among seven cards: the first tiebreaker is the rank held twice,
/// the next three are the three highest ranks held once, and the last is
/// empty.
pub proof fn lemma_seven_pair_kickers(c: Seq<Card>)
    requires
        c.len() == 7,
        distinct_valid(c),
        category(seven_card_score(c)) == 1,
    ensures
        highest_held(c, 2, 15, tiebreak(seven_card_score(c), 1)),
        highest_held(c, 1, 15, tiebreak(seven_card_score(c), 2)),
        highest_held(c, 1, tiebreak(seven_card_score(c), 2), tiebreak(seven_card_score(c), 3)),
        highest_held(c, 1, tiebreak(seven_card_score(c), 3), tiebreak(seven_card_score(c), 4)),
        tiebreak(seven_card_score(c), 5) == 0,
{
    lemma_score_parts(c);
    lemma_three_singles(c);
    lemma_nth_strict(rank_is(c, 1), 14, 1);
    lemma_nth_strict(rank_is(c, 1), 14, 0);
    lemma_nth_is_highest_held(c, 2, 0);
    lemma_nth_is_highest_held(c, 1, 0);
    lemma_nth_is_highest_held(c, 1, 1);
    lemma_nth_is_highest_held(c, 1, 2);
}

/// High card among seven cards: the five tiebreakers are the five highest
/// ranks, highest first.
pub proof fn lemma_seven_high_cards(c: Seq<Card>)
    requires
        c.len() == 7,
        distinct_valid(c),
        category(seven_card_score(c)) == 0,
    ensures
        highest_held(c, 1, 15, tiebreak(seven_card_score(c), 1)),
        highest_held(c, 1, tiebreak(seven_card_score(c), 1), tiebreak(seven_card_score(c), 2)),
        highest_held(c, 1, tiebreak(seven_card_score(c), 2), tiebreak(seven_card_score(c), 3)),
        highest_held(c, 1, tiebreak(seven_card_score(c), 3), tiebreak(seven_card_score(c), 4)),
        highest_held(c, 1, tiebreak(seven_card_score(c), 4), tiebreak(seven_card_score(c), 5)),
        forall|r: int| #[trigger] rank_count(c, r) <= 1,
{
    lemma_score_parts(c);
    lemma_high_card_singles(c);
    lemma_nth_is_highest_held(c, 1, 0);
    lemma_nth_is_highest_held(c, 1, 1);
    lemma_nth_is_highest_held(c, 1, 2);
    lemma_nth_is_highest_held(c, 1, 3);
    lemma_nth_is_highest_held(c, 1, 4);
}

/// One pair among five cards: the first tiebreaker is the rank held twice,
/// the next three are the other ranks, highest first, and the last is
/// empty.
pub proof fn lemma_five_pair_kickers(c: Seq<Card>)
    requires
        c.len() == 5,
        distinct_valid(c),
        category(five_card_score(c)) == 1,
    ensures
        highest_held(c, 2, 15, tiebreak(five_card_score(c), 1)),
        highest_held(c, 1, 15, tiebreak(five_card_score(c), 2)),
        highest_held(c, 1, tiebreak(five_card_score(c), 2), tiebreak(five_card_score(c), 3)),
        highest_held(c, 1, tiebreak(five_card_score(c), 3), tiebreak(five_card_score(c), 4)),
        tiebreak(five_card_score(c), 5) == 0,
{
    lemma_score_parts(c);
    lemma_pair_of_five(c);
    lemma_nth_strict(rank_is(c, 1), 14, 1);
    lemma_nth_strict(rank_is(c, 1), 14, 0);
    lemma_nth_is_highest_held(c, 2, 0);
    lemma_nth_is_highest_held(c, 1, 0);
    lemma_nth_is_highest_held(c, 1, 1);
    lemma_nth_is_highest_held(c, 1, 2);
}

/// High card among five cards: the five tiebreakers are the five ranks,
/// highest first.
pub proof fn lemma_five_high_cards(c: Seq<Card>)
    requires
        c.len() == 5,
        distinct_valid(c),
        category(five_card_score(c)) == 0,
    ensures
        highest_held(c, 1, 15, tiebreak(five_card_score(c), 1)),
        highest_held(c, 1, tiebreak(five_card_score(c), 1), tiebreak(five_card_score(c), 2)),
        highest_held(c, 1, tiebreak(five_card_score(c), 2), tiebreak(five_card_score(c), 3)),
        highest_held(c, 1, tiebreak(five_card_score(c), 3), tiebreak(five_card_score(c), 4)),
        highest_held(c, 1, tiebreak(five_card_score(c), 4), tiebreak(five_card_score(c), 5)),
        forall|r: int| #[trigger] rank_count(c, r) <= 1,
{
    lemma_score_parts(c);
    lemma_high_card_singles(c);
    lemma_nth_is_highest_held(c, 1, 0);
    lemma_nth_is_highest_held(c, 1, 1);
    lemma_nth_is_highest_held(c, 1, 2);
    lemma_nth_is_highest_held(c, 1, 3);
    lemma_nth_is_highest_held(c, 1, 4);
}

/// A pair among five cards leaves three single ranks.
proof fn lemma_pair_of_five(c: Seq<Card>)
    requires
        c.len() == 5,
        distinct_valid(c),
        nth_highest(rank_is(c, 4), 14, 0) == 0,
        nth_highest(rank_is(c, 3), 14, 0) == 0,
        nth_highest(rank_is(c, 2), 14, 0) != 0,
        nth_highest(rank_is(c, 2), 14, 1) == 0,
    ensures
        nth_highest(rank_is(c, 1), 14, 2) != 0,
{
    let p = nth_highest(rank_is(c, 2), 14, 0);
    let s0 = nth_highest(rank_is(c, 1), 14, 0);
    let s1 = nth_highest(rank_is(c, 1), 14, 1);
    lemma_nth_count(c, 2, 0);
    if nth_highest(rank_is(c, 1), 14, 2) == 0 {
        lemma_nth_count(c, 1, 0);
        lemma_nth_count(c, 1, 1);
        lemma_valid_counts(c, 0, 0);
        assert forall|k: int| 0 <= k < c.len() implies among5((#[trigger] c[k]).rank.0 as int, p, s0, s1, 0, 0) by {
            let r = c[k].rank.0 as int;
            lemma_card_counted(c, k);
            let m = rank_count(c, r);
            if m == 4 {
                lemma_nth_ge(rank_is(c, 4), 14, 0, r);
            } else if m == 3 {
                lemma_nth_ge(rank_is(c, 3), 14, 0, r);
            } else if m == 2 {
                if r != p {
                    lemma_nth_ge(rank_is(c, 2), 14, 1, r);
                }
            } else if r != s0 && r != s1 {
                lemma_nth_ge(rank_is(c, 1), 14, 2, r);
            }
        }
        lemma_cover5(c, p, s0, s1, 0, 0);
    }
}

/// With no rank held twice or more, every rank is held at most once and
/// the five highest ranks are there.
proof fn lemma_high_card_singles(c: Seq<Card>)
    requires
        c.len() >= 5,
        distinct_valid(c),
        nth_highest(rank_is(c, 4), 14, 0) == 0,
        nth_highest(rank_is(c, 3), 14, 0) == 0,
        nth_highest(rank_is(c, 2), 14, 0) == 0,
    ensures
        nth_highest(rank_is(c, 1), 14, 4) != 0,
        nth_highest(rank_is(c, 1), 14, 3) != 0,
        nth_highest(rank_is(c, 1), 14, 2) != 0,
        nth_highest(rank_is(c, 1), 14, 1) != 0,
        nth_highest(rank_is(c, 1), 14, 0) != 0,
        forall|r: int| #[trigger] rank_count(c, r) <= 1,
{
    assert forall|r: int| #[trigger] rank_count(c, r) <= 1 by {
        crate::best_hand::lemma_rank_at_most_four(c, r);
        lemma_valid_counts(c, r, 0);
        let m = rank_count(c, r);
        if m == 4 {
            lemma_nth_ge(rank_is(c, 4), 14, 0, r);
        } else if m == 3 {
            lemma_nth_ge(rank_is(c, 3), 14, 0, r);
        } else if m == 2 {
            lemma_nth_ge(rank_is(c, 2), 14, 0, r);
        }
    }
    let q = rank_is(c, 1);
    if nth_highest(q, 14, 4) == 0 {
        let a = nth_highest(q, 14, 0);
        let b = nth_highest(q, 14, 1);
        let d = nth_highest(q, 14, 2);
        let e = nth_highest(q, 14, 3);
        lemma_nth_count(c, 1, 0);
        lemma_nth_count(c, 1, 1);
        lemma_nth_count(c, 1, 2);
        lemma_nth_count(c, 1, 3);
        assert forall|k: int| 0 <= k < c.len() implies among5((#[trigger] c[k]).rank.0 as int, a, b, d, e, 0) by {
            let r = c[k].rank.0 as int;
            lemma_card_counted(c, k);
            if !among5(r, a, b, d, e, 0) {
                lemma_nth_ge(q, 14, 4, r);
            }
        }
        lemma_valid_counts(c, 0, 0);
        lemma_cover5(c, a, b, d, e, 0);
    }
    lemma_nth_range(q, 14, 4);
    lemma_nth_strict(q, 14, 3);
    lemma_nth_strict(q, 14, 2);
    lemma_nth_strict(q, 14, 1);
    lemma_nth_strict(q, 14, 0);
}

// ---------------------------------------------------------------------------
// Quads, full houses and two pair
// ---------------------------------------------------------------------------

/// `x` is the highest rank other than `a` and `b` that the hand holds at
/// least `m` times.
pub open spec fn highest_other(c: Seq<Card>, m: nat, a: int, b: int, x: int) -> bool {
    &&& 2 <= x <= 14
    &&& x != a
    &&& x != b
    &&& rank_count(c, x) >= m
    &&& forall|r: int| x < r <= 14 && r != a && r != b ==> #[trigger] rank_count(c, r) < m
}

/// Four of a kind among five cards leaves one single rank.
proof fn lemma_quads_of_five(c: Seq<Card>)
    requires
        c.len() == 5,
        distinct_valid(c),
        nth_highest(rank_is(c, 4), 14, 0) != 0,
    ensures
        nth_highest(rank_is(c, 1), 14, 0) != 0,
{
    let q = nth_highest(rank_is(c, 4), 14, 0);
    lemma_nth_count(c, 4, 0);
    if nth_highest(rank_is(c, 1), 14, 0) == 0 {
        lemma_valid_counts(c, 0, 0);
        assert forall|k: int| 0 <= k < c.len() implies among5((#[trigger] c[k]).rank.0 as int, q, 0, 0, 0, 0) by {
            let r = c[k].rank.0 as int;
            lemma_card_counted(c, k);
            if r != q {
                if rank_count(c, r) >= 2 {
                    lemma_two_ranks(c, q, r);
                } else {
                    lemma_nth_ge(rank_is(c, 1), 14, 0, r);
                }
            }
        }
        lemma_cover5(c, q, 0, 0, 0, 0);
    }
}

/// Two pairs among five cards, with nothing held three or four times, leave
/// one single rank.
proof fn lemma_two_pair_of_five(c: Seq<Card>)
    requires
        c.len() == 5,
        distinct_valid(c),
        nth_highest(rank_is(c, 4), 14, 0) == 0,
        nth_highest(rank_is(c, 3), 14, 0) == 0,
        nth_highest(rank_is(c, 2), 14, 1) != 0,
    ensures
        nth_highest(rank_is(c, 1), 14, 0) != 0,
{
    let p0 = nth_highest(rank_is(c, 2), 14, 0);
    let p1 = nth_highest(rank_is(c, 2), 14, 1);
    let p2 = nth_highest(rank_is(c, 2), 14, 2);
    lemma_nth_strict(rank_is(c, 2), 14, 0);
    lemma_nth_count(c, 2, 0);
    lemma_nth_count(c, 2, 1);
    if nth_highest(rank_is(c, 1), 14, 0) == 0 {
        if p2 != 0 {
            lemma_nth_strict(rank_is(c, 2), 14, 1);
            lemma_nth_count(c, 2, 2);
            crate::best_hand::lemma_three_ranks(c, p0, p1, p2);
        }
        lemma_valid_counts(c, 0, 0);
        assert forall|k: int| 0 <= k < c.len() implies among5((#[trigger] c[k]).rank.0 as int, p0, p1, 0, 0, 0) by {
            let r = c[k].rank.0 as int;
            lemma_card_counted(c, k);
            let m = rank_count(c, r);
            if m == 4 {
                lemma_nth_ge(rank_is(c, 4), 14, 0, r);
            } else if m == 3 {
                lemma_nth_ge(rank_is(c, 3), 14, 0, r);
            } else if m == 2 {
                if r != p0 && r != p1 {
                    lemma_nth_ge(rank_is(c, 2), 14, 2, r);
                }
            } else {
                lemma_nth_ge(rank_is(c, 1), 14, 0, r);
            }
        }
        lemma_cover5(c, p0, p1, 0, 0, 0);
    }
}

/// Four of a kind among five cards: the first tiebreaker is the rank held
/// four times, the second the rank of the fifth card, and the rest are
/// empty.
pub proof fn lemma_five_quads_kicker(c: Seq<Card>)
    requires
        c.len() == 5,
        distinct_valid(c),
        category(five_card_score(c)) == 7,
    ensures
        highest_held(c, 4, 15, tiebreak(five_card_score(c), 1)),
        highest_held(c, 1, 15, tiebreak(five_card_score(c), 2)),
        tiebreak(five_card_score(c), 3) == 0,
        tiebreak(five_card_score(c), 4) == 0,
        tiebreak(five_card_score(c), 5) == 0,
{
    lemma_score_parts(c);
    lemma_quads_of_five(c);
    lemma_nth_is_highest_held(c, 4, 0);
    lemma_nth_is_highest_held(c, 1, 0);
}

/// A full house among five cards: the first tiebreaker is the rank held
/// three times, the second the rank held twice, and the rest are empty.
pub proof fn lemma_five_full_house(c: Seq<Card>)
    requires
        c.len() == 5,
        distinct_valid(c),
        category(five_card_score(c)) == 6,
    ensures
        highest_held(c, 3, 15, tiebreak(five_card_score(c), 1)),
        highest_held(c, 2, 15, tiebreak(five_card_score(c), 2)),
        tiebreak(five_card_score(c), 3) == 0,
        tiebreak(five_card_score(c), 4) == 0,
        tiebreak(five_card_score(c), 5) == 0,
{
    lemma_score_parts(c);
    lemma_nth_is_highest_held(c, 3, 0);
    lemma_nth_is_highest_held(c, 2, 0);
}

/// Two pair among five cards: the first two tiebreakers are the ranks held
/// twice, higher first, the third is the rank of the fifth card, and the
/// rest are empty.
pub proof fn lemma_five_two_pair_kicker(c: Seq<Card>)
    requires
        c.len() == 5,
        distinct_valid(c),
        category(five_card_score(c)) == 2,
    ensures
        highest_held(c, 2, 15, tiebreak(five_card_score(c), 1)),
        highest_held(c, 2, tiebreak(five_card_score(c), 1), tiebreak(five_card_score(c), 2)),
        highest_held(c, 1, 15, tiebreak(five_card_score(c), 3)),
        tiebreak(five_card_score(c), 4) == 0,
        tiebreak(five_card_score(c), 5) == 0,
{
    lemma_score_parts(c);
    lemma_two_pair_of_five(c);
    lemma_nth_strict(rank_is(c, 2), 14, 0);
    lemma_nth_is_highest_held(c, 2, 0);
    lemma_nth_is_highest_held(c, 2, 1);
    lemma_nth_is_highest_held(c, 1, 0);
}

/// With four of a kind held, the best of the other ranks held is the
/// highest other rank present.
proof fn lemma_quads_kicker_of_seven(c: Seq<Card>)
    requires
        c.len() == 7,
        distinct_valid(c),
        nth_highest(rank_is(c, 4), 14, 0) != 0,
    ensures
        ({
            let q = nth_highest(rank_is(c, 4), 14, 0);
            let t0 = nth_highest(rank_is(c, 3), 14, 0);
            let p0 = nth_highest(rank_is(c, 2), 14, 0);
            let s0 = nth_highest(rank_is(c, 1), 14, 0);
            highest_other(c, 1, q, q, crate::eval::max_of(crate::eval::max_of(t0, p0), s0))
        }),
{
    let q = nth_highest(rank_is(c, 4), 14, 0);
    let t0 = nth_highest(rank_is(c, 3), 14, 0);
    let p0 = nth_highest(rank_is(c, 2), 14, 0);
    let s0 = nth_highest(rank_is(c, 1), 14, 0);
    let x = crate::eval::max_of(crate::eval::max_of(t0, p0), s0);
    lemma_nth_count(c, 4, 0);
    lemma_nth_count(c, 3, 0);
    lemma_nth_count(c, 2, 0);
    lemma_nth_count(c, 1, 0);
    if x == 0 {
        lemma_valid_counts(c, 0, 0);
        assert forall|k: int| 0 <= k < c.len() implies among5((#[trigger] c[k]).rank.0 as int, q, 0, 0, 0, 0) by {
            let r = c[k].rank.0 as int;
            lemma_card_counted(c, k);
            let m = rank_count(c, r);
            if r != q {
                if m == 4 {
                    lemma_two_ranks(c, q, r);
                } else if m == 3 {
                    lemma_nth_ge(rank_is(c, 3), 14, 0, r);
                } else if m == 2 {
                    lemma_nth_ge(rank_is(c, 2), 14, 0, r);
                } else {
                    lemma_nth_ge(rank_is(c, 1), 14, 0, r);
                }
            }
        }
        lemma_cover5(c, q, 0, 0, 0, 0);
    }
    assert forall|r: int| x < r <= 14 && r != q && r != q implies #[trigger] rank_count(c, r) < 1 by {
        crate::best_hand::lemma_rank_at_most_four(c, r);
        let m = rank_count(c, r);
        if m == 4 {
            lemma_two_ranks(c, q, r);
        } else if m == 3 {
            lemma_nth_ge(rank_is(c, 3), 14, 0, r);
        } else if m == 2 {
            lemma_nth_ge(rank_is(c, 2), 14, 0, r);
        } else if m == 1 {
            lemma_nth_ge(rank_is(c, 1), 14, 0, r);
        }
    }
}

/// Four of a kind among seven cards: the first tiebreaker is the rank held
/// four times, the second the highest other rank present, and the rest are
/// empty.
pub proof fn lemma_seven_quads_kicker(c: Seq<Card>)
    requires
        c.len() == 7,
        distinct_valid(c),
        category(seven_card_score(c)) == 7,
    ensures
        highest_held(c, 4, 15, tiebreak(seven_card_score(c), 1)),
        highest_other(
            c,
            1,
            tiebreak(seven_card_score(c), 1),
            tiebreak(seven_card_score(c), 1),
            tiebreak(seven_card_score(c), 2),
        ),
        tiebreak(seven_card_score(c), 3) == 0,
        tiebreak(seven_card_score(c), 4) == 0,
        tiebreak(seven_card_score(c), 5) == 0,
{
    lemma_score_parts(c);
    lemma_nth_is_highest_held(c, 4, 0);
    lemma_quads_kicker_of_seven(c);
}

/// With three of a kind and a second group but no four of a kind, the
/// second group of a full house is the highest other rank held twice or
/// more.
proof fn lemma_full_house_pair_of_seven(c: Seq<Card>)
    requires
        c.len() == 7,
        distinct_valid(c),
        nth_highest(rank_is(c, 4), 14, 0) == 0,
        nth_highest(rank_is(c, 3), 14, 0) != 0,
        nth_highest(rank_is(c, 3), 14, 1) != 0 || nth_highest(rank_is(c, 2), 14, 0) != 0,
    ensures
        ({
            let t0 = nth_highest(rank_is(c, 3), 14, 0);
            let t1 = nth_highest(rank_is(c, 3), 14, 1);
            let p0 = nth_highest(rank_is(c, 2), 14, 0);
            highest_other(c, 2, t0, t0, if t1 != 0 { t1 } else { p0 })
        }),
{
    let t0 = nth_highest(rank_is(c, 3), 14, 0);
    let t1 = nth_highest(rank_is(c, 3), 14, 1);
    let p0 = nth_highest(rank_is(c, 2), 14, 0);
    let x = if t1 != 0 { t1 } else { p0 };
    lemma_nth_count(c, 3, 0);
    lemma_nth_count(c, 3, 1);
    lemma_nth_count(c, 2, 0);
    if t1 != 0 {
        lemma_nth_strict(rank_is(c, 3), 14, 0);
    }
    assert forall|r: int| x < r <= 14 && r != t0 && r != t0 implies #[trigger] rank_count(c, r) < 2 by {
        crate::best_hand::lemma_rank_at_most_four(c, r);
        let m = rank_count(c, r);
        if m == 4 {
            lemma_nth_ge(rank_is(c, 4), 14, 0, r);
        } else if m == 3 {
            lemma_nth_ge(rank_is(c, 3), 14, 1, r);
        } else if m == 2 {
            lemma_nth_ge(rank_is(c, 2), 14, 0, r);
            if t1 != 0 {
                crate::best_hand::lemma_three_ranks(c, t0, t1, r);
            }
        }
    }
}

/// A full house among seven cards: the first tiebreaker is the highest
/// rank held three times, the second the highest other rank held at least
/// twice, and the rest are empty.
pub proof fn lemma_seven_full_house(c: Seq<Card>)
    requires
        c.len() == 7,
        distinct_valid(c),
        category(seven_card_score(c)) == 6,
    ensures
        highest_held(c, 3, 15, tiebreak(seven_card_score(c), 1)),
        highest_other(
            c,
            2,
            tiebreak(seven_card_score(c), 1),
            tiebreak(seven_card_score(c), 1),
            tiebreak(seven_card_score(c), 2),
        ),
        tiebreak(seven_card_score(c), 3) == 0,
        tiebreak(seven_card_score(c), 4) == 0,
        tiebreak(seven_card_score(c), 5) == 0,
{
    lemma_score_parts(c);
    lemma_nth_is_highest_held(c, 3, 0);
    lemma_full_house_pair_of_seven(c);
}

/// With two pairs and nothing held three or four times, the kicker of two
/// pair is the highest rank present other than the two pairs.
proof fn lemma_two_pair_kicker_of_seven(c: Seq<Card>)
    requires
        c.len() == 7,
        distinct_valid(c),
        nth_highest(rank_is(c, 4), 14, 0) == 0,
        nth_highest(rank_is(c, 3), 14, 0) == 0,
        nth_highest(rank_is(c, 2), 14, 1) != 0,
    ensures
        ({
            let p0 = nth_highest(rank_is(c, 2), 14, 0);
            let p1 = nth_highest(rank_is(c, 2), 14, 1);
            let p2 = nth_highest(rank_is(c, 2), 14, 2);
            let s0 = nth_highest(rank_is(c, 1), 14, 0);
            highest_other(c, 1, p0, p1, crate::eval::max_of(p2, s0))
        }),
{
    let p0 = nth_highest(rank_is(c, 2), 14, 0);
    let p1 = nth_highest(rank_is(c, 2), 14, 1);
    let p2 = nth_highest(rank_is(c, 2), 14, 2);
    let s0 = nth_highest(rank_is(c, 1), 14, 0);
    let x = crate::eval::max_of(p2, s0);
    lemma_nth_strict(rank_is(c, 2), 14, 0);
    lemma_nth_count(c, 2, 0);
    lemma_nth_count(c, 2, 1);
    lemma_nth_count(c, 2, 2);
    lemma_nth_count(c, 1, 0);
    if p2 != 0 {
        lemma_nth_strict(rank_is(c, 2), 14, 1);
    }
    if x == 0 {
        lemma_valid_counts(c, 0, 0);
        assert forall|k: int| 0 <= k < c.len() implies among5((#[trigger] c[k]).rank.0 as int, p0, p1, 0, 0, 0) by {
            let r = c[k].rank.0 as int;
            lemma_card_counted(c, k);
            let m = rank_count(c, r);
            if m == 4 {
                lemma_nth_ge(rank_is(c, 4), 14, 0, r);
            } else if m == 3 {
                lemma_nth_ge(rank_is(c, 3), 14, 0, r);
            } else if m == 2 {
                if r != p0 && r != p1 {
                    lemma_nth_ge(rank_is(c, 2), 14, 2, r);
                }
            } else {
                lemma_nth_ge(rank_is(c, 1), 14, 0, r);
            }
        }
        lemma_cover5(c, p0, p1, 0, 0, 0);
    }
    assert forall|r: int| x < r <= 14 && r != p0 && r != p1 implies #[trigger] rank_count(c, r) < 1 by {
        crate::best_hand::lemma_rank_at_most_four(c, r);
        let m = rank_count(c, r);
        if m == 4 {
            lemma_nth_ge(rank_is(c, 4), 14, 0, r);
        } else if m == 3 {
            lemma_nth_ge(rank_is(c, 3), 14, 0, r);
        } else if m == 2 {
            lemma_nth_ge(rank_is(c, 2), 14, 2, r);
        } else if m == 1 {
            lemma_nth_ge(rank_is(c, 1), 14, 0, r);
        }
    }
}

/// Two pair among seven cards: the first two tiebreakers are the two
/// highest ranks held twice, the third the highest other rank present, and
/// the rest are empty.
pub proof fn lemma_seven_two_pair_kicker(c: Seq<Card>)
    requires
        c.len() == 7,
        distinct_valid(c),
        category(seven_card_score(c)) == 2,
    ensures
        highest_held(c, 2, 15, tiebreak(seven_card_score(c), 1)),
        highest_held(c, 2, tiebreak(seven_card_score(c), 1), tiebreak(seven_card_score(c), 2)),
        highest_other(
            c,
            1,
            tiebreak(seven_card_score(c), 1),
            tiebreak(seven_card_score(c), 2),
            tiebreak(seven_card_score(c), 3),
        ),
        tiebreak(seven_card_score(c), 4) == 0,
        tiebreak(seven_card_score(c), 5) == 0,
{
    lemma_score_parts(c);
    lemma_nth_strict(rank_is(c, 2), 14, 0);
    lemma_nth_is_highest_held(c, 2, 0);
    lemma_nth_is_highest_held(c, 2, 1);
    lemma_two_pair_kicker_of_seven(c);
}

// ---------------------------------------------------------------------------
// Straights
// ---------------------------------------------------------------------------

/// The hand holds a card of rank `r`, an ace standing for the rank 1 too.
pub open spec fn holds_rank(c: Seq<Card>, r: int) -> bool {
    rank_count(c, r) > 0 || (r == 1 && rank_count(c, 14) > 0)
}

/// The hand holds five consecutive ranks, the highest of them `h`.
pub open spec fn run_to(c: Seq<Card>, h: int) -> bool {
    &&& 5 <= h <= 14
    &&& holds_rank(c, h)
    &&& holds_rank(c, h - 1)
    &&& holds_rank(c, h - 2)
    &&& holds_rank(c, h - 3)
    &&& holds_rank(c, h - 4)
}

/// The high card of the straight that a hand makes is the top of its
/// highest run of five ranks.
proof fn lemma_straight_is_highest_run(c: Seq<Card>)
    requires
        distinct_valid(c),
        crate::eval::straight_high_of(present_ranks(c)) > 0,
    ensures
        run_to(c, crate::eval::straight_high_of(present_ranks(c))),
        forall|h: int| crate::eval::straight_high_of(present_ranks(c)) < h <= 14 ==> !#[trigger] run_to(c, h),
{
    let p = with_low_ace(present_ranks(c));
    lemma_valid_counts(c, 1, 0);
    assert forall|r: int| 1 <= r <= 14 implies #[trigger] p(r) == holds_rank(c, r) by {}
    lemma_run_range(p, 14);
    crate::trim::lemma_run_at_highest(p, 14);
    assert forall|h: int| crate::eval::straight_high_of(present_ranks(c)) < h <= 14 implies !#[trigger] run_to(c, h) by {
        if run_to(c, h) {
            assert(p(h) && p(h - 1) && p(h - 2) && p(h - 3) && p(h - 4));
            crate::trim::lemma_run_found(p, 14, h);
        }
    }
}

/// A straight among seven cards: the first tiebreaker is the top of the
/// highest run of five ranks the hand holds (an ace also counting low), and
/// the rest are empty.
pub proof fn lemma_seven_straight(c: Seq<Card>)
    requires
        c.len() == 7,
        distinct_valid(c),
        category(seven_card_score(c)) == 4,
    ensures
        run_to(c, tiebreak(seven_card_score(c), 1)),
        forall|h: int| tiebreak(seven_card_score(c), 1) < h <= 14 ==> !#[trigger] run_to(c, h),
        tiebreak(seven_card_score(c), 2) == 0,
        tiebreak(seven_card_score(c), 3) == 0,
        tiebreak(seven_card_score(c), 4) == 0,
        tiebreak(seven_card_score(c), 5) == 0,
{
    lemma_score_parts(c);
    lemma_straight_is_highest_run(c);
}

/// A straight among five cards: the first tiebreaker is the top of the run
/// (5 for a wheel), and the rest are empty.
pub proof fn lemma_five_straight(c: Seq<Card>)
    requires
        c.len() == 5,
        distinct_valid(c),
        category(five_card_score(c)) == 4,
    ensures
        run_to(c, tiebreak(five_card_score(c), 1)),
        forall|h: int| tiebreak(five_card_score(c), 1) < h <= 14 ==> !#[trigger] run_to(c, h),
        tiebreak(five_card_score(c), 2) == 0,
        tiebreak(five_card_score(c), 3) == 0,
        tiebreak(five_card_score(c), 4) == 0,
        tiebreak(five_card_score(c), 5) == 0,
{
    lemma_score_parts(c);
    lemma_straight_is_highest_run(c);
}

// ---------------------------------------------------------------------------
// Flushes
// ---------------------------------------------------------------------------

/// `x` is the highest rank below `bound` that the hand holds in suit `s`.
pub open spec fn highest_in_suit(c: Seq<Card>, s: int, bound: int, x: int) -> bool {
    &&& 2 <= x < bound
    &&& suited_count(c, x, s) > 0
    &&& forall|r: int| x < r < bound ==> #[trigger] suited_count(c, r, s) == 0
}

/// The hand holds rank `r` in suit `s`, an ace standing for the rank 1 too.
pub open spec fn holds_in_suit(c: Seq<Card>, s: int, r: int) -> bool {
    suited_count(c, r, s) > 0 || (r == 1 && suited_count(c, 14, s) > 0)
}

/// The hand holds five consecutive ranks in suit `s`, the highest `h`.
pub open spec fn run_in_suit(c: Seq<Card>, s: int, h: int) -> bool {
    &&& 5 <= h <= 14
    &&& holds_in_suit(c, s, h)
    &&& holds_in_suit(c, s, h - 1)
    &&& holds_in_suit(c, s, h - 2)
    &&& holds_in_suit(c, s, h - 3)
    &&& holds_in_suit(c, s, h - 4)
}

/// A suit held five times is held in five different ranks.
proof fn lemma_flush_five_ranks(c: Seq<Card>, s: int)
    requires
        distinct_valid(c),
        suit_count(c, s) >= 5,
    ensures
        nth_highest(suit_ranks(c, s), 14, 4) != 0,
{
    let fp = suit_ranks(c, s);
    if nth_highest(fp, 14, 4) == 0 {
        let a = nth_highest(fp, 14, 0);
        let b = nth_highest(fp, 14, 1);
        let d = nth_highest(fp, 14, 2);
        let e = nth_highest(fp, 14, 3);
        crate::best_hand::lemma_counts_as_count_if(c, a, s);
        crate::best_hand::lemma_counts_as_count_if(c, b, s);
        crate::best_hand::lemma_counts_as_count_if(c, d, s);
        crate::best_hand::lemma_counts_as_count_if(c, e, s);
        crate::best_hand::lemma_suited_at_most_one(c, a, s);
        crate::best_hand::lemma_suited_at_most_one(c, b, s);
        crate::best_hand::lemma_suited_at_most_one(c, d, s);
        crate::best_hand::lemma_suited_at_most_one(c, e, s);
        let fa = of_rank_suit(a, s);
        let fb = of_rank_suit(b, s);
        let fd = of_rank_suit(d, s);
        let fe = of_rank_suit(e, s);
        let g1 = |x: Card| fa(x) || fb(x);
        let g2 = |x: Card| g1(x) || fd(x);
        let g3 = |x: Card| g2(x) || fe(x);
        crate::best_hand::lemma_count_if_union(c, fa, fb);
        crate::best_hand::lemma_count_if_union(c, g1, fd);
        crate::best_hand::lemma_count_if_union(c, g2, fe);
        assert forall|k: int| 0 <= k < c.len() && #[trigger] of_suit(s)(c[k]) implies g3(c[k]) by {
            let r = c[k].rank.0 as int;
            lemma_card_counted(c, k);
            if !(r == a || r == b || r == d || r == e) {
                assert(fp(r));
                lemma_nth_ge(fp, 14, 4, r);
            }
        }
        crate::best_hand::lemma_count_if_mono_on(c, of_suit(s), g3);
    }
}

/// The `k`-th highest rank held in suit `s`, when there is one, is the
/// highest rank of that suit below the one before it.
proof fn lemma_nth_is_highest_in_suit(c: Seq<Card>, s: int, k: int)
    requires
        0 <= k <= 4,
        nth_highest(suit_ranks(c, s), 14, k) != 0,
    ensures
        highest_in_suit(
            c,
            s,
            if k == 0 {
                15
            } else {
                nth_highest(suit_ranks(c, s), 14, k - 1)
            },
            nth_highest(suit_ranks(c, s), 14, k),
        ),
{
    let q = suit_ranks(c, s);
    let x = nth_highest(q, 14, k);
    lemma_nth_member(q, 14, k);
    if k >= 1 {
        lemma_nth_strict(q, 14, k - 1);
    }
    if k >= 2 {
        lemma_nth_strict(q, 14, k - 2);
    }
    if k >= 3 {
        lemma_nth_strict(q, 14, k - 3);
    }
    if k >= 4 {
        lemma_nth_strict(q, 14, k - 4);
    }
    let bound = if k == 0 {
        15
    } else {
        nth_highest(q, 14, k - 1)
    };
    if k >= 1 {
        lemma_nth_range(q, 14, k - 1);
    }
    assert forall|r: int| x < r < bound implies #[trigger] suited_count(c, r, s) == 0 by {
        if suited_count(c, r, s) > 0 {
            assert(q(r));
            lemma_nth_ge(q, 14, k, r);
        }
    }
}

/// A flush among seven cards: for the suit held five times or more, the
/// five tiebreakers are the five highest ranks held in that suit.
pub proof fn lemma_seven_flush(c: Seq<Card>, s: int)
    requires
        c.len() == 7,
        distinct_valid(c),
        suit_count(c, s) >= 5,
        category(seven_card_score(c)) == 5,
    ensures
        highest_in_suit(c, s, 15, tiebreak(seven_card_score(c), 1)),
        highest_in_suit(c, s, tiebreak(seven_card_score(c), 1), tiebreak(seven_card_score(c), 2)),
        highest_in_suit(c, s, tiebreak(seven_card_score(c), 2), tiebreak(seven_card_score(c), 3)),
        highest_in_suit(c, s, tiebreak(seven_card_score(c), 3), tiebreak(seven_card_score(c), 4)),
        highest_in_suit(c, s, tiebreak(seven_card_score(c), 4), tiebreak(seven_card_score(c), 5)),
{
    lemma_valid_counts(c, 0, s);
    crate::best_hand::lemma_flush_suit_unique(c, s);
    lemma_score_parts(c);
    lemma_flush_five_ranks(c, s);
    let q = suit_ranks(c, s);
    lemma_nth_strict(q, 14, 3);
    lemma_nth_strict(q, 14, 2);
    lemma_nth_strict(q, 14, 1);
    lemma_nth_strict(q, 14, 0);
    lemma_nth_is_highest_in_suit(c, s, 0);
    lemma_nth_is_highest_in_suit(c, s, 1);
    lemma_nth_is_highest_in_suit(c, s, 2);
    lemma_nth_is_highest_in_suit(c, s, 3);
    lemma_nth_is_highest_in_suit(c, s, 4);
}

/// A straight flush among seven cards: for the suit held five times or
/// more, the first tiebreaker is the top of the highest run of five ranks
/// held in that suit (an ace also counting low), and the rest are empty.
pub proof fn lemma_seven_straight_flush(c: Seq<Card>, s: int)
    requires
        c.len() == 7,
        distinct_valid(c),
        suit_count(c, s) >= 5,
        category(seven_card_score(c)) == 8,
    ensures
        run_in_suit(c, s, tiebreak(seven_card_score(c), 1)),
        forall|h: int| tiebreak(seven_card_score(c), 1) < h <= 14 ==> !#[trigger] run_in_suit(c, s, h),
        tiebreak(seven_card_score(c), 2) == 0,
        tiebreak(seven_card_score(c), 3) == 0,
        tiebreak(seven_card_score(c), 4) == 0,
        tiebreak(seven_card_score(c), 5) == 0,
{
    lemma_valid_counts(c, 0, s);
    crate::best_hand::lemma_flush_suit_unique(c, s);
    lemma_score_parts(c);
    let p = with_low_ace(suit_ranks(c, s));
    let sf = crate::eval::straight_high_of(suit_ranks(c, s));
    assert forall|r: int| 1 <= r <= 14 implies #[trigger] p(r) == holds_in_suit(c, s, r) by {}
    lemma_run_range(p, 14);
    crate::trim::lemma_run_at_highest(p, 14);
    assert forall|h: int| sf < h <= 14 implies !#[trigger] run_in_suit(c, s, h) by {
        if run_in_suit(c, s, h) {
            assert(p(h) && p(h - 1) && p(h - 2) && p(h - 3) && p(h - 4));
            crate::trim::lemma_run_found(p, 14, h);
        }
    }
}

/// A flush among five cards: all five cards share a suit, and the five
/// tiebreakers are their ranks, highest first.
pub proof fn lemma_five_flush(c: Seq<Card>)
    requires
        c.len() == 5,
        distinct_valid(c),
        category(five_card_score(c)) == 5,
    ensures
        crate::eval::is_flush5(c),
        highest_held(c, 1, 15, tiebreak(five_card_score(c), 1)),
        highest_held(c, 1, tiebreak(five_card_score(c), 1), tiebreak(five_card_score(c), 2)),
        highest_held(c, 1, tiebreak(five_card_score(c), 2), tiebreak(five_card_score(c), 3)),
        highest_held(c, 1, tiebreak(five_card_score(c), 3), tiebreak(five_card_score(c), 4)),
        highest_held(c, 1, tiebreak(five_card_score(c), 4), tiebreak(five_card_score(c), 5)),
{
    lemma_score_parts(c);
    lemma_flush_singles(c);
    let t = nth_highest(rank_is(c, 3), 14, 0);
    let p0 = nth_highest(rank_is(c, 2), 14, 0);
    let q = nth_highest(rank_is(c, 4), 14, 0);
    lemma_nth_count(c, 4, 0);
    lemma_nth_count(c, 3, 0);
    lemma_nth_count(c, 2, 0);
    assert(rank_count(c, q) <= 1);
    assert(rank_count(c, t) <= 1);
    assert(rank_count(c, p0) <= 1);
    lemma_high_card_singles(c);
    lemma_nth_is_highest_held(c, 1, 0);
    lemma_nth_is_highest_held(c, 1, 1);
    lemma_nth_is_highest_held(c, 1, 2);
    lemma_nth_is_highest_held(c, 1, 3);
    lemma_nth_is_highest_held(c, 1, 4);
}

/// A straight flush among five cards: all five cards share a suit, the
/// first tiebreaker is the top of their run (5 for a wheel), and the rest
/// are empty.
pub proof fn lemma_five_straight_flush(c: Seq<Card>)
    requires
        c.len() == 5,
        distinct_valid(c),
        category(five_card_score(c)) == 8,
    ensures
        crate::eval::is_flush5(c),
        run_to(c, tiebreak(five_card_score(c), 1)),
        forall|h: int| tiebreak(five_card_score(c), 1) < h <= 14 ==> !#[trigger] run_to(c, h),
        tiebreak(five_card_score(c), 2) == 0,
        tiebreak(five_card_score(c), 3) == 0,
        tiebreak(five_card_score(c), 4) == 0,
        tiebreak(five_card_score(c), 5) == 0,
{
    lemma_score_parts(c);
    lemma_straight_is_highest_run(c);
}

// ---------------------------------------------------------------------------
// Categories of five cards
// ---------------------------------------------------------------------------

/// Some rank is held exactly `m` times.
pub open spec fn has_group(c: Seq<Card>, m: nat) -> bool {
    exists|r: int| #[trigger] rank_count(c, r) == m
}

/// Two different ranks are each held exactly twice.
pub open spec fn has_two_pairs(c: Seq<Card>) -> bool {
    exists|r1: int, r2: int|
        r1 != r2 && #[trigger] rank_count(c, r1) == 2 && #[trigger] rank_count(c, r2) == 2
}

/// The hand holds some run of five consecutive ranks.
pub open spec fn has_run(c: Seq<Card>) -> bool {
    exists|h: int| #[trigger] run_to(c, h)
}

proof fn lemma_group_iff(c: Seq<Card>, m: nat)
    requires
        distinct_valid(c),
        m >= 1,
    ensures
        has_group(c, m) <==> nth_highest(rank_is(c, m), 14, 0) != 0,
{
    let q = rank_is(c, m);
    if nth_highest(q, 14, 0) != 0 {
        lemma_nth_member(q, 14, 0);
        assert(rank_count(c, nth_highest(q, 14, 0)) == m);
    }
    if has_group(c, m) {
        let r = choose|r: int| #[trigger] rank_count(c, r) == m;
        lemma_valid_counts(c, r, 0);
        assert(q(r));
        lemma_nth_ge(q, 14, 0, r);
    }
}

proof fn lemma_two_pairs_iff(c: Seq<Card>)
    requires
        distinct_valid(c),
    ensures
        has_two_pairs(c) <==> nth_highest(rank_is(c, 2), 14, 1) != 0,
{
    let q = rank_is(c, 2);
    if nth_highest(q, 14, 1) != 0 {
        lemma_nth_strict(q, 14, 0);
        lemma_nth_member(q, 14, 1);
        lemma_nth_member(q, 14, 0);
        let a = nth_highest(q, 14, 0);
        let b = nth_highest(q, 14, 1);
        assert(rank_count(c, a) == 2 && rank_count(c, b) == 2 && a != b);
    }
    if has_two_pairs(c) {
        let (r1, r2) = choose|r1: int, r2: int|
            r1 != r2 && #[trigger] rank_count(c, r1) == 2 && #[trigger] rank_count(c, r2) == 2;
        lemma_valid_counts(c, r1, 0);
        lemma_valid_counts(c, r2, 0);
        assert(q(r1));
        lemma_nth_ge(q, 14, 0, r1);
        let x = if r1 != nth_highest(q, 14, 0) {
            r1
        } else {
            r2
        };
        assert(q(x));
        lemma_nth_ge(q, 14, 1, x);
    }
}

proof fn lemma_run_iff(c: Seq<Card>)
    requires
        distinct_valid(c),
    ensures
        has_run(c) <==> crate::eval::straight_high_of(present_ranks(c)) > 0,
{
    let p = with_low_ace(present_ranks(c));
    lemma_valid_counts(c, 1, 0);
    assert forall|r: int| 1 <= r <= 14 implies #[trigger] p(r) == holds_rank(c, r) by {}
    if crate::eval::straight_high_of(present_ranks(c)) > 0 {
        lemma_straight_is_highest_run(c);
        assert(run_to(c, crate::eval::straight_high_of(present_ranks(c))));
    }
    if has_run(c) {
        let h = choose|h: int| #[trigger] run_to(c, h);
        assert(p(h) && p(h - 1) && p(h - 2) && p(h - 3) && p(h - 4));
        crate::trim::lemma_run_found(p, 14, h);
    }
}

/// Six different ranks together hold at most the whole hand.
proof fn lemma_six_ranks(c: Seq<Card>, a: int, b: int, d: int, e: int, f: int, g: int)
    requires
        a != b && a != d && a != e && a != f && a != g,
        b != d && b != e && b != f && b != g,
        d != e && d != f && d != g,
        e != f && e != g,
        f != g,
    ensures
        rank_count(c, a) + rank_count(c, b) + rank_count(c, d) + rank_count(c, e) + rank_count(c, f)
            + rank_count(c, g) <= c.len(),
{
    crate::best_hand::lemma_counts_as_count_if(c, a, 0);
    crate::best_hand::lemma_counts_as_count_if(c, b, 0);
    crate::best_hand::lemma_counts_as_count_if(c, d, 0);
    crate::best_hand::lemma_counts_as_count_if(c, e, 0);
    crate::best_hand::lemma_counts_as_count_if(c, f, 0);
    crate::best_hand::lemma_counts_as_count_if(c, g, 0);
    let fa = of_rank(a);
    let fb = of_rank(b);
    let fd = of_rank(d);
    let fe = of_rank(e);
    let ff = of_rank(f);
    let fg = of_rank(g);
    let g1 = |x: Card| fa(x) || fb(x);
    let g2 = |x: Card| g1(x) || fd(x);
    let g3 = |x: Card| g2(x) || fe(x);
    let g4 = |x: Card| g3(x) || ff(x);
    let g5 = |x: Card| g4(x) || fg(x);
    crate::best_hand::lemma_count_if_union(c, fa, fb);
    crate::best_hand::lemma_count_if_union(c, g1, fd);
    crate::best_hand::lemma_count_if_union(c, g2, fe);
    crate::best_hand::lemma_count_if_union(c, g3, ff);
    crate::best_hand::lemma_count_if_union(c, g4, fg);
    crate::best_hand::lemma_count_if_zero(c);
    crate::best_hand::lemma_count_if_mono(c, |x: Card| fa(x) && fb(x), |x: Card| false);
    crate::best_hand::lemma_count_if_mono(c, |x: Card| g1(x) && fd(x), |x: Card| false);
    crate::best_hand::lemma_count_if_mono(c, |x: Card| g2(x) && fe(x), |x: Card| false);
    crate::best_hand::lemma_count_if_mono(c, |x: Card| g3(x) && ff(x), |x: Card| false);
    crate::best_hand::lemma_count_if_mono(c, |x: Card| g4(x) && fg(x), |x: Card| false);
    crate::best_hand::lemma_count_if_le_len(c, g5);
}

/// Five cards of one suit hold each rank at most once.
proof fn lemma_flush_singles(c: Seq<Card>)
    requires
        c.len() == 5,
        distinct_valid(c),
        crate::eval::is_flush5(c),
    ensures
        forall|r: int| #[trigger] rank_count(c, r) <= 1,
{
    let st = if suit_count(c, 0) == 5 {
        0int
    } else if suit_count(c, 1) == 5 {
        1
    } else if suit_count(c, 2) == 5 {
        2
    } else {
        3
    };
    assert forall|r: int| #[trigger] rank_count(c, r) <= 1 by {
        crate::best_hand::lemma_one_suit(c, st, r);
        crate::best_hand::lemma_suited_at_most_one(c, r, st);
    }
}

/// Five cards that make a run hold each rank at most once.
proof fn lemma_run_singles(c: Seq<Card>)
    requires
        c.len() == 5,
        distinct_valid(c),
        has_run(c),
    ensures
        forall|r: int| #[trigger] rank_count(c, r) <= 1,
{
    let h = choose|h: int| #[trigger] run_to(c, h);
    lemma_valid_counts(c, 1, 0);
    lemma_valid_counts(c, 0, 0);
    let f = if h == 5 {
        14
    } else {
        h - 4
    };
    assert(rank_count(c, h) >= 1 && rank_count(c, h - 1) >= 1 && rank_count(c, h - 2) >= 1
        && rank_count(c, h - 3) >= 1 && rank_count(c, f) >= 1);
    assert forall|r: int| #[trigger] rank_count(c, r) <= 1 by {
        if rank_count(c, r) >= 2 {
            lemma_valid_counts(c, r, 0);
            if r == h || r == h - 1 || r == h - 2 || r == h - 3 || r == f {
                lemma_six_ranks(c, h, h - 1, h - 2, h - 3, f, 0);
            } else {
                lemma_six_ranks(c, h, h - 1, h - 2, h - 3, f, r);
            }
        }
    }
}

/// The category of a five-card hand, from what its cards hold: a straight
/// flush, four of a kind, a full house, a flush, a straight, three of a
/// kind, two pair, one pair, or none of these.
pub proof fn lemma_five_category(c: Seq<Card>)
    requires
        c.len() == 5,
        distinct_valid(c),
    ensures
        ({
            let cat = category(five_card_score(c));
            let fl = crate::eval::is_flush5(c);
            let run = has_run(c);
            &&& (fl && run ==> cat == 8)
            &&& (has_group(c, 4) ==> cat == 7)
            &&& (has_group(c, 3) && has_group(c, 2) ==> cat == 6)
            &&& (fl && !run ==> cat == 5)
            &&& (run && !fl ==> cat == 4)
            &&& (has_group(c, 3) && !has_group(c, 2) ==> cat == 3)
            &&& (has_two_pairs(c) ==> cat == 2)
            &&& (has_group(c, 2) && !has_two_pairs(c) && !has_group(c, 3) ==> cat == 1)
            &&& (!fl && !run && !has_group(c, 2) && !has_group(c, 3) && !has_group(c, 4) ==> cat
                == 0)
        }),
{
    lemma_score_parts(c);
    lemma_group_iff(c, 2);
    lemma_group_iff(c, 3);
    lemma_group_iff(c, 4);
    lemma_two_pairs_iff(c);
    lemma_run_iff(c);
    let q = nth_highest(rank_is(c, 4), 14, 0);
    let t = nth_highest(rank_is(c, 3), 14, 0);
    let p0 = nth_highest(rank_is(c, 2), 14, 0);
    let p1 = nth_highest(rank_is(c, 2), 14, 1);
    lemma_nth_count(c, 4, 0);
    lemma_nth_count(c, 3, 0);
    lemma_nth_count(c, 2, 0);
    lemma_nth_count(c, 2, 1);
    if p1 != 0 {
        lemma_nth_strict(rank_is(c, 2), 14, 0);
    }
    if crate::eval::is_flush5(c) {
        lemma_flush_singles(c);
    }
    if has_run(c) {
        lemma_run_singles(c);
    }
    if q != 0 && t != 0 {
        lemma_two_ranks(c, q, t);
    }
    if q != 0 && p0 != 0 {
        lemma_two_ranks(c, q, p0);
    }
    if t != 0 && p1 != 0 {
        crate::best_hand::lemma_three_ranks(c, t, p0, p1);
    }
}

} // verus!
