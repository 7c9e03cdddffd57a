//! Dropping one card of a six- or seven-card hand without changing its
//! score, down to five cards that score as the whole hand.
use vstd::prelude::*;

use crate::best_hand::{
    distinct_valid, lemma_counts_bounded_local, lemma_five_at_most_seven, lemma_nth_step_down, lemma_count_if_all, lemma_count_if_exists, lemma_count_if_remove,
    lemma_count_if_union, lemma_counts_as_count_if, lemma_nth_ge, lemma_nth_member,
    lemma_flush_suit_unique, lemma_nth_mono, lemma_nth_strict, lemma_one_suit,
    lemma_rank_at_most_four, lemma_straight_mono, lemma_suited_at_most_one, lemma_valid_counts,
    of_rank, of_rank_suit, of_suit,
};
use crate::card::{valid_card, Card};
use crate::eval::{
    best_of_subsets, first_flush_suit, five_card_score, highest_run, skip_two, lemma_nth_range, lemma_run_range, max_of, nth_highest,
    present_ranks, rank_count, rank_is, run_ending_at, seven_card_score, straight_high_of,
    suit_count, suit_ranks, suited_count, with_low_ace,
};

verus! {

// ---------------------------------------------------------------------------
// Ranks taken in order, once more
// ---------------------------------------------------------------------------

/// Two rank sets that agree above `y` have the same ranks in order as long
/// as those stay above `y`.
proof fn lemma_nth_agree(p: spec_fn(int) -> bool, q: spec_fn(int) -> bool, hi: int, k: int, y: int)
    requires
        forall|r: int| y < r <= hi ==> #[trigger] p(r) == q(r),
        nth_highest(p, hi, k) > y,
    ensures
        nth_highest(q, hi, k) == nth_highest(p, hi, k),
    decreases hi,
{
    if hi >= 2 {
        lemma_nth_range(p, hi, k);
        if p(hi) {
            if k != 0 {
                lemma_nth_agree(p, q, hi - 1, k - 1, y);
            }
        } else {
            lemma_nth_agree(p, q, hi - 1, k, y);
        }
    }
}

/// Two rank sets that agree on 2..=hi have the same ranks in order.
proof fn lemma_nth_same(p: spec_fn(int) -> bool, q: spec_fn(int) -> bool, hi: int, k: int)
    requires
        forall|r: int| 1 < r <= hi ==> #[trigger] p(r) == q(r),
    ensures
        nth_highest(q, hi, k) == nth_highest(p, hi, k),
{
    lemma_nth_range(p, hi, k);
    lemma_nth_range(q, hi, k);
    if nth_highest(p, hi, k) > 1 {
        lemma_nth_agree(p, q, hi, k, 1);
    } else if nth_highest(q, hi, k) > 1 {
        lemma_nth_agree(q, p, hi, k, 1);
    }
}

/// A rank set with no rank in 2..=hi has no ranks in order.
proof fn lemma_nth_none(q: spec_fn(int) -> bool, hi: int, k: int)
    requires
        forall|r: int| 2 <= r <= hi ==> !#[trigger] q(r),
    ensures
        nth_highest(q, hi, k) == 0,
    decreases hi,
{
    if hi >= 2 {
        lemma_nth_none(q, hi - 1, k);
    }
}

/// The highest rank of a union is the larger of the two highest ranks.
proof fn lemma_nth_union(a: spec_fn(int) -> bool, b: spec_fn(int) -> bool, hi: int)
    ensures
        nth_highest(|r: int| a(r) || b(r), hi, 0) == max_of(nth_highest(a, hi, 0), nth_highest(b, hi, 0)),
    decreases hi,
{
    if hi >= 2 {
        lemma_nth_range(a, hi, 0);
        lemma_nth_range(b, hi, 0);
        if !(a(hi) || b(hi)) {
            lemma_nth_union(a, b, hi - 1);
        }
    }
}

/// A set whose only rank in 2..=hi is `x` has `x` as its highest rank and
/// no second.
proof fn lemma_nth_only(q: spec_fn(int) -> bool, hi: int, x: int)
    requires
        q(x),
        2 <= x <= hi,
        forall|r: int| 2 <= r <= hi && r != x ==> !#[trigger] q(r),
    ensures
        nth_highest(q, hi, 0) == x,
        nth_highest(q, hi, 1) == 0,
{
    lemma_nth_ge(q, hi, 0, x);
    lemma_nth_member(q, hi, 0);
    if nth_highest(q, hi, 1) != 0 {
        lemma_nth_member(q, hi, 1);
        lemma_nth_strict(q, hi, 0);
    }
}

// ---------------------------------------------------------------------------
// Runs
// ---------------------------------------------------------------------------

/// The highest run found ends a run.
pub(crate) proof fn lemma_run_at_highest(p: spec_fn(int) -> bool, high: int)
    requires
        highest_run(p, high) > 0,
    ensures
        run_ending_at(p, highest_run(p, high)),
    decreases high,
{
    if high >= 5 && !run_ending_at(p, high) {
        lemma_run_at_highest(p, high - 1);
    }
}

/// A run ending at `h` is found by the search from `high` down.
pub(crate) proof fn lemma_run_found(p: spec_fn(int) -> bool, high: int, h: int)
    requires
        5 <= h <= high,
        run_ending_at(p, h),
    ensures
        highest_run(p, high) >= h,
    decreases high,
{
    if high > h && !run_ending_at(p, high) {
        lemma_run_found(p, high - 1, h);
    }
}

// ---------------------------------------------------------------------------
// Counting cards once more
// ---------------------------------------------------------------------------

/// A card of the hand is counted by its rank, its suit and both.
pub(crate) proof fn lemma_card_counted(h: Seq<Card>, k: int)
    requires
        distinct_valid(h),
        0 <= k < h.len(),
    ensures
        valid_card(h[k]),
        1 <= rank_count(h, h[k].rank.0 as int) <= 4,
        1 <= suit_count(h, h[k].suit.0 as int),
        1 <= suited_count(h, h[k].rank.0 as int, h[k].suit.0 as int),
{
    let r = h[k].rank.0 as int;
    let s = h[k].suit.0 as int;
    lemma_counts_as_count_if(h, r, s);
    lemma_count_if_remove(h, k, of_rank(r));
    lemma_count_if_remove(h, k, of_suit(s));
    lemma_count_if_remove(h, k, of_rank_suit(r, s));
    lemma_rank_at_most_four(h, r);
}

/// A rank held by the hand is the rank of one of its cards.
pub(crate) proof fn lemma_find_rank(h: Seq<Card>, x: int) -> (k: int)
    requires
        rank_count(h, x) > 0,
    ensures
        0 <= k < h.len(),
        h[k].rank.0 == x,
{
    lemma_counts_as_count_if(h, x, 0);
    lemma_count_if_exists(h, of_rank(x));
    choose|k: int| 0 <= k < h.len() && of_rank(x)(#[trigger] h[k])
}

/// `r` is one of the five ranks `a` to `e`.
pub open spec fn among5(r: int, a: int, b: int, c: int, d: int, e: int) -> bool {
    r == a || r == b || r == c || r == d || r == e
}

/// When every card takes one of five ranks, the hand is no larger than the
/// counts of those ranks together.
pub(crate) proof fn lemma_cover5(h: Seq<Card>, a: int, b: int, c: int, d: int, e: int)
    requires
        forall|k: int| 0 <= k < h.len() ==> among5((#[trigger] h[k]).rank.0 as int, a, b, c, d, e),
    ensures
        h.len() <= rank_count(h, a) + rank_count(h, b) + rank_count(h, c) + rank_count(h, d)
            + rank_count(h, e),
{
    lemma_counts_as_count_if(h, a, 0);
    lemma_counts_as_count_if(h, b, 0);
    lemma_counts_as_count_if(h, c, 0);
    lemma_counts_as_count_if(h, d, 0);
    lemma_counts_as_count_if(h, e, 0);
    let fa = of_rank(a);
    let fb = of_rank(b);
    let fc = of_rank(c);
    let fd = of_rank(d);
    let fe = of_rank(e);
    let g1 = |x: Card| fa(x) || fb(x);
    let g2 = |x: Card| g1(x) || fc(x);
    let g3 = |x: Card| g2(x) || fd(x);
    let g4 = |x: Card| g3(x) || fe(x);
    lemma_count_if_union(h, fa, fb);
    lemma_count_if_union(h, g1, fc);
    lemma_count_if_union(h, g2, fd);
    lemma_count_if_union(h, g3, fe);
    assert forall|k: int| 0 <= k < h.len() implies g4(#[trigger] h[k]) by {
        assert(among5(h[k].rank.0 as int, a, b, c, d, e));
    }
    lemma_count_if_all(h, g4);
}

/// Dropping the card at `a` uncounts exactly that card.
proof fn lemma_drop_counts(h: Seq<Card>, a: int)
    requires
        distinct_valid(h),
        0 <= a < h.len(),
    ensures
        h.remove(a).len() == h.len() - 1,
        distinct_valid(h.remove(a)),
        forall|r: int|
            #[trigger] rank_count(h.remove(a), r) + (if h[a].rank.0 == r { 1int } else { 0int })
                == rank_count(h, r),
        forall|s: int|
            #[trigger] suit_count(h.remove(a), s) + (if h[a].suit.0 == s { 1int } else { 0int })
                == suit_count(h, s),
        forall|r: int, s: int|
            #[trigger] suited_count(h.remove(a), r, s) + (if h[a].rank.0 == r && h[a].suit.0 == s {
                1int
            } else {
                0int
            }) == suited_count(h, r, s),
{
    let g = h.remove(a);
    assert forall|r: int|
        #[trigger] rank_count(g, r) + (if h[a].rank.0 == r { 1int } else { 0int }) == rank_count(
            h,
            r,
        ) by {
        lemma_counts_as_count_if(g, r, 0);
        lemma_counts_as_count_if(h, r, 0);
        lemma_count_if_remove(h, a, of_rank(r));
    }
    assert forall|s: int|
        #[trigger] suit_count(g, s) + (if h[a].suit.0 == s { 1int } else { 0int }) == suit_count(
            h,
            s,
        ) by {
        lemma_counts_as_count_if(g, 0, s);
        lemma_counts_as_count_if(h, 0, s);
        lemma_count_if_remove(h, a, of_suit(s));
    }
    assert forall|r: int, s: int|
        #[trigger] suited_count(g, r, s) + (if h[a].rank.0 == r && h[a].suit.0 == s {
            1int
        } else {
            0int
        }) == suited_count(h, r, s) by {
        lemma_counts_as_count_if(g, r, s);
        lemma_counts_as_count_if(h, r, s);
        lemma_count_if_remove(h, a, of_rank_suit(r, s));
    }
    assert forall|i: int| 0 <= i < g.len() implies valid_card(#[trigger] g[i]) by {
        if i < a {
            assert(g[i] == h[i]);
        } else {
            assert(g[i] == h[i + 1]);
        }
    }
    assert forall|i: int, j: int| 0 <= i < j < g.len() implies g[i] != g[j] by {
        let ii = if i < a { i } else { i + 1 };
        let jj = if j < a { j } else { j + 1 };
        assert(g[i] == h[ii] && g[j] == h[jj]);
    }
}

// ---------------------------------------------------------------------------
// What dropping a card keeps and what it cannot create
// ---------------------------------------------------------------------------

/// The rank held four times, the `k`-th highest ranks held three times,
/// twice and once, and the straight, as the seven-card score reads them.
spec fn nq(h: Seq<Card>) -> int {
    nth_highest(rank_is(h, 4), 14, 0)
}

spec fn nt(h: Seq<Card>, k: int) -> int {
    nth_highest(rank_is(h, 3), 14, k)
}

spec fn np(h: Seq<Card>, k: int) -> int {
    nth_highest(rank_is(h, 2), 14, k)
}

spec fn ns(h: Seq<Card>, k: int) -> int {
    nth_highest(rank_is(h, 1), 14, k)
}

spec fn nsh(h: Seq<Card>) -> int {
    straight_high_of(present_ranks(h))
}

/// The `k`-th highest rank held `m` times is held `m` times, or is 0 and
/// held by no card.
pub(crate) proof fn lemma_nth_count(h: Seq<Card>, m: nat, k: int)
    requires
        distinct_valid(h),
    ensures
        rank_count(h, nth_highest(rank_is(h, m), 14, k)) == (if nth_highest(rank_is(h, m), 14, k)
            == 0 {
            0
        } else {
            m
        }),
        nth_highest(rank_is(h, m), 14, k) == 0 || 2 <= nth_highest(rank_is(h, m), 14, k) <= 14,
{
    lemma_nth_range(rank_is(h, m), 14, k);
    if nth_highest(rank_is(h, m), 14, k) != 0 {
        lemma_nth_member(rank_is(h, m), 14, k);
    } else {
        lemma_valid_counts(h, 0, 0);
    }
}

/// Dropping a card creates no flush, no four of a kind, no higher straight,
/// and, without four of a kind, no new trips; without trips either, no new
/// pairs.
proof fn lemma_drop_down(h: Seq<Card>, a: int)
    requires
        distinct_valid(h),
        0 <= a < h.len(),
    ensures
        first_flush_suit(h) < 0 ==> first_flush_suit(h.remove(a)) < 0,
        0 <= nsh(h.remove(a)) <= nsh(h),
        0 <= nq(h.remove(a)),
        0 <= nt(h.remove(a), 0),
        0 <= nt(h.remove(a), 1),
        0 <= np(h.remove(a), 0),
        0 <= np(h.remove(a), 1),
        0 <= np(h.remove(a), 2),
        nq(h) == 0 ==> nq(h.remove(a)) == 0,
        nq(h) == 0 ==> nt(h.remove(a), 0) <= nt(h, 0) && nt(h.remove(a), 1) <= nt(h, 1),
        nq(h) == 0 && nt(h, 0) == 0 ==> np(h.remove(a), 0) <= np(h, 0) && np(h.remove(a), 1)
            <= np(h, 1) && np(h.remove(a), 2) <= np(h, 2),
{
    let g = h.remove(a);
    lemma_drop_counts(h, a);
    assert(suit_count(g, 0) <= suit_count(h, 0));
    assert(suit_count(g, 1) <= suit_count(h, 1));
    assert(suit_count(g, 2) <= suit_count(h, 2));
    assert(suit_count(g, 3) <= suit_count(h, 3));
    assert forall|r: int| #[trigger] present_ranks(g)(r) implies present_ranks(h)(r) by {
        assert(rank_count(g, r) <= rank_count(h, r));
    }
    lemma_straight_mono(present_ranks(g), present_ranks(h));
    lemma_run_range(with_low_ace(present_ranks(g)), 14);
    lemma_nth_range(rank_is(g, 4), 14, 0);
    lemma_nth_range(rank_is(g, 3), 14, 0);
    lemma_nth_range(rank_is(g, 3), 14, 1);
    lemma_nth_range(rank_is(g, 2), 14, 0);
    lemma_nth_range(rank_is(g, 2), 14, 1);
    lemma_nth_range(rank_is(g, 2), 14, 2);
    if nq(h) == 0 {
        assert forall|r: int| 2 <= r <= 14 implies !#[trigger] rank_is(g, 4)(r) by {
            assert(rank_count(g, r) <= rank_count(h, r));
            lemma_rank_at_most_four(h, r);
            if rank_count(h, r) == 4 {
                lemma_nth_ge(rank_is(h, 4), 14, 0, r);
            }
        }
        lemma_nth_none(rank_is(g, 4), 14, 0);
        assert forall|r: int| 2 <= r <= 14 && #[trigger] rank_is(g, 3)(r) implies rank_is(h, 3)(r) by {
            assert(rank_count(g, r) <= rank_count(h, r));
            lemma_rank_at_most_four(h, r);
            if rank_count(h, r) == 4 {
                lemma_nth_ge(rank_is(h, 4), 14, 0, r);
            }
        }
        lemma_nth_mono(rank_is(g, 3), rank_is(h, 3), 14, 0);
        lemma_nth_mono(rank_is(g, 3), rank_is(h, 3), 14, 1);
        if nt(h, 0) == 0 {
            assert forall|r: int| 2 <= r <= 14 && #[trigger] rank_is(g, 2)(r) implies rank_is(h, 2)(
                r,
            ) by {
                assert(rank_count(g, r) <= rank_count(h, r));
                lemma_rank_at_most_four(h, r);
                if rank_count(h, r) == 4 {
                    lemma_nth_ge(rank_is(h, 4), 14, 0, r);
                }
                if rank_count(h, r) == 3 {
                    lemma_nth_ge(rank_is(h, 3), 14, 0, r);
                }
            }
            lemma_nth_mono(rank_is(g, 2), rank_is(h, 2), 14, 0);
            lemma_nth_mono(rank_is(g, 2), rank_is(h, 2), 14, 1);
            lemma_nth_mono(rank_is(g, 2), rank_is(h, 2), 14, 2);
        }
    }
}

// ---------------------------------------------------------------------------
// Dropping a card, hand by hand
// ---------------------------------------------------------------------------

/// High card: drop a card below the five highest.
proof fn lemma_drop_high_card(h: Seq<Card>) -> (a: int)
    requires
        6 <= h.len() <= 7,
        distinct_valid(h),
        first_flush_suit(h) < 0,
        nq(h) == 0,
        nt(h, 0) == 0,
        nsh(h) == 0,
        np(h, 1) == 0,
        np(h, 0) == 0,
    ensures
        0 <= a < h.len(),
        seven_card_score(h.remove(a)) == seven_card_score(h),
{
    let s1 = rank_is(h, 1);
    let x = ns(h, 5);
    if x == 0 {
        assert forall|k: int| 0 <= k < h.len() implies among5(
            (#[trigger] h[k]).rank.0 as int,
            ns(h, 0),
            ns(h, 1),
            ns(h, 2),
            ns(h, 3),
            ns(h, 4),
        ) by {
            let r = h[k].rank.0 as int;
            lemma_card_counted(h, k);
            let m = rank_count(h, r);
            if m == 4 {
                lemma_nth_ge(rank_is(h, 4), 14, 0, r);
            } else if m == 3 {
                lemma_nth_ge(rank_is(h, 3), 14, 0, r);
            } else if m == 2 {
                lemma_nth_ge(rank_is(h, 2), 14, 0, r);
            } else if !among5(r, ns(h, 0), ns(h, 1), ns(h, 2), ns(h, 3), ns(h, 4)) {
                lemma_nth_ge(s1, 14, 5, r);
            }
        }
        lemma_cover5(h, ns(h, 0), ns(h, 1), ns(h, 2), ns(h, 3), ns(h, 4));
        lemma_nth_count(h, 1, 0);
        lemma_nth_count(h, 1, 1);
        lemma_nth_count(h, 1, 2);
        lemma_nth_count(h, 1, 3);
        lemma_nth_count(h, 1, 4);
        assert(false);
    }
    lemma_nth_member(s1, 14, 5);
    lemma_nth_strict(s1, 14, 4);
    lemma_nth_strict(s1, 14, 3);
    lemma_nth_strict(s1, 14, 2);
    lemma_nth_strict(s1, 14, 1);
    lemma_nth_strict(s1, 14, 0);
    let a = lemma_find_rank(h, x);
    let g = h.remove(a);
    lemma_drop_counts(h, a);
    lemma_drop_down(h, a);
    assert forall|r: int| x < r <= 14 implies #[trigger] s1(r) == rank_is(g, 1)(r) by {
        assert(rank_count(g, r) == rank_count(h, r));
    }
    lemma_nth_agree(s1, rank_is(g, 1), 14, 0, x);
    lemma_nth_agree(s1, rank_is(g, 1), 14, 1, x);
    lemma_nth_agree(s1, rank_is(g, 1), 14, 2, x);
    lemma_nth_agree(s1, rank_is(g, 1), 14, 3, x);
    lemma_nth_agree(s1, rank_is(g, 1), 14, 4, x);
    a
}

/// One pair: drop a single below the three highest.
proof fn lemma_drop_pair(h: Seq<Card>) -> (a: int)
    requires
        6 <= h.len() <= 7,
        distinct_valid(h),
        first_flush_suit(h) < 0,
        nq(h) == 0,
        nt(h, 0) == 0,
        nsh(h) == 0,
        np(h, 1) == 0,
        np(h, 0) != 0,
    ensures
        0 <= a < h.len(),
        seven_card_score(h.remove(a)) == seven_card_score(h),
{
    let s1 = rank_is(h, 1);
    let x = ns(h, 3);
    lemma_nth_count(h, 2, 0);
    if x == 0 {
        assert forall|k: int| 0 <= k < h.len() implies among5(
            (#[trigger] h[k]).rank.0 as int,
            np(h, 0),
            ns(h, 0),
            ns(h, 1),
            ns(h, 2),
            0,
        ) by {
            let r = h[k].rank.0 as int;
            lemma_card_counted(h, k);
            let m = rank_count(h, r);
            if m == 4 {
                lemma_nth_ge(rank_is(h, 4), 14, 0, r);
            } else if m == 3 {
                lemma_nth_ge(rank_is(h, 3), 14, 0, r);
            } else if m == 2 {
                if r != np(h, 0) {
                    lemma_nth_ge(rank_is(h, 2), 14, 1, r);
                }
            } else if !among5(r, np(h, 0), ns(h, 0), ns(h, 1), ns(h, 2), 0) {
                lemma_nth_ge(s1, 14, 3, r);
            }
        }
        lemma_cover5(h, np(h, 0), ns(h, 0), ns(h, 1), ns(h, 2), 0);
        lemma_nth_count(h, 1, 0);
        lemma_nth_count(h, 1, 1);
        lemma_nth_count(h, 1, 2);
        lemma_valid_counts(h, 0, 0);
        assert(false);
    }
    lemma_nth_member(s1, 14, 3);
    lemma_nth_strict(s1, 14, 2);
    lemma_nth_strict(s1, 14, 1);
    lemma_nth_strict(s1, 14, 0);
    let a = lemma_find_rank(h, x);
    let g = h.remove(a);
    lemma_drop_counts(h, a);
    lemma_drop_down(h, a);
    assert forall|r: int| x < r <= 14 implies #[trigger] s1(r) == rank_is(g, 1)(r) by {
        assert(rank_count(g, r) == rank_count(h, r));
    }
    lemma_nth_agree(s1, rank_is(g, 1), 14, 0, x);
    lemma_nth_agree(s1, rank_is(g, 1), 14, 1, x);
    lemma_nth_agree(s1, rank_is(g, 1), 14, 2, x);
    assert forall|r: int| 1 < r <= 14 implies #[trigger] rank_is(h, 2)(r) == rank_is(g, 2)(r) by {
        assert(rank_count(g, r) + (if h[a].rank.0 == r { 1int } else { 0int }) == rank_count(h, r));
    }
    lemma_nth_same(rank_is(h, 2), rank_is(g, 2), 14, 0);
    a
}

/// Three of a kind: drop a single below the two highest.
proof fn lemma_drop_trips(h: Seq<Card>) -> (a: int)
    requires
        6 <= h.len() <= 7,
        distinct_valid(h),
        first_flush_suit(h) < 0,
        nq(h) == 0,
        nt(h, 0) != 0,
        nt(h, 1) == 0,
        np(h, 0) == 0,
        nsh(h) == 0,
    ensures
        0 <= a < h.len(),
        seven_card_score(h.remove(a)) == seven_card_score(h),
{
    let s1 = rank_is(h, 1);
    let x = ns(h, 2);
    lemma_nth_count(h, 3, 0);
    if x == 0 {
        assert forall|k: int| 0 <= k < h.len() implies among5(
            (#[trigger] h[k]).rank.0 as int,
            nt(h, 0),
            ns(h, 0),
            ns(h, 1),
            0,
            0,
        ) by {
            let r = h[k].rank.0 as int;
            lemma_card_counted(h, k);
            let m = rank_count(h, r);
            if m == 4 {
                lemma_nth_ge(rank_is(h, 4), 14, 0, r);
            } else if m == 3 {
                if r != nt(h, 0) {
                    lemma_nth_ge(rank_is(h, 3), 14, 1, r);
                }
            } else if m == 2 {
                lemma_nth_ge(rank_is(h, 2), 14, 0, r);
            } else if !among5(r, nt(h, 0), ns(h, 0), ns(h, 1), 0, 0) {
                lemma_nth_ge(s1, 14, 2, r);
            }
        }
        lemma_cover5(h, nt(h, 0), ns(h, 0), ns(h, 1), 0, 0);
        lemma_nth_count(h, 1, 0);
        lemma_nth_count(h, 1, 1);
        lemma_valid_counts(h, 0, 0);
        assert(false);
    }
    lemma_nth_member(s1, 14, 2);
    lemma_nth_strict(s1, 14, 1);
    lemma_nth_strict(s1, 14, 0);
    let a = lemma_find_rank(h, x);
    let g = h.remove(a);
    lemma_drop_counts(h, a);
    lemma_drop_down(h, a);
    assert forall|r: int| x < r <= 14 implies #[trigger] s1(r) == rank_is(g, 1)(r) by {
        assert(rank_count(g, r) == rank_count(h, r));
    }
    lemma_nth_agree(s1, rank_is(g, 1), 14, 0, x);
    lemma_nth_agree(s1, rank_is(g, 1), 14, 1, x);
    assert forall|r: int| 1 < r <= 14 implies #[trigger] rank_is(h, 2)(r) == rank_is(g, 2)(r) by {
        assert(rank_count(g, r) + (if h[a].rank.0 == r { 1int } else { 0int }) == rank_count(h, r));
    }
    assert forall|r: int| 1 < r <= 14 implies #[trigger] rank_is(h, 3)(r) == rank_is(g, 3)(r) by {
        assert(rank_count(g, r) + (if h[a].rank.0 == r { 1int } else { 0int }) == rank_count(h, r));
    }
    lemma_nth_same(rank_is(h, 2), rank_is(g, 2), 14, 0);
    lemma_nth_same(rank_is(h, 3), rank_is(g, 3), 14, 0);
    lemma_nth_same(rank_is(h, 3), rank_is(g, 3), 14, 1);
    a
}

/// Two pair: drop a single below the best kicker, or else the card that
/// keeps the best kicker, a single or a card of the third pair.
proof fn lemma_drop_two_pair(h: Seq<Card>) -> (a: int)
    requires
        6 <= h.len() <= 7,
        distinct_valid(h),
        first_flush_suit(h) < 0,
        nq(h) == 0,
        nt(h, 0) == 0,
        nsh(h) == 0,
        np(h, 1) != 0,
    ensures
        0 <= a < h.len(),
        seven_card_score(h.remove(a)) == seven_card_score(h),
{
    let s1 = rank_is(h, 1);
    let p2 = rank_is(h, 2);
    lemma_nth_count(h, 2, 0);
    lemma_nth_count(h, 2, 1);
    lemma_nth_count(h, 2, 2);
    lemma_nth_count(h, 1, 0);
    lemma_nth_count(h, 1, 1);
    lemma_nth_strict(p2, 14, 0);
    if ns(h, 1) == 0 && np(h, 2) == 0 {
        assert forall|k: int| 0 <= k < h.len() implies among5(
            (#[trigger] h[k]).rank.0 as int,
            np(h, 0),
            np(h, 1),
            ns(h, 0),
            0,
            0,
        ) by {
            let r = h[k].rank.0 as int;
            lemma_card_counted(h, k);
            let m = rank_count(h, r);
            if m == 4 {
                lemma_nth_ge(rank_is(h, 4), 14, 0, r);
            } else if m == 3 {
                lemma_nth_ge(rank_is(h, 3), 14, 0, r);
            } else if m == 2 {
                if r != np(h, 0) && r != np(h, 1) {
                    lemma_nth_ge(p2, 14, 2, r);
                }
            } else if r != ns(h, 0) {
                lemma_nth_ge(s1, 14, 1, r);
            }
        }
        lemma_cover5(h, np(h, 0), np(h, 1), ns(h, 0), 0, 0);
        lemma_valid_counts(h, 0, 0);
        assert(false);
    }
    // the rank whose card is dropped
    let x = if ns(h, 1) != 0 {
        ns(h, 1)
    } else if ns(h, 0) > np(h, 2) {
        np(h, 2)
    } else if ns(h, 0) != 0 {
        ns(h, 0)
    } else {
        np(h, 2)
    };
    if ns(h, 1) != 0 {
        lemma_nth_strict(s1, 14, 0);
    }
    if np(h, 2) != 0 {
        lemma_nth_strict(p2, 14, 1);
    }
    let a = lemma_find_rank(h, x);
    let g = h.remove(a);
    lemma_drop_counts(h, a);
    lemma_drop_down(h, a);
    assert forall|r: int| x < r <= 14 implies #[trigger] s1(r) == rank_is(g, 1)(r) && p2(r)
        == rank_is(g, 2)(r) by {
        assert(rank_count(g, r) == rank_count(h, r));
    }
    if ns(h, 1) != 0 {
        // a second single: the kicker and the pairs stay
        lemma_nth_agree(s1, rank_is(g, 1), 14, 0, x);
        assert forall|r: int| 1 < r <= 14 implies #[trigger] p2(r) == rank_is(g, 2)(r) by {
            assert(rank_count(g, r) + (if h[a].rank.0 == r { 1int } else { 0int }) == rank_count(
                h,
                r,
            ));
        }
        lemma_nth_same(p2, rank_is(g, 2), 14, 0);
        lemma_nth_same(p2, rank_is(g, 2), 14, 1);
        lemma_nth_same(p2, rank_is(g, 2), 14, 2);
    } else if ns(h, 0) > np(h, 2) {
        // the single outranks the third pair, which is broken
        lemma_nth_agree(p2, rank_is(g, 2), 14, 0, x);
        lemma_nth_agree(p2, rank_is(g, 2), 14, 1, x);
        lemma_nth_agree(s1, rank_is(g, 1), 14, 0, x);
    } else if ns(h, 0) != 0 {
        // the third pair outranks the single, which is dropped
        assert forall|r: int| 2 <= r <= 14 implies !#[trigger] rank_is(g, 1)(r) by {
            assert(rank_count(g, r) + (if h[a].rank.0 == r { 1int } else { 0int }) == rank_count(
                h,
                r,
            ));
            if r != x && rank_count(h, r) == 1 {
                lemma_nth_ge(s1, 14, 1, r);
            }
        }
        lemma_nth_none(rank_is(g, 1), 14, 0);
        assert forall|r: int| 1 < r <= 14 implies #[trigger] p2(r) == rank_is(g, 2)(r) by {
            assert(rank_count(g, r) + (if h[a].rank.0 == r { 1int } else { 0int }) == rank_count(
                h,
                r,
            ));
        }
        lemma_nth_same(p2, rank_is(g, 2), 14, 0);
        lemma_nth_same(p2, rank_is(g, 2), 14, 1);
        lemma_nth_same(p2, rank_is(g, 2), 14, 2);
    } else {
        // three pairs and no single: the broken third pair is the kicker
        lemma_nth_agree(p2, rank_is(g, 2), 14, 0, x);
        lemma_nth_agree(p2, rank_is(g, 2), 14, 1, x);
        assert forall|r: int| 2 <= r <= 14 && r != x implies !#[trigger] rank_is(g, 1)(r) by {
            assert(rank_count(g, r) + (if h[a].rank.0 == r { 1int } else { 0int }) == rank_count(
                h,
                r,
            ));
            if rank_count(h, r) == 1 {
                lemma_nth_ge(s1, 14, 0, r);
            }
        }
        assert(rank_count(g, x) + 1 == rank_count(h, x));
        lemma_nth_only(rank_is(g, 1), 14, x);
    }
    a
}

/// Trips and a second group among fewer cards make a full house among more
/// cards that hold no four of a kind.
proof fn lemma_fh_down(s: Seq<Card>, c: Seq<Card>)
    requires
        distinct_valid(c),
        forall|r: int| #[trigger] rank_count(s, r) <= rank_count(c, r),
        nq(c) == 0,
        nt(s, 0) != 0,
        nt(s, 1) != 0 || np(s, 0) != 0,
    ensures
        nt(c, 0) != 0,
        nt(c, 1) != 0 || np(c, 0) != 0,
{
    let t = nt(s, 0);
    let y = if nt(s, 1) != 0 {
        nt(s, 1)
    } else {
        np(s, 0)
    };
    lemma_nth_member(rank_is(s, 3), 14, 0);
    if nt(s, 1) != 0 {
        lemma_nth_member(rank_is(s, 3), 14, 1);
        lemma_nth_strict(rank_is(s, 3), 14, 0);
    } else {
        lemma_nth_member(rank_is(s, 2), 14, 0);
    }
    assert(rank_count(s, t) <= rank_count(c, t));
    assert(rank_count(s, y) <= rank_count(c, y));
    lemma_rank_at_most_four(c, t);
    lemma_rank_at_most_four(c, y);
    if rank_count(c, t) == 4 {
        lemma_nth_ge(rank_is(c, 4), 14, 0, t);
    }
    if rank_count(c, y) == 4 {
        lemma_nth_ge(rank_is(c, 4), 14, 0, y);
    }
    lemma_nth_ge(rank_is(c, 3), 14, 0, t);
    if rank_count(c, y) == 2 {
        lemma_nth_ge(rank_is(c, 2), 14, 0, y);
    } else {
        let other = if nt(c, 0) == t {
            y
        } else {
            t
        };
        lemma_nth_ge(rank_is(c, 3), 14, 1, other);
    }
}

/// Straight: drop a card off the run, or one whose rank the hand holds twice.
proof fn lemma_drop_straight(h: Seq<Card>) -> (a: int)
    requires
        6 <= h.len() <= 7,
        distinct_valid(h),
        first_flush_suit(h) < 0,
        nq(h) == 0,
        !(nt(h, 0) != 0 && (nt(h, 1) != 0 || np(h, 0) != 0)),
        nsh(h) > 0,
    ensures
        0 <= a < h.len(),
        seven_card_score(h.remove(a)) == seven_card_score(h),
{
    let sh = nsh(h);
    let pr = present_ranks(h);
    lemma_run_at_highest(with_low_ace(pr), 14);
    lemma_run_range(with_low_ace(pr), 14);
    let r4 = if sh == 5 {
        14
    } else {
        sh - 4
    };
    assert(pr(sh) && pr(sh - 1) && pr(sh - 2) && pr(sh - 3) && pr(r4));
    if forall|k: int|
        0 <= k < h.len() ==> among5((#[trigger] h[k]).rank.0 as int, sh, sh - 1, sh - 2, sh - 3, r4)
            && rank_count(h, h[k].rank.0 as int) == 1 {
        lemma_cover5(h, sh, sh - 1, sh - 2, sh - 3, r4);
        let k0 = lemma_find_rank(h, sh);
        let k1 = lemma_find_rank(h, sh - 1);
        let k2 = lemma_find_rank(h, sh - 2);
        let k3 = lemma_find_rank(h, sh - 3);
        let k4 = lemma_find_rank(h, r4);
        assert(false);
    }
    let a = choose|k: int|
        0 <= k < h.len() && !(among5((#[trigger] h[k]).rank.0 as int, sh, sh - 1, sh - 2, sh - 3, r4)
            && rank_count(h, h[k].rank.0 as int) == 1);
    let x = h[a].rank.0 as int;
    lemma_card_counted(h, a);
    let g = h.remove(a);
    lemma_drop_counts(h, a);
    lemma_drop_down(h, a);
    let pg = present_ranks(g);
    assert(rank_count(g, sh) + (if x == sh { 1int } else { 0int }) == rank_count(h, sh));
    assert(rank_count(g, sh - 1) + (if x == sh - 1 { 1int } else { 0int }) == rank_count(h, sh - 1));
    assert(rank_count(g, sh - 2) + (if x == sh - 2 { 1int } else { 0int }) == rank_count(h, sh - 2));
    assert(rank_count(g, sh - 3) + (if x == sh - 3 { 1int } else { 0int }) == rank_count(h, sh - 3));
    assert(rank_count(g, r4) + (if x == r4 { 1int } else { 0int }) == rank_count(h, r4));
    assert(pg(sh) && pg(sh - 1) && pg(sh - 2) && pg(sh - 3) && pg(r4));
    assert(run_ending_at(with_low_ace(pg), sh));
    lemma_run_found(with_low_ace(pg), 14, sh);
    if nt(g, 0) != 0 && (nt(g, 1) != 0 || np(g, 0) != 0) {
        assert forall|r: int| #[trigger] rank_count(g, r) <= rank_count(h, r) by {
            assert(rank_count(g, r) + (if x == r { 1int } else { 0int }) == rank_count(h, r));
        }
        lemma_fh_down(g, h);
    }
    a
}

/// Full house: drop a card of neither group, or else one of the lower trips.
proof fn lemma_drop_full_house(h: Seq<Card>) -> (a: int)
    requires
        6 <= h.len() <= 7,
        distinct_valid(h),
        first_flush_suit(h) < 0,
        nq(h) == 0,
        nt(h, 0) != 0,
        nt(h, 1) != 0 || np(h, 0) != 0,
    ensures
        0 <= a < h.len(),
        seven_card_score(h.remove(a)) == seven_card_score(h),
{
    let t3 = rank_is(h, 3);
    let p2 = rank_is(h, 2);
    let t0 = nt(h, 0);
    let b = if nt(h, 1) != 0 {
        nt(h, 1)
    } else {
        np(h, 0)
    };
    lemma_nth_count(h, 3, 0);
    lemma_nth_count(h, 3, 1);
    lemma_nth_count(h, 2, 0);
    if nt(h, 1) != 0 {
        lemma_nth_strict(t3, 14, 0);
    }
    if exists|k: int| 0 <= k < h.len() && (#[trigger] h[k]).rank.0 != t0 && h[k].rank.0 != b {
        let a = choose|k: int| 0 <= k < h.len() && (#[trigger] h[k]).rank.0 != t0 && h[k].rank.0 != b;
        let x = h[a].rank.0 as int;
        lemma_card_counted(h, a);
        let m = rank_count(h, x);
        if m == 4 {
            lemma_nth_ge(rank_is(h, 4), 14, 0, x);
        }
        if m == 3 {
            lemma_nth_ge(t3, 14, 1, x);
            crate::best_hand::lemma_three_ranks(h, t0, b, x);
        }
        let g = h.remove(a);
        lemma_drop_counts(h, a);
        lemma_drop_down(h, a);
        assert forall|r: int| 1 < r <= 14 implies #[trigger] t3(r) == rank_is(g, 3)(r) by {
            assert(rank_count(g, r) + (if x == r { 1int } else { 0int }) == rank_count(h, r));
        }
        lemma_nth_same(t3, rank_is(g, 3), 14, 0);
        lemma_nth_same(t3, rank_is(g, 3), 14, 1);
        if m == 2 && nt(h, 1) == 0 {
            lemma_nth_ge(p2, 14, 0, x);
            assert forall|r: int| x < r <= 14 implies #[trigger] p2(r) == rank_is(g, 2)(r) by {
                assert(rank_count(g, r) == rank_count(h, r));
            }
            lemma_nth_agree(p2, rank_is(g, 2), 14, 0, x);
        }
        if m == 1 {
            assert forall|r: int| 1 < r <= 14 implies #[trigger] p2(r) == rank_is(g, 2)(r) by {
                assert(rank_count(g, r) + (if x == r { 1int } else { 0int }) == rank_count(h, r));
            }
            lemma_nth_same(p2, rank_is(g, 2), 14, 0);
        }
        a
    } else {
        // two trips and nothing else: break the lower trips into the pair
        assert forall|k: int| 0 <= k < h.len() implies among5((#[trigger] h[k]).rank.0 as int, t0, b, 0, 0, 0) by {
        }
        lemma_cover5(h, t0, b, 0, 0, 0);
        lemma_valid_counts(h, 0, 0);
        lemma_rank_at_most_four(h, b);
        assert(nt(h, 1) != 0);
        let a = lemma_find_rank(h, b);
        let g = h.remove(a);
        lemma_drop_counts(h, a);
        lemma_drop_down(h, a);
        assert forall|r: int| 2 <= r <= 14 && r != t0 && r != b implies rank_count(h, r) == 0 by {
            if rank_count(h, r) > 0 {
                let k = lemma_find_rank(h, r);
                assert(among5(h[k].rank.0 as int, t0, b, 0, 0, 0));
            }
        }
        assert forall|r: int| 2 <= r <= 14 && r != t0 implies !#[trigger] rank_is(g, 3)(r) by {
            assert(rank_count(g, r) + (if b == r { 1int } else { 0int }) == rank_count(h, r));
        }
        assert(rank_count(g, t0) == rank_count(h, t0));
        lemma_nth_only(rank_is(g, 3), 14, t0);
        assert forall|r: int| 2 <= r <= 14 && r != b implies !#[trigger] rank_is(g, 2)(r) by {
            assert(rank_count(g, r) + (if b == r { 1int } else { 0int }) == rank_count(h, r));
        }
        assert(rank_count(g, b) + 1 == rank_count(h, b));
        lemma_nth_only(rank_is(g, 2), 14, b);
        a
    }
}

/// Four of a kind: drop a card below the kicker, or one of several cards of
/// the kicker's rank.
proof fn lemma_drop_quads(h: Seq<Card>) -> (a: int)
    requires
        6 <= h.len() <= 7,
        distinct_valid(h),
        first_flush_suit(h) < 0,
        nq(h) != 0,
    ensures
        0 <= a < h.len(),
        seven_card_score(h.remove(a)) == seven_card_score(h),
{
    let q = nq(h);
    lemma_nth_count(h, 4, 0);
    let t3 = rank_is(h, 3);
    let p2 = rank_is(h, 2);
    let s1 = rank_is(h, 1);
    let u1 = |r: int| t3(r) || p2(r);
    let u = |r: int| u1(r) || s1(r);
    lemma_nth_union(t3, p2, 14);
    lemma_nth_union(u1, s1, 14);
    let kick = nth_highest(u, 14, 0);
    assert(kick == max_of(max_of(nt(h, 0), np(h, 0)), ns(h, 0)));
    // a card of another rank counts for the kicker
    assert forall|k: int| 0 <= k < h.len() && (#[trigger] h[k]).rank.0 != q implies u(h[k].rank.0 as int)
        && h[k].rank.0 <= kick by {
        let r = h[k].rank.0 as int;
        lemma_card_counted(h, k);
        if rank_count(h, r) == 4 {
            crate::best_hand::lemma_two_ranks(h, q, r);
        }
        lemma_nth_ge(u, 14, 0, r);
    }
    if forall|k: int| 0 <= k < h.len() ==> (#[trigger] h[k]).rank.0 == q {
        assert forall|k: int| 0 <= k < h.len() implies among5((#[trigger] h[k]).rank.0 as int, q, 0, 0, 0, 0) by {
        }
        lemma_cover5(h, q, 0, 0, 0, 0);
        lemma_valid_counts(h, 0, 0);
        assert(false);
    }
    let k0 = choose|k: int| 0 <= k < h.len() && (#[trigger] h[k]).rank.0 != q;
    assert(u(h[k0].rank.0 as int) && kick >= 2);
    lemma_nth_member(u, 14, 0);
    let a = if exists|k: int| 0 <= k < h.len() && (#[trigger] h[k]).rank.0 != q && h[k].rank.0 != kick {
        choose|k: int| 0 <= k < h.len() && (#[trigger] h[k]).rank.0 != q && h[k].rank.0 != kick
    } else {
        assert forall|k: int| 0 <= k < h.len() implies among5((#[trigger] h[k]).rank.0 as int, q, kick, 0, 0, 0) by {
        }
        lemma_cover5(h, q, kick, 0, 0, 0);
        lemma_valid_counts(h, 0, 0);
        lemma_find_rank(h, kick)
    };
    let x = h[a].rank.0 as int;
    lemma_card_counted(h, a);
    let g = h.remove(a);
    lemma_drop_counts(h, a);
    lemma_drop_down(h, a);
    assert forall|r: int| 1 < r <= 14 implies #[trigger] rank_is(h, 4)(r) == rank_is(g, 4)(r) by {
        assert(rank_count(g, r) + (if x == r { 1int } else { 0int }) == rank_count(h, r));
        if r == x {
            lemma_card_counted(h, a);
            crate::best_hand::lemma_two_ranks(h, q, r);
        }
    }
    lemma_nth_same(rank_is(h, 4), rank_is(g, 4), 14, 0);
    let u1g = |r: int| rank_is(g, 3)(r) || rank_is(g, 2)(r);
    let ug = |r: int| u1g(r) || rank_is(g, 1)(r);
    lemma_nth_union(rank_is(g, 3), rank_is(g, 2), 14);
    lemma_nth_union(u1g, rank_is(g, 1), 14);
    if x == kick {
        assert forall|r: int| x - 1 < r <= 14 implies #[trigger] u(r) == ug(r) by {
            assert(rank_count(g, r) + (if x == r { 1int } else { 0int }) == rank_count(h, r));
        }
        lemma_nth_agree(u, ug, 14, 0, x - 1);
    } else {
        assert forall|r: int| x < r <= 14 implies #[trigger] u(r) == ug(r) by {
            assert(rank_count(g, r) + (if x == r { 1int } else { 0int }) == rank_count(h, r));
        }
        lemma_nth_agree(u, ug, 14, 0, x);
    }
    a
}

/// Flush: drop a card of another suit, if there is one.
proof fn lemma_drop_flush(h: Seq<Card>) -> (a: int)
    requires
        6 <= h.len() <= 7,
        distinct_valid(h),
        first_flush_suit(h) >= 0,
    ensures
        0 <= a < h.len(),
        seven_card_score(h.remove(a)) == seven_card_score(h),
{
    let fs = first_flush_suit(h);
    let fp = suit_ranks(h, fs);
    if exists|k: int| 0 <= k < h.len() && (#[trigger] h[k]).suit.0 != fs {
        let a = choose|k: int| 0 <= k < h.len() && (#[trigger] h[k]).suit.0 != fs;
        let g = h.remove(a);
        lemma_drop_counts(h, a);
        assert(suit_count(g, fs) == suit_count(h, fs));
        lemma_flush_suit_unique(g, fs);
        assert forall|r: int| #[trigger] suit_ranks(g, fs)(r) == fp(r) by {
            assert(suited_count(g, r, fs) == suited_count(h, r, fs));
        }
        assert(suit_ranks(g, fs) =~= fp);
        a
    } else {
        lemma_drop_one_suit(h)
    }
}

/// A flush of six or seven cards all of one suit: drop a card off the
/// straight flush, or else a card below the five highest.
proof fn lemma_drop_one_suit(h: Seq<Card>) -> (a: int)
    requires
        6 <= h.len() <= 7,
        distinct_valid(h),
        first_flush_suit(h) >= 0,
        forall|k: int| 0 <= k < h.len() ==> (#[trigger] h[k]).suit.0 == first_flush_suit(h),
    ensures
        0 <= a < h.len(),
        seven_card_score(h.remove(a)) == seven_card_score(h),
{
    let fs = first_flush_suit(h);
    let fp = suit_ranks(h, fs);
    // every card has the flush suit: one card per rank
    lemma_counts_as_count_if(h, 0, fs);
    lemma_count_if_all(h, of_suit(fs));
    assert forall|r: int| #[trigger] rank_count(h, r) == suited_count(h, r, fs) && rank_count(h, r)
        <= 1 by {
        lemma_one_suit(h, fs, r);
        lemma_suited_at_most_one(h, r, fs);
    }
    assert forall|k: int| 0 <= k < h.len() implies #[trigger] fp(h[k].rank.0 as int) by {
        lemma_card_counted(h, k);
        assert(rank_count(h, h[k].rank.0 as int) == suited_count(h, h[k].rank.0 as int, fs));
    }
    lemma_valid_counts(h, 0, 0);
    lemma_valid_counts(h, 1, 0);
    assert(rank_count(h, 1) == suited_count(h, 1, fs));
    let sf = straight_high_of(fp);
    lemma_run_range(with_low_ace(fp), 14);
    if sf > 0 {
        lemma_run_at_highest(with_low_ace(fp), 14);
        let r4 = if sf == 5 {
            14
        } else {
            sf - 4
        };
        assert(fp(sf) && fp(sf - 1) && fp(sf - 2) && fp(sf - 3) && fp(r4));
        if forall|k: int|
            0 <= k < h.len() ==> among5((#[trigger] h[k]).rank.0 as int, sf, sf - 1, sf - 2, sf - 3, r4) {
            lemma_cover5(h, sf, sf - 1, sf - 2, sf - 3, r4);
            assert(rank_count(h, sf) <= 1);
            assert(rank_count(h, sf - 1) <= 1);
            assert(rank_count(h, sf - 2) <= 1);
            assert(rank_count(h, sf - 3) <= 1);
            assert(rank_count(h, r4) <= 1);
            assert(false);
        }
        let a = choose|k: int|
            0 <= k < h.len() && !among5((#[trigger] h[k]).rank.0 as int, sf, sf - 1, sf - 2, sf - 3, r4);
        let x = h[a].rank.0 as int;
        let g = h.remove(a);
        lemma_drop_counts(h, a);
        assert(suit_count(g, fs) + 1 == suit_count(h, fs));
        lemma_flush_suit_unique(g, fs);
        let fg = suit_ranks(g, fs);
        assert forall|r: int| #[trigger] fg(r) ==> fp(r) by {
            assert(suited_count(g, r, fs) <= suited_count(h, r, fs));
        }
        assert(suited_count(g, sf, fs) == suited_count(h, sf, fs));
        assert(suited_count(g, sf - 1, fs) == suited_count(h, sf - 1, fs));
        assert(suited_count(g, sf - 2, fs) == suited_count(h, sf - 2, fs));
        assert(suited_count(g, sf - 3, fs) == suited_count(h, sf - 3, fs));
        assert(suited_count(g, r4, fs) == suited_count(h, r4, fs));
        assert(fg(sf) && fg(sf - 1) && fg(sf - 2) && fg(sf - 3) && fg(r4));
        assert(run_ending_at(with_low_ace(fg), sf));
        lemma_run_found(with_low_ace(fg), 14, sf);
        lemma_straight_mono(fg, fp);
        a
    } else {
        let x = nth_highest(fp, 14, 5);
        if x == 0 {
            assert forall|k: int| 0 <= k < h.len() implies among5(
                (#[trigger] h[k]).rank.0 as int,
                nth_highest(fp, 14, 0),
                nth_highest(fp, 14, 1),
                nth_highest(fp, 14, 2),
                nth_highest(fp, 14, 3),
                nth_highest(fp, 14, 4),
            ) by {
                let r = h[k].rank.0 as int;
                lemma_card_counted(h, k);
                if !among5(
                    r,
                    nth_highest(fp, 14, 0),
                    nth_highest(fp, 14, 1),
                    nth_highest(fp, 14, 2),
                    nth_highest(fp, 14, 3),
                    nth_highest(fp, 14, 4),
                ) {
                    lemma_nth_ge(fp, 14, 5, r);
                }
            }
            lemma_cover5(
                h,
                nth_highest(fp, 14, 0),
                nth_highest(fp, 14, 1),
                nth_highest(fp, 14, 2),
                nth_highest(fp, 14, 3),
                nth_highest(fp, 14, 4),
            );
            assert(rank_count(h, nth_highest(fp, 14, 0)) <= 1);
            assert(rank_count(h, nth_highest(fp, 14, 1)) <= 1);
            assert(rank_count(h, nth_highest(fp, 14, 2)) <= 1);
            assert(rank_count(h, nth_highest(fp, 14, 3)) <= 1);
            assert(rank_count(h, nth_highest(fp, 14, 4)) <= 1);
            assert(false);
        }
        lemma_nth_member(fp, 14, 5);
        lemma_nth_strict(fp, 14, 4);
        lemma_nth_strict(fp, 14, 3);
        lemma_nth_strict(fp, 14, 2);
        lemma_nth_strict(fp, 14, 1);
        lemma_nth_strict(fp, 14, 0);
        assert(rank_count(h, x) == suited_count(h, x, fs));
        let a = lemma_find_rank(h, x);
        let g = h.remove(a);
        lemma_drop_counts(h, a);
        assert(suit_count(g, fs) + 1 == suit_count(h, fs));
        lemma_flush_suit_unique(g, fs);
        let fg = suit_ranks(g, fs);
        assert forall|r: int| #[trigger] fg(r) ==> fp(r) by {
            assert(suited_count(g, r, fs) <= suited_count(h, r, fs));
        }
        lemma_straight_mono(fg, fp);
        lemma_run_range(with_low_ace(fg), 14);
        assert forall|r: int| x < r <= 14 implies #[trigger] fp(r) == fg(r) by {
            assert(suited_count(g, r, fs) == suited_count(h, r, fs));
        }
        lemma_nth_agree(fp, fg, 14, 0, x);
        lemma_nth_agree(fp, fg, 14, 1, x);
        lemma_nth_agree(fp, fg, 14, 2, x);
        lemma_nth_agree(fp, fg, 14, 3, x);
        lemma_nth_agree(fp, fg, 14, 4, x);
        a
    }
}

/// Some card of six or seven distinct valid cards can be dropped without
/// changing the score.
proof fn lemma_drop_one(h: Seq<Card>) -> (a: int)
    requires
        6 <= h.len() <= 7,
        distinct_valid(h),
    ensures
        0 <= a < h.len(),
        seven_card_score(h.remove(a)) == seven_card_score(h),
{
    lemma_nth_step_down(rank_is(h, 2), 14, 0);
    lemma_nth_range(rank_is(h, 2), 14, 0);
    lemma_run_range(with_low_ace(present_ranks(h)), 14);
    if first_flush_suit(h) >= 0 {
        lemma_drop_flush(h)
    } else if nq(h) != 0 {
        lemma_drop_quads(h)
    } else if nt(h, 0) != 0 && (nt(h, 1) != 0 || np(h, 0) != 0) {
        lemma_drop_full_house(h)
    } else if nsh(h) > 0 {
        lemma_drop_straight(h)
    } else if nt(h, 0) != 0 {
        lemma_drop_trips(h)
    } else if np(h, 1) != 0 {
        lemma_drop_two_pair(h)
    } else if np(h, 0) != 0 {
        lemma_drop_pair(h)
    } else {
        lemma_drop_high_card(h)
    }
}

/// Five distinct valid cards score the same by both definitions.
proof fn lemma_five_scores_agree(s: Seq<Card>)
    requires
        s.len() == 5,
        distinct_valid(s),
    ensures
        seven_card_score(s) == five_card_score(s),
{
    lemma_counts_bounded_local(s, 0);
    lemma_counts_bounded_local(s, 1);
    lemma_counts_bounded_local(s, 2);
    lemma_counts_bounded_local(s, 3);
    lemma_nth_count(s, 4, 0);
    lemma_nth_count(s, 3, 0);
    lemma_nth_count(s, 3, 1);
    lemma_nth_count(s, 2, 0);
    lemma_nth_count(s, 2, 1);
    lemma_nth_count(s, 2, 2);
    lemma_nth_count(s, 1, 0);
    let fs = first_flush_suit(s);
    if fs >= 0 {
        let fp = suit_ranks(s, fs);
        assert(suit_count(s, fs) == 5);
        assert forall|r: int| #[trigger] rank_count(s, r) == suited_count(s, r, fs) && rank_count(s, r)
            <= 1 by {
            lemma_one_suit(s, fs, r);
            lemma_suited_at_most_one(s, r, fs);
        }
        assert forall|r: int| #[trigger] present_ranks(s)(r) == fp(r) by {
            lemma_valid_counts(s, r, 0);
        }
        assert(present_ranks(s) =~= fp);
        assert forall|r: int| 1 < r <= 14 implies #[trigger] fp(r) == rank_is(s, 1)(r) by {
            lemma_valid_counts(s, r, 0);
        }
        lemma_nth_same(fp, rank_is(s, 1), 14, 0);
        lemma_nth_same(fp, rank_is(s, 1), 14, 1);
        lemma_nth_same(fp, rank_is(s, 1), 14, 2);
        lemma_nth_same(fp, rank_is(s, 1), 14, 3);
        lemma_nth_same(fp, rank_is(s, 1), 14, 4);
        assert forall|r: int| 2 <= r <= 14 implies !#[trigger] rank_is(s, 4)(r) && !rank_is(s, 3)(r)
            && !rank_is(s, 2)(r) by {
            assert(rank_count(s, r) <= 1);
        }
        lemma_nth_none(rank_is(s, 4), 14, 0);
        lemma_nth_none(rank_is(s, 3), 14, 0);
        lemma_nth_none(rank_is(s, 2), 14, 0);
    } else {
        if nq(s) != 0 && nt(s, 0) != 0 {
            crate::best_hand::lemma_two_ranks(s, nq(s), nt(s, 0));
        }
        if nq(s) != 0 && np(s, 0) != 0 {
            crate::best_hand::lemma_two_ranks(s, nq(s), np(s, 0));
        }
        if nt(s, 1) != 0 {
            lemma_nth_strict(rank_is(s, 3), 14, 0);
            crate::best_hand::lemma_two_ranks(s, nt(s, 0), nt(s, 1));
        }
        if np(s, 2) != 0 {
            lemma_nth_strict(rank_is(s, 2), 14, 1);
            lemma_nth_strict(rank_is(s, 2), 14, 0);
            crate::best_hand::lemma_three_ranks(s, np(s, 0), np(s, 1), np(s, 2));
        }
    }
}

/// Two cards of seven distinct valid cards can be left out so that the five
/// others score as the seven.
proof fn lemma_best_subset(c: Seq<Card>) -> (ij: (int, int))
    requires
        c.len() == 7,
        distinct_valid(c),
    ensures
        0 <= ij.0 < ij.1 < 7,
        five_card_score(skip_two(c, ij.0, ij.1)) == seven_card_score(c),
{
    let a1 = lemma_drop_one(c);
    let h1 = c.remove(a1);
    lemma_drop_counts(c, a1);
    let a2 = lemma_drop_one(h1);
    let s = h1.remove(a2);
    lemma_drop_counts(h1, a2);
    lemma_five_scores_agree(s);
    let b = if a2 < a1 {
        a2
    } else {
        a2 + 1
    };
    let i = if a1 < b {
        a1
    } else {
        b
    };
    let j = if a1 < b {
        b
    } else {
        a1
    };
    assert(s =~= skip_two(c, i, j));
    (i, j)
}

/// For seven distinct valid cards, the seven-card score is the best score
/// of the 21 five-card hands they hold, and it is the only such score: the
/// direct evaluator and the search over five-card hands agree.
pub proof fn lemma_seven_card_score_is_best(c: Seq<Card>)
    requires
        c.len() == 7,
        distinct_valid(c),
    ensures
        best_of_subsets(c, seven_card_score(c)),
        forall|v: int| #[trigger] best_of_subsets(c, v) ==> v == seven_card_score(c),
{
    let ij = lemma_best_subset(c);
    assert forall|i: int, j: int| 0 <= i < j < 7 implies #[trigger] five_card_score(skip_two(c, i, j))
        <= seven_card_score(c) by {
        lemma_five_at_most_seven(c, i, j);
    }
    assert(five_card_score(skip_two(c, ij.0, ij.1)) == seven_card_score(c));
    assert forall|v: int| #[trigger] best_of_subsets(c, v) implies v == seven_card_score(c) by {
        let (i, j) = choose|i: int, j: int|
            0 <= i < j < 7 && #[trigger] five_card_score(skip_two(c, i, j)) == v;
        lemma_five_at_most_seven(c, i, j);
        assert(five_card_score(skip_two(c, ij.0, ij.1)) <= v);
    }
}

} // verus!
