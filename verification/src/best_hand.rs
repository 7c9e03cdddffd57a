//! No five of seven cards score more than the seven-card score: the upper
//! half of the agreement between the direct seven-card evaluator and the
//! search over the 21 five-card hands.
use vstd::prelude::*;

use crate::card::{valid_card, Card};
use crate::eval::{
    first_flush_suit, five_card_score, highest_run, is_flush5, lemma_nth_range, lemma_run_range,
    max_of, nth_highest, packed, present_ranks, rank_count, rank_is, run_ending_at,
    seven_card_score, skip_two, straight_high_of, suit_count, suit_ranks, suited_count,
    with_low_ace,
};

verus! {

// ---------------------------------------------------------------------------
// Counting cards by a predicate
// ---------------------------------------------------------------------------

/// How many of `cards` satisfy `f`.
pub open spec fn count_if(cards: Seq<Card>, f: spec_fn(Card) -> bool) -> nat
    decreases cards.len(),
{
    if cards.len() == 0 {
        0
    } else {
        count_if(cards.drop_last(), f) + if f(cards.last()) { 1nat } else { 0nat }
    }
}

pub open spec fn of_rank(r: int) -> spec_fn(Card) -> bool {
    |c: Card| c.rank.0 == r
}

pub open spec fn of_suit(s: int) -> spec_fn(Card) -> bool {
    |c: Card| c.suit.0 == s
}

pub open spec fn of_rank_suit(r: int, s: int) -> spec_fn(Card) -> bool {
    |c: Card| c.rank.0 == r && c.suit.0 == s
}

/// Seven (or five) valid cards, no two alike.
pub open spec fn distinct_valid(cards: Seq<Card>) -> bool {
    &&& forall|i: int| 0 <= i < cards.len() ==> valid_card(#[trigger] cards[i])
    &&& forall|i: int, j: int| 0 <= i < j < cards.len() ==> cards[i] != cards[j]
}

pub(crate) proof fn lemma_counts_as_count_if(cards: Seq<Card>, r: int, s: int)
    ensures
        rank_count(cards, r) == count_if(cards, of_rank(r)),
        suit_count(cards, s) == count_if(cards, of_suit(s)),
        suited_count(cards, r, s) == count_if(cards, of_rank_suit(r, s)),
    decreases cards.len(),
{
    if cards.len() > 0 {
        lemma_counts_as_count_if(cards.drop_last(), r, s);
    }
}

pub(crate) proof fn lemma_count_if_le_len(cards: Seq<Card>, f: spec_fn(Card) -> bool)
    ensures
        count_if(cards, f) <= cards.len(),
    decreases cards.len(),
{
    if cards.len() > 0 {
        lemma_count_if_le_len(cards.drop_last(), f);
    }
}

/// Counting is additive: |f| + |g| = |f or g| + |f and g|.
pub(crate) proof fn lemma_count_if_union(cards: Seq<Card>, f: spec_fn(Card) -> bool, g: spec_fn(Card) -> bool)
    ensures
        count_if(cards, f) + count_if(cards, g) == count_if(cards, |c: Card| f(c) || g(c))
            + count_if(cards, |c: Card| f(c) && g(c)),
    decreases cards.len(),
{
    if cards.len() > 0 {
        lemma_count_if_union(cards.drop_last(), f, g);
    }
}

pub(crate) proof fn lemma_count_if_mono(cards: Seq<Card>, f: spec_fn(Card) -> bool, g: spec_fn(Card) -> bool)
    requires
        forall|c: Card| #[trigger] f(c) ==> g(c),
    ensures
        count_if(cards, f) <= count_if(cards, g),
    decreases cards.len(),
{
    if cards.len() > 0 {
        lemma_count_if_mono(cards.drop_last(), f, g);
    }
}

pub(crate) proof fn lemma_count_if_exists(cards: Seq<Card>, f: spec_fn(Card) -> bool)
    requires
        count_if(cards, f) > 0,
    ensures
        exists|k: int| 0 <= k < cards.len() && f(#[trigger] cards[k]),
    decreases cards.len(),
{
    if f(cards.last()) {
        assert(f(cards[cards.len() - 1]));
    } else {
        lemma_count_if_exists(cards.drop_last(), f);
        let k = choose|k: int| 0 <= k < cards.drop_last().len() && f(#[trigger] cards.drop_last()[k]);
        assert(cards.drop_last()[k] == cards[k]);
    }
}

pub(crate) proof fn lemma_count_if_all(cards: Seq<Card>, f: spec_fn(Card) -> bool)
    requires
        forall|k: int| 0 <= k < cards.len() ==> f(#[trigger] cards[k]),
    ensures
        count_if(cards, f) == cards.len(),
    decreases cards.len(),
{
    if cards.len() > 0 {
        assert forall|k: int| 0 <= k < cards.drop_last().len() implies f(#[trigger] cards.drop_last()[k]) by {
            assert(cards.drop_last()[k] == cards[k]);
        }
        lemma_count_if_all(cards.drop_last(), f);
        assert(f(cards[cards.len() - 1]));
    }
}

pub(crate) proof fn lemma_count_if_remove(s: Seq<Card>, k: int, f: spec_fn(Card) -> bool)
    requires
        0 <= k < s.len(),
    ensures
        count_if(s, f) == count_if(s.remove(k), f) + if f(s[k]) { 1nat } else { 0nat },
    decreases s.len(),
{
    if k == s.len() - 1 {
        assert(s.remove(k) =~= s.drop_last());
    } else {
        lemma_count_if_remove(s.drop_last(), k, f);
        assert(s.remove(k).drop_last() =~= s.drop_last().remove(k));
        assert(s.remove(k).last() == s.last());
    }
}

/// Leaving out the cards at `i` and `j` uncounts exactly those two.
pub(crate) proof fn lemma_count_if_skip_two(cards: Seq<Card>, i: int, j: int, f: spec_fn(Card) -> bool)
    requires
        0 <= i < j < cards.len(),
    ensures
        count_if(cards, f) == count_if(skip_two(cards, i, j), f) + (if f(cards[i]) { 1nat } else { 0nat })
            + (if f(cards[j]) { 1nat } else { 0nat }),
{
    lemma_count_if_remove(cards, j, f);
    lemma_count_if_remove(cards.remove(j), i, f);
    assert(skip_two(cards, i, j) =~= cards.remove(j).remove(i));
    assert(cards.remove(j)[i] == cards[i]);
}

/// No card is counted twice among distinct cards.
pub(crate) proof fn lemma_count_if_single(cards: Seq<Card>, x: Card)
    requires
        forall|i: int, j: int| 0 <= i < j < cards.len() ==> cards[i] != cards[j],
    ensures
        count_if(cards, |c: Card| c == x) <= 1,
    decreases cards.len(),
{
    if cards.len() > 0 {
        let pre = cards.drop_last();
        assert forall|i: int, j: int| 0 <= i < j < pre.len() implies pre[i] != pre[j] by {
            assert(pre[i] == cards[i] && pre[j] == cards[j]);
        }
        lemma_count_if_single(pre, x);
        if cards.last() == x && count_if(pre, |c: Card| c == x) > 0 {
            lemma_count_if_exists(pre, |c: Card| c == x);
            let k = choose|k: int| 0 <= k < pre.len() && (|c: Card| c == x)(#[trigger] pre[k]);
            assert(cards[k] == cards[cards.len() - 1]);
        }
    }
}


pub(crate) proof fn lemma_count_if_mono_on(cards: Seq<Card>, f: spec_fn(Card) -> bool, g: spec_fn(Card) -> bool)
    requires
        forall|k: int| 0 <= k < cards.len() && #[trigger] f(cards[k]) ==> g(cards[k]),
    ensures
        count_if(cards, f) <= count_if(cards, g),
    decreases cards.len(),
{
    if cards.len() > 0 {
        let pre = cards.drop_last();
        assert forall|k: int| 0 <= k < pre.len() && #[trigger] f(pre[k]) implies g(pre[k]) by {
            assert(pre[k] == cards[k]);
        }
        lemma_count_if_mono_on(pre, f, g);
        assert(f(cards[cards.len() - 1]) ==> g(cards[cards.len() - 1]));
    }
}

/// Cards that satisfy two exclusive predicates number at most the hand.
pub(crate) proof fn lemma_disjoint(cards: Seq<Card>, f: spec_fn(Card) -> bool, g: spec_fn(Card) -> bool)
    requires
        forall|c: Card| !(#[trigger] f(c) && g(c)),
    ensures
        count_if(cards, f) + count_if(cards, g) <= cards.len(),
{
    lemma_count_if_union(cards, f, g);
    lemma_count_if_le_len(cards, |c: Card| f(c) || g(c));
    lemma_count_if_mono(cards, |c: Card| f(c) && g(c), |c: Card| false);
    lemma_count_if_zero(cards);
}

pub(crate) proof fn lemma_count_if_zero(cards: Seq<Card>)
    ensures
        count_if(cards, |c: Card| false) == 0,
    decreases cards.len(),
{
    if cards.len() > 0 {
        lemma_count_if_zero(cards.drop_last());
    }
}

/// A card of rank `r` and suit `s` occurs at most once among distinct cards.
pub(crate) proof fn lemma_suited_at_most_one(cards: Seq<Card>, r: int, s: int)
    requires
        distinct_valid(cards),
    ensures
        suited_count(cards, r, s) <= 1,
{
    lemma_counts_as_count_if(cards, r, s);
    if suited_count(cards, r, s) > 0 {
        lemma_count_if_exists(cards, of_rank_suit(r, s));
        let k = choose|k: int| 0 <= k < cards.len() && of_rank_suit(r, s)(#[trigger] cards[k]);
        let x = cards[k];
        lemma_count_if_mono(cards, of_rank_suit(r, s), |c: Card| c == x);
        lemma_count_if_single(cards, x);
    }
}

/// A rank occurs at most four times among distinct valid cards.
pub(crate) proof fn lemma_rank_at_most_four(cards: Seq<Card>, r: int)
    requires
        distinct_valid(cards),
    ensures
        rank_count(cards, r) <= 4,
{
    lemma_counts_as_count_if(cards, r, 0);
    lemma_counts_as_count_if(cards, r, 1);
    lemma_counts_as_count_if(cards, r, 2);
    lemma_counts_as_count_if(cards, r, 3);
    lemma_suited_at_most_one(cards, r, 0);
    lemma_suited_at_most_one(cards, r, 1);
    lemma_suited_at_most_one(cards, r, 2);
    lemma_suited_at_most_one(cards, r, 3);
    let f0 = of_rank_suit(r, 0);
    let f1 = of_rank_suit(r, 1);
    let f2 = of_rank_suit(r, 2);
    let f3 = of_rank_suit(r, 3);
    let g01 = |c: Card| f0(c) || f1(c);
    let g23 = |c: Card| f2(c) || f3(c);
    lemma_count_if_union(cards, f0, f1);
    lemma_count_if_union(cards, f2, f3);
    lemma_count_if_union(cards, g01, g23);
    assert forall|k: int| 0 <= k < cards.len() && #[trigger] of_rank(r)(cards[k]) implies (|c: Card| g01(c) || g23(c))(cards[k]) by {
        assert(valid_card(cards[k]));
    }
    lemma_count_if_mono_on(cards, of_rank(r), |c: Card| g01(c) || g23(c));
}

/// Two suits together hold at most the whole hand.
pub(crate) proof fn lemma_two_suits(cards: Seq<Card>, s1: int, s2: int)
    requires
        s1 != s2,
    ensures
        suit_count(cards, s1) + suit_count(cards, s2) <= cards.len(),
{
    lemma_counts_as_count_if(cards, 0, s1);
    lemma_counts_as_count_if(cards, 0, s2);
    lemma_disjoint(cards, of_suit(s1), of_suit(s2));
}

/// Two ranks together hold at most the whole hand.
pub(crate) proof fn lemma_two_ranks(cards: Seq<Card>, x: int, y: int)
    requires
        x != y,
    ensures
        rank_count(cards, x) + rank_count(cards, y) <= cards.len(),
{
    lemma_counts_as_count_if(cards, x, 0);
    lemma_counts_as_count_if(cards, y, 0);
    lemma_disjoint(cards, of_rank(x), of_rank(y));
}

/// Three ranks together hold at most the whole hand.
pub(crate) proof fn lemma_three_ranks(cards: Seq<Card>, x: int, y: int, z: int)
    requires
        x != y,
        y != z,
        x != z,
    ensures
        rank_count(cards, x) + rank_count(cards, y) + rank_count(cards, z) <= cards.len(),
{
    lemma_counts_as_count_if(cards, x, 0);
    lemma_counts_as_count_if(cards, y, 0);
    lemma_counts_as_count_if(cards, z, 0);
    let fxy = |c: Card| of_rank(x)(c) || of_rank(y)(c);
    lemma_count_if_union(cards, of_rank(x), of_rank(y));
    lemma_count_if_mono(cards, |c: Card| of_rank(x)(c) && of_rank(y)(c), |c: Card| false);
    lemma_count_if_zero(cards);
    lemma_disjoint(cards, fxy, of_rank(z));
}

/// A rank outside a suit and that suit together hold at most the hand:
/// `rank_count(q) - suited_count(q, s) + suit_count(s) <= len`.
pub(crate) proof fn lemma_rank_off_suit(cards: Seq<Card>, q: int, s: int)
    ensures
        rank_count(cards, q) + suit_count(cards, s) <= cards.len() + suited_count(cards, q, s),
{
    lemma_counts_as_count_if(cards, q, s);
    let on = of_rank_suit(q, s);
    let off = |c: Card| c.rank.0 == q && c.suit.0 != s;
    lemma_count_if_union(cards, on, off);
    assert((|c: Card| on(c) || off(c)) =~= of_rank(q));
    lemma_count_if_mono(cards, |c: Card| on(c) && off(c), |c: Card| false);
    lemma_count_if_zero(cards);
    lemma_disjoint(cards, off, of_suit(s));
}


// ---------------------------------------------------------------------------
// Ranks taken in order
// ---------------------------------------------------------------------------

/// A rank of `q` not among its `k` highest is at most its `k`-th highest.
pub(crate) proof fn lemma_nth_ge(q: spec_fn(int) -> bool, hi: int, k: int, x: int)
    requires
        q(x),
        2 <= x <= hi,
        k >= 0,
        forall|m: int| 0 <= m < k ==> #[trigger] nth_highest(q, hi, m) != x,
    ensures
        nth_highest(q, hi, k) >= x,
    decreases hi,
{
    if q(hi) {
        if k > 0 {
            assert(nth_highest(q, hi, 0) == hi);
            assert forall|m: int| 0 <= m < k - 1 implies #[trigger] nth_highest(q, hi - 1, m) != x by {
                assert(nth_highest(q, hi, m + 1) == nth_highest(q, hi - 1, m));
            }
            lemma_nth_ge(q, hi - 1, k - 1, x);
        }
    } else {
        assert forall|m: int| 0 <= m < k implies #[trigger] nth_highest(q, hi - 1, m) != x by {
            assert(nth_highest(q, hi, m) == nth_highest(q, hi - 1, m));
        }
        lemma_nth_ge(q, hi - 1, k, x);
    }
}

/// A nonzero `k`-th highest rank of `q` is a rank of `q`.
pub(crate) proof fn lemma_nth_member(q: spec_fn(int) -> bool, hi: int, k: int)
    requires
        nth_highest(q, hi, k) != 0,
    ensures
        q(nth_highest(q, hi, k)),
        2 <= nth_highest(q, hi, k) <= hi,
    decreases hi,
{
    if hi >= 2 {
        if q(hi) && k == 0 {
        } else if q(hi) {
            lemma_nth_member(q, hi - 1, k - 1);
        } else {
            lemma_nth_member(q, hi - 1, k);
        }
    }
}

/// When `q` holds no rank in 2..=hi its highest is 0, and conversely.
pub(crate) proof fn lemma_nth_zero(q: spec_fn(int) -> bool, hi: int, x: int)
    requires
        nth_highest(q, hi, 0) == 0,
        2 <= x <= hi,
    ensures
        !q(x),
{
    if q(x) {
        lemma_nth_ge(q, hi, 0, x);
    }
}

/// More ranks give higher `k`-th highest ranks.
pub(crate) proof fn lemma_nth_mono(p: spec_fn(int) -> bool, q: spec_fn(int) -> bool, hi: int, k: int)
    requires
        forall|r: int| 2 <= r <= hi && #[trigger] p(r) ==> q(r),
        k >= 0,
    ensures
        nth_highest(p, hi, k) <= nth_highest(q, hi, k),
    decreases hi,
{
    if hi >= 2 {
        lemma_nth_mono(p, q, hi - 1, k);
        if k > 0 {
            lemma_nth_mono(p, q, hi - 1, k - 1);
        }
        if !p(hi) && q(hi) {
            lemma_nth_range(p, hi - 1, k);
            lemma_nth_range(q, hi - 1, k - 1);
            if k > 0 {
                lemma_nth_step_down(q, hi - 1, k - 1);
            }
        }
    }
}

/// The ranks of `q` taken in order do not increase.
pub(crate) proof fn lemma_nth_step_down(q: spec_fn(int) -> bool, hi: int, k: int)
    ensures
        nth_highest(q, hi, k + 1) <= nth_highest(q, hi, k) || nth_highest(q, hi, k) < 0 || k < 0,
    decreases hi,
{
    if hi >= 2 && k >= 0 {
        lemma_nth_range(q, hi - 1, k);
        lemma_nth_range(q, hi - 1, k + 1);
        lemma_nth_range(q, hi - 1, k - 1);
        lemma_nth_step_down(q, hi - 1, k);
        lemma_nth_step_down(q, hi - 1, k - 1);
    }
}

/// Nonzero ranks of `q` taken in order strictly decrease.
pub(crate) proof fn lemma_nth_strict(q: spec_fn(int) -> bool, hi: int, k: int)
    requires
        k >= 0,
        nth_highest(q, hi, k + 1) != 0,
    ensures
        nth_highest(q, hi, k + 1) < nth_highest(q, hi, k),
    decreases hi,
{
    if hi >= 2 {
        if q(hi) {
            if k == 0 {
                lemma_nth_range(q, hi - 1, 0);
            } else {
                lemma_nth_strict(q, hi - 1, k - 1);
            }
        } else {
            lemma_nth_strict(q, hi - 1, k);
        }
    }
}

/// More ranks give an equal or higher straight.
pub(crate) proof fn lemma_straight_mono(p: spec_fn(int) -> bool, q: spec_fn(int) -> bool)
    requires
        forall|r: int| #[trigger] p(r) ==> q(r),
    ensures
        straight_high_of(p) <= straight_high_of(q),
{
    lemma_highest_run_mono(with_low_ace(p), with_low_ace(q), 14);
}

pub(crate) proof fn lemma_highest_run_mono(p: spec_fn(int) -> bool, q: spec_fn(int) -> bool, high: int)
    requires
        forall|r: int| #[trigger] p(r) ==> q(r),
    ensures
        highest_run(p, high) <= highest_run(q, high),
    decreases high,
{
    if high >= 5 {
        lemma_highest_run_mono(p, q, high - 1);
        lemma_run_range(q, high - 1);
        lemma_run_range(p, high - 1);
        if run_ending_at(p, high) {
            assert(p(high) && p(high - 1) && p(high - 2) && p(high - 3) && p(high - 4));
        }
    }
}


// ---------------------------------------------------------------------------
// Categories
// ---------------------------------------------------------------------------

/// The category (0 = high card .. 8 = straight flush) of a five-card score.
pub open spec fn five_cat(h: Seq<Card>) -> int {
    let flush = is_flush5(h);
    let sh = straight_high_of(present_ranks(h));
    let q = nth_highest(rank_is(h, 4), 14, 0);
    let t = nth_highest(rank_is(h, 3), 14, 0);
    let p0 = nth_highest(rank_is(h, 2), 14, 0);
    let p1 = nth_highest(rank_is(h, 2), 14, 1);
    if flush && sh > 0 {
        8
    } else if q != 0 {
        7
    } else if t != 0 && p0 != 0 {
        6
    } else if flush {
        5
    } else if sh > 0 {
        4
    } else if t != 0 {
        3
    } else if p1 != 0 {
        2
    } else if p0 != 0 {
        1
    } else {
        0
    }
}

/// The category of a seven-card score.
pub open spec fn seven_cat(h: Seq<Card>) -> int {
    let fs = first_flush_suit(h);
    let q = nth_highest(rank_is(h, 4), 14, 0);
    let t0 = nth_highest(rank_is(h, 3), 14, 0);
    let t1 = nth_highest(rank_is(h, 3), 14, 1);
    let p0 = nth_highest(rank_is(h, 2), 14, 0);
    let p1 = nth_highest(rank_is(h, 2), 14, 1);
    let sh = straight_high_of(present_ranks(h));
    if fs >= 0 {
        if straight_high_of(suit_ranks(h, fs)) > 0 {
            8
        } else {
            5
        }
    } else if q != 0 {
        7
    } else if t0 != 0 && (t1 != 0 || p0 != 0) {
        6
    } else if sh > 0 {
        4
    } else if t0 != 0 {
        3
    } else if p1 != 0 {
        2
    } else if p0 != 0 {
        1
    } else {
        0
    }
}

pub(crate) proof fn lemma_ranks_small(p: spec_fn(int) -> bool)
    ensures
        0 <= nth_highest(p, 14, 0) <= 14,
        0 <= nth_highest(p, 14, 1) <= 14,
        0 <= nth_highest(p, 14, 2) <= 14,
        0 <= nth_highest(p, 14, 3) <= 14,
        0 <= nth_highest(p, 14, 4) <= 14,
        0 <= straight_high_of(p) <= 14,
{
    lemma_nth_range(p, 14, 0);
    lemma_nth_range(p, 14, 1);
    lemma_nth_range(p, 14, 2);
    lemma_nth_range(p, 14, 3);
    lemma_nth_range(p, 14, 4);
    lemma_run_range(with_low_ace(p), 14);
}

/// A five-card score lies within its category.
pub(crate) proof fn lemma_five_cat_bounds(h: Seq<Card>)
    ensures
        packed(five_cat(h), 0, 0, 0, 0, 0) <= five_card_score(h) < packed(five_cat(h) + 1, 0, 0, 0, 0, 0),
{
    lemma_ranks_small(present_ranks(h));
    lemma_ranks_small(rank_is(h, 4));
    lemma_ranks_small(rank_is(h, 3));
    lemma_ranks_small(rank_is(h, 2));
    lemma_ranks_small(rank_is(h, 1));
}

/// A seven-card score lies within its category.
pub(crate) proof fn lemma_seven_cat_bounds(h: Seq<Card>)
    ensures
        packed(seven_cat(h), 0, 0, 0, 0, 0) <= seven_card_score(h) < packed(seven_cat(h) + 1, 0, 0, 0, 0, 0),
{
    lemma_ranks_small(present_ranks(h));
    lemma_ranks_small(rank_is(h, 4));
    lemma_ranks_small(rank_is(h, 3));
    lemma_ranks_small(rank_is(h, 2));
    lemma_ranks_small(rank_is(h, 1));
    let fs = first_flush_suit(h);
    if fs >= 0 {
        lemma_ranks_small(suit_ranks(h, fs));
    }
}


// ---------------------------------------------------------------------------
// A five-card hand inside a seven-card hand
// ---------------------------------------------------------------------------

/// `s` is five of the seven distinct valid cards `c`, counted by rank and suit.
pub open spec fn sub_hand(s: Seq<Card>, c: Seq<Card>) -> bool {
    &&& c.len() == 7
    &&& s.len() == 5
    &&& distinct_valid(c)
    &&& distinct_valid(s)
    &&& forall|r: int| #[trigger] rank_count(s, r) <= rank_count(c, r)
    &&& forall|st: int| #[trigger] suit_count(s, st) <= suit_count(c, st)
    &&& forall|r: int, st: int| #[trigger] suited_count(s, r, st) <= suited_count(c, r, st)
}

pub(crate) proof fn lemma_skip_two_sub_hand(c: Seq<Card>, i: int, j: int)
    requires
        c.len() == 7,
        distinct_valid(c),
        0 <= i < j < 7,
    ensures
        sub_hand(skip_two(c, i, j), c),
{
    let s = skip_two(c, i, j);
    let idx = |t: int| if t < i { t } else if t + 1 < j { t + 1 } else { t + 2 };
    assert forall|t: int| 0 <= t < s.len() implies valid_card(#[trigger] s[t]) by {
        assert(s[t] == c[idx(t)]);
    }
    assert forall|a: int, b: int| 0 <= a < b < s.len() implies s[a] != s[b] by {
        assert(s[a] == c[idx(a)] && s[b] == c[idx(b)]);
        assert(idx(a) < idx(b));
    }
    assert forall|r: int| #[trigger] rank_count(s, r) <= rank_count(c, r) by {
        lemma_counts_as_count_if(s, r, 0);
        lemma_counts_as_count_if(c, r, 0);
        lemma_count_if_skip_two(c, i, j, of_rank(r));
    }
    assert forall|st: int| #[trigger] suit_count(s, st) <= suit_count(c, st) by {
        lemma_counts_as_count_if(s, 0, st);
        lemma_counts_as_count_if(c, 0, st);
        lemma_count_if_skip_two(c, i, j, of_suit(st));
    }
    assert forall|r: int, st: int| #[trigger] suited_count(s, r, st) <= suited_count(c, r, st) by {
        lemma_counts_as_count_if(s, r, st);
        lemma_counts_as_count_if(c, r, st);
        lemma_count_if_skip_two(c, i, j, of_rank_suit(r, st));
    }
}

/// When every card has suit `st`, the rank counts are the counts in `st`.
pub(crate) proof fn lemma_one_suit(h: Seq<Card>, st: int, r: int)
    requires
        suit_count(h, st) == h.len(),
    ensures
        rank_count(h, r) == suited_count(h, r, st),
    decreases h.len(),
{
    if h.len() > 0 {
        lemma_counts_bounded_local(h.drop_last(), st);
        lemma_one_suit(h.drop_last(), st, r);
    }
}

pub(crate) proof fn lemma_counts_bounded_local(h: Seq<Card>, st: int)
    ensures
        suit_count(h, st) <= h.len(),
    decreases h.len(),
{
    if h.len() > 0 {
        lemma_counts_bounded_local(h.drop_last(), st);
    }
}

/// Valid cards hold no rank outside 2..=14 and no suit outside 0..=3.
pub(crate) proof fn lemma_valid_counts(h: Seq<Card>, r: int, st: int)
    requires
        distinct_valid(h),
    ensures
        (r < 2 || r > 14) ==> rank_count(h, r) == 0,
        (st < 0 || st > 3) ==> suit_count(h, st) == 0,
{
    lemma_counts_as_count_if(h, r, st);
    if r < 2 || r > 14 {
        assert forall|k: int| 0 <= k < h.len() && #[trigger] of_rank(r)(h[k]) implies (|c: Card| false)(h[k]) by {
            assert(valid_card(h[k]));
        }
        lemma_count_if_mono_on(h, of_rank(r), |c: Card| false);
        lemma_count_if_zero(h);
    }
    if st < 0 || st > 3 {
        assert forall|k: int| 0 <= k < h.len() && #[trigger] of_suit(st)(h[k]) implies (|c: Card| false)(h[k]) by {
            assert(valid_card(h[k]));
        }
        lemma_count_if_mono_on(h, of_suit(st), |c: Card| false);
        lemma_count_if_zero(h);
    }
}

/// A suit held five times among at most nine cards is the first such suit.
pub(crate) proof fn lemma_flush_suit_unique(c: Seq<Card>, st: int)
    requires
        c.len() <= 9,
        0 <= st <= 3,
        suit_count(c, st) >= 5,
    ensures
        first_flush_suit(c) == st,
{
    if st != 0 {
        lemma_two_suits(c, 0, st);
    }
    if st != 1 {
        lemma_two_suits(c, 1, st);
    }
    if st != 2 {
        lemma_two_suits(c, 2, st);
    }
}

/// Two ranks outside a suit, and the suit, hold at most the hand.
pub(crate) proof fn lemma_two_ranks_off_suit(cards: Seq<Card>, x: int, y: int, st: int)
    requires
        x != y,
    ensures
        rank_count(cards, x) + rank_count(cards, y) + suit_count(cards, st) <= cards.len()
            + suited_count(cards, x, st) + suited_count(cards, y, st),
{
    lemma_counts_as_count_if(cards, x, st);
    lemma_counts_as_count_if(cards, y, st);
    let fx = of_rank(x);
    let fy = of_rank(y);
    let f = |c: Card| fx(c) || fy(c);
    lemma_count_if_union(cards, fx, fy);
    lemma_count_if_mono(cards, |c: Card| fx(c) && fy(c), |c: Card| false);
    lemma_count_if_zero(cards);
    let on = |c: Card| f(c) && c.suit.0 == st;
    let off = |c: Card| f(c) && c.suit.0 != st;
    lemma_count_if_union(cards, on, off);
    assert((|c: Card| on(c) || off(c)) =~= f);
    lemma_count_if_mono(cards, |c: Card| on(c) && off(c), |c: Card| false);
    lemma_disjoint(cards, off, of_suit(st));
    lemma_count_if_union(cards, of_rank_suit(x, st), of_rank_suit(y, st));
    assert((|c: Card| of_rank_suit(x, st)(c) || of_rank_suit(y, st)(c)) =~= on);
}

/// Seven distinct cards with five of a suit hold no four of a kind and no
/// full house.
pub(crate) proof fn lemma_flush_excludes(c: Seq<Card>)
    requires
        c.len() == 7,
        distinct_valid(c),
        first_flush_suit(c) >= 0,
    ensures
        nth_highest(rank_is(c, 4), 14, 0) == 0,
        !(nth_highest(rank_is(c, 3), 14, 0) != 0 && (nth_highest(rank_is(c, 3), 14, 1) != 0
            || nth_highest(rank_is(c, 2), 14, 0) != 0)),
{
    let fs = first_flush_suit(c);
    let q = nth_highest(rank_is(c, 4), 14, 0);
    if q != 0 {
        lemma_nth_member(rank_is(c, 4), 14, 0);
        lemma_rank_off_suit(c, q, fs);
        lemma_suited_at_most_one(c, q, fs);
    }
    let t0 = nth_highest(rank_is(c, 3), 14, 0);
    let t1 = nth_highest(rank_is(c, 3), 14, 1);
    let p0 = nth_highest(rank_is(c, 2), 14, 0);
    if t0 != 0 && (t1 != 0 || p0 != 0) {
        lemma_nth_member(rank_is(c, 3), 14, 0);
        let y = if t1 != 0 { t1 } else { p0 };
        if t1 != 0 {
            lemma_nth_member(rank_is(c, 3), 14, 1);
            lemma_nth_strict(rank_is(c, 3), 14, 0);
        } else {
            lemma_nth_member(rank_is(c, 2), 14, 0);
        }
        assert(y != t0);
        lemma_two_ranks_off_suit(c, t0, y, fs);
        lemma_suited_at_most_one(c, t0, fs);
        lemma_suited_at_most_one(c, y, fs);
    }
}


/// What a five-card hand passes on to the seven cards around it: its
/// straight, its flush and its ranks.
pub(crate) proof fn lemma_transfer(s: Seq<Card>, c: Seq<Card>)
    requires
        sub_hand(s, c),
    ensures
        straight_high_of(present_ranks(s)) <= straight_high_of(present_ranks(c)),
        is_flush5(s) ==> {
            let fs = first_flush_suit(c);
            &&& 0 <= fs <= 3
            &&& straight_high_of(present_ranks(s)) <= straight_high_of(suit_ranks(c, fs))
            &&& forall|r: int| 2 <= r <= 14 && #[trigger] rank_is(s, 1)(r) ==> suit_ranks(c, fs)(r)
            &&& forall|r: int| 2 <= r <= 14 && #[trigger] rank_is(s, 2)(r) ==> false
            &&& forall|r: int| 2 <= r <= 14 && #[trigger] rank_is(s, 3)(r) ==> false
            &&& forall|r: int| 2 <= r <= 14 && #[trigger] rank_is(s, 4)(r) ==> false
        },
        forall|x: int| #[trigger] rank_count(c, x) <= 4,
{
    assert forall|r: int| #[trigger] present_ranks(s)(r) implies present_ranks(c)(r) by {
        assert(rank_count(s, r) <= rank_count(c, r));
    }
    lemma_straight_mono(present_ranks(s), present_ranks(c));
    assert forall|x: int| #[trigger] rank_count(c, x) <= 4 by {
        lemma_rank_at_most_four(c, x);
    }
    if is_flush5(s) {
        let st = if suit_count(s, 0) == 5 {
            0
        } else if suit_count(s, 1) == 5 {
            1
        } else if suit_count(s, 2) == 5 {
            2
        } else {
            3int
        };
        assert(suit_count(c, st) >= 5);
        lemma_flush_suit_unique(c, st);
        let fs = first_flush_suit(c);
        assert forall|r: int| #[trigger] present_ranks(s)(r) implies suit_ranks(c, fs)(r) by {
            lemma_one_suit(s, st, r);
            assert(suited_count(s, r, st) <= suited_count(c, r, st));
        }
        lemma_straight_mono(present_ranks(s), suit_ranks(c, fs));
        assert forall|r: int| 2 <= r <= 14 && #[trigger] rank_is(s, 1)(r) implies suit_ranks(c, fs)(r) by {
            assert(present_ranks(s)(r));
        }
        assert forall|r: int| 2 <= r <= 14 && #[trigger] rank_is(s, 2)(r) implies false by {
            lemma_one_suit(s, st, r);
            lemma_suited_at_most_one(s, r, st);
        }
        assert forall|r: int| 2 <= r <= 14 && #[trigger] rank_is(s, 3)(r) implies false by {
            lemma_one_suit(s, st, r);
            lemma_suited_at_most_one(s, r, st);
        }
        assert forall|r: int| 2 <= r <= 14 && #[trigger] rank_is(s, 4)(r) implies false by {
            lemma_one_suit(s, st, r);
            lemma_suited_at_most_one(s, r, st);
        }
    }
}


/// No rank of `c` is held four times when `c` has no four of a kind.
pub(crate) proof fn lemma_no_quads(c: Seq<Card>, x: int)
    requires
        nth_highest(rank_is(c, 4), 14, 0) == 0,
        2 <= x <= 14,
    ensures
        rank_count(c, x) != 4,
{
    lemma_nth_zero(rank_is(c, 4), 14, x);
}

/// Three of a kind and a second group of `s` give `c`, which holds no four
/// of a kind, a full house.
pub(crate) proof fn lemma_full_house_transfers(s: Seq<Card>, c: Seq<Card>)
    requires
        sub_hand(s, c),
        nth_highest(rank_is(c, 4), 14, 0) == 0,
        nth_highest(rank_is(s, 3), 14, 0) != 0,
        nth_highest(rank_is(s, 2), 14, 0) != 0,
    ensures
        nth_highest(rank_is(c, 3), 14, 0) != 0,
        nth_highest(rank_is(c, 3), 14, 1) != 0 || nth_highest(rank_is(c, 2), 14, 0) != 0,
{
    let t = nth_highest(rank_is(s, 3), 14, 0);
    let p = nth_highest(rank_is(s, 2), 14, 0);
    lemma_nth_member(rank_is(s, 3), 14, 0);
    lemma_nth_member(rank_is(s, 2), 14, 0);
    lemma_transfer(s, c);
    assert(rank_count(s, t) <= rank_count(c, t));
    assert(rank_count(s, p) <= rank_count(c, p));
    lemma_no_quads(c, t);
    lemma_no_quads(c, p);
    assert(rank_is(c, 3)(t));
    lemma_nth_ge(rank_is(c, 3), 14, 0, t);
    let t0 = nth_highest(rank_is(c, 3), 14, 0);
    if rank_count(c, p) == 2 {
        assert(rank_is(c, 2)(p));
        lemma_nth_ge(rank_is(c, 2), 14, 0, p);
    } else {
        assert(rank_is(c, 3)(p));
        let other = if t0 == t { p } else { t };
        assert(rank_is(c, 3)(other));
        lemma_nth_ge(rank_is(c, 3), 14, 1, other);
    }
}

/// A five-card hand scores at most its seven cards when they hold a flush.
pub(crate) proof fn lemma_upper_flush(s: Seq<Card>, c: Seq<Card>)
    requires
        sub_hand(s, c),
        first_flush_suit(c) >= 0,
    ensures
        five_card_score(s) <= seven_card_score(c),
{
    lemma_five_cat_bounds(s);
    lemma_seven_cat_bounds(c);
    lemma_transfer(s, c);
    lemma_flush_excludes(c);
    let fs = first_flush_suit(c);
    let fp = suit_ranks(c, fs);
    let sq = nth_highest(rank_is(s, 4), 14, 0);
    if sq != 0 {
        lemma_nth_member(rank_is(s, 4), 14, 0);
        assert(rank_count(s, sq) <= rank_count(c, sq));
        lemma_no_quads(c, sq);
    }
    if nth_highest(rank_is(s, 3), 14, 0) != 0 && nth_highest(rank_is(s, 2), 14, 0) != 0 {
        lemma_full_house_transfers(s, c);
    }
    if is_flush5(s) {
        let ss = rank_is(s, 1);
        lemma_nth_mono(ss, fp, 14, 0);
        lemma_nth_mono(ss, fp, 14, 1);
        lemma_nth_mono(ss, fp, 14, 2);
        lemma_nth_mono(ss, fp, 14, 3);
        lemma_nth_mono(ss, fp, 14, 4);
        lemma_ranks_small(ss);
        lemma_ranks_small(fp);
        lemma_ranks_small(present_ranks(s));
    }
    assert(packed(five_cat(s) + 1, 0, 0, 0, 0, 0) <= packed(seven_cat(c), 0, 0, 0, 0, 0) || five_cat(s) == seven_cat(c));
}


/// A rank that `s` holds `m > 0` times is held in `c` a number of times
/// that is neither of the counts `c` lacks.
pub(crate) proof fn lemma_count_in_c(s: Seq<Card>, c: Seq<Card>, x: int)
    requires
        sub_hand(s, c),
        2 <= x <= 14,
    ensures
        rank_count(s, x) <= rank_count(c, x) <= 4,
        nth_highest(rank_is(c, 4), 14, 0) == 0 ==> rank_count(c, x) != 4,
        nth_highest(rank_is(c, 3), 14, 0) == 0 ==> rank_count(c, x) != 3,
        nth_highest(rank_is(c, 2), 14, 0) == 0 ==> rank_count(c, x) != 2,
        rank_count(c, x) == 3 && x != nth_highest(rank_is(c, 3), 14, 0) ==> nth_highest(rank_is(c, 3), 14, 1) >= x,
        rank_count(c, x) == 2 && x != nth_highest(rank_is(c, 2), 14, 0) ==> nth_highest(rank_is(c, 2), 14, 1) >= x,
        rank_count(c, x) == 2 && x != nth_highest(rank_is(c, 2), 14, 0) && x != nth_highest(rank_is(c, 2), 14, 1)
            ==> nth_highest(rank_is(c, 2), 14, 2) >= x,
        rank_count(c, x) == 4 ==> nth_highest(rank_is(c, 4), 14, 0) >= x,
        rank_count(c, x) == 3 ==> nth_highest(rank_is(c, 3), 14, 0) >= x,
        rank_count(c, x) == 2 ==> nth_highest(rank_is(c, 2), 14, 0) >= x,
        rank_count(c, x) == 1 ==> nth_highest(rank_is(c, 1), 14, 0) >= x,
{
    lemma_rank_at_most_four(c, x);
    let m = rank_count(c, x);
    if 1 <= m <= 4 {
        assert(rank_is(c, m)(x));
        lemma_nth_ge(rank_is(c, m), 14, 0, x);
        if m == 3 && x != nth_highest(rank_is(c, 3), 14, 0) {
            lemma_nth_ge(rank_is(c, 3), 14, 1, x);
        }
        if m == 2 && x != nth_highest(rank_is(c, 2), 14, 0) {
            lemma_nth_ge(rank_is(c, 2), 14, 1, x);
            if x != nth_highest(rank_is(c, 2), 14, 1) {
                lemma_nth_ge(rank_is(c, 2), 14, 2, x);
            }
        }
    }
}

/// A five-card hand scores at most its seven cards when they hold no flush.
pub(crate) proof fn lemma_upper_no_flush(s: Seq<Card>, c: Seq<Card>)
    requires
        sub_hand(s, c),
        first_flush_suit(c) < 0,
    ensures
        five_card_score(s) <= seven_card_score(c),
{
    lemma_five_cat_bounds(s);
    lemma_seven_cat_bounds(c);
    lemma_transfer(s, c);
    lemma_ranks_small(rank_is(s, 4));
    lemma_ranks_small(rank_is(s, 3));
    lemma_ranks_small(rank_is(s, 2));
    lemma_ranks_small(rank_is(s, 1));
    lemma_ranks_small(rank_is(c, 4));
    lemma_ranks_small(rank_is(c, 3));
    lemma_ranks_small(rank_is(c, 2));
    lemma_ranks_small(rank_is(c, 1));
    lemma_ranks_small(present_ranks(s));
    lemma_ranks_small(present_ranks(c));
    let q = nth_highest(rank_is(c, 4), 14, 0);
    let t0 = nth_highest(rank_is(c, 3), 14, 0);
    let t1 = nth_highest(rank_is(c, 3), 14, 1);
    let p0 = nth_highest(rank_is(c, 2), 14, 0);
    let p1 = nth_highest(rank_is(c, 2), 14, 1);
    let p2 = nth_highest(rank_is(c, 2), 14, 2);
    let sq = nth_highest(rank_is(s, 4), 14, 0);
    let st = nth_highest(rank_is(s, 3), 14, 0);
    let sp0 = nth_highest(rank_is(s, 2), 14, 0);
    let sp1 = nth_highest(rank_is(s, 2), 14, 1);
    let ss0 = nth_highest(rank_is(s, 1), 14, 0);
    if sq != 0 {
        lemma_nth_member(rank_is(s, 4), 14, 0);
        lemma_count_in_c(s, c, sq);
    }
    if st != 0 {
        lemma_nth_member(rank_is(s, 3), 14, 0);
        lemma_count_in_c(s, c, st);
    }
    if sp0 != 0 {
        lemma_nth_member(rank_is(s, 2), 14, 0);
        lemma_count_in_c(s, c, sp0);
    }
    if sp1 != 0 {
        lemma_nth_member(rank_is(s, 2), 14, 1);
        lemma_count_in_c(s, c, sp1);
        lemma_nth_strict(rank_is(s, 2), 14, 0);
    }
    if ss0 != 0 {
        lemma_nth_member(rank_is(s, 1), 14, 0);
        lemma_count_in_c(s, c, ss0);
    }
    if t0 != 0 {
        lemma_nth_member(rank_is(c, 3), 14, 0);
    }
    if t1 != 0 {
        lemma_nth_member(rank_is(c, 3), 14, 1);
        lemma_nth_strict(rank_is(c, 3), 14, 0);
        if p0 != 0 {
            lemma_nth_member(rank_is(c, 2), 14, 0);
            lemma_three_ranks(c, t0, t1, p0);
        }
    }
    if q != 0 {
        lemma_nth_member(rank_is(c, 4), 14, 0);
        if ss0 != 0 && ss0 != q {
            lemma_two_ranks(c, q, ss0);
        }
    }
    if p0 != 0 {
        lemma_nth_member(rank_is(c, 2), 14, 0);
    }
    if p1 != 0 {
        lemma_nth_member(rank_is(c, 2), 14, 1);
    }
    if st != 0 && sp0 != 0 && q == 0 {
        lemma_full_house_transfers(s, c);
    }
    let k7 = seven_cat(c);
    let k5 = five_cat(s);
    if (k7 == 3 || k7 == 1 || k7 == 0) && k5 == k7 {
        // the singles of `s` are singles of `c`
        assert forall|x: int| 2 <= x <= 14 && #[trigger] rank_is(s, 1)(x) implies rank_is(c, 1)(x) by {
            lemma_count_in_c(s, c, x);
            if rank_count(c, x) == 3 {
                lemma_nth_member(rank_is(c, 3), 14, 0);
            }
            if rank_count(c, x) == 2 {
                lemma_nth_member(rank_is(c, 2), 14, 0);
            }
        }
        lemma_nth_mono(rank_is(s, 1), rank_is(c, 1), 14, 0);
        lemma_nth_mono(rank_is(s, 1), rank_is(c, 1), 14, 1);
        lemma_nth_mono(rank_is(s, 1), rank_is(c, 1), 14, 2);
        lemma_nth_mono(rank_is(s, 1), rank_is(c, 1), 14, 3);
        lemma_nth_mono(rank_is(s, 1), rank_is(c, 1), 14, 4);
    }
    if k7 == 2 && k5 == 2 {
        assert forall|x: int| 2 <= x <= 14 && #[trigger] rank_is(s, 2)(x) implies rank_is(c, 2)(x) by {
            lemma_count_in_c(s, c, x);
        }
        lemma_nth_mono(rank_is(s, 2), rank_is(c, 2), 14, 0);
        lemma_nth_mono(rank_is(s, 2), rank_is(c, 2), 14, 1);
    }
    assert(packed(k5 + 1, 0, 0, 0, 0, 0) <= packed(k7, 0, 0, 0, 0, 0) || k5 == k7);
}

/// Each five of seven distinct valid cards scores at most the seven.
pub proof fn lemma_five_at_most_seven(c: Seq<Card>, i: int, j: int)
    requires
        c.len() == 7,
        distinct_valid(c),
        0 <= i < j < 7,
    ensures
        five_card_score(skip_two(c, i, j)) <= seven_card_score(c),
{
    lemma_skip_two_sub_hand(c, i, j);
    if first_flush_suit(c) >= 0 {
        lemma_upper_flush(skip_two(c, i, j), c);
    } else {
        lemma_upper_no_flush(skip_two(c, i, j), c);
    }
}

} // verus!
