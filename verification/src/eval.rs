use vstd::prelude::*;

use crate::card::Card;

verus! {

/// Packed hand score: bits [47:40] = category, [39:32] = first tiebreaker,
/// [31:24] = second, [23:16] = third, [15:8] = fourth, [7:0] = fifth.
/// Higher is better.
#[derive(Copy, Clone, PartialEq, Eq, Structural, PartialOrd, Ord, Debug, Default)]
pub struct HandScore(pub u64);

pub const HIGH_CARD: u64 = 0;
pub const ONE_PAIR: u64 = 1;
pub const TWO_PAIR: u64 = 2;
pub const THREE_OF_A_KIND: u64 = 3;
pub const STRAIGHT: u64 = 4;
pub const FLUSH: u64 = 5;
pub const FULL_HOUSE: u64 = 6;
pub const FOUR_OF_A_KIND: u64 = 7;
pub const STRAIGHT_FLUSH: u64 = 8;

// ---------------------------------------------------------------------------
// The scoring model
// ---------------------------------------------------------------------------

/// The score of a category and five tiebreakers, each below 256: the
/// category is the most significant byte, the tiebreakers follow in order.
pub open spec fn packed(cat: int, t1: int, t2: int, t3: int, t4: int, t5: int) -> int {
    cat * 0x100_0000_0000 + t1 * 0x1_0000_0000 + t2 * 0x100_0000 + t3 * 0x1_0000 + t4 * 0x100 + t5
}

/// Whether bit `r` of a rank mask is set.
pub open spec fn has_rank(mask: u16, r: int) -> bool {
    0 <= r < 16 && mask & (1u16 << (r as u16)) != 0
}

/// The ranks that a mask holds, as a predicate.
pub open spec fn mask_ranks(mask: u16) -> spec_fn(int) -> bool {
    |r: int| has_rank(mask, r)
}

/// A rank predicate in which an ace (14) also counts as the low rank 1.
pub open spec fn with_low_ace(p: spec_fn(int) -> bool) -> spec_fn(int) -> bool {
    |r: int| p(r) || (r == 1 && p(14))
}

/// Five consecutive ranks ending at `high` are all present.
pub open spec fn run_ending_at(p: spec_fn(int) -> bool, high: int) -> bool {
    p(high) && p(high - 1) && p(high - 2) && p(high - 3) && p(high - 4)
}

/// The highest `h` in 5..=`high` at which a run of five ends, or 0.
pub open spec fn highest_run(p: spec_fn(int) -> bool, high: int) -> int
    decreases high,
{
    if high < 5 {
        0
    } else if run_ending_at(p, high) {
        high
    } else {
        highest_run(p, high - 1)
    }
}

/// The high card of the best straight among the ranks `p` holds (a wheel
/// A-2-3-4-5 has high card 5), or 0 when there is no straight.
pub open spec fn straight_high_of(p: spec_fn(int) -> bool) -> int {
    highest_run(with_low_ace(p), 14)
}

/// The `k`-th highest rank (counting from 0) in 2..=`hi` that `p` holds,
/// or 0 when `p` holds fewer ranks there.
pub open spec fn nth_highest(p: spec_fn(int) -> bool, hi: int, k: int) -> int
    decreases hi,
{
    if hi < 2 {
        0
    } else if p(hi) {
        if k == 0 {
            hi
        } else {
            nth_highest(p, hi - 1, k - 1)
        }
    } else {
        nth_highest(p, hi - 1, k)
    }
}

/// How many ranks in `lo..=hi` satisfy `p`.
pub open spec fn count_in(p: spec_fn(int) -> bool, lo: int, hi: int) -> nat
    decreases hi - lo + 1,
{
    if hi < lo {
        0
    } else {
        count_in(p, lo, hi - 1) + if p(hi) { 1nat } else { 0nat }
    }
}


// ---------------------------------------------------------------------------
// Counting the cards of a hand
// ---------------------------------------------------------------------------

/// How many of `cards` have rank `r`.
pub open spec fn rank_count(cards: Seq<Card>, r: int) -> nat
    decreases cards.len(),
{
    if cards.len() == 0 {
        0
    } else {
        rank_count(cards.drop_last(), r) + if cards.last().rank.0 == r { 1nat } else { 0nat }
    }
}

/// How many of `cards` have suit `s`.
pub open spec fn suit_count(cards: Seq<Card>, s: int) -> nat
    decreases cards.len(),
{
    if cards.len() == 0 {
        0
    } else {
        suit_count(cards.drop_last(), s) + if cards.last().suit.0 == s { 1nat } else { 0nat }
    }
}

/// How many of `cards` have rank `r` and suit `s`.
pub open spec fn suited_count(cards: Seq<Card>, r: int, s: int) -> nat
    decreases cards.len(),
{
    if cards.len() == 0 {
        0
    } else {
        suited_count(cards.drop_last(), r, s) + if cards.last().rank.0 == r && cards.last().suit.0
            == s {
            1nat
        } else {
            0nat
        }
    }
}

/// The sum of the rank counts of the ranks `lo..=hi`.
pub open spec fn count_sum(cards: Seq<Card>, lo: int, hi: int) -> nat
    decreases hi - lo + 1,
{
    if hi < lo {
        0
    } else {
        rank_count(cards, lo) + count_sum(cards, lo + 1, hi)
    }
}

/// The ranks held exactly `m` times.
pub open spec fn rank_is(cards: Seq<Card>, m: nat) -> spec_fn(int) -> bool {
    |r: int| rank_count(cards, r) == m
}

/// The ranks 2..=14 held at least once.
pub open spec fn present_ranks(cards: Seq<Card>) -> spec_fn(int) -> bool {
    |r: int| 2 <= r <= 14 && rank_count(cards, r) > 0
}

/// The ranks 0..16 held in suit `s`.
pub open spec fn suit_ranks(cards: Seq<Card>, s: int) -> spec_fn(int) -> bool {
    |r: int| 0 <= r < 16 && suited_count(cards, r, s) > 0
}

/// Every card has a rank index at most 14 and a suit index at most 3.
pub open spec fn indexable(cards: Seq<Card>) -> bool {
    forall|i: int| 0 <= i < cards.len() ==> #[trigger] cards[i].rank.0 <= 14 && cards[i].suit.0 <= 3
}

pub open spec fn max_of(a: int, b: int) -> int {
    if a >= b {
        a
    } else {
        b
    }
}

/// The first suit held at least five times, or -1.
pub open spec fn first_flush_suit(cards: Seq<Card>) -> int {
    if suit_count(cards, 0) >= 5 {
        0
    } else if suit_count(cards, 1) >= 5 {
        1
    } else if suit_count(cards, 2) >= 5 {
        2
    } else if suit_count(cards, 3) >= 5 {
        3
    } else {
        -1
    }
}

/// Some suit is held by all five cards.
pub open spec fn is_flush5(cards: Seq<Card>) -> bool {
    suit_count(cards, 0) == 5 || suit_count(cards, 1) == 5 || suit_count(cards, 2) == 5
        || suit_count(cards, 3) == 5
}

/// The score of a five-card hand: straight flush, four of a kind with its
/// kicker, full house, flush, straight (a wheel counts as 5-high), three of
/// a kind with two kickers, two pair with a kicker, one pair with three
/// kickers, or high card; tiebreakers are the ranks of the groups, larger
/// groups first and higher ranks first within a group.
pub open spec fn five_card_score(cards: Seq<Card>) -> int {
    let flush = is_flush5(cards);
    let sh = straight_high_of(present_ranks(cards));
    let q = nth_highest(rank_is(cards, 4), 14, 0);
    let t = nth_highest(rank_is(cards, 3), 14, 0);
    let p0 = nth_highest(rank_is(cards, 2), 14, 0);
    let p1 = nth_highest(rank_is(cards, 2), 14, 1);
    let s0 = nth_highest(rank_is(cards, 1), 14, 0);
    let s1 = nth_highest(rank_is(cards, 1), 14, 1);
    let s2 = nth_highest(rank_is(cards, 1), 14, 2);
    let s3 = nth_highest(rank_is(cards, 1), 14, 3);
    let s4 = nth_highest(rank_is(cards, 1), 14, 4);
    if flush && sh > 0 {
        packed(8, sh, 0, 0, 0, 0)
    } else if q != 0 {
        packed(7, q, s0, 0, 0, 0)
    } else if t != 0 && p0 != 0 {
        packed(6, t, p0, 0, 0, 0)
    } else if flush {
        packed(5, s0, s1, s2, s3, s4)
    } else if sh > 0 {
        packed(4, sh, 0, 0, 0, 0)
    } else if t != 0 {
        packed(3, t, s0, s1, 0, 0)
    } else if p1 != 0 {
        packed(2, p0, p1, s0, 0, 0)
    } else if p0 != 0 {
        packed(1, p0, s0, s1, s2, 0)
    } else {
        packed(0, s0, s1, s2, s3, s4)
    }
}

/// The cards of a hand other than those at positions `i` and `j` (`i < j`),
/// in their order.
pub open spec fn skip_two(cards: Seq<Card>, i: int, j: int) -> Seq<Card> {
    Seq::new(
        (cards.len() - 2) as nat,
        |t: int|
            cards[if t < i {
                t
            } else if t + 1 < j {
                t + 1
            } else {
                t + 2
            }],
    )
}

/// `v` is the best score of the five-card hands that leave out two of the
/// seven `cards`.
pub open spec fn best_of_subsets(cards: Seq<Card>, v: int) -> bool {
    &&& forall|i: int, j: int|
        0 <= i < j < 7 ==> #[trigger] five_card_score(skip_two(cards, i, j)) <= v
    &&& exists|i: int, j: int| 0 <= i < j < 7 && #[trigger] five_card_score(skip_two(cards, i, j)) == v
}

/// The score of a seven-card hand: a flush (or straight flush) when some
/// suit is held five times; otherwise quads with the best other rank as
/// kicker, a full house from the best trips and the best other trips or
/// pair, a straight, trips with two kickers, two pair with the best other
/// rank as kicker, one pair with three kickers, or the five best ranks.
pub open spec fn seven_card_score(cards: Seq<Card>) -> int {
    let fs = first_flush_suit(cards);
    if fs >= 0 {
        let fp = suit_ranks(cards, fs);
        let sf = straight_high_of(fp);
        if sf > 0 {
            packed(8, sf, 0, 0, 0, 0)
        } else {
            packed(
                5,
                nth_highest(fp, 14, 0),
                nth_highest(fp, 14, 1),
                nth_highest(fp, 14, 2),
                nth_highest(fp, 14, 3),
                nth_highest(fp, 14, 4),
            )
        }
    } else {
        let q = nth_highest(rank_is(cards, 4), 14, 0);
        let t0 = nth_highest(rank_is(cards, 3), 14, 0);
        let t1 = nth_highest(rank_is(cards, 3), 14, 1);
        let p0 = nth_highest(rank_is(cards, 2), 14, 0);
        let p1 = nth_highest(rank_is(cards, 2), 14, 1);
        let p2 = nth_highest(rank_is(cards, 2), 14, 2);
        let s0 = nth_highest(rank_is(cards, 1), 14, 0);
        let s1 = nth_highest(rank_is(cards, 1), 14, 1);
        let s2 = nth_highest(rank_is(cards, 1), 14, 2);
        let s3 = nth_highest(rank_is(cards, 1), 14, 3);
        let s4 = nth_highest(rank_is(cards, 1), 14, 4);
        let sh = straight_high_of(present_ranks(cards));
        if q != 0 {
            packed(7, q, max_of(max_of(t0, p0), s0), 0, 0, 0)
        } else if t0 != 0 && (t1 != 0 || p0 != 0) {
            packed(
                6,
                t0,
                if t1 != 0 {
                    t1
                } else {
                    p0
                },
                0,
                0,
                0,
            )
        } else if sh > 0 {
            packed(4, sh, 0, 0, 0, 0)
        } else if t0 != 0 {
            packed(3, t0, s0, s1, 0, 0)
        } else if p1 != 0 {
            packed(2, p0, p1, max_of(p2, s0), 0, 0)
        } else if p0 != 0 {
            packed(1, p0, s0, s1, s2, 0)
        } else {
            packed(0, s0, s1, s2, s3, s4)
        }
    }
}

// ---------------------------------------------------------------------------
// Lemmas on counting and collecting ranks
// ---------------------------------------------------------------------------

proof fn lemma_highest_run_skip(p: spec_fn(int) -> bool, hi: int, lo: int)
    requires
        4 <= lo <= hi,
        forall|h: int| lo < h <= hi ==> !#[trigger] run_ending_at(p, h),
    ensures
        highest_run(p, hi) == highest_run(p, lo),
    decreases hi - lo,
{
    if hi > lo {
        lemma_highest_run_skip(p, hi - 1, lo);
    }
}

/// With exactly the five ranks a0 < a1 < a2 < a3 < a4 present, the hand is a
/// straight exactly when they are consecutive or form the wheel.
proof fn lemma_straight_of_five(p: spec_fn(int) -> bool, a0: int, a1: int, a2: int, a3: int, a4: int)
    requires
        2 <= a0 < a1 < a2 < a3 < a4 <= 14,
        forall|q: int| #[trigger] p(q) <==> (q == a0 || q == a1 || q == a2 || q == a3 || q == a4),
    ensures
        straight_high_of(p) == if a4 - a0 == 4 {
            a4
        } else if a0 == 2 && a1 == 3 && a2 == 4 && a3 == 5 && a4 == 14 {
            5
        } else {
            0
        },
{
    let lp = with_low_ace(p);
    if a4 - a0 == 4 {
        assert forall|h: int| a4 < h <= 14 implies !#[trigger] run_ending_at(lp, h) by {
            assert(!lp(h));
        }
        lemma_highest_run_skip(lp, 14, a4);
        assert(run_ending_at(lp, a4));
    } else {
        assert forall|h: int| 5 < h <= 14 implies !#[trigger] run_ending_at(lp, h) by {
            if run_ending_at(lp, h) {
                assert(p(h) && p(h - 1) && p(h - 2) && p(h - 3) && p(h - 4));
                assert(a0 <= h - 4);
                assert(a4 >= h);
            }
        }
        lemma_highest_run_skip(lp, 14, 5);
        if a0 == 2 && a1 == 3 && a2 == 4 && a3 == 5 && a4 == 14 {
            assert(run_ending_at(lp, 5));
        } else {
            if run_ending_at(lp, 5) {
                assert(p(14) && p(2) && p(3) && p(4) && p(5));
            }
            assert(highest_run(lp, 4) == 0);
        }
    }
}

/// With fewer than five distinct ranks present there is no straight.
proof fn lemma_no_straight_below_five(p: spec_fn(int) -> bool, a: Seq<u8>, len: int)
    requires
        0 <= len < 5,
        len <= a.len(),
        forall|k1: int, k2: int| 0 <= k1 < k2 < len ==> a[k1] < a[k2],
        forall|q: int| #[trigger] p(q) ==> exists|k: int| 0 <= k < len && a[k] == q,
    ensures
        straight_high_of(p) == 0,
{
    let lp = with_low_ace(p);
    assert forall|h: int| 4 < h <= 14 implies !#[trigger] run_ending_at(lp, h) by {
        if run_ending_at(lp, h) {
            let v0 = if h == 5 { 2int } else { h - 4 };
            let v4 = if h == 5 { 14int } else { h };
            let v1 = h - 3;
            let v2 = h - 2;
            let v3 = if h == 5 { 5int } else { h - 1 };
            assert(p(v0) && p(v1) && p(v2) && p(v3) && p(v4));
            let k0 = choose|k: int| 0 <= k < len && a[k] == v0;
            let k1 = choose|k: int| 0 <= k < len && a[k] == v1;
            let k2 = choose|k: int| 0 <= k < len && a[k] == v2;
            let k3 = choose|k: int| 0 <= k < len && a[k] == v3;
            let k4 = choose|k: int| 0 <= k < len && a[k] == v4;
            assert(k0 < k1) by {
                if k1 <= k0 {
                    if k1 < k0 {
                        assert(a[k1] < a[k0]);
                    }
                }
            }
            assert(k1 < k2) by {
                if k2 < k1 {
                    assert(a[k2] < a[k1]);
                }
            }
            assert(k2 < k3) by {
                if k3 < k2 {
                    assert(a[k3] < a[k2]);
                }
            }
            assert(k3 < k4) by {
                if k4 < k3 {
                    assert(a[k4] < a[k3]);
                }
            }
        }
    }
    lemma_highest_run_skip(lp, 14, 4);
}

pub(crate) proof fn lemma_nth_range(p: spec_fn(int) -> bool, hi: int, k: int)
    ensures
        nth_highest(p, hi, k) == 0 || 2 <= nth_highest(p, hi, k) <= hi,
    decreases hi,
{
    if hi >= 2 {
        lemma_nth_range(p, hi - 1, k - 1);
        lemma_nth_range(p, hi - 1, k);
    }
}

pub(crate) proof fn lemma_run_range(p: spec_fn(int) -> bool, high: int)
    ensures
        highest_run(p, high) == 0 || 5 <= highest_run(p, high) <= high,
    decreases high,
{
    if high >= 5 {
        lemma_run_range(p, high - 1);
    }
}

proof fn lemma_five_score_nonneg(cards: Seq<Card>)
    ensures
        five_card_score(cards) >= 0,
{
    lemma_run_range(with_low_ace(present_ranks(cards)), 14);
    lemma_nth_range(rank_is(cards, 4), 14, 0);
    lemma_nth_range(rank_is(cards, 3), 14, 0);
    lemma_nth_range(rank_is(cards, 2), 14, 0);
    lemma_nth_range(rank_is(cards, 2), 14, 1);
    lemma_nth_range(rank_is(cards, 1), 14, 0);
    lemma_nth_range(rank_is(cards, 1), 14, 1);
    lemma_nth_range(rank_is(cards, 1), 14, 2);
    lemma_nth_range(rank_is(cards, 1), 14, 3);
    lemma_nth_range(rank_is(cards, 1), 14, 4);
}

proof fn lemma_counts_bounded(cards: Seq<Card>, r: int, s: int)
    ensures
        rank_count(cards, r) <= cards.len(),
        suit_count(cards, s) <= cards.len(),
        suited_count(cards, r, s) <= cards.len(),
    decreases cards.len(),
{
    if cards.len() > 0 {
        lemma_counts_bounded(cards.drop_last(), r, s);
    }
}

proof fn lemma_count_sum_step(cards: Seq<Card>, lo: int)
    requires
        cards.len() > 0,
    ensures
        count_sum(cards, lo, 14) == count_sum(cards.drop_last(), lo, 14) + if lo <= cards.last().rank.0
            <= 14 {
            1nat
        } else {
            0nat
        },
    decreases 15 - lo,
{
    if lo <= 14 {
        lemma_count_sum_step(cards, lo + 1);
    }
}

proof fn lemma_count_sum_empty(cards: Seq<Card>, lo: int)
    requires
        cards.len() == 0,
    ensures
        count_sum(cards, lo, 14) == 0,
    decreases 15 - lo,
{
    if lo <= 14 {
        lemma_count_sum_empty(cards, lo + 1);
    }
}

/// Every card is counted once by the rank counts 0..=14.
proof fn lemma_count_sum_total(cards: Seq<Card>)
    requires
        indexable(cards),
    ensures
        count_sum(cards, 0, 14) == cards.len(),
    decreases cards.len(),
{
    if cards.len() == 0 {
        lemma_count_sum_empty(cards, 0);
    } else {
        assert(indexable(cards.drop_last())) by {
            assert forall|i: int| 0 <= i < cards.drop_last().len() implies #[trigger] cards.drop_last()[i].rank.0
                <= 14 && cards.drop_last()[i].suit.0 <= 3 by {
                assert(cards.drop_last()[i] == cards[i]);
            }
        }
        lemma_count_sum_total(cards.drop_last());
        lemma_count_sum_step(cards, 0);
        assert(cards.last() == cards[cards.len() - 1]);
        assert(cards[cards.len() - 1].rank.0 <= 14);
    }
}

proof fn lemma_count_sum_suffix(cards: Seq<Card>, lo: int)
    requires
        0 <= lo,
    ensures
        count_sum(cards, lo, 14) <= count_sum(cards, 0, 14),
    decreases lo,
{
    if lo > 0 {
        lemma_count_sum_suffix(cards, lo - 1);
    }
}

/// `arr[..len]` holds the `len` highest ranks of `p`, the rest of `arr` is
/// zero, and the ranks of `p` still to come are those at or below `r`.
pub open spec fn collected(arr: Seq<u8>, len: int, p: spec_fn(int) -> bool, r: int) -> bool {
    &&& 0 <= len <= arr.len()
    &&& forall|k: int| 0 <= k < len ==> arr[k] == nth_highest(p, 14, k) && arr[k] >= 2
    &&& forall|k: int| len <= k < arr.len() ==> arr[k] == 0
    &&& forall|k: int| k >= 0 ==> #[trigger] nth_highest(p, r, k) == nth_highest(p, 14, len + k)
}

proof fn lemma_collect_start(arr: Seq<u8>, p: spec_fn(int) -> bool)
    requires
        forall|k: int| 0 <= k < arr.len() ==> arr[k] == 0,
    ensures
        collected(arr, 0, p, 14),
{
}

proof fn lemma_collect_take(arr: Seq<u8>, len: int, p: spec_fn(int) -> bool, r: int)
    requires
        collected(arr, len, p, r),
        2 <= r <= 14,
        p(r),
        len < arr.len(),
    ensures
        nth_highest(p, 14, len) == r,
        collected(arr.update(len, r as u8), len + 1, p, r - 1),
{
    assert(nth_highest(p, r, 0) == nth_highest(p, 14, len + 0));
    assert forall|k: int| k >= 0 implies #[trigger] nth_highest(p, r - 1, k) == nth_highest(
        p,
        14,
        len + 1 + k,
    ) by {
        assert(nth_highest(p, r, k + 1) == nth_highest(p, 14, len + (k + 1)));
    }
}

proof fn lemma_collect_skip(arr: Seq<u8>, len: int, p: spec_fn(int) -> bool, r: int)
    requires
        collected(arr, len, p, r),
        2 <= r <= 14,
        !p(r),
    ensures
        collected(arr, len, p, r - 1),
{
    assert forall|k: int| k >= 0 implies #[trigger] nth_highest(p, r - 1, k) == nth_highest(
        p,
        14,
        len + k,
    ) by {
        assert(nth_highest(p, r, k) == nth_highest(p, 14, len + k));
    }
}

proof fn lemma_collect_done(arr: Seq<u8>, len: int, p: spec_fn(int) -> bool)
    requires
        collected(arr, len, p, 1),
    ensures
        forall|k: int| 0 <= k < arr.len() ==> arr[k] == nth_highest(p, 14, k),
        forall|k: int| 0 <= k < arr.len() ==> (arr[k] != 0 <==> k < len),
{
    assert forall|k: int| 0 <= k < arr.len() implies arr[k] == nth_highest(p, 14, k) by {
        if k >= len {
            assert(nth_highest(p, 1, k - len) == nth_highest(p, 14, len + (k - len)));
        }
    }
}

proof fn lemma_set_bit(m: u16, r0: u16, r: u16)
    requires
        r0 < 16,
        r < 16,
    ensures
        (m | (1u16 << r0)) & (1u16 << r) != 0 <==> (m & (1u16 << r) != 0 || r == r0),
{
    assert((m | (1u16 << r0)) & (1u16 << r) != 0 <==> (m & (1u16 << r) != 0 || r == r0))
        by (bit_vector)
        requires
            r0 < 16,
            r < 16,
    ;
}

proof fn lemma_empty_mask(r: u16)
    requires
        r < 16,
    ensures
        0u16 & (1u16 << r) == 0,
{
    assert(0u16 & (1u16 << r) == 0) by (bit_vector);
}

// ---------------------------------------------------------------------------
// Packing
// ---------------------------------------------------------------------------

proof fn lemma_pack_bits(cat: u64, t1: u64, t2: u64, t3: u64, t4: u64, t5: u64)
    requires
        cat < 256,
        t1 < 256,
        t2 < 256,
        t3 < 256,
        t4 < 256,
        t5 < 256,
    ensures
        (cat << 40u64) | (t1 << 32u64) | (t2 << 24u64) | (t3 << 16u64) | (t4 << 8u64) | t5
            == packed(cat as int, t1 as int, t2 as int, t3 as int, t4 as int, t5 as int),
{
    assert((cat << 40u64) | (t1 << 32u64) | (t2 << 24u64) | (t3 << 16u64) | (t4 << 8u64) | t5
        == cat * 0x100_0000_0000 + t1 * 0x1_0000_0000 + t2 * 0x100_0000 + t3 * 0x1_0000 + t4
        * 0x100 + t5) by (bit_vector)
        requires
            cat < 256,
            t1 < 256,
            t2 < 256,
            t3 < 256,
            t4 < 256,
            t5 < 256,
    ;
}

fn pack(cat: u64, t1: u64, t2: u64, t3: u64, t4: u64, t5: u64) -> (s: HandScore)
    requires
        cat < 256,
        t1 < 256,
        t2 < 256,
        t3 < 256,
        t4 < 256,
        t5 < 256,
    ensures
        s.0 == packed(cat as int, t1 as int, t2 as int, t3 as int, t4 as int, t5 as int),
{
    proof {
        lemma_pack_bits(cat, t1, t2, t3, t4, t5);
    }
    HandScore((cat << 40) | (t1 << 32) | (t2 << 24) | (t3 << 16) | (t4 << 8) | t5)
}

// ---------------------------------------------------------------------------
// Rank masks
// ---------------------------------------------------------------------------

proof fn lemma_five_bits(m: u16, lo: u16)
    requires
        1 <= lo <= 10,
    ensures
        (m & (31u16 << lo) == (31u16 << lo)) <==> (m & (1u16 << lo) != 0 && m & (1u16 << (
        lo + 1) as u16) != 0 && m & (1u16 << (lo + 2) as u16) != 0 && m & (1u16 << (lo
        + 3) as u16) != 0 && m & (1u16 << (lo + 4) as u16) != 0),
{
    assert((m & (31u16 << lo) == (31u16 << lo)) <==> (m & (1u16 << lo) != 0 && m & (1u16 << (
    lo + 1) as u16) != 0 && m & (1u16 << (lo + 2) as u16) != 0 && m & (1u16 << (lo + 3) as u16)
        != 0 && m & (1u16 << (lo + 4) as u16) != 0)) by (bit_vector)
        requires
            1 <= lo <= 10,
    ;
}

proof fn lemma_low_ace_bits(mask: u16, r: u16)
    requires
        r < 16,
    ensures
        (mask | 2u16) & (1u16 << r) != 0 <==> (mask & (1u16 << r) != 0 || r == 1),
{
    assert((mask | 2u16) & (1u16 << r) != 0 <==> (mask & (1u16 << r) != 0 || r == 1))
        by (bit_vector)
        requires
            r < 16,
    ;
}

/// Returns the high card of the best straight in a rank mask (bit r set =
/// rank r present); a wheel A-2-3-4-5 gives 5. Returns 0 if there is none.
fn straight_high_from_mask(mask: u16) -> (h: u8)
    ensures
        h == straight_high_of(mask_ranks(mask)),
{
    let m = if mask & (1u16 << 14u16) != 0 {
        mask | 2
    } else {
        mask
    };
    let ghost p = with_low_ace(mask_ranks(mask));
    assert forall|r: int| 1 <= r < 16 implies #[trigger] p(r) == has_rank(m, r) by {
        lemma_low_ace_bits(mask, r as u16);
    }
    let mut high: u8 = 14;
    while high >= 5
        invariant
            4 <= high <= 14,
            p == with_low_ace(mask_ranks(mask)),
            forall|r: int| 1 <= r < 16 ==> #[trigger] p(r) == has_rank(m, r),
            highest_run(p, 14) == highest_run(p, high as int),
        decreases high,
    {
        let lo = high - 4;
        let bits: u16 = 0b11111u16 << (lo as u16);
        proof {
            lemma_five_bits(m, lo as u16);
            assert(p(lo as int) == has_rank(m, lo as int));
            assert(p(lo + 1) == has_rank(m, lo + 1));
            assert(p(lo + 2) == has_rank(m, lo + 2));
            assert(p(lo + 3) == has_rank(m, lo + 3));
            assert(p(lo + 4) == has_rank(m, lo + 4));
        }
        if m & bits == bits {
            assert(run_ending_at(p, high as int));
            assert(highest_run(p, high as int) == high);
            return high;
        }
        assert(!run_ending_at(p, high as int));
        high = high - 1;
    }
    0
}

/// Returns the top 5 ranks of a mask, descending (0 where there are fewer).
fn top5_from_mask(mask: u16) -> (res: [u8; 5])
    ensures
        forall|k: int| 0 <= k < 5 ==> res[k] == nth_highest(mask_ranks(mask), 14, k),
{
    let ghost p = mask_ranks(mask);
    let mut result = [0u8; 5];
    let mut idx: usize = 0;
    let mut r: u8 = 14;
    while r >= 2
        invariant
            1 <= r <= 14,
            idx < 5,
            p == mask_ranks(mask),
            forall|k: int| 0 <= k < idx ==> result[k] == nth_highest(p, 14, k),
            forall|k: int| idx <= k < 5 ==> result[k] == 0,
            forall|k: int| k >= 0 ==> nth_highest(p, 14, idx + k) == #[trigger] nth_highest(p, r as int, k),
        decreases r,
    {
        if mask & (1u16 << (r as u16)) != 0 {
            assert(p(r as int));
            assert(nth_highest(p, 14, idx + 0) == nth_highest(p, r as int, 0));
            result[idx] = r;
            idx = idx + 1;
            assert forall|k: int| k >= 0 implies nth_highest(p, 14, idx + k) == #[trigger] nth_highest(
                p,
                r - 1,
                k,
            ) by {
                assert(nth_highest(p, 14, (idx - 1) + (k + 1)) == nth_highest(p, r as int, k + 1));
            }
            if idx == 5 {
                return result;
            }
        } else {
            assert(!p(r as int));
            assert forall|k: int| k >= 0 implies nth_highest(p, 14, idx + k) == #[trigger] nth_highest(
                p,
                r - 1,
                k,
            ) by {
                assert(nth_highest(p, 14, idx + k) == nth_highest(p, r as int, k));
            }
        }
        r = r - 1;
    }
    assert forall|k: int| idx <= k < 5 implies result[k] == nth_highest(p, 14, k) by {
        assert(nth_highest(p, 14, idx + (k - idx)) == nth_highest(p, 1, k - idx));
    }
    result
}

/// Scores a five-card hand.
pub fn eval_5(cards: &[Card; 5]) -> (score: HandScore)
    requires
        indexable(cards@),
    ensures
        score.0 == five_card_score(cards@),
{
    let ghost cs = cards@;
    let mut rank_counts = [0u8; 15];  // indexed 2..=14
    let mut suit_counts = [0u8; 4];

    let mut i: usize = 0;
    while i < 5
        invariant
            0 <= i <= 5,
            cs == cards@,
            indexable(cs),
            forall|r: int| 0 <= r < 15 ==> #[trigger] rank_counts[r] == rank_count(cs.take(i as int), r),
            forall|s: int| 0 <= s < 4 ==> #[trigger] suit_counts[s] == suit_count(cs.take(i as int), s),
        decreases 5 - i,
    {
        let c = cards[i];
        let r = c.rank.0 as usize;
        let s = c.suit.0 as usize;
        proof {
            assert(cs[i as int].rank.0 <= 14);
            let t = cs.take(i + 1);
            assert(t.drop_last() =~= cs.take(i as int));
            assert(t.last() == c);
            lemma_counts_bounded(cs.take(i as int), r as int, s as int);
        }
        rank_counts[r] = rank_counts[r] + 1;
        suit_counts[s] = suit_counts[s] + 1;
        i = i + 1;
    }
    assert(cs.take(5) =~= cs);

    let is_flush = suit_counts[0] == 5 || suit_counts[1] == 5 || suit_counts[2] == 5
        || suit_counts[3] == 5;

    // Collect the ranks present, ascending
    let ghost present = present_ranks(cs);
    let mut ranks_present = [0u8; 5];
    let mut rp_len = 0usize;
    proof {
        lemma_count_sum_total(cs);
        lemma_count_sum_suffix(cs, 2);
    }
    let mut r: u8 = 2;
    while r <= 14
        invariant
            2 <= r <= 15,
            present == present_ranks(cs),
            forall|q: int| 0 <= q < 15 ==> #[trigger] rank_counts[q] == rank_count(cs, q),
            count_sum(cs, 0, 14) == 5,
            rp_len + count_sum(cs, r as int, 14) <= 5,
            forall|k: int| 0 <= k < rp_len ==> 2 <= #[trigger] ranks_present[k] < r && present(
                ranks_present[k] as int,
            ),
            forall|k1: int, k2: int|
                0 <= k1 < k2 < rp_len ==> ranks_present[k1] < ranks_present[k2],
            forall|q: int|
                2 <= q < r && #[trigger] present(q) ==> exists|k: int|
                    0 <= k < rp_len && ranks_present[k] == q,
        decreases 15 - r,
    {
        proof {
            assert(count_sum(cs, r as int, 14) == rank_count(cs, r as int) + count_sum(
                cs,
                r + 1,
                14,
            ));
        }
        let ghost old_rp = ranks_present@;
        let ghost old_len = rp_len;
        if rank_counts[r as usize] > 0 {
            ranks_present[rp_len] = r;
            rp_len = rp_len + 1;
        }
        proof {
            assert forall|q: int| 2 <= q < r + 1 && #[trigger] present(q) implies exists|k: int|
                0 <= k < rp_len && ranks_present[k] == q by {
                if q < r {
                    let k = choose|k: int| 0 <= k < old_len && old_rp[k] == q;
                    assert(ranks_present[k] == q);
                } else {
                    assert(ranks_present[rp_len - 1] == q);
                }
            }
        }
        r = r + 1;
    }
    assert forall|q: int| #[trigger] present(q) implies exists|k: int|
        0 <= k < rp_len && ranks_present[k] == q by {
    }

    let (is_straight, straight_high) = if rp_len == 5 {
        proof {
            assert forall|q: int| #[trigger] present(q) <==> (q == ranks_present[0]
                || q == ranks_present[1] || q == ranks_present[2] || q == ranks_present[3]
                || q == ranks_present[4]) by {
                if present(q) {
                    let k = choose|k: int| 0 <= k < rp_len && ranks_present[k] == q;
                }
                assert(present(ranks_present[0] as int));
                assert(present(ranks_present[1] as int));
                assert(present(ranks_present[2] as int));
                assert(present(ranks_present[3] as int));
                assert(present(ranks_present[4] as int));
            }
            assert(ranks_present[0] < ranks_present[1] < ranks_present[2] < ranks_present[3]
                < ranks_present[4]);
            lemma_straight_of_five(
                present,
                ranks_present[0] as int,
                ranks_present[1] as int,
                ranks_present[2] as int,
                ranks_present[3] as int,
                ranks_present[4] as int,
            );
        }
        if ranks_present[4] - ranks_present[0] == 4 {
            (true, ranks_present[4])
        } else if ranks_present[0] == 2 && ranks_present[1] == 3 && ranks_present[2] == 4
            && ranks_present[3] == 5 && ranks_present[4] == 14 {
            (true, 5u8)
        } else {
            (false, 0u8)
        }
    } else {
        proof {
            lemma_no_straight_below_five(present, ranks_present@, rp_len as int);
        }
        (false, 0u8)
    };
    assert(is_straight == (straight_high_of(present) > 0) && (is_straight ==> straight_high
        == straight_high_of(present)));

    // Build groups iterating ranks descending
    let ghost p4 = rank_is(cs, 4);
    let ghost p3 = rank_is(cs, 3);
    let ghost p2 = rank_is(cs, 2);
    let ghost p1 = rank_is(cs, 1);
    let mut quads = [0u8; 1];
    let mut quad_len = 0usize;
    let mut trips = [0u8; 1];
    let mut trip_len = 0usize;
    let mut pairs = [0u8; 2];
    let mut pair_len = 0usize;
    let mut singles = [0u8; 5];
    let mut single_len = 0usize;

    proof {
        lemma_collect_start(quads@, p4);
        lemma_collect_start(trips@, p3);
        lemma_collect_start(pairs@, p2);
        lemma_collect_start(singles@, p1);
    }
    let mut r: u8 = 14;
    while r >= 2
        invariant
            1 <= r <= 14,
            p4 == rank_is(cs, 4),
            p3 == rank_is(cs, 3),
            p2 == rank_is(cs, 2),
            p1 == rank_is(cs, 1),
            forall|q: int| 0 <= q < 15 ==> #[trigger] rank_counts[q] == rank_count(cs, q),
            count_sum(cs, 0, 14) == 5,
            collected(quads@, quad_len as int, p4, r as int),
            collected(trips@, trip_len as int, p3, r as int),
            collected(pairs@, pair_len as int, p2, r as int),
            collected(singles@, single_len as int, p1, r as int),
            4 * quad_len + 3 * trip_len + 2 * pair_len + single_len <= count_sum(cs, r + 1, 14),
        decreases r,
    {
        let cnt = rank_counts[r as usize];
        proof {
            lemma_count_sum_suffix(cs, r as int);
            assert(count_sum(cs, r as int, 14) == rank_count(cs, r as int) + count_sum(cs, r + 1, 14));
        }
        if cnt == 4 {
            proof {
                lemma_collect_take(quads@, quad_len as int, p4, r as int);
                lemma_collect_skip(trips@, trip_len as int, p3, r as int);
                lemma_collect_skip(pairs@, pair_len as int, p2, r as int);
                lemma_collect_skip(singles@, single_len as int, p1, r as int);
            }
            quads[quad_len] = r;
            quad_len = quad_len + 1;
        } else if cnt == 3 {
            proof {
                lemma_collect_skip(quads@, quad_len as int, p4, r as int);
                lemma_collect_take(trips@, trip_len as int, p3, r as int);
                lemma_collect_skip(pairs@, pair_len as int, p2, r as int);
                lemma_collect_skip(singles@, single_len as int, p1, r as int);
            }
            trips[trip_len] = r;
            trip_len = trip_len + 1;
        } else if cnt == 2 {
            proof {
                lemma_collect_skip(quads@, quad_len as int, p4, r as int);
                lemma_collect_skip(trips@, trip_len as int, p3, r as int);
                lemma_collect_take(pairs@, pair_len as int, p2, r as int);
                lemma_collect_skip(singles@, single_len as int, p1, r as int);
            }
            pairs[pair_len] = r;
            pair_len = pair_len + 1;
        } else if cnt == 1 {
            proof {
                lemma_collect_skip(quads@, quad_len as int, p4, r as int);
                lemma_collect_skip(trips@, trip_len as int, p3, r as int);
                lemma_collect_skip(pairs@, pair_len as int, p2, r as int);
                lemma_collect_take(singles@, single_len as int, p1, r as int);
            }
            singles[single_len] = r;
            single_len = single_len + 1;
        } else {
            proof {
                lemma_collect_skip(quads@, quad_len as int, p4, r as int);
                lemma_collect_skip(trips@, trip_len as int, p3, r as int);
                lemma_collect_skip(pairs@, pair_len as int, p2, r as int);
                lemma_collect_skip(singles@, single_len as int, p1, r as int);
            }
        }
        r = r - 1;
    }
    proof {
        lemma_collect_done(quads@, quad_len as int, p4);
        lemma_collect_done(trips@, trip_len as int, p3);
        lemma_collect_done(pairs@, pair_len as int, p2);
        lemma_collect_done(singles@, single_len as int, p1);
    }
    assert(quads[0] == nth_highest(p4, 14, 0) && (quads[0] != 0 <==> 0 < quad_len));
    assert(trips[0] == nth_highest(p3, 14, 0) && (trips[0] != 0 <==> 0 < trip_len));
    assert(pairs[0] == nth_highest(p2, 14, 0) && (pairs[0] != 0 <==> 0 < pair_len));
    assert(pairs[1] == nth_highest(p2, 14, 1) && (pairs[1] != 0 <==> 1 < pair_len));
    assert(singles[0] == nth_highest(p1, 14, 0) && (singles[0] != 0 <==> 0 < single_len));
    assert(singles[1] == nth_highest(p1, 14, 1) && (singles[1] != 0 <==> 1 < single_len));
    assert(singles[2] == nth_highest(p1, 14, 2) && (singles[2] != 0 <==> 2 < single_len));
    assert(singles[3] == nth_highest(p1, 14, 3));
    assert(singles[4] == nth_highest(p1, 14, 4));

    if is_straight && is_flush {
        return pack(STRAIGHT_FLUSH, straight_high as u64, 0, 0, 0, 0);
    }
    if quad_len > 0 {
        let kicker = if single_len > 0 { singles[0] } else { 0 };
        return pack(FOUR_OF_A_KIND, quads[0] as u64, kicker as u64, 0, 0, 0);
    }
    if trip_len > 0 && pair_len > 0 {
        return pack(FULL_HOUSE, trips[0] as u64, pairs[0] as u64, 0, 0, 0);
    }
    if is_flush {
        // A flush means all 5 are singles (no pairs/trips/quads)
        return pack(
            FLUSH,
            singles[0] as u64,
            singles[1] as u64,
            singles[2] as u64,
            singles[3] as u64,
            singles[4] as u64,
        );
    }
    if is_straight {
        return pack(STRAIGHT, straight_high as u64, 0, 0, 0, 0);
    }
    if trip_len > 0 {
        let k1 = if single_len > 0 { singles[0] } else { 0 };
        let k2 = if single_len > 1 { singles[1] } else { 0 };
        return pack(THREE_OF_A_KIND, trips[0] as u64, k1 as u64, k2 as u64, 0, 0);
    }
    if pair_len >= 2 {
        let kicker = if single_len > 0 { singles[0] } else { 0 };
        return pack(TWO_PAIR, pairs[0] as u64, pairs[1] as u64, kicker as u64, 0, 0);
    }
    if pair_len == 1 {
        let k1 = if single_len > 0 { singles[0] } else { 0 };
        let k2 = if single_len > 1 { singles[1] } else { 0 };
        let k3 = if single_len > 2 { singles[2] } else { 0 };
        return pack(ONE_PAIR, pairs[0] as u64, k1 as u64, k2 as u64, k3 as u64, 0);
    }
    pack(
        HIGH_CARD,
        singles[0] as u64,
        singles[1] as u64,
        singles[2] as u64,
        singles[3] as u64,
        singles[4] as u64,
    )
}

/// Finds the best 5-card hand from 7 cards by trying all C(7,2) = 21 ways to
/// leave out two cards.
pub fn best_5_from_7(cards: &[Card; 7]) -> (best: HandScore)
    requires
        indexable(cards@),
    ensures
        best_of_subsets(cards@, best.0 as int),
{
    let ghost cs = cards@;
    let mut best = HandScore(0);
    let mut skip1: usize = 0;
    while skip1 < 7
        invariant
            0 <= skip1 <= 7,
            cs == cards@,
            indexable(cs),
            forall|i: int, j: int|
                0 <= i < j < 7 && i < skip1 ==> #[trigger] five_card_score(skip_two(cs, i, j))
                    <= best.0,
            best.0 == 0 || exists|i: int, j: int|
                0 <= i < j < 7 && i < skip1 && #[trigger] five_card_score(skip_two(cs, i, j))
                    == best.0,
            skip1 > 0 ==> five_card_score(skip_two(cs, 0, 1)) <= best.0,
        decreases 7 - skip1,
    {
        let mut skip2: usize = skip1 + 1;
        while skip2 < 7
            invariant
                0 <= skip1 < 7,
                skip1 + 1 <= skip2 <= 7,
                cs == cards@,
                indexable(cs),
                forall|i: int, j: int|
                    0 <= i < j < 7 && (i < skip1 || (i == skip1 && j < skip2)) ==> #[trigger] five_card_score(
                        skip_two(cs, i, j),
                    ) <= best.0,
                best.0 == 0 || exists|i: int, j: int|
                    0 <= i < j < 7 && (i < skip1 || (i == skip1 && j < skip2)) && #[trigger] five_card_score(
                        skip_two(cs, i, j),
                    ) == best.0,
                (skip1 > 0 || skip2 > 1) ==> five_card_score(skip_two(cs, 0, 1)) <= best.0,
            decreases 7 - skip2,
        {
            let mut five = [cards[0], cards[0], cards[0], cards[0], cards[0]];
            let mut idx: usize = 0;
            let mut i: usize = 0;
            while i < 7
                invariant
                    0 <= skip1 < skip2 < 7,
                    0 <= i <= 7,
                    cs == cards@,
                    idx == i - (if skip1 < i { 1int } else { 0int }) - (if skip2 < i { 1int } else { 0int }),
                    forall|t: int| 0 <= t < idx ==> five[t] == #[trigger] skip_two(cs, skip1 as int, skip2 as int)[t],
                decreases 7 - i,
            {
                if i != skip1 && i != skip2 {
                    five[idx] = cards[i];
                    idx = idx + 1;
                }
                i = i + 1;
            }
            let ghost sub = skip_two(cs, skip1 as int, skip2 as int);
            assert(five@ =~= sub);
            assert(indexable(sub)) by {
                assert forall|t: int| 0 <= t < sub.len() implies #[trigger] sub[t].rank.0 <= 14
                    && sub[t].suit.0 <= 3 by {
                    let k = if t < skip1 {
                        t
                    } else if t + 1 < skip2 {
                        t + 1
                    } else {
                        t + 2
                    };
                    assert(cs[k].rank.0 <= 14);
                }
            }
            let score = eval_5(&five);
            if score.0 > best.0 {
                best = score;
            }
            assert(five_card_score(skip_two(cs, skip1 as int, skip2 as int)) <= best.0);
            skip2 = skip2 + 1;
        }
        skip1 = skip1 + 1;
    }
    assert(five_card_score(skip_two(cs, 0, 1)) <= best.0);
    proof {
        lemma_five_score_nonneg(skip_two(cs, 0, 1));
    }
    best
}

fn max_u8(a: u8, b: u8) -> (m: u8)
    ensures
        m == max_of(a as int, b as int),
{
    if a >= b {
        a
    } else {
        b
    }
}

/// Direct 7-card hand evaluator: a single pass with no heap allocation.
/// Used in the hot simulation loop.
pub fn eval_7(cards: &[Card; 7]) -> (score: HandScore)
    requires
        indexable(cards@),
    ensures
        score.0 == seven_card_score(cards@),
{
    let ghost cs = cards@;
    let mut rank_counts = [0u8; 15];
    let mut suit_counts = [0u8; 4];
    let mut suit_rank_mask = [0u16; 4];  // bitmask of ranks present per suit

    let mut i: usize = 0;
    assert forall|s: int, r: int| 0 <= s < 4 && 0 <= r < 16 implies #[trigger] has_rank(
        suit_rank_mask[s],
        r,
    ) == (suited_count(cs.take(0), r, s) > 0) by {
        lemma_empty_mask(r as u16);
    }
    while i < 7
        invariant
            0 <= i <= 7,
            cs == cards@,
            indexable(cs),
            forall|r: int| 0 <= r < 15 ==> #[trigger] rank_counts[r] == rank_count(cs.take(i as int), r),
            forall|s: int| 0 <= s < 4 ==> #[trigger] suit_counts[s] == suit_count(cs.take(i as int), s),
            forall|s: int, r: int|
                0 <= s < 4 && 0 <= r < 16 ==> #[trigger] has_rank(suit_rank_mask[s], r) == (
                suited_count(cs.take(i as int), r, s) > 0),
        decreases 7 - i,
    {
        let c = cards[i];
        let r = c.rank.0 as usize;
        let s = c.suit.0 as usize;
        proof {
            assert(cs[i as int].rank.0 <= 14);
            let t = cs.take(i + 1);
            assert(t.drop_last() =~= cs.take(i as int));
            assert(t.last() == c);
            lemma_counts_bounded(cs.take(i as int), r as int, s as int);
            assert forall|s2: int, r2: int| 0 <= s2 < 4 && 0 <= r2 < 16 implies has_rank(
                (if s2 == s {
                    suit_rank_mask[s2] | (1u16 << (r as u16))
                } else {
                    suit_rank_mask[s2]
                }),
                r2,
            ) == (suited_count(t, r2, s2) > 0) by {
                assert(has_rank(suit_rank_mask[s2], r2) == (suited_count(cs.take(i as int), r2, s2)
                    > 0));
                lemma_set_bit(suit_rank_mask[s2], r as u16, r2 as u16);
            }
        }
        rank_counts[r] = rank_counts[r] + 1;
        suit_counts[s] = suit_counts[s] + 1;
        suit_rank_mask[s] = suit_rank_mask[s] | (1u16 << (r as u16));
        i = i + 1;
    }
    assert(cs.take(7) =~= cs);

    // Check flush (any suit with >= 5 cards)
    let flush_suit = if suit_counts[0] >= 5 {
        Some(0usize)
    } else if suit_counts[1] >= 5 {
        Some(1)
    } else if suit_counts[2] >= 5 {
        Some(2)
    } else if suit_counts[3] >= 5 {
        Some(3)
    } else {
        None
    };

    if let Some(fs) = flush_suit {
        let fmask = suit_rank_mask[fs];
        assert(mask_ranks(fmask) =~= suit_ranks(cs, fs as int));
        let sf_high = straight_high_from_mask(fmask);
        if sf_high > 0 {
            return pack(STRAIGHT_FLUSH, sf_high as u64, 0, 0, 0, 0);
        }
        let fr = top5_from_mask(fmask);
        return pack(FLUSH, fr[0] as u64, fr[1] as u64, fr[2] as u64, fr[3] as u64, fr[4] as u64);
    }

    assert(first_flush_suit(cs) == -1);
    // Build groups iterating descending (highest rank first)
    // With 7 cards: max 1 quad, 2 trips, 3 pairs, 7 singles
    let ghost p4 = rank_is(cs, 4);
    let ghost p3 = rank_is(cs, 3);
    let ghost p2 = rank_is(cs, 2);
    let ghost p1 = rank_is(cs, 1);
    let mut quads = [0u8; 1];
    let mut qlen = 0usize;
    let mut trips = [0u8; 2];
    let mut tlen = 0usize;
    let mut pairs = [0u8; 3];
    let mut plen = 0usize;
    let mut singles = [0u8; 7];
    let mut slen = 0usize;

    proof {
        lemma_count_sum_total(cs);
        lemma_collect_start(quads@, p4);
        lemma_collect_start(trips@, p3);
        lemma_collect_start(pairs@, p2);
        lemma_collect_start(singles@, p1);
    }
    let mut r: u8 = 14;
    while r >= 2
        invariant
            1 <= r <= 14,
            p4 == rank_is(cs, 4),
            p3 == rank_is(cs, 3),
            p2 == rank_is(cs, 2),
            p1 == rank_is(cs, 1),
            forall|q: int| 0 <= q < 15 ==> #[trigger] rank_counts[q] == rank_count(cs, q),
            count_sum(cs, 0, 14) == 7,
            collected(quads@, qlen as int, p4, r as int),
            collected(trips@, tlen as int, p3, r as int),
            collected(pairs@, plen as int, p2, r as int),
            collected(singles@, slen as int, p1, r as int),
            4 * qlen + 3 * tlen + 2 * plen + slen <= count_sum(cs, r + 1, 14),
        decreases r,
    {
        let cnt = rank_counts[r as usize];
        proof {
            lemma_count_sum_suffix(cs, r as int);
            assert(count_sum(cs, r as int, 14) == rank_count(cs, r as int) + count_sum(cs, r + 1, 14));
        }
        if cnt == 4 {
            proof {
                lemma_collect_take(quads@, qlen as int, p4, r as int);
                lemma_collect_skip(trips@, tlen as int, p3, r as int);
                lemma_collect_skip(pairs@, plen as int, p2, r as int);
                lemma_collect_skip(singles@, slen as int, p1, r as int);
            }
            quads[qlen] = r;
            qlen = qlen + 1;
        } else if cnt == 3 {
            proof {
                lemma_collect_skip(quads@, qlen as int, p4, r as int);
                lemma_collect_take(trips@, tlen as int, p3, r as int);
                lemma_collect_skip(pairs@, plen as int, p2, r as int);
                lemma_collect_skip(singles@, slen as int, p1, r as int);
            }
            trips[tlen] = r;
            tlen = tlen + 1;
        } else if cnt == 2 {
            proof {
                lemma_collect_skip(quads@, qlen as int, p4, r as int);
                lemma_collect_skip(trips@, tlen as int, p3, r as int);
                lemma_collect_take(pairs@, plen as int, p2, r as int);
                lemma_collect_skip(singles@, slen as int, p1, r as int);
            }
            pairs[plen] = r;
            plen = plen + 1;
        } else if cnt == 1 {
            proof {
                lemma_collect_skip(quads@, qlen as int, p4, r as int);
                lemma_collect_skip(trips@, tlen as int, p3, r as int);
                lemma_collect_skip(pairs@, plen as int, p2, r as int);
                lemma_collect_take(singles@, slen as int, p1, r as int);
            }
            singles[slen] = r;
            slen = slen + 1;
        } else {
            proof {
                lemma_collect_skip(quads@, qlen as int, p4, r as int);
                lemma_collect_skip(trips@, tlen as int, p3, r as int);
                lemma_collect_skip(pairs@, plen as int, p2, r as int);
                lemma_collect_skip(singles@, slen as int, p1, r as int);
            }
        }
        r = r - 1;
    }
    proof {
        lemma_collect_done(quads@, qlen as int, p4);
        lemma_collect_done(trips@, tlen as int, p3);
        lemma_collect_done(pairs@, plen as int, p2);
        lemma_collect_done(singles@, slen as int, p1);
    }

    assert(quads[0] == nth_highest(p4, 14, 0) && (quads[0] != 0 <==> 0 < qlen));
    assert(trips[0] == nth_highest(p3, 14, 0) && (trips[0] != 0 <==> 0 < tlen));
    assert(trips[1] == nth_highest(p3, 14, 1) && (trips[1] != 0 <==> 1 < tlen));
    assert(pairs[0] == nth_highest(p2, 14, 0) && (pairs[0] != 0 <==> 0 < plen));
    assert(pairs[1] == nth_highest(p2, 14, 1) && (pairs[1] != 0 <==> 1 < plen));
    assert(pairs[2] == nth_highest(p2, 14, 2) && (pairs[2] != 0 <==> 2 < plen));
    assert(singles[0] == nth_highest(p1, 14, 0) && (singles[0] != 0 <==> 0 < slen));
    assert(singles[1] == nth_highest(p1, 14, 1) && (singles[1] != 0 <==> 1 < slen));
    assert(singles[2] == nth_highest(p1, 14, 2) && (singles[2] != 0 <==> 2 < slen));
    assert(singles[3] == nth_highest(p1, 14, 3));
    assert(singles[4] == nth_highest(p1, 14, 4));
    if qlen > 0 {
        // Kicker: highest rank not in the quad
        let t = if tlen > 0 { trips[0] } else { 0 };
        let p = if plen > 0 { pairs[0] } else { 0 };
        let s = if slen > 0 { singles[0] } else { 0 };
        let kicker = max_u8(max_u8(t, p), s);
        return pack(FOUR_OF_A_KIND, quads[0] as u64, kicker as u64, 0, 0, 0);
    }

    if tlen > 0 && (tlen > 1 || plen > 0) {
        // Full house: best trips + best available pair
        let pair_rank = if tlen > 1 { trips[1] } else { pairs[0] };
        return pack(FULL_HOUSE, trips[0] as u64, pair_rank as u64, 0, 0, 0);
    }

    // Straight check via rank bitmask
    let mut rank_mask = 0u16;
    let mut r: u8 = 2;
    assert forall|q: int| 0 <= q < 16 implies #[trigger] has_rank(rank_mask, q) == (2 <= q < r
        && rank_count(cs, q) > 0) by {
        lemma_empty_mask(q as u16);
    }
    while r <= 14
        invariant
            2 <= r <= 15,
            forall|q: int| 0 <= q < 15 ==> #[trigger] rank_counts[q] == rank_count(cs, q),
            forall|q: int|
                0 <= q < 16 ==> #[trigger] has_rank(rank_mask, q) == (2 <= q < r && rank_count(cs, q)
                    > 0),
        decreases 15 - r,
    {
        proof {
            assert forall|q: int| 0 <= q < 16 implies #[trigger] has_rank(
                rank_mask | (1u16 << (r as u16)),
                q,
            ) == (has_rank(rank_mask, q) || q == r) by {
                lemma_set_bit(rank_mask, r as u16, q as u16);
            }
        }
        if rank_counts[r as usize] > 0 {
            rank_mask = rank_mask | (1u16 << (r as u16));
        }
        r = r + 1;
    }
    assert(mask_ranks(rank_mask) =~= present_ranks(cs));
    let sh = straight_high_from_mask(rank_mask);
    if sh > 0 {
        return pack(STRAIGHT, sh as u64, 0, 0, 0, 0);
    }

    if tlen > 0 {
        // No full house, so the remaining four cards are all singles
        let k1 = if slen > 0 { singles[0] } else { 0 };
        let k2 = if slen > 1 { singles[1] } else { 0 };
        return pack(THREE_OF_A_KIND, trips[0] as u64, k1 as u64, k2 as u64, 0, 0);
    }

    if plen >= 2 {
        // Kicker: best rank not used by the top two pairs
        let from_third_pair = if plen >= 3 { pairs[2] } else { 0 };
        let from_singles = if slen > 0 { singles[0] } else { 0 };
        let kicker = max_u8(from_third_pair, from_singles);
        return pack(TWO_PAIR, pairs[0] as u64, pairs[1] as u64, kicker as u64, 0, 0);
    }

    if plen == 1 {
        let k1 = if slen > 0 { singles[0] } else { 0 };
        let k2 = if slen > 1 { singles[1] } else { 0 };
        let k3 = if slen > 2 { singles[2] } else { 0 };
        return pack(ONE_PAIR, pairs[0] as u64, k1 as u64, k2 as u64, k3 as u64, 0);
    }

    // High card: top 5 of the singles
    pack(
        HIGH_CARD,
        singles[0] as u64,
        singles[1] as u64,
        singles[2] as u64,
        singles[3] as u64,
        singles[4] as u64,
    )
}


// ---------------------------------------------------------------------------
// Laws
// ---------------------------------------------------------------------------

/// The six components of a packed score, each in 0..256.
pub open spec fn bytes_ok(c: int, t1: int, t2: int, t3: int, t4: int, t5: int) -> bool {
    0 <= c < 256 && 0 <= t1 < 256 && 0 <= t2 < 256 && 0 <= t3 < 256 && 0 <= t4 < 256 && 0 <= t5 < 256
}

/// Lexicographic order on (category, tiebreaker 1, ..., tiebreaker 5).
pub open spec fn lex_less(a: (int, int, int, int, int, int), b: (int, int, int, int, int, int)) -> bool {
    a.0 < b.0 || (a.0 == b.0 && (a.1 < b.1 || (a.1 == b.1 && (a.2 < b.2 || (a.2 == b.2 && (a.3
        < b.3 || (a.3 == b.3 && (a.4 < b.4 || (a.4 == b.4 && a.5 < b.5)))))))))
}

proof fn lemma_digit_order(xh: int, xl: int, yh: int, yl: int, base: int)
    requires
        0 <= xl < base,
        0 <= yl < base,
    ensures
        xh * base + xl < yh * base + yl <==> (xh < yh || (xh == yh && xl < yl)),
        xh * base + xl == yh * base + yl <==> (xh == yh && xl == yl),
{
    if xh < yh {
        assert(xh * base + xl < yh * base + yl) by (nonlinear_arith)
            requires
                xh < yh,
                0 <= xl < base,
                0 <= yl,
        ;
    } else if xh > yh {
        assert(xh * base + xl > yh * base + yl) by (nonlinear_arith)
            requires
                xh > yh,
                0 <= yl < base,
                0 <= xl,
        ;
    }
}

/// Scores compare as their (category, tiebreakers) tuples do, so the higher
/// category always wins and the tiebreakers decide in order within one.
pub proof fn lemma_packed_order(a: (int, int, int, int, int, int), b: (int, int, int, int, int, int))
    requires
        bytes_ok(a.0, a.1, a.2, a.3, a.4, a.5),
        bytes_ok(b.0, b.1, b.2, b.3, b.4, b.5),
    ensures
        packed(a.0, a.1, a.2, a.3, a.4, a.5) < packed(b.0, b.1, b.2, b.3, b.4, b.5) <==> lex_less(a, b),
        packed(a.0, a.1, a.2, a.3, a.4, a.5) == packed(b.0, b.1, b.2, b.3, b.4, b.5) <==> a == b,
{
    let xa4 = a.4 * 0x100 + a.5;
    let xb4 = b.4 * 0x100 + b.5;
    lemma_digit_order(a.4, a.5, b.4, b.5, 0x100);
    let xa3 = a.3 * 0x1_0000 + xa4;
    let xb3 = b.3 * 0x1_0000 + xb4;
    lemma_digit_order(a.3, xa4, b.3, xb4, 0x1_0000);
    let xa2 = a.2 * 0x100_0000 + xa3;
    let xb2 = b.2 * 0x100_0000 + xb3;
    lemma_digit_order(a.2, xa3, b.2, xb3, 0x100_0000);
    let xa1 = a.1 * 0x1_0000_0000 + xa2;
    let xb1 = b.1 * 0x1_0000_0000 + xb2;
    lemma_digit_order(a.1, xa2, b.1, xb2, 0x1_0000_0000);
    lemma_digit_order(a.0, xa1, b.0, xb1, 0x100_0000_0000);
    assert(packed(a.0, a.1, a.2, a.3, a.4, a.5) == a.0 * 0x100_0000_0000 + xa1);
    assert(packed(b.0, b.1, b.2, b.3, b.4, b.5) == b.0 * 0x100_0000_0000 + xb1);
}

/// The bytes of a packed score hold its parts: bits 47..40 the category,
/// then the tiebreakers in order down to bits 7..0.
pub proof fn lemma_packed_bytes(cat: u64, t1: u64, t2: u64, t3: u64, t4: u64, t5: u64)
    requires
        cat < 256,
        t1 < 256,
        t2 < 256,
        t3 < 256,
        t4 < 256,
        t5 < 256,
    ensures
        0 <= packed(cat as int, t1 as int, t2 as int, t3 as int, t4 as int, t5 as int)
            < 0x1_0000_0000_0000,
        ({
            let x = packed(cat as int, t1 as int, t2 as int, t3 as int, t4 as int, t5 as int) as u64;
            &&& x >> 40u64 == cat
            &&& (x >> 32u64) & 0xff == t1
            &&& (x >> 24u64) & 0xff == t2
            &&& (x >> 16u64) & 0xff == t3
            &&& (x >> 8u64) & 0xff == t4
            &&& x & 0xff == t5
        }),
{
    lemma_pack_bits(cat, t1, t2, t3, t4, t5);
    let x = (cat << 40u64) | (t1 << 32u64) | (t2 << 24u64) | (t3 << 16u64) | (t4 << 8u64) | t5;
    assert(x >> 40u64 == cat && (x >> 32u64) & 0xff == t1 && (x >> 24u64) & 0xff == t2 && (x
        >> 16u64) & 0xff == t3 && (x >> 8u64) & 0xff == t4 && x & 0xff == t5 && x < 0x1_0000_0000_0000)
        by (bit_vector)
        requires
            cat < 256,
            t1 < 256,
            t2 < 256,
            t3 < 256,
            t4 < 256,
            t5 < 256,
            x == (cat << 40u64) | (t1 << 32u64) | (t2 << 24u64) | (t3 << 16u64) | (t4 << 8u64) | t5,
    ;
}

/// A tiebreaker byte: no rank (0) or a rank in 2..=14.
pub open spec fn rank_byte(t: int) -> bool {
    t == 0 || 2 <= t <= 14
}

/// A score below 2^44 whose category byte is at most 8 and whose five
/// tiebreaker bytes are each 0 or a rank in 2..=14.
pub open spec fn score_bytes_ok(v: int) -> bool {
    let x = v as u64;
    &&& 0 <= v < 0x1000_0000_0000
    &&& x >> 40u64 <= 8
    &&& rank_byte(((x >> 32u64) & 0xff) as int)
    &&& rank_byte(((x >> 24u64) & 0xff) as int)
    &&& rank_byte(((x >> 16u64) & 0xff) as int)
    &&& rank_byte(((x >> 8u64) & 0xff) as int)
    &&& rank_byte((x & 0xff) as int)
}

proof fn lemma_packed_shape(c: int, t1: int, t2: int, t3: int, t4: int, t5: int)
    requires
        0 <= c <= 8,
        rank_byte(t1),
        rank_byte(t2),
        rank_byte(t3),
        rank_byte(t4),
        rank_byte(t5),
    ensures
        score_bytes_ok(packed(c, t1, t2, t3, t4, t5)),
{
    lemma_packed_bytes(c as u64, t1 as u64, t2 as u64, t3 as u64, t4 as u64, t5 as u64);
    assert(packed(c, t1, t2, t3, t4, t5) < 0x1000_0000_0000);
}

proof fn lemma_rank_bytes_of(p: spec_fn(int) -> bool)
    ensures
        rank_byte(nth_highest(p, 14, 0)),
        rank_byte(nth_highest(p, 14, 1)),
        rank_byte(nth_highest(p, 14, 2)),
        rank_byte(nth_highest(p, 14, 3)),
        rank_byte(nth_highest(p, 14, 4)),
        rank_byte(straight_high_of(p)),
{
    lemma_nth_range(p, 14, 0);
    lemma_nth_range(p, 14, 1);
    lemma_nth_range(p, 14, 2);
    lemma_nth_range(p, 14, 3);
    lemma_nth_range(p, 14, 4);
    lemma_run_range(with_low_ace(p), 14);
}

/// Every score has a category of at most 8 in bits 47..40 and five
/// tiebreakers below it that are each 0 or a rank in 2..=14; all lie below
/// 2^44.
pub proof fn lemma_score_bytes(cards: Seq<Card>)
    ensures
        score_bytes_ok(five_card_score(cards)),
        score_bytes_ok(seven_card_score(cards)),
{
    lemma_rank_bytes_of(present_ranks(cards));
    lemma_rank_bytes_of(rank_is(cards, 4));
    lemma_rank_bytes_of(rank_is(cards, 3));
    lemma_rank_bytes_of(rank_is(cards, 2));
    lemma_rank_bytes_of(rank_is(cards, 1));
    lemma_rank_bytes_of(suit_ranks(cards, first_flush_suit(cards)));
    assert forall|c: int, t1: int, t2: int, t3: int, t4: int, t5: int|
        #![trigger packed(c, t1, t2, t3, t4, t5)]
        0 <= c <= 8 && rank_byte(t1) && rank_byte(t2) && rank_byte(t3) && rank_byte(t4)
            && rank_byte(t5) implies score_bytes_ok(packed(c, t1, t2, t3, t4, t5)) by {
        lemma_packed_shape(c, t1, t2, t3, t4, t5);
    }
}

} // verus!
