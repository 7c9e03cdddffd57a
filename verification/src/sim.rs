use vstd::prelude::*;

use crate::best_hand::distinct_valid;
use crate::card::{
    deck_card, full_deck, holds, lemma_deck_card_complete, lemma_deck_card_injective,
    lemma_deck_card_valid, valid_card, Card,
};
use crate::eval::{eval_7, indexable, seven_card_score};

verus! {

/// Outcome counts of an exhaustive enumeration of boards.
pub struct SimResult {
    pub wins1: u64,
    pub wins2: u64,
    pub ties: u64,
    pub total: u64,
}

// ---------------------------------------------------------------------------
// The enumeration model
// ---------------------------------------------------------------------------

/// The first `k` cards of the full deck, less those in `hole`.
pub open spec fn deck_without(hole: Seq<Card>, k: int) -> Seq<Card>
    decreases k,
{
    if k <= 0 {
        seq![]
    } else {
        let prev = deck_without(hole, k - 1);
        if hole.contains(deck_card(k - 1)) {
            prev
        } else {
            prev.push(deck_card(k - 1))
        }
    }
}

/// The cards left for the board once the four hole cards are dealt.
pub open spec fn board_deck(hand1: Seq<Card>, hand2: Seq<Card>) -> Seq<Card> {
    deck_without(seq![hand1[0], hand1[1], hand2[0], hand2[1]], 52)
}

/// `f(lo) + f(lo + 1) + ... + f(hi - 1)`.
pub open spec fn sum_range(f: spec_fn(int) -> nat, lo: int, hi: int) -> nat
    decreases hi - lo,
{
    if hi <= lo {
        0
    } else {
        sum_range(f, lo, hi - 1) + f(hi - 1)
    }
}

/// A hand's seven cards with the board `d[a], d[b], d[c], d[e], d[f]`.
pub open spec fn with_board(h: Seq<Card>, d: Seq<Card>, a: int, b: int, c: int, e: int, f: int) -> Seq<Card> {
    seq![h[0], h[1], d[a], d[b], d[c], d[e], d[f]]
}

/// 1 when the first hand scores higher on the board, -1 when the second
/// does, 0 on a tie.
pub open spec fn showdown(h1: Seq<Card>, h2: Seq<Card>, d: Seq<Card>, a: int, b: int, c: int, e: int, f: int) -> int {
    let s1 = seven_card_score(with_board(h1, d, a, b, c, e, f));
    let s2 = seven_card_score(with_board(h2, d, a, b, c, e, f));
    if s1 > s2 {
        1
    } else if s1 < s2 {
        -1
    } else {
        0
    }
}

/// Whether an outcome counts for the tally `sel`: 1, -1 and 0 count wins
/// of the first hand, wins of the second and ties; 2 counts every board.
pub open spec fn counted(sel: int, outcome: int) -> nat {
    if sel == 2 || sel == outcome {
        1
    } else {
        0
    }
}

pub open spec fn tally5(h1: Seq<Card>, h2: Seq<Card>, d: Seq<Card>, sel: int, a: int, b: int, c: int, e: int) -> spec_fn(int) -> nat {
    |f: int| counted(sel, showdown(h1, h2, d, a, b, c, e, f))
}

pub open spec fn tally4(h1: Seq<Card>, h2: Seq<Card>, d: Seq<Card>, sel: int, a: int, b: int, c: int) -> spec_fn(int) -> nat {
    |e: int| sum_range(tally5(h1, h2, d, sel, a, b, c, e), e + 1, d.len() as int)
}

pub open spec fn tally3(h1: Seq<Card>, h2: Seq<Card>, d: Seq<Card>, sel: int, a: int, b: int) -> spec_fn(int) -> nat {
    |c: int| sum_range(tally4(h1, h2, d, sel, a, b, c), c + 1, d.len() - 1)
}

pub open spec fn tally2(h1: Seq<Card>, h2: Seq<Card>, d: Seq<Card>, sel: int, a: int) -> spec_fn(int) -> nat {
    |b: int| sum_range(tally3(h1, h2, d, sel, a, b), b + 1, d.len() - 2)
}

pub open spec fn tally1(h1: Seq<Card>, h2: Seq<Card>, d: Seq<Card>, sel: int) -> spec_fn(int) -> nat {
    |a: int| sum_range(tally2(h1, h2, d, sel, a), a + 1, d.len() - 3)
}

/// The number of boards `d[a] d[b] d[c] d[e] d[f]` with `a < b < c < e < f`
/// that count for `sel`.
pub open spec fn board_tally(h1: Seq<Card>, h2: Seq<Card>, d: Seq<Card>, sel: int) -> nat {
    sum_range(tally1(h1, h2, d, sel), 0, d.len() - 4)
}

/// The boards enumerated before position (i0, i1, i2, i3, i4) that count
/// for `sel`.
pub open spec fn done1(h1: Seq<Card>, h2: Seq<Card>, d: Seq<Card>, sel: int, i0: int) -> nat {
    sum_range(tally1(h1, h2, d, sel), 0, i0)
}

pub open spec fn done2(h1: Seq<Card>, h2: Seq<Card>, d: Seq<Card>, sel: int, i0: int, i1: int) -> nat {
    done1(h1, h2, d, sel, i0) + sum_range(tally2(h1, h2, d, sel, i0), i0 + 1, i1)
}

pub open spec fn done3(h1: Seq<Card>, h2: Seq<Card>, d: Seq<Card>, sel: int, i0: int, i1: int, i2: int) -> nat {
    done2(h1, h2, d, sel, i0, i1) + sum_range(tally3(h1, h2, d, sel, i0, i1), i1 + 1, i2)
}

pub open spec fn done4(h1: Seq<Card>, h2: Seq<Card>, d: Seq<Card>, sel: int, i0: int, i1: int, i2: int, i3: int) -> nat {
    done3(h1, h2, d, sel, i0, i1, i2) + sum_range(tally4(h1, h2, d, sel, i0, i1, i2), i2 + 1, i3)
}

pub open spec fn done5(h1: Seq<Card>, h2: Seq<Card>, d: Seq<Card>, sel: int, i0: int, i1: int, i2: int, i3: int, i4: int) -> nat {
    done4(h1, h2, d, sel, i0, i1, i2, i3) + sum_range(tally5(h1, h2, d, sel, i0, i1, i2, i3), i3 + 1, i4)
}

// ---------------------------------------------------------------------------
// The deck left for the board
// ---------------------------------------------------------------------------

/// How many of the first `k` deck cards are in `hole`.
pub open spec fn removed(hole: Seq<Card>, k: int) -> nat
    decreases k,
{
    if k <= 0 {
        0
    } else {
        removed(hole, k - 1) + if hole.contains(deck_card(k - 1)) { 1nat } else { 0nat }
    }
}

/// How many of the first `k` deck cards equal `x`.
pub open spec fn deck_matches(x: Card, k: int) -> nat
    decreases k,
{
    if k <= 0 {
        0
    } else {
        deck_matches(x, k - 1) + if deck_card(k - 1) == x { 1nat } else { 0nat }
    }
}

proof fn lemma_deck_matches_at_most_one(x: Card, k: int)
    requires
        k <= 52,
    ensures
        deck_matches(x, k) <= 1,
        deck_matches(x, k) == 1 ==> exists|j: int| 0 <= j < k && deck_card(j) == x,
    decreases k,
{
    if k > 0 {
        lemma_deck_matches_at_most_one(x, k - 1);
        if deck_card(k - 1) == x && deck_matches(x, k - 1) == 1 {
            let j = choose|j: int| 0 <= j < k - 1 && deck_card(j) == x;
            lemma_deck_card_injective(j, k - 1);
        }
    }
}

proof fn lemma_removed_by_matches(hole: Seq<Card>, k: int)
    requires
        hole.len() == 4,
    ensures
        removed(hole, k) <= deck_matches(hole[0], k) + deck_matches(hole[1], k) + deck_matches(
            hole[2],
            k,
        ) + deck_matches(hole[3], k),
    decreases k,
{
    if k > 0 {
        lemma_removed_by_matches(hole, k - 1);
        if hole.contains(deck_card(k - 1)) {
            let t = choose|t: int| 0 <= t < hole.len() && hole[t] == deck_card(k - 1);
            assert(t == 0 || t == 1 || t == 2 || t == 3);
        }
    }
}

/// The deck left after taking out the hole cards: valid cards, and at least
/// `k - 4` of the first `k`.
pub(crate) proof fn lemma_deck_without(hole: Seq<Card>, k: int)
    requires
        hole.len() == 4,
        0 <= k <= 52,
    ensures
        deck_without(hole, k).len() + removed(hole, k) == k,
        deck_without(hole, k).len() >= k - 4,
        forall|i: int| 0 <= i < deck_without(hole, k).len() ==> valid_card(#[trigger] deck_without(hole, k)[i]),
        forall|i: int| 0 <= i < deck_without(hole, k).len() ==> !hole.contains(#[trigger] deck_without(hole, k)[i]),
    decreases k,
{
    if k > 0 {
        lemma_deck_without(hole, k - 1);
        lemma_deck_card_valid(k - 1);
    }
    lemma_removed_by_matches(hole, k);
    lemma_deck_matches_at_most_one(hole[0], k);
    lemma_deck_matches_at_most_one(hole[1], k);
    lemma_deck_matches_at_most_one(hole[2], k);
    lemma_deck_matches_at_most_one(hole[3], k);
}

// ---------------------------------------------------------------------------
// Bounds on the tallies
// ---------------------------------------------------------------------------

proof fn lemma_sum_bound(f: spec_fn(int) -> nat, lo: int, hi: int, bound: nat)
    requires
        0 <= lo,
        hi <= 52,
        forall|x: int| lo <= x < hi ==> #[trigger] f(x) <= bound,
    ensures
        sum_range(f, lo, hi) <= bound * 52,
{
    lemma_sum_bound_len(f, lo, hi, bound);
    if hi > lo {
        assert(bound * (hi - lo) <= bound * 52) by (nonlinear_arith)
            requires
                hi - lo <= 52,
                bound >= 0,
        ;
    }
}

proof fn lemma_sum_bound_len(f: spec_fn(int) -> nat, lo: int, hi: int, bound: nat)
    requires
        forall|x: int| lo <= x < hi ==> #[trigger] f(x) <= bound,
    ensures
        hi <= lo ==> sum_range(f, lo, hi) == 0,
        hi > lo ==> sum_range(f, lo, hi) <= bound * (hi - lo),
    decreases hi - lo,
{
    if hi > lo {
        lemma_sum_bound_len(f, lo, hi - 1, bound);
        assert(f(hi - 1) <= bound);
        assert(bound * (hi - 1 - lo) + bound == bound * (hi - lo)) by (nonlinear_arith);
    }
}

proof fn lemma_tally_bounds(h1: Seq<Card>, h2: Seq<Card>, d: Seq<Card>, sel: int)
    requires
        d.len() <= 52,
    ensures
        forall|a: int, b: int, c: int, e: int, f: int|
            #[trigger] tally5(h1, h2, d, sel, a, b, c, e)(f) <= 1,
        forall|a: int, b: int, c: int, e: int|
            e >= 0 ==> #[trigger] tally4(h1, h2, d, sel, a, b, c)(e) <= 52,
        forall|a: int, b: int, c: int| c >= 0 ==> #[trigger] tally3(h1, h2, d, sel, a, b)(c) <= 2704,
        forall|a: int, b: int| b >= 0 ==> #[trigger] tally2(h1, h2, d, sel, a)(b) <= 140608,
        forall|a: int| a >= 0 ==> #[trigger] tally1(h1, h2, d, sel)(a) <= 7311616,
{
    let n = d.len() as int;
    assert forall|a: int, b: int, c: int, e: int|
        e >= 0 implies #[trigger] tally4(h1, h2, d, sel, a, b, c)(e) <= 52 by {
        lemma_sum_bound(tally5(h1, h2, d, sel, a, b, c, e), e + 1, n, 1);
    }
    assert forall|a: int, b: int, c: int| c >= 0 implies #[trigger] tally3(h1, h2, d, sel, a, b)(c)
        <= 2704 by {
        lemma_sum_bound(tally4(h1, h2, d, sel, a, b, c), c + 1, n - 1, 52);
    }
    assert forall|a: int, b: int| b >= 0 implies #[trigger] tally2(h1, h2, d, sel, a)(b)
        <= 140608 by {
        lemma_sum_bound(tally3(h1, h2, d, sel, a, b), b + 1, n - 2, 2704);
    }
    assert forall|a: int| a >= 0 implies #[trigger] tally1(h1, h2, d, sel)(a) <= 7311616 by {
        lemma_sum_bound(tally2(h1, h2, d, sel, a), a + 1, n - 3, 140608);
    }
}

/// No tally at any point of the enumeration exceeds 400,000,000.
proof fn lemma_done_bound(
    h1: Seq<Card>,
    h2: Seq<Card>,
    d: Seq<Card>,
    sel: int,
    i0: int,
    i1: int,
    i2: int,
    i3: int,
    i4: int,
)
    requires
        d.len() <= 52,
        0 <= i0 <= i1 <= i2 <= i3 <= i4 <= 52,
    ensures
        done5(h1, h2, d, sel, i0, i1, i2, i3, i4) <= 400_000_000,
{
    lemma_tally_bounds(h1, h2, d, sel);
    lemma_sum_bound(tally1(h1, h2, d, sel), 0, i0, 7311616);
    lemma_sum_bound(tally2(h1, h2, d, sel, i0), i0 + 1, i1, 140608);
    lemma_sum_bound(tally3(h1, h2, d, sel, i0, i1), i1 + 1, i2, 2704);
    lemma_sum_bound(tally4(h1, h2, d, sel, i0, i1, i2), i2 + 1, i3, 52);
    lemma_sum_bound(tally5(h1, h2, d, sel, i0, i1, i2, i3), i3 + 1, i4, 1);
}

proof fn lemma_done_step(
    h1: Seq<Card>,
    h2: Seq<Card>,
    d: Seq<Card>,
    sel: int,
    a: int,
    b: int,
    c: int,
    e: int,
    f: int,
)
    requires
        e + 1 <= f,
    ensures
        done5(h1, h2, d, sel, a, b, c, e, f + 1) == done5(h1, h2, d, sel, a, b, c, e, f) + counted(
            sel,
            showdown(h1, h2, d, a, b, c, e, f),
        ),
{
}

proof fn lemma_with_board_indexable(h: Seq<Card>, d: Seq<Card>, a: int, b: int, c: int, e: int, f: int)
    requires
        indexable(h),
        h.len() == 2,
        0 <= a < d.len(),
        0 <= b < d.len(),
        0 <= c < d.len(),
        0 <= e < d.len(),
        0 <= f < d.len(),
        forall|i: int| 0 <= i < d.len() ==> valid_card(#[trigger] d[i]),
    ensures
        indexable(with_board(h, d, a, b, c, e, f)),
{
    assert(valid_card(d[a]) && valid_card(d[b]) && valid_card(d[c]) && valid_card(d[e]) && valid_card(
        d[f],
    ));
    assert(h[0].rank.0 <= 14 && h[1].rank.0 <= 14);
}

// ---------------------------------------------------------------------------
// The simulation
// ---------------------------------------------------------------------------

/// The four tallies at a point of the enumeration.
pub open spec fn tallies_are(
    r: (u64, u64, u64, u64),
    v: (nat, nat, nat, nat),
) -> bool {
    r.0 == v.0 && r.1 == v.1 && r.2 == v.2 && r.3 == v.3 && r.0 + r.1 + r.2 == r.3
}

/// Exhaustive enumeration of all 5-card boards from the cards left once
/// both hands are dealt: C(48,5) = 1,712,304 boards for four distinct cards.
pub fn run_simulation(hand1: [Card; 2], hand2: [Card; 2]) -> (res: SimResult)
    requires
        indexable(hand1@),
        indexable(hand2@),
    ensures
        res.wins1 == board_tally(hand1@, hand2@, board_deck(hand1@, hand2@), 1),
        res.wins2 == board_tally(hand1@, hand2@, board_deck(hand1@, hand2@), -1),
        res.ties == board_tally(hand1@, hand2@, board_deck(hand1@, hand2@), 0),
        res.total == board_tally(hand1@, hand2@, board_deck(hand1@, hand2@), 2),
        res.wins1 + res.wins2 + res.ties == res.total,
{
    let ghost h1 = hand1@;
    let ghost h2 = hand2@;
    // Build deck minus the 4 hole cards
    let hole_cards = [hand1[0], hand1[1], hand2[0], hand2[1]];
    let ghost hole = hole_cards@;
    assert(hole =~= seq![h1[0], h1[1], h2[0], h2[1]]);
    let full = full_deck();
    let mut deck: Vec<Card> = Vec::new();
    let mut k: usize = 0;
    while k < full.len()
        invariant
            0 <= k <= 52,
            full@.len() == 52,
            forall|j: int| 0 <= j < 52 ==> #[trigger] full@[j] == deck_card(j),
            hole == hole_cards@,
            deck@ == deck_without(hole, k as int),
        decreases 52 - k,
    {
        if !holds(hole_cards.as_slice(), full[k]) {
            deck.push(full[k]);
        }
        k = k + 1;
    }
    let ghost d = deck@;
    proof {
        lemma_deck_without(hole, 52);
    }
    assert(d == board_deck(h1, h2));

    let n = deck.len();  // 48 for four distinct hole cards
    let mut wins1: u64 = 0;
    let mut wins2: u64 = 0;
    let mut ties: u64 = 0;
    let mut total: u64 = 0;

    let mut i0: usize = 0;
    while i0 < n - 4
        invariant
            h1 == hand1@,
            h2 == hand2@,
            indexable(h1),
            indexable(h2),
            d == deck@,
            n == d.len(),
            48 <= n <= 52,
            forall|i: int| 0 <= i < d.len() ==> valid_card(#[trigger] d[i]),
            0 <= i0 <= n - 4,
            tallies_are(
                (wins1, wins2, ties, total),
                (done1(h1, h2, d, 1, i0 as int), done1(h1, h2, d, -1, i0 as int), done1(h1, h2, d, 0, i0 as int), done1(h1, h2, d, 2, i0 as int)),
            ),
        decreases n - 4 - i0,
    {
        let mut i1: usize = i0 + 1;
        while i1 < n - 3
            invariant
                h1 == hand1@,
                h2 == hand2@,
                indexable(h1),
                indexable(h2),
                d == deck@,
                n == d.len(),
                48 <= n <= 52,
                forall|i: int| 0 <= i < d.len() ==> valid_card(#[trigger] d[i]),
                0 <= i0 < n - 4,
                i0 + 1 <= i1 <= n - 3,
                tallies_are(
                    (wins1, wins2, ties, total),
                    (done2(h1, h2, d, 1, i0 as int, i1 as int), done2(h1, h2, d, -1, i0 as int, i1 as int), done2(h1, h2, d, 0, i0 as int, i1 as int), done2(h1, h2, d, 2, i0 as int, i1 as int)),
                ),
            decreases n - 3 - i1,
        {
            let mut i2: usize = i1 + 1;
            while i2 < n - 2
                invariant
                    h1 == hand1@,
                    h2 == hand2@,
                    indexable(h1),
                    indexable(h2),
                    d == deck@,
                    n == d.len(),
                    48 <= n <= 52,
                    forall|i: int| 0 <= i < d.len() ==> valid_card(#[trigger] d[i]),
                    0 <= i0 < i1 < n - 3,
                    i1 + 1 <= i2 <= n - 2,
                    tallies_are(
                        (wins1, wins2, ties, total),
                        (done3(h1, h2, d, 1, i0 as int, i1 as int, i2 as int), done3(h1, h2, d, -1, i0 as int, i1 as int, i2 as int), done3(h1, h2, d, 0, i0 as int, i1 as int, i2 as int), done3(h1, h2, d, 2, i0 as int, i1 as int, i2 as int)),
                    ),
                decreases n - 2 - i2,
            {
                let mut i3: usize = i2 + 1;
                while i3 < n - 1
                    invariant
                        h1 == hand1@,
                        h2 == hand2@,
                        indexable(h1),
                        indexable(h2),
                        d == deck@,
                        n == d.len(),
                        48 <= n <= 52,
                        forall|i: int| 0 <= i < d.len() ==> valid_card(#[trigger] d[i]),
                        0 <= i0 < i1 < i2 < n - 2,
                        i2 + 1 <= i3 <= n - 1,
                        tallies_are(
                            (wins1, wins2, ties, total),
                            (done4(h1, h2, d, 1, i0 as int, i1 as int, i2 as int, i3 as int), done4(h1, h2, d, -1, i0 as int, i1 as int, i2 as int, i3 as int), done4(h1, h2, d, 0, i0 as int, i1 as int, i2 as int, i3 as int), done4(h1, h2, d, 2, i0 as int, i1 as int, i2 as int, i3 as int)),
                        ),
                    decreases n - 1 - i3,
                {
                    let mut i4: usize = i3 + 1;
                    while i4 < n
                        invariant
                            h1 == hand1@,
                            h2 == hand2@,
                            indexable(h1),
                            indexable(h2),
                            d == deck@,
                            n == d.len(),
                            48 <= n <= 52,
                            forall|i: int| 0 <= i < d.len() ==> valid_card(#[trigger] d[i]),
                            0 <= i0 < i1 < i2 < i3 < n - 1,
                            i3 + 1 <= i4 <= n,
                            tallies_are(
                                (wins1, wins2, ties, total),
                                (done5(h1, h2, d, 1, i0 as int, i1 as int, i2 as int, i3 as int, i4 as int), done5(h1, h2, d, -1, i0 as int, i1 as int, i2 as int, i3 as int, i4 as int), done5(h1, h2, d, 0, i0 as int, i1 as int, i2 as int, i3 as int, i4 as int), done5(h1, h2, d, 2, i0 as int, i1 as int, i2 as int, i3 as int, i4 as int)),
                            ),
                        decreases n - i4,
                    {
                        let community = [deck[i0], deck[i1], deck[i2], deck[i3], deck[i4]];

                        let seven1 = [
                            hand1[0],
                            hand1[1],
                            community[0],
                            community[1],
                            community[2],
                            community[3],
                            community[4],
                        ];
                        let seven2 = [
                            hand2[0],
                            hand2[1],
                            community[0],
                            community[1],
                            community[2],
                            community[3],
                            community[4],
                        ];
                        let ghost a = i0 as int;
                        let ghost b = i1 as int;
                        let ghost c = i2 as int;
                        let ghost e = i3 as int;
                        let ghost f = i4 as int;
                        assert(seven1@ =~= with_board(h1, d, a, b, c, e, f));
                        assert(seven2@ =~= with_board(h2, d, a, b, c, e, f));
                        proof {
                            lemma_with_board_indexable(h1, d, a, b, c, e, f);
                            lemma_with_board_indexable(h2, d, a, b, c, e, f);
                        }

                        let score1 = eval_7(&seven1);
                        let score2 = eval_7(&seven2);
                        proof {
                            lemma_done_bound(h1, h2, d, 2, a, b, c, e, f);
                            lemma_done_step(h1, h2, d, 1, a, b, c, e, f);
                            lemma_done_step(h1, h2, d, -1, a, b, c, e, f);
                            lemma_done_step(h1, h2, d, 0, a, b, c, e, f);
                            lemma_done_step(h1, h2, d, 2, a, b, c, e, f);
                        }

                        if score1.0 > score2.0 {
                            wins1 += 1;
                        } else if score1.0 < score2.0 {
                            wins2 += 1;
                        } else {
                            ties += 1;
                        }
                        total += 1;
                        i4 = i4 + 1;
                    }
                    i3 = i3 + 1;
                }
                i2 = i2 + 1;
            }
            i1 = i1 + 1;
        }
        i0 = i0 + 1;
    }

    SimResult { wins1, wins2, ties, total }
}


// ---------------------------------------------------------------------------
// Laws
// ---------------------------------------------------------------------------

/// The tally that counts for the other seat: wins of one hand are wins of
/// the other once the hands swap places.
pub open spec fn swapped_sel(sel: int) -> int {
    if sel == 2 {
        2
    } else {
        -sel
    }
}

proof fn lemma_deck_without_same_holes(hole1: Seq<Card>, hole2: Seq<Card>, k: int)
    requires
        forall|x: Card| hole1.contains(x) == hole2.contains(x),
    ensures
        deck_without(hole1, k) == deck_without(hole2, k),
    decreases k,
{
    if k > 0 {
        lemma_deck_without_same_holes(hole1, hole2, k - 1);
    }
}

proof fn lemma_swapped_tally(h1: Seq<Card>, h2: Seq<Card>, d: Seq<Card>, sel: int)
    requires
        sel == 2 || -1 <= sel <= 1,
    ensures
        board_tally(h2, h1, d, swapped_sel(sel)) == board_tally(h1, h2, d, sel),
{
    let s2 = swapped_sel(sel);
    assert forall|a: int, b: int, c: int, e: int|
        #[trigger] tally5(h2, h1, d, s2, a, b, c, e) == tally5(h1, h2, d, sel, a, b, c, e) by {
        assert forall|f: int| #[trigger] tally5(h2, h1, d, s2, a, b, c, e)(f) == tally5(h1, h2, d, sel, a, b, c, e)(f) by {
            let o = showdown(h1, h2, d, a, b, c, e, f);
            assert(showdown(h2, h1, d, a, b, c, e, f) == -o);
        }
        assert(tally5(h2, h1, d, s2, a, b, c, e) =~= tally5(h1, h2, d, sel, a, b, c, e));
    }
    assert forall|a: int, b: int, c: int|
        #[trigger] tally4(h2, h1, d, s2, a, b, c) == tally4(h1, h2, d, sel, a, b, c) by {
        assert forall|e: int| #[trigger] tally4(h2, h1, d, s2, a, b, c)(e) == tally4(h1, h2, d, sel, a, b, c)(e) by {
            assert(tally5(h2, h1, d, s2, a, b, c, e) == tally5(h1, h2, d, sel, a, b, c, e));
        }
        assert(tally4(h2, h1, d, s2, a, b, c) =~= tally4(h1, h2, d, sel, a, b, c));
    }
    assert forall|a: int, b: int| #[trigger] tally3(h2, h1, d, s2, a, b) == tally3(h1, h2, d, sel, a, b) by {
        assert forall|c: int| #[trigger] tally3(h2, h1, d, s2, a, b)(c) == tally3(h1, h2, d, sel, a, b)(c) by {
            assert(tally4(h2, h1, d, s2, a, b, c) == tally4(h1, h2, d, sel, a, b, c));
        }
        assert(tally3(h2, h1, d, s2, a, b) =~= tally3(h1, h2, d, sel, a, b));
    }
    assert forall|a: int| #[trigger] tally2(h2, h1, d, s2, a) == tally2(h1, h2, d, sel, a) by {
        assert forall|b: int| #[trigger] tally2(h2, h1, d, s2, a)(b) == tally2(h1, h2, d, sel, a)(b) by {
            assert(tally3(h2, h1, d, s2, a, b) == tally3(h1, h2, d, sel, a, b));
        }
        assert(tally2(h2, h1, d, s2, a) =~= tally2(h1, h2, d, sel, a));
    }
    assert forall|a: int| #[trigger] tally1(h2, h1, d, s2)(a) == tally1(h1, h2, d, sel)(a) by {
        assert(tally2(h2, h1, d, s2, a) == tally2(h1, h2, d, sel, a));
    }
    assert(tally1(h2, h1, d, s2) =~= tally1(h1, h2, d, sel));
}

/// Swapping the two hands deals from the same deck and swaps the wins of the
/// two hands; ties and the number of boards stay the same.
pub proof fn lemma_swap_hands(h1: Seq<Card>, h2: Seq<Card>)
    requires
        h1.len() == 2,
        h2.len() == 2,
    ensures
        board_deck(h2, h1) == board_deck(h1, h2),
        board_tally(h2, h1, board_deck(h2, h1), 1) == board_tally(h1, h2, board_deck(h1, h2), -1),
        board_tally(h2, h1, board_deck(h2, h1), -1) == board_tally(h1, h2, board_deck(h1, h2), 1),
        board_tally(h2, h1, board_deck(h2, h1), 0) == board_tally(h1, h2, board_deck(h1, h2), 0),
        board_tally(h2, h1, board_deck(h2, h1), 2) == board_tally(h1, h2, board_deck(h1, h2), 2),
{
    let hole1 = seq![h1[0], h1[1], h2[0], h2[1]];
    let hole2 = seq![h2[0], h2[1], h1[0], h1[1]];
    assert forall|x: Card| hole1.contains(x) == hole2.contains(x) by {
        if hole1.contains(x) {
            let i = choose|i: int| 0 <= i < hole1.len() && hole1[i] == x;
            assert(hole2[(i + 2) % 4] == x);
        }
        if hole2.contains(x) {
            let i = choose|i: int| 0 <= i < hole2.len() && hole2[i] == x;
            assert(hole1[(i + 2) % 4] == x);
        }
    }
    lemma_deck_without_same_holes(hole2, hole1, 52);
    let d = board_deck(h1, h2);
    lemma_swapped_tally(h1, h2, d, 1);
    lemma_swapped_tally(h1, h2, d, -1);
    lemma_swapped_tally(h1, h2, d, 0);
    lemma_swapped_tally(h1, h2, d, 2);
}

/// A card of the deck is matched at least once once the deck reaches it.
proof fn lemma_deck_matches_hit(x: Card, j: int, k: int)
    requires
        0 <= j < k,
        deck_card(j) == x,
    ensures
        deck_matches(x, k) >= 1,
    decreases k,
{
    if k - 1 > j {
        lemma_deck_matches_hit(x, j, k - 1);
    }
}

/// Distinct hole cards are taken out once each.
proof fn lemma_removed_exact(hole: Seq<Card>, k: int)
    requires
        hole.len() == 4,
        forall|i: int, j: int| 0 <= i < j < 4 ==> hole[i] != hole[j],
    ensures
        removed(hole, k) == deck_matches(hole[0], k) + deck_matches(hole[1], k) + deck_matches(
            hole[2],
            k,
        ) + deck_matches(hole[3], k),
    decreases k,
{
    if k > 0 {
        lemma_removed_exact(hole, k - 1);
        let x = deck_card(k - 1);
        if hole.contains(x) {
            let t = choose|t: int| 0 <= t < hole.len() && hole[t] == x;
            assert(t == 0 || t == 1 || t == 2 || t == 3);
        } else {
            assert(hole[0] != x && hole[1] != x && hole[2] != x && hole[3] != x);
        }
    }
}

/// `k * (g(lo) + ... + g(hi - 1)) == p(lo) - p(hi)` when each step of `p`
/// falls by `k * g`.
proof fn lemma_telescope(g: spec_fn(int) -> nat, p: spec_fn(int) -> int, k: int, lo: int, hi: int)
    requires
        lo <= hi,
        forall|x: int| lo <= x < hi ==> k * #[trigger] g(x) == p(x) - p(x + 1),
    ensures
        k * sum_range(g, lo, hi) == p(lo) - p(hi),
    decreases hi - lo,
{
    if hi > lo {
        lemma_telescope(g, p, k, lo, hi - 1);
        let a = sum_range(g, lo, hi - 1);
        let b = g(hi - 1);
        assert(k * b == p(hi - 1) - p(hi));
        assert(sum_range(g, lo, hi) == a + b);
        assert(k * (a + b) == k * a + k * b) by (nonlinear_arith);
    } else {
        assert(sum_range(g, lo, hi) == 0);
        assert(k * 0 == 0) by (nonlinear_arith);
    }
}

/// Counting every board: the boards below each choice of the first cards
/// number a binomial coefficient, scaled here to stay in integers.
proof fn lemma_count_all(h1: Seq<Card>, h2: Seq<Card>, d: Seq<Card>)
    requires
        5 <= d.len(),
    ensures
        120 * board_tally(h1, h2, d, 2) == d.len() * (d.len() - 1) * (d.len() - 2) * (d.len() - 3) * (
        d.len() - 4),
{
    let n = d.len() as int;
    assert forall|a: int, b: int, c: int, e: int| 0 <= e < n implies #[trigger] tally4(
        h1,
        h2,
        d,
        2,
        a,
        b,
        c,
    )(e) == n - 1 - e by {
        let p = |x: int| -x;
        lemma_telescope(tally5(h1, h2, d, 2, a, b, c, e), p, 1, e + 1, n);
    }
    assert forall|a: int, b: int, c: int| 0 <= c < n - 1 implies 2 * #[trigger] tally3(
        h1,
        h2,
        d,
        2,
        a,
        b,
    )(c) == (n - 1 - c) * (n - 2 - c) by {
        let p = |x: int| (n - x) * (n - 1 - x);
        assert forall|x: int| c + 1 <= x < n - 1 implies 2 * #[trigger] tally4(h1, h2, d, 2, a, b, c)(x)
            == p(x) - p(x + 1) by {
            assert(tally4(h1, h2, d, 2, a, b, c)(x) == n - 1 - x);
            assert((n - x) * (n - 1 - x) - (n - x - 1) * (n - 1 - x - 1) == 2 * (n - 1 - x))
                by (nonlinear_arith);
        }
        lemma_telescope(tally4(h1, h2, d, 2, a, b, c), p, 2, c + 1, n - 1);
    }
    assert forall|a: int, b: int| 0 <= b < n - 2 implies 6 * #[trigger] tally2(h1, h2, d, 2, a)(b)
        == (n - 1 - b) * (n - 2 - b) * (n - 3 - b) by {
        let p = |x: int| (n - x) * (n - 1 - x) * (n - 2 - x);
        assert forall|x: int| b + 1 <= x < n - 2 implies 6 * #[trigger] tally3(h1, h2, d, 2, a, b)(x)
            == p(x) - p(x + 1) by {
            let t = tally3(h1, h2, d, 2, a, b)(x);
            assert(2 * t == (n - 1 - x) * (n - 2 - x));
            assert(6 * t == (n - x) * (n - 1 - x) * (n - 2 - x) - (n - x - 1) * (n - 1 - x - 1) * (n
                - 2 - x - 1)) by (nonlinear_arith)
                requires
                    2 * t == (n - 1 - x) * (n - 2 - x),
            ;
        }
        lemma_telescope(tally3(h1, h2, d, 2, a, b), p, 6, b + 1, n - 2);
    }
    assert forall|a: int| 0 <= a < n - 3 implies 24 * #[trigger] tally1(h1, h2, d, 2)(a) == (n - 1
        - a) * (n - 2 - a) * (n - 3 - a) * (n - 4 - a) by {
        let p = |x: int| (n - x) * (n - 1 - x) * (n - 2 - x) * (n - 3 - x);
        assert forall|x: int| a + 1 <= x < n - 3 implies 24 * #[trigger] tally2(h1, h2, d, 2, a)(x)
            == p(x) - p(x + 1) by {
            let t = tally2(h1, h2, d, 2, a)(x);
            assert(6 * t == (n - 1 - x) * (n - 2 - x) * (n - 3 - x));
            assert(24 * t == (n - x) * (n - 1 - x) * (n - 2 - x) * (n - 3 - x) - (n - x - 1) * (n
                - 1 - x - 1) * (n - 2 - x - 1) * (n - 3 - x - 1)) by (nonlinear_arith)
                requires
                    6 * t == (n - 1 - x) * (n - 2 - x) * (n - 3 - x),
            ;
        }
        lemma_telescope(tally2(h1, h2, d, 2, a), p, 24, a + 1, n - 3);
    }
    let p = |x: int| (n - x) * (n - 1 - x) * (n - 2 - x) * (n - 3 - x) * (n - 4 - x);
    assert forall|x: int| 0 <= x < n - 4 implies 120 * #[trigger] tally1(h1, h2, d, 2)(x) == p(x)
        - p(x + 1) by {
        let t = tally1(h1, h2, d, 2)(x);
        assert(24 * t == (n - 1 - x) * (n - 2 - x) * (n - 3 - x) * (n - 4 - x));
        assert(120 * t == (n - x) * (n - 1 - x) * (n - 2 - x) * (n - 3 - x) * (n - 4 - x) - (n - x
            - 1) * (n - 1 - x - 1) * (n - 2 - x - 1) * (n - 3 - x - 1) * (n - 4 - x - 1))
            by (nonlinear_arith)
            requires
                24 * t == (n - 1 - x) * (n - 2 - x) * (n - 3 - x) * (n - 4 - x),
        ;
    }
    lemma_telescope(tally1(h1, h2, d, 2), p, 120, 0, n - 4);
}

/// Four distinct valid hole cards leave 48 cards for the board, and the
/// enumeration counts every one of the C(48,5) = 1,712,304 boards.
pub proof fn lemma_all_boards_counted(h1: Seq<Card>, h2: Seq<Card>)
    requires
        h1.len() == 2,
        h2.len() == 2,
        distinct_valid(seq![h1[0], h1[1], h2[0], h2[1]]),
    ensures
        board_deck(h1, h2).len() == 48,
        board_tally(h1, h2, board_deck(h1, h2), 2) == 1_712_304,
{
    let hole = seq![h1[0], h1[1], h2[0], h2[1]];
    assert forall|t: int| 0 <= t < 4 implies deck_matches(#[trigger] hole[t], 52) == 1 by {
        assert(valid_card(hole[t]));
        lemma_deck_card_complete(hole[t]);
        lemma_deck_matches_hit(hole[t], 13 * hole[t].suit.0 + hole[t].rank.0 - 2, 52);
        lemma_deck_matches_at_most_one(hole[t], 52);
    }
    lemma_removed_exact(hole, 52);
    lemma_deck_without(hole, 52);
    let d = board_deck(h1, h2);
    lemma_count_all(h1, h2, d);
    assert(48 * 47 * 46 * 45 * 44 == 205_476_480) by (nonlinear_arith);
}

proof fn lemma_sum_one(f: spec_fn(int) -> nat, lo: int)
    ensures
        sum_range(f, lo, lo + 1) == f(lo),
{
    assert(sum_range(f, lo, lo) == 0);
}

/// On a deck of exactly five cards there is one board, and it counts as a
/// win for the hand whose seven cards score strictly higher, as a tie when
/// the two scores are equal.
pub proof fn lemma_one_board(h1: Seq<Card>, h2: Seq<Card>, d: Seq<Card>)
    requires
        d.len() == 5,
    ensures
        ({
            let s1 = seven_card_score(seq![h1[0], h1[1]] + d);
            let s2 = seven_card_score(seq![h2[0], h2[1]] + d);
            &&& board_tally(h1, h2, d, 1) == (if s1 > s2 { 1int } else { 0int })
            &&& board_tally(h1, h2, d, -1) == (if s1 < s2 { 1int } else { 0int })
            &&& board_tally(h1, h2, d, 0) == (if s1 == s2 { 1int } else { 0int })
            &&& board_tally(h1, h2, d, 2) == 1
        }),
{
    assert(seq![h1[0], h1[1]] + d =~= with_board(h1, d, 0, 1, 2, 3, 4));
    assert(seq![h2[0], h2[1]] + d =~= with_board(h2, d, 0, 1, 2, 3, 4));
    assert forall|sel: int| #[trigger] board_tally(h1, h2, d, sel) == counted(
        sel,
        showdown(h1, h2, d, 0, 1, 2, 3, 4),
    ) by {
        lemma_sum_one(tally5(h1, h2, d, sel, 0, 1, 2, 3), 4);
        assert(tally4(h1, h2, d, sel, 0, 1, 2)(3) == sum_range(tally5(h1, h2, d, sel, 0, 1, 2, 3), 4, 5));
        lemma_sum_one(tally4(h1, h2, d, sel, 0, 1, 2), 3);
        assert(tally3(h1, h2, d, sel, 0, 1)(2) == sum_range(tally4(h1, h2, d, sel, 0, 1, 2), 3, 4));
        lemma_sum_one(tally3(h1, h2, d, sel, 0, 1), 2);
        assert(tally2(h1, h2, d, sel, 0)(1) == sum_range(tally3(h1, h2, d, sel, 0, 1), 2, 3));
        lemma_sum_one(tally2(h1, h2, d, sel, 0), 1);
        assert(tally1(h1, h2, d, sel)(0) == sum_range(tally2(h1, h2, d, sel, 0), 1, 2));
        lemma_sum_one(tally1(h1, h2, d, sel), 0);
    }
    assert(board_tally(h1, h2, d, 1) == counted(1, showdown(h1, h2, d, 0, 1, 2, 3, 4)));
    assert(board_tally(h1, h2, d, -1) == counted(-1, showdown(h1, h2, d, 0, 1, 2, 3, 4)));
    assert(board_tally(h1, h2, d, 0) == counted(0, showdown(h1, h2, d, 0, 1, 2, 3, 4)));
    assert(board_tally(h1, h2, d, 2) == counted(2, showdown(h1, h2, d, 0, 1, 2, 3, 4)));
}

} // verus!
