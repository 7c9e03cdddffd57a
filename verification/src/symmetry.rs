//! What a score does not depend on: the order of the cards, and which suit
//! is which.
use vstd::prelude::*;

use crate::best_hand::{
    count_if, lemma_count_if_mono_on, lemma_flush_suit_unique, lemma_count_if_remove, lemma_counts_as_count_if, of_rank,
    of_rank_suit, of_suit,
};
use crate::card::{Card, Suit};
use crate::eval::{
    first_flush_suit, five_card_score, is_flush5, present_ranks, rank_count, rank_is,
    seven_card_score, suit_count, suit_ranks, suited_count,
};

verus! {

broadcast use vstd::seq_lib::group_to_multiset_ensures;

// ---------------------------------------------------------------------------
// Order
// ---------------------------------------------------------------------------

/// Hands that hold the same cards, in any order, count alike.
proof fn lemma_count_if_multiset(s: Seq<Card>, t: Seq<Card>, f: spec_fn(Card) -> bool)
    requires
        s.to_multiset() == t.to_multiset(),
    ensures
        count_if(s, f) == count_if(t, f),
    decreases s.len(),
{
    if s.len() == 0 {
        assert(s.to_multiset().len() == 0 && t.len() == t.to_multiset().len());
    } else {
        let n = s.len() - 1;
        let x = s[n];
        assert(s.to_multiset().count(x) > 0) by {
            assert(s.contains(x));
        }
        assert(t.contains(x));
        let k = choose|k: int| 0 <= k < t.len() && t[k] == x;
        assert(s.remove(n).to_multiset() == t.remove(k).to_multiset());
        lemma_count_if_multiset(s.remove(n), t.remove(k), f);
        lemma_count_if_remove(s, n, f);
        lemma_count_if_remove(t, k, f);
    }
}

/// Hands whose rank, suit and rank-and-suit counts agree score alike.
proof fn lemma_same_counts_same_score(s: Seq<Card>, t: Seq<Card>)
    requires
        forall|r: int| #[trigger] rank_count(s, r) == rank_count(t, r),
        forall|u: int| #[trigger] suit_count(s, u) == suit_count(t, u),
        forall|r: int, u: int| #[trigger] suited_count(s, r, u) == suited_count(t, r, u),
    ensures
        five_card_score(s) == five_card_score(t),
        seven_card_score(s) == seven_card_score(t),
{
    assert(rank_is(s, 1) =~= rank_is(t, 1));
    assert(rank_is(s, 2) =~= rank_is(t, 2));
    assert(rank_is(s, 3) =~= rank_is(t, 3));
    assert(rank_is(s, 4) =~= rank_is(t, 4));
    assert(present_ranks(s) =~= present_ranks(t));
    assert(suit_count(s, 0) == suit_count(t, 0));
    assert(suit_count(s, 1) == suit_count(t, 1));
    assert(suit_count(s, 2) == suit_count(t, 2));
    assert(suit_count(s, 3) == suit_count(t, 3));
    let fs = first_flush_suit(s);
    assert(suit_ranks(s, fs) =~= suit_ranks(t, fs));
}

/// The score of a hand does not depend on the order of its cards.
pub proof fn lemma_score_ignores_order(s: Seq<Card>, t: Seq<Card>)
    requires
        s.to_multiset() == t.to_multiset(),
    ensures
        five_card_score(s) == five_card_score(t),
        seven_card_score(s) == seven_card_score(t),
{
    assert forall|r: int| #[trigger] rank_count(s, r) == rank_count(t, r) by {
        lemma_counts_as_count_if(s, r, 0);
        lemma_counts_as_count_if(t, r, 0);
        lemma_count_if_multiset(s, t, of_rank(r));
    }
    assert forall|u: int| #[trigger] suit_count(s, u) == suit_count(t, u) by {
        lemma_counts_as_count_if(s, 0, u);
        lemma_counts_as_count_if(t, 0, u);
        lemma_count_if_multiset(s, t, of_suit(u));
    }
    assert forall|r: int, u: int| #[trigger] suited_count(s, r, u) == suited_count(t, r, u) by {
        lemma_counts_as_count_if(s, r, u);
        lemma_counts_as_count_if(t, r, u);
        lemma_count_if_multiset(s, t, of_rank_suit(r, u));
    }
    lemma_same_counts_same_score(s, t);
}

/// `p` lists each position of `0..n` once.
pub open spec fn is_index_perm(p: Seq<int>, n: int) -> bool {
    &&& p.len() == n
    &&& forall|i: int| 0 <= i < n ==> 0 <= #[trigger] p[i] < n
    &&& forall|i: int, j: int| 0 <= i < j < n ==> p[i] != p[j]
}

/// The cards of `s` taken in the order of the positions `p`.
pub open spec fn reorder(s: Seq<Card>, p: Seq<int>) -> Seq<Card> {
    Seq::new(p.len(), |i: int| s[p[i]])
}

/// Reordering keeps the cards.
proof fn lemma_reorder_multiset(s: Seq<Card>, p: Seq<int>)
    requires
        is_index_perm(p, s.len() as int),
    ensures
        reorder(s, p).to_multiset() == s.to_multiset(),
    decreases s.len(),
{
    let n = s.len() as int;
    let t = reorder(s, p);
    if n == 0 {
        assert(t.to_multiset().len() == 0 && s.to_multiset().len() == 0);
        assert(t.to_multiset() =~= s.to_multiset());
    } else {
        let m = p[n - 1];
        let s1 = s.remove(m);
        let p1 = Seq::new((n - 1) as nat, |i: int| if p[i] < m { p[i] } else { p[i] - 1 });
        assert forall|i: int| 0 <= i < n - 1 implies 0 <= #[trigger] p1[i] < n - 1 by {
            assert(p[i] != p[n - 1]);
        }
        assert forall|i: int, j: int| 0 <= i < j < n - 1 implies p1[i] != p1[j] by {
            assert(p[i] != p[j] && p[i] != m && p[j] != m);
        }
        lemma_reorder_multiset(s1, p1);
        assert(reorder(s1, p1) =~= t.drop_last()) by {
            assert forall|i: int| 0 <= i < n - 1 implies reorder(s1, p1)[i] == t.drop_last()[i] by {
                assert(p[i] != m);
            }
        }
        assert(t.drop_last().push(t.last()) =~= t);
        assert(t.last() == s[m]);
        assert(s1.to_multiset() == s.to_multiset().remove(s[m]));
        assert(s.to_multiset().count(s[m]) > 0) by {
            assert(s.contains(s[m]));
        }
        assert(t.to_multiset() =~= s.to_multiset());
    }
}

/// The score of a hand does not depend on the order of its cards, given as
/// a reordering of their positions.
pub proof fn lemma_score_ignores_positions(s: Seq<Card>, p: Seq<int>)
    requires
        is_index_perm(p, s.len() as int),
    ensures
        five_card_score(reorder(s, p)) == five_card_score(s),
        seven_card_score(reorder(s, p)) == seven_card_score(s),
{
    lemma_reorder_multiset(s, p);
    lemma_score_ignores_order(reorder(s, p), s);
}

// ---------------------------------------------------------------------------
// Suits
// ---------------------------------------------------------------------------

/// A renaming of the four suits: suit `s` becomes `perm[s]`, and no two
/// suits get the same name.
pub open spec fn is_suit_perm(perm: Seq<int>) -> bool {
    &&& perm.len() == 4
    &&& forall|i: int| 0 <= i < 4 ==> 0 <= #[trigger] perm[i] < 4
    &&& forall|i: int, j: int| 0 <= i < j < 4 ==> perm[i] != perm[j]
}

/// A card with its suit renamed.
pub open spec fn rename_suit(c: Card, perm: Seq<int>) -> Card {
    Card { rank: c.rank, suit: Suit(perm[c.suit.0 as int] as u8) }
}

/// A hand with every suit renamed.
pub open spec fn rename_suits(h: Seq<Card>, perm: Seq<int>) -> Seq<Card> {
    h.map_values(|c: Card| rename_suit(c, perm))
}

/// Counting the renamed cards is counting the cards by the renamed test.
proof fn lemma_count_if_map(h: Seq<Card>, g: spec_fn(Card) -> Card, f: spec_fn(Card) -> bool)
    ensures
        count_if(h.map_values(g), f) == count_if(h, |c: Card| f(g(c))),
    decreases h.len(),
{
    if h.len() > 0 {
        assert(h.map_values(g).drop_last() =~= h.drop_last().map_values(g));
        lemma_count_if_map(h.drop_last(), g, f);
    }
}

/// Counts that agree on every card of the hand.
proof fn lemma_count_if_agree(h: Seq<Card>, f: spec_fn(Card) -> bool, g: spec_fn(Card) -> bool)
    requires
        forall|k: int| 0 <= k < h.len() ==> #[trigger] f(h[k]) == g(h[k]),
    ensures
        count_if(h, f) == count_if(h, g),
{
    lemma_count_if_mono_on(h, f, g);
    lemma_count_if_mono_on(h, g, f);
}

/// Every suit is the new name of some suit.
pub(crate) proof fn lemma_suit_perm_onto(perm: Seq<int>, u: int) -> (x: int)
    requires
        is_suit_perm(perm),
        0 <= u < 4,
    ensures
        0 <= x < 4,
        perm[x] == u,
{
    assert(0 <= perm[0] < 4 && 0 <= perm[1] < 4 && 0 <= perm[2] < 4 && 0 <= perm[3] < 4);
    if perm[0] == u {
        0
    } else if perm[1] == u {
        1
    } else if perm[2] == u {
        2
    } else {
        assert(perm[0] != perm[1] && perm[0] != perm[2] && perm[0] != perm[3] && perm[1] != perm[2]
            && perm[1] != perm[3] && perm[2] != perm[3]);
        3
    }
}

/// Renaming the suits keeps the rank counts and carries each suit's counts
/// over to its new name.
proof fn lemma_rename_counts(h: Seq<Card>, perm: Seq<int>)
    requires
        is_suit_perm(perm),
        forall|k: int| 0 <= k < h.len() ==> (#[trigger] h[k]).suit.0 <= 3,
    ensures
        forall|r: int| #[trigger] rank_count(rename_suits(h, perm), r) == rank_count(h, r),
        forall|x: int|
            0 <= x < 4 ==> #[trigger] suit_count(rename_suits(h, perm), perm[x]) == suit_count(h, x),
        forall|r: int, x: int|
            0 <= x < 4 ==> #[trigger] suited_count(rename_suits(h, perm), r, perm[x])
                == suited_count(h, r, x),
{
    let g = |c: Card| rename_suit(c, perm);
    let h2 = rename_suits(h, perm);
    assert forall|r: int| #[trigger] rank_count(h2, r) == rank_count(h, r) by {
        lemma_counts_as_count_if(h2, r, 0);
        lemma_counts_as_count_if(h, r, 0);
        lemma_count_if_map(h, g, of_rank(r));
        assert((|c: Card| of_rank(r)(g(c))) =~= of_rank(r));
    }
    assert forall|x: int| 0 <= x < 4 implies #[trigger] suit_count(h2, perm[x]) == suit_count(h, x) by {
        lemma_counts_as_count_if(h2, 0, perm[x]);
        lemma_counts_as_count_if(h, 0, x);
        lemma_count_if_map(h, g, of_suit(perm[x]));
        let f1 = |c: Card| of_suit(perm[x])(g(c));
        assert forall|k: int| 0 <= k < h.len() implies f1(#[trigger] h[k]) == of_suit(x)(h[k]) by {
            let y = h[k].suit.0 as int;
            assert(0 <= perm[y] < 4 && 0 <= perm[x] < 4);
            if y != x {
                if y < x {
                    assert(perm[y] != perm[x]);
                } else {
                    assert(perm[x] != perm[y]);
                }
            }
        }
        lemma_count_if_agree(h, f1, of_suit(x));
    }
    assert forall|r: int, x: int| 0 <= x < 4 implies #[trigger] suited_count(h2, r, perm[x])
        == suited_count(h, r, x) by {
        lemma_counts_as_count_if(h2, r, perm[x]);
        lemma_counts_as_count_if(h, r, x);
        lemma_count_if_map(h, g, of_rank_suit(r, perm[x]));
        let f2 = |c: Card| of_rank_suit(r, perm[x])(g(c));
        assert forall|k: int| 0 <= k < h.len() implies f2(#[trigger] h[k]) == of_rank_suit(r, x)(h[k]) by {
            let y = h[k].suit.0 as int;
            assert(0 <= perm[y] < 4 && 0 <= perm[x] < 4);
            if y != x {
                if y < x {
                    assert(perm[y] != perm[x]);
                } else {
                    assert(perm[x] != perm[y]);
                }
            }
        }
        lemma_count_if_agree(h, f2, of_rank_suit(r, x));
    }
}

/// The score of a hand of at most nine cards does not depend on which suit
/// is which: renaming the suits leaves both scores unchanged.
pub proof fn lemma_score_ignores_suit_names(h: Seq<Card>, perm: Seq<int>)
    requires
        is_suit_perm(perm),
        h.len() <= 9,
        forall|k: int| 0 <= k < h.len() ==> (#[trigger] h[k]).suit.0 <= 3,
    ensures
        five_card_score(rename_suits(h, perm)) == five_card_score(h),
        seven_card_score(rename_suits(h, perm)) == seven_card_score(h),
{
    let h2 = rename_suits(h, perm);
    lemma_rename_counts(h, perm);
    assert(rank_is(h2, 1) =~= rank_is(h, 1));
    assert(rank_is(h2, 2) =~= rank_is(h, 2));
    assert(rank_is(h2, 3) =~= rank_is(h, 3));
    assert(rank_is(h2, 4) =~= rank_is(h, 4));
    assert(present_ranks(h2) =~= present_ranks(h));
    let x0 = lemma_suit_perm_onto(perm, 0);
    let x1 = lemma_suit_perm_onto(perm, 1);
    let x2 = lemma_suit_perm_onto(perm, 2);
    let x3 = lemma_suit_perm_onto(perm, 3);
    assert(suit_count(h2, 0) == suit_count(h, x0));
    assert(suit_count(h2, 1) == suit_count(h, x1));
    assert(suit_count(h2, 2) == suit_count(h, x2));
    assert(suit_count(h2, 3) == suit_count(h, x3));
    assert(is_flush5(h2) == is_flush5(h)) by {
        assert(suit_count(h2, perm[0]) == suit_count(h, 0));
        assert(suit_count(h2, perm[1]) == suit_count(h, 1));
        assert(suit_count(h2, perm[2]) == suit_count(h, 2));
        assert(suit_count(h2, perm[3]) == suit_count(h, 3));
    }
    let fs = first_flush_suit(h);
    if fs >= 0 {
        assert(suit_count(h2, perm[fs]) == suit_count(h, fs));
        lemma_flush_suit_unique(h2, perm[fs]);
        assert forall|r: int| #[trigger] suit_ranks(h2, perm[fs])(r) == suit_ranks(h, fs)(r) by {
            assert(suited_count(h2, r, perm[fs]) == suited_count(h, r, fs));
        }
        assert(suit_ranks(h2, perm[fs]) =~= suit_ranks(h, fs));
    }
}

} // verus!
