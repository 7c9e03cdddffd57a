//! Renaming the suits of both hands changes no tally of the simulation:
//! mirror hands such as Ah Kh against Ac Kc win equally often.
use vstd::prelude::*;

use crate::card::{
    deck_card, lemma_deck_card_complete, lemma_deck_card_injective, lemma_deck_card_valid,
    valid_card, Card, Suit,
};
use crate::eval::seven_card_score;
use crate::symmetry::{
    is_suit_perm, lemma_score_ignores_order, lemma_score_ignores_suit_names, rename_suit,
    rename_suits,
};
use crate::sim::{
    board_deck, board_tally, lemma_swap_hands, counted, deck_without, lemma_deck_without, sum_range, tally1, tally2, tally3, tally4, tally5,
};

verus! {

broadcast use {vstd::seq_lib::group_to_multiset_ensures, vstd::multiset::group_multiset_axioms};

// ---------------------------------------------------------------------------
// Boards as sets of cards
// ---------------------------------------------------------------------------

/// 1, -1 or 0 as the first score is higher, lower or equal.
pub open spec fn outcome(s1: int, s2: int) -> int {
    if s1 > s2 {
        1
    } else if s1 < s2 {
        -1
    } else {
        0
    }
}

/// Whether a board given by its cards counts for the tally `sel`.
pub open spec fn board_count(h1: Seq<Card>, h2: Seq<Card>, sel: int, board: Seq<Card>) -> nat {
    counted(
        sel,
        outcome(
            seven_card_score(seq![h1[0], h1[1]] + board),
            seven_card_score(seq![h2[0], h2[1]] + board),
        ),
    )
}

/// The boards made of `acc` and `k` more cards of `d` taken in their order,
/// counted for `sel`.
pub open spec fn choose_count(
    h1: Seq<Card>,
    h2: Seq<Card>,
    sel: int,
    d: Seq<Card>,
    k: nat,
    acc: Seq<Card>,
) -> nat
    decreases d.len(),
{
    if k == 0 {
        board_count(h1, h2, sel, acc)
    } else if d.len() == 0 {
        0
    } else {
        choose_count(h1, h2, sel, d.drop_first(), k, acc) + choose_count(
            h1,
            h2,
            sel,
            d.drop_first(),
            (k - 1) as nat,
            acc.push(d[0]),
        )
    }
}

/// Fewer cards than are still to be chosen make no board.
proof fn lemma_choose_short(h1: Seq<Card>, h2: Seq<Card>, sel: int, d: Seq<Card>, k: nat, acc: Seq<Card>)
    requires
        d.len() < k,
    ensures
        choose_count(h1, h2, sel, d, k, acc) == 0,
    decreases d.len(),
{
    if d.len() > 0 {
        lemma_choose_short(h1, h2, sel, d.drop_first(), k, acc);
        lemma_choose_short(h1, h2, sel, d.drop_first(), (k - 1) as nat, acc.push(d[0]));
    }
}

/// A sum split off at its first term.
proof fn lemma_sum_first(f: spec_fn(int) -> nat, lo: int, hi: int)
    requires
        lo < hi,
    ensures
        sum_range(f, lo, hi) == f(lo) + sum_range(f, lo + 1, hi),
    decreases hi - lo,
{
    if hi - 1 > lo {
        lemma_sum_first(f, lo, hi - 1);
    } else {
        assert(sum_range(f, lo, lo) == 0);
        assert(sum_range(f, lo + 1, hi) == 0);
    }
}

/// A sum over the first of `k` cards, each term counting the boards that
/// start with that card, counts the boards of `k` cards from `lo` on.
proof fn lemma_sum_is_choose(
    h1: Seq<Card>,
    h2: Seq<Card>,
    sel: int,
    d: Seq<Card>,
    f: spec_fn(int) -> nat,
    k: nat,
    lo: int,
    acc: Seq<Card>,
)
    requires
        k >= 1,
        0 <= lo <= d.len(),
        forall|x: int|
            lo <= x < d.len() - k + 1 ==> #[trigger] f(x) == choose_count(
                h1,
                h2,
                sel,
                d.skip(x + 1),
                (k - 1) as nat,
                acc.push(d[x]),
            ),
    ensures
        sum_range(f, lo, d.len() - k + 1) == choose_count(h1, h2, sel, d.skip(lo), k, acc),
    decreases d.len() - lo,
{
    if lo >= d.len() - k + 1 {
        lemma_choose_short(h1, h2, sel, d.skip(lo), k, acc);
    } else {
        lemma_sum_first(f, lo, d.len() - k + 1);
        lemma_sum_is_choose(h1, h2, sel, d, f, k, lo + 1, acc);
        assert(d.skip(lo).drop_first() =~= d.skip(lo + 1));
        assert(d.skip(lo)[0] == d[lo]);
    }
}

/// The tallies of the simulation count the boards of five cards of the deck.
pub proof fn lemma_tally_is_choose(h1: Seq<Card>, h2: Seq<Card>, d: Seq<Card>, sel: int)
    ensures
        board_tally(h1, h2, d, sel) == choose_count(h1, h2, sel, d, 5, seq![]),
{
    let n = d.len() as int;
    assert forall|a: int, b: int, c: int, e: int|
        0 <= a < b < c < e < n implies #[trigger] tally4(h1, h2, d, sel, a, b, c)(e) == choose_count(
        h1,
        h2,
        sel,
        d.skip(e + 1),
        1,
        seq![d[a], d[b], d[c], d[e]],
    ) by {
        let acc = seq![d[a], d[b], d[c], d[e]];
        assert forall|x: int| e + 1 <= x < n implies #[trigger] tally5(h1, h2, d, sel, a, b, c, e)(x)
            == choose_count(h1, h2, sel, d.skip(x + 1), 0, acc.push(d[x])) by {
            assert(seq![h1[0], h1[1]] + acc.push(d[x]) =~= seq![h1[0], h1[1], d[a], d[b], d[c], d[e], d[x]]);
            assert(seq![h2[0], h2[1]] + acc.push(d[x]) =~= seq![h2[0], h2[1], d[a], d[b], d[c], d[e], d[x]]);
        }
        lemma_sum_is_choose(h1, h2, sel, d, tally5(h1, h2, d, sel, a, b, c, e), 1, e + 1, acc);
    }
    assert forall|a: int, b: int, c: int|
        0 <= a < b < c < n implies #[trigger] tally3(h1, h2, d, sel, a, b)(c) == choose_count(
        h1,
        h2,
        sel,
        d.skip(c + 1),
        2,
        seq![d[a], d[b], d[c]],
    ) by {
        let acc = seq![d[a], d[b], d[c]];
        assert forall|x: int| c + 1 <= x < n - 1 implies #[trigger] tally4(h1, h2, d, sel, a, b, c)(x)
            == choose_count(h1, h2, sel, d.skip(x + 1), 1, acc.push(d[x])) by {
            assert(acc.push(d[x]) =~= seq![d[a], d[b], d[c], d[x]]);
        }
        lemma_sum_is_choose(h1, h2, sel, d, tally4(h1, h2, d, sel, a, b, c), 2, c + 1, acc);
    }
    assert forall|a: int, b: int|
        0 <= a < b < n implies #[trigger] tally2(h1, h2, d, sel, a)(b) == choose_count(
        h1,
        h2,
        sel,
        d.skip(b + 1),
        3,
        seq![d[a], d[b]],
    ) by {
        let acc = seq![d[a], d[b]];
        assert forall|x: int| b + 1 <= x < n - 2 implies #[trigger] tally3(h1, h2, d, sel, a, b)(x)
            == choose_count(h1, h2, sel, d.skip(x + 1), 2, acc.push(d[x])) by {
            assert(acc.push(d[x]) =~= seq![d[a], d[b], d[x]]);
        }
        lemma_sum_is_choose(h1, h2, sel, d, tally3(h1, h2, d, sel, a, b), 3, b + 1, acc);
    }
    assert forall|a: int| 0 <= a < n implies #[trigger] tally1(h1, h2, d, sel)(a) == choose_count(
        h1,
        h2,
        sel,
        d.skip(a + 1),
        4,
        seq![d[a]],
    ) by {
        let acc = seq![d[a]];
        assert forall|x: int| a + 1 <= x < n - 3 implies #[trigger] tally2(h1, h2, d, sel, a)(x)
            == choose_count(h1, h2, sel, d.skip(x + 1), 3, acc.push(d[x])) by {
            assert(acc.push(d[x]) =~= seq![d[a], d[x]]);
        }
        lemma_sum_is_choose(h1, h2, sel, d, tally2(h1, h2, d, sel, a), 4, a + 1, acc);
    }
    assert forall|x: int| 0 <= x < n - 4 implies #[trigger] tally1(h1, h2, d, sel)(x) == choose_count(
        h1,
        h2,
        sel,
        d.skip(x + 1),
        4,
        seq![].push(d[x]),
    ) by {
        assert(seq![].push(d[x]) =~= seq![d[x]]);
    }
    lemma_sum_is_choose(h1, h2, sel, d, tally1(h1, h2, d, sel), 5, 0, seq![]);
    assert(d.skip(0) =~= d);
}

// ---------------------------------------------------------------------------
// The order of the deck does not matter
// ---------------------------------------------------------------------------

/// A board counts the same whatever the order of its cards.
proof fn lemma_board_count_order(h1: Seq<Card>, h2: Seq<Card>, sel: int, b1: Seq<Card>, b2: Seq<Card>)
    requires
        b1.to_multiset() == b2.to_multiset(),
    ensures
        board_count(h1, h2, sel, b1) == board_count(h1, h2, sel, b2),
{
    let p1 = seq![h1[0], h1[1]];
    let p2 = seq![h2[0], h2[1]];
    vstd::seq_lib::lemma_multiset_commutative(p1, b1);
    vstd::seq_lib::lemma_multiset_commutative(p1, b2);
    vstd::seq_lib::lemma_multiset_commutative(p2, b1);
    vstd::seq_lib::lemma_multiset_commutative(p2, b2);
    lemma_score_ignores_order(p1 + b1, p1 + b2);
    lemma_score_ignores_order(p2 + b1, p2 + b2);
}

/// The cards already chosen count the same whatever their order.
proof fn lemma_choose_acc(
    h1: Seq<Card>,
    h2: Seq<Card>,
    sel: int,
    d: Seq<Card>,
    k: nat,
    acc1: Seq<Card>,
    acc2: Seq<Card>,
)
    requires
        acc1.to_multiset() == acc2.to_multiset(),
    ensures
        choose_count(h1, h2, sel, d, k, acc1) == choose_count(h1, h2, sel, d, k, acc2),
    decreases d.len(),
{
    if k == 0 {
        lemma_board_count_order(h1, h2, sel, acc1, acc2);
    } else if d.len() > 0 {
        lemma_choose_acc(h1, h2, sel, d.drop_first(), k, acc1, acc2);
        assert(acc1.push(d[0]).to_multiset() == acc2.push(d[0]).to_multiset());
        lemma_choose_acc(h1, h2, sel, d.drop_first(), (k - 1) as nat, acc1.push(d[0]), acc2.push(d[0]));
    }
}

/// The boards from a deck are those without its card at `j` and those with it.
proof fn lemma_choose_remove(
    h1: Seq<Card>,
    h2: Seq<Card>,
    sel: int,
    e: Seq<Card>,
    k: nat,
    acc: Seq<Card>,
    j: int,
)
    requires
        k >= 1,
        0 <= j < e.len(),
    ensures
        choose_count(h1, h2, sel, e, k, acc) == choose_count(h1, h2, sel, e.remove(j), k, acc)
            + choose_count(h1, h2, sel, e.remove(j), (k - 1) as nat, acc.push(e[j])),
    decreases j,
{
    if j == 0 {
        assert(e.remove(0) =~= e.drop_first());
    } else {
        let e1 = e.drop_first();
        let r = e1.remove(j - 1);
        assert(e.remove(j).drop_first() =~= r);
        assert(e.remove(j)[0] == e[0]);
        assert(e1[j - 1] == e[j]);
        lemma_choose_remove(h1, h2, sel, e1, k, acc, j - 1);
        if k >= 2 {
            lemma_choose_remove(h1, h2, sel, e1, (k - 1) as nat, acc.push(e[0]), j - 1);
            assert(acc.push(e[0]).push(e[j]).to_multiset() == acc.push(e[j]).push(e[0]).to_multiset());
            lemma_choose_acc(
                h1,
                h2,
                sel,
                r,
                (k - 2) as nat,
                acc.push(e[0]).push(e[j]),
                acc.push(e[j]).push(e[0]),
            );
        }
    }
}

/// Decks with the same cards, in any order, make the same counts.
proof fn lemma_choose_order(
    h1: Seq<Card>,
    h2: Seq<Card>,
    sel: int,
    d: Seq<Card>,
    e: Seq<Card>,
    k: nat,
    acc: Seq<Card>,
)
    requires
        d.to_multiset() == e.to_multiset(),
    ensures
        choose_count(h1, h2, sel, d, k, acc) == choose_count(h1, h2, sel, e, k, acc),
    decreases d.len(),
{
    if k > 0 {
        if d.len() == 0 {
            assert(d.to_multiset().len() == 0 && e.len() == e.to_multiset().len());
        } else {
            let x = d[0];
            assert(d.to_multiset().count(x) > 0) by {
                assert(d.contains(x));
            }
            assert(e.contains(x));
            let j = choose|j: int| 0 <= j < e.len() && e[j] == x;
            assert(d.remove(0) =~= d.drop_first());
            assert(d.remove(0).to_multiset() == e.remove(j).to_multiset());
            lemma_choose_remove(h1, h2, sel, e, k, acc, j);
            lemma_choose_order(h1, h2, sel, d.drop_first(), e.remove(j), k, acc);
            lemma_choose_order(h1, h2, sel, d.drop_first(), e.remove(j), (k - 1) as nat, acc.push(x));
        }
    }
}

// ---------------------------------------------------------------------------
// Suit names do not matter
// ---------------------------------------------------------------------------

/// All cards have a suit among the four.
pub open spec fn four_suits(h: Seq<Card>) -> bool {
    forall|k: int| 0 <= k < h.len() ==> (#[trigger] h[k]).suit.0 <= 3
}

/// Renaming the suits of the hands, the deck and the cards chosen so far
/// leaves the counts unchanged.
proof fn lemma_choose_rename(
    h1: Seq<Card>,
    h2: Seq<Card>,
    sel: int,
    d: Seq<Card>,
    k: nat,
    acc: Seq<Card>,
    perm: Seq<int>,
)
    requires
        is_suit_perm(perm),
        h1.len() == 2,
        h2.len() == 2,
        four_suits(h1),
        four_suits(h2),
        four_suits(d),
        four_suits(acc),
        acc.len() + k <= 7,
    ensures
        choose_count(
            rename_suits(h1, perm),
            rename_suits(h2, perm),
            sel,
            rename_suits(d, perm),
            k,
            rename_suits(acc, perm),
        ) == choose_count(h1, h2, sel, d, k, acc),
    decreases d.len(),
{
    let g1 = rename_suits(h1, perm);
    let g2 = rename_suits(h2, perm);
    if k == 0 {
        let b1 = seq![h1[0], h1[1]] + acc;
        let b2 = seq![h2[0], h2[1]] + acc;
        assert(seq![g1[0], g1[1]] + rename_suits(acc, perm) =~= rename_suits(b1, perm));
        assert(seq![g2[0], g2[1]] + rename_suits(acc, perm) =~= rename_suits(b2, perm));
        assert(four_suits(b1) && four_suits(b2)) by {
            assert forall|i: int| 0 <= i < b1.len() implies (#[trigger] b1[i]).suit.0 <= 3 by {
                if i >= 2 {
                    assert(b1[i] == acc[i - 2]);
                }
            }
            assert forall|i: int| 0 <= i < b2.len() implies (#[trigger] b2[i]).suit.0 <= 3 by {
                if i >= 2 {
                    assert(b2[i] == acc[i - 2]);
                }
            }
        }
        lemma_score_ignores_suit_names(b1, perm);
        lemma_score_ignores_suit_names(b2, perm);
    } else if d.len() > 0 {
        let d1 = d.drop_first();
        let acc1 = acc.push(d[0]);
        assert(rename_suits(d, perm).drop_first() =~= rename_suits(d1, perm));
        assert(rename_suits(acc, perm).push(rename_suits(d, perm)[0]) =~= rename_suits(acc1, perm));
        assert(four_suits(d1)) by {
            assert forall|i: int| 0 <= i < d1.len() implies (#[trigger] d1[i]).suit.0 <= 3 by {
                assert(d1[i] == d[i + 1]);
            }
        }
        assert(four_suits(acc1)) by {
            assert forall|i: int| 0 <= i < acc1.len() implies (#[trigger] acc1[i]).suit.0 <= 3 by {
                if i < acc.len() {
                    assert(acc1[i] == acc[i]);
                }
            }
        }
        lemma_choose_rename(h1, h2, sel, d1, k, acc, perm);
        lemma_choose_rename(h1, h2, sel, d1, (k - 1) as nat, acc1, perm);
    }
}

// ---------------------------------------------------------------------------
// The deck left once the renamed hole cards are out
// ---------------------------------------------------------------------------

/// The place of a valid card in the full deck.
pub open spec fn card_index(c: Card) -> int {
    13 * c.suit.0 + c.rank.0 - 2
}

/// The suit that `perm` renames to `u`.
pub open spec fn suit_before(perm: Seq<int>, u: int) -> int {
    choose|x: int| 0 <= x < 4 && perm[x] == u
}

/// A card with its renamed suit taken back.
pub open spec fn unrename_suit(c: Card, perm: Seq<int>) -> Card {
    Card { rank: c.rank, suit: Suit(suit_before(perm, c.suit.0 as int) as u8) }
}

proof fn lemma_deck_index(j: int)
    requires
        0 <= j < 52,
    ensures
        valid_card(deck_card(j)),
        card_index(deck_card(j)) == j,
{
    lemma_deck_card_valid(j);
    let c = deck_card(j);
    lemma_deck_card_complete(c);
    lemma_deck_card_injective(card_index(c), j);
}

/// The deck less the hole cards holds each valid card once unless it is a
/// hole card.
proof fn lemma_deck_count(hole: Seq<Card>, k: int, y: Card)
    requires
        hole.len() == 4,
        0 <= k <= 52,
    ensures
        deck_without(hole, k).to_multiset().count(y) == if valid_card(y) && card_index(y) < k
            && !hole.contains(y) {
            1nat
        } else {
            0nat
        },
    decreases k,
{
    if k == 0 {
        assert(deck_without(hole, 0).to_multiset().len() == 0);
    } else {
        lemma_deck_count(hole, k - 1, y);
        let z = deck_card(k - 1);
        lemma_deck_index(k - 1);
        if valid_card(y) {
            lemma_deck_card_complete(y);
            if card_index(y) == k - 1 {
                assert(y == z);
            }
        }
    }
}

/// Every suit is renamed from one suit.
proof fn lemma_suit_before(perm: Seq<int>, u: int)
    requires
        is_suit_perm(perm),
        0 <= u < 4,
    ensures
        0 <= suit_before(perm, u) < 4,
        perm[suit_before(perm, u)] == u,
        forall|x: int| 0 <= x < 4 && perm[x] == u ==> x == suit_before(perm, u),
{
    let x0 = crate::symmetry::lemma_suit_perm_onto(perm, u);
    assert(0 <= x0 < 4 && perm[x0] == u);
    let x = suit_before(perm, u);
    assert forall|y: int| 0 <= y < 4 && perm[y] == u implies y == x by {
        if y != x {
            if y < x {
                assert(perm[y] != perm[x]);
            } else {
                assert(perm[x] != perm[y]);
            }
        }
    }
}

/// A renamed card is `y` exactly when the card is `y` with its suit taken back.
proof fn lemma_rename_hits(x: Card, y: Card, perm: Seq<int>)
    requires
        is_suit_perm(perm),
        x.suit.0 <= 3,
    ensures
        rename_suit(x, perm) == y <==> (y.suit.0 <= 3 && x == unrename_suit(y, perm)),
{
    let px = perm[x.suit.0 as int];
    assert(0 <= px < 4);
    if y.suit.0 <= 3 {
        lemma_suit_before(perm, y.suit.0 as int);
    }
    lemma_suit_before(perm, px);
}

/// How often a card occurs among renamed cards.
proof fn lemma_rename_count(d: Seq<Card>, perm: Seq<int>, y: Card)
    requires
        is_suit_perm(perm),
        four_suits(d),
    ensures
        rename_suits(d, perm).to_multiset().count(y) == if y.suit.0 <= 3 {
            d.to_multiset().count(unrename_suit(y, perm))
        } else {
            0nat
        },
    decreases d.len(),
{
    if d.len() == 0 {
        assert(rename_suits(d, perm).to_multiset().len() == 0);
        assert(d.to_multiset().len() == 0);
    } else {
        let d1 = d.drop_last();
        assert(four_suits(d1)) by {
            assert forall|i: int| 0 <= i < d1.len() implies (#[trigger] d1[i]).suit.0 <= 3 by {
                assert(d1[i] == d[i]);
            }
        }
        lemma_rename_count(d1, perm, y);
        assert(d1.push(d.last()) =~= d);
        assert(rename_suits(d1, perm).push(rename_suit(d.last(), perm)) =~= rename_suits(d, perm));
        assert(d.last() == d[d.len() - 1]);
        lemma_rename_hits(d.last(), y, perm);
    }
}

/// Renaming the suits of the hole cards renames the deck left for the
/// board, up to its order.
proof fn lemma_renamed_deck(h1: Seq<Card>, h2: Seq<Card>, perm: Seq<int>)
    requires
        is_suit_perm(perm),
        h1.len() == 2,
        h2.len() == 2,
        valid_card(h1[0]),
        valid_card(h1[1]),
        valid_card(h2[0]),
        valid_card(h2[1]),
    ensures
        four_suits(board_deck(h1, h2)),
        board_deck(rename_suits(h1, perm), rename_suits(h2, perm)).to_multiset()
            == rename_suits(board_deck(h1, h2), perm).to_multiset(),
{
    let g1 = rename_suits(h1, perm);
    let g2 = rename_suits(h2, perm);
    let hole = seq![h1[0], h1[1], h2[0], h2[1]];
    let hole2 = seq![g1[0], g1[1], g2[0], g2[1]];
    let d = board_deck(h1, h2);
    let d2 = board_deck(g1, g2);
    lemma_deck_without(hole, 52);
    assert(four_suits(d));
    assert forall|y: Card| #[trigger] d2.to_multiset().count(y) == rename_suits(d, perm).to_multiset().count(
        y,
    ) by {
        lemma_deck_count(hole2, 52, y);
        lemma_rename_count(d, perm, y);
        if y.suit.0 <= 3 {
            let x = unrename_suit(y, perm);
            lemma_deck_count(hole, 52, x);
            lemma_suit_before(perm, y.suit.0 as int);
            lemma_rename_hits(h1[0], y, perm);
            lemma_rename_hits(h1[1], y, perm);
            lemma_rename_hits(h2[0], y, perm);
            lemma_rename_hits(h2[1], y, perm);
            if valid_card(y) {
                lemma_deck_card_complete(y);
                lemma_deck_card_complete(x);
            }
            if hole2.contains(y) {
                let i = choose|i: int| 0 <= i < 4 && hole2[i] == y;
                assert(hole[i] == x);
            }
            if hole.contains(x) {
                let i = choose|i: int| 0 <= i < 4 && hole[i] == x;
                assert(hole2[i] == y);
            }
        } else {
            assert(!valid_card(y));
        }
    }
    assert(d2.to_multiset() =~= rename_suits(d, perm).to_multiset());
}

/// Renaming the suits of both hands alike leaves every tally of the
/// simulation unchanged: the deck left for the board is the renamed deck,
/// and a renamed board scores as the board did.
pub proof fn lemma_rename_suits_tally(h1: Seq<Card>, h2: Seq<Card>, perm: Seq<int>, sel: int)
    requires
        is_suit_perm(perm),
        h1.len() == 2,
        h2.len() == 2,
        valid_card(h1[0]),
        valid_card(h1[1]),
        valid_card(h2[0]),
        valid_card(h2[1]),
    ensures
        board_tally(
            rename_suits(h1, perm),
            rename_suits(h2, perm),
            board_deck(rename_suits(h1, perm), rename_suits(h2, perm)),
            sel,
        ) == board_tally(h1, h2, board_deck(h1, h2), sel),
{
    let g1 = rename_suits(h1, perm);
    let g2 = rename_suits(h2, perm);
    let d = board_deck(h1, h2);
    let d2 = board_deck(g1, g2);
    lemma_renamed_deck(h1, h2, perm);
    lemma_tally_is_choose(g1, g2, d2, sel);
    lemma_tally_is_choose(h1, h2, d, sel);
    lemma_choose_order(g1, g2, sel, d2, rename_suits(d, perm), 5, seq![]);
    assert(four_suits(h1) && four_suits(h2)) by {
        assert forall|i: int| 0 <= i < h1.len() implies (#[trigger] h1[i]).suit.0 <= 3 by {
            assert(valid_card(h1[i]));
        }
        assert forall|i: int| 0 <= i < h2.len() implies (#[trigger] h2[i]).suit.0 <= 3 by {
            assert(valid_card(h2[i]));
        }
    }
    assert(rename_suits(seq![], perm) =~= Seq::<Card>::empty());
    lemma_choose_rename(h1, h2, sel, d, 5, seq![], perm);
}

/// Mirror hands, each the other with its suits renamed, such as Ah Kh
/// against Ac Kc, win equally often.
pub proof fn lemma_mirror_hands_win_equally(h1: Seq<Card>, h2: Seq<Card>, perm: Seq<int>)
    requires
        is_suit_perm(perm),
        h1.len() == 2,
        h2.len() == 2,
        valid_card(h1[0]),
        valid_card(h1[1]),
        valid_card(h2[0]),
        valid_card(h2[1]),
        rename_suits(h1, perm) == h2,
        rename_suits(h2, perm) == h1,
    ensures
        board_tally(h1, h2, board_deck(h1, h2), 1) == board_tally(h1, h2, board_deck(h1, h2), -1),
{
    lemma_rename_suits_tally(h1, h2, perm, 1);
    lemma_swap_hands(h1, h2);
}

} // verus!
