use pocketduel::card::Card;
use pocketduel::eval::{
    best_5_from_7, eval_5, eval_7, FLUSH, FOUR_OF_A_KIND, FULL_HOUSE, HIGH_CARD, ONE_PAIR,
    STRAIGHT, STRAIGHT_FLUSH, THREE_OF_A_KIND, TWO_PAIR,
};

fn c(s: &str) -> Card {
    Card::parse(s).unwrap()
}

fn hand(cards: [&str; 5]) -> [Card; 5] {
    [c(cards[0]), c(cards[1]), c(cards[2]), c(cards[3]), c(cards[4])]
}

#[test]
fn test_high_card() {
    let h = hand(["2h", "4d", "6c", "8s", "Th"]);
    let score = eval_5(&h);
    assert_eq!(score.0 >> 40, HIGH_CARD);
}

#[test]
fn test_one_pair() {
    let h = hand(["2h", "2d", "6c", "8s", "Th"]);
    let score = eval_5(&h);
    assert_eq!(score.0 >> 40, ONE_PAIR);
}

#[test]
fn test_two_pair() {
    let h = hand(["2h", "2d", "6c", "6s", "Th"]);
    let score = eval_5(&h);
    assert_eq!(score.0 >> 40, TWO_PAIR);
}

#[test]
fn test_three_of_a_kind() {
    let h = hand(["2h", "2d", "2c", "6s", "Th"]);
    let score = eval_5(&h);
    assert_eq!(score.0 >> 40, THREE_OF_A_KIND);
}

#[test]
fn test_straight() {
    let h = hand(["2h", "3d", "4c", "5s", "6h"]);
    let score = eval_5(&h);
    assert_eq!(score.0 >> 40, STRAIGHT);
    // high card is 6
    assert_eq!((score.0 >> 32) & 0xff, 6);
}

#[test]
fn test_wheel_straight() {
    let h = hand(["Ah", "2d", "3c", "4s", "5h"]);
    let score = eval_5(&h);
    assert_eq!(score.0 >> 40, STRAIGHT);
    // wheel high is 5
    assert_eq!((score.0 >> 32) & 0xff, 5);
}

#[test]
fn test_wheel_scores_lower_than_six_high() {
    let wheel = eval_5(&hand(["Ah", "2d", "3c", "4s", "5h"]));
    let six_high = eval_5(&hand(["2h", "3d", "4c", "5s", "6h"]));
    assert!(wheel < six_high);
}

#[test]
fn test_flush() {
    let h = hand(["2h", "4h", "6h", "8h", "Th"]);
    let score = eval_5(&h);
    assert_eq!(score.0 >> 40, FLUSH);
}

#[test]
fn test_full_house() {
    let h = hand(["2h", "2d", "2c", "6s", "6h"]);
    let score = eval_5(&h);
    assert_eq!(score.0 >> 40, FULL_HOUSE);
}

#[test]
fn test_four_of_a_kind() {
    let h = hand(["2h", "2d", "2c", "2s", "6h"]);
    let score = eval_5(&h);
    assert_eq!(score.0 >> 40, FOUR_OF_A_KIND);
}

#[test]
fn test_straight_flush() {
    let h = hand(["2h", "3h", "4h", "5h", "6h"]);
    let score = eval_5(&h);
    assert_eq!(score.0 >> 40, STRAIGHT_FLUSH);
}

#[test]
fn test_royal_flush_beats_straight_flush() {
    let royal = eval_5(&hand(["Th", "Jh", "Qh", "Kh", "Ah"]));
    let sf = eval_5(&hand(["2h", "3h", "4h", "5h", "6h"]));
    assert!(royal > sf);
}

#[test]
fn test_hand_ordering() {
    let sf = eval_5(&hand(["2h", "3h", "4h", "5h", "6h"]));
    let quads = eval_5(&hand(["2h", "2d", "2c", "2s", "6h"]));
    let fh = eval_5(&hand(["2h", "2d", "2c", "6s", "6h"]));
    let flush = eval_5(&hand(["2h", "4h", "6h", "8h", "Th"]));
    let straight = eval_5(&hand(["2h", "3d", "4c", "5s", "6h"]));
    let trips = eval_5(&hand(["2h", "2d", "2c", "6s", "Th"]));
    let two_pair = eval_5(&hand(["2h", "2d", "6c", "6s", "Th"]));
    let one_pair = eval_5(&hand(["2h", "2d", "6c", "8s", "Th"]));
    let high_card = eval_5(&hand(["2h", "4d", "6c", "8s", "Th"]));

    assert!(sf > quads);
    assert!(quads > fh);
    assert!(fh > flush);
    assert!(flush > straight);
    assert!(straight > trips);
    assert!(trips > two_pair);
    assert!(two_pair > one_pair);
    assert!(one_pair > high_card);
}

#[test]
fn test_best_5_from_7() {
    // Royal flush hidden in 7 cards
    let cards = [c("Th"), c("Jh"), c("Qh"), c("Kh"), c("Ah"), c("2d"), c("3c")];
    let score = best_5_from_7(&cards);
    assert_eq!(score.0 >> 40, STRAIGHT_FLUSH);
}

// eval_7 tests: verify it matches the best_5_from_7 reference
fn seven(cards: [&str; 7]) -> [Card; 7] {
    [
        c(cards[0]),
        c(cards[1]),
        c(cards[2]),
        c(cards[3]),
        c(cards[4]),
        c(cards[5]),
        c(cards[6]),
    ]
}

fn check_eval7(cards: [&str; 7]) {
    let h = seven(cards);
    assert_eq!(eval_7(&h), best_5_from_7(&h), "eval_7 mismatch for {:?}", cards);
}

#[test]
fn test_eval7_straight_flush() {
    check_eval7(["2h", "3h", "4h", "5h", "6h", "Kd", "Ac"]);
}

#[test]
fn test_eval7_royal_flush() {
    check_eval7(["Th", "Jh", "Qh", "Kh", "Ah", "2d", "3c"]);
}

#[test]
fn test_eval7_four_of_a_kind() {
    check_eval7(["Ah", "Ad", "Ac", "As", "Kh", "Qd", "Jc"]);
}

#[test]
fn test_eval7_full_house() {
    check_eval7(["Ah", "Ad", "Ac", "Kh", "Kd", "Qd", "Jc"]);
}

#[test]
fn test_eval7_two_trips() {
    // Two trips: the best full house uses the higher trips
    check_eval7(["Ah", "Ad", "Ac", "Kh", "Kd", "Kc", "Qd"]);
}

#[test]
fn test_eval7_flush() {
    check_eval7(["2h", "4h", "6h", "8h", "Th", "Kd", "Ac"]);
}

#[test]
fn test_eval7_flush_six_cards() {
    check_eval7(["2h", "4h", "6h", "8h", "Th", "Kh", "Ac"]);
}

#[test]
fn test_eval7_straight() {
    check_eval7(["2h", "3d", "4c", "5s", "6h", "Kd", "Ac"]);
}

#[test]
fn test_eval7_wheel() {
    check_eval7(["Ah", "2d", "3c", "4s", "5h", "Kd", "Qc"]);
}

#[test]
fn test_eval7_three_of_a_kind() {
    check_eval7(["Ah", "Ad", "Ac", "2s", "4h", "6d", "8c"]);
}

#[test]
fn test_eval7_two_pair() {
    check_eval7(["Ah", "Ad", "Kh", "Kd", "Qh", "Jd", "Tc"]);
}

#[test]
fn test_eval7_three_pairs() {
    check_eval7(["Ah", "Ad", "Kh", "Kd", "Qh", "Qd", "Jc"]);
}

#[test]
fn test_eval7_one_pair() {
    check_eval7(["Ah", "Ad", "2h", "3d", "4c", "5s", "7h"]);
}

#[test]
fn test_eval7_high_card() {
    check_eval7(["Ah", "Kd", "Qc", "Js", "9h", "7d", "2c"]);
}

#[test]
fn test_eval7_straight_flush_vs_flush() {
    // 5 hearts including a straight: a straight flush, not a flush
    check_eval7(["6h", "7h", "8h", "9h", "Th", "2d", "3c"]);
}

#[test]
fn test_eval7_wheel_straight_flush() {
    check_eval7(["Ah", "2h", "3h", "4h", "5h", "Kd", "Qc"]);
}

// --- exact scores ---

fn packed(cat: u64, t: [u64; 5]) -> u64 {
    (cat << 40) | (t[0] << 32) | (t[1] << 24) | (t[2] << 16) | (t[3] << 8) | t[4]
}

#[test]
fn test_eval5_exact_scores() {
    assert_eq!(eval_5(&hand(["2h", "4d", "6c", "8s", "Th"])).0, packed(HIGH_CARD, [10, 8, 6, 4, 2]));
    assert_eq!(eval_5(&hand(["Ah", "2d", "3c", "4s", "5h"])).0, packed(STRAIGHT, [5, 0, 0, 0, 0]));
    assert_eq!(eval_5(&hand(["2h", "2d", "2c", "2s", "6h"])).0, packed(FOUR_OF_A_KIND, [2, 6, 0, 0, 0]));
    assert_eq!(eval_5(&hand(["2h", "2d", "6c", "6s", "Th"])).0, packed(TWO_PAIR, [6, 2, 10, 0, 0]));
    assert_eq!(eval_5(&hand(["Kh", "Kd", "6c", "8s", "Th"])).0, packed(ONE_PAIR, [13, 10, 8, 6, 0]));
    assert_eq!(eval_5(&hand(["2h", "2d", "2c", "6s", "6h"])).0, packed(FULL_HOUSE, [2, 6, 0, 0, 0]));
    assert_eq!(eval_5(&hand(["2h", "9h", "6h", "Jh", "Th"])).0, packed(FLUSH, [11, 10, 9, 6, 2]));
    assert_eq!(eval_5(&hand(["Th", "Jh", "Qh", "Kh", "Ah"])).0, packed(STRAIGHT_FLUSH, [14, 0, 0, 0, 0]));
}

#[test]
fn test_eval7_exact_scores() {
    // quads take the best other rank as kicker, here from a pair
    let h = seven(["Ah", "Ad", "Ac", "As", "Kh", "Kd", "Qc"]);
    assert_eq!(eval_7(&h).0, packed(FOUR_OF_A_KIND, [14, 13, 0, 0, 0]));
    // three pairs: the third pair gives the kicker
    let h = seven(["Ah", "Ad", "Kh", "Kd", "Qh", "Qd", "2c"]);
    assert_eq!(eval_7(&h).0, packed(TWO_PAIR, [14, 13, 12, 0, 0]));
    // two trips make a full house of the higher over the lower
    let h = seven(["2h", "2d", "2c", "Kh", "Kd", "Kc", "Qd"]);
    assert_eq!(eval_7(&h).0, packed(FULL_HOUSE, [13, 2, 0, 0, 0]));
    // six of a suit: the five highest make the flush
    let h = seven(["2h", "4h", "6h", "8h", "Th", "Kh", "Ac"]);
    assert_eq!(eval_7(&h).0, packed(FLUSH, [13, 10, 8, 6, 4]));
    // a straight flush below a higher plain straight
    let h = seven(["5h", "6h", "7h", "8h", "9h", "Td", "Jc"]);
    assert_eq!(eval_7(&h).0, packed(STRAIGHT_FLUSH, [9, 0, 0, 0, 0]));
    // the best of two straights
    let h = seven(["Ah", "2d", "3c", "4s", "5h", "6d", "Kc"]);
    assert_eq!(eval_7(&h).0, packed(STRAIGHT, [6, 0, 0, 0, 0]));
}

#[test]
fn test_eval7_matches_best_of_21_on_more_hands() {
    check_eval7(["Ah", "Ad", "Ac", "Kh", "Kd", "Kc", "Qd"]);
    check_eval7(["2h", "2d", "2c", "Kh", "Kd", "Kc", "Qd"]);
    check_eval7(["2h", "4h", "6h", "8h", "Th", "Kh", "Ah"]);
    check_eval7(["5h", "6h", "7h", "8h", "9h", "Td", "Jc"]);
    check_eval7(["Ah", "Ad", "Ac", "As", "2h", "2d", "2c"]);
    check_eval7(["Ah", "Ad", "Kh", "Kd", "Qh", "Qd", "2c"]);
    check_eval7(["Ah", "2d", "3c", "4s", "5h", "6d", "Kc"]);
    check_eval7(["9h", "9d", "Tc", "Js", "Qh", "Kd", "2c"]);
    check_eval7(["3h", "7d", "9c", "Js", "Kh", "2d", "4c"]);
    check_eval7(["Ah", "Kh", "Qh", "Jh", "9h", "Td", "Tc"]);
}

#[test]
fn test_score_ignores_order_and_suit_names() {
    let a = seven(["Ah", "Kh", "Qh", "Jh", "9h", "Td", "Tc"]);
    let mut rev = a;
    rev.reverse();
    assert_eq!(eval_7(&a), eval_7(&rev));
    // hearts and spades swap names
    let b = seven(["As", "Ks", "Qs", "Js", "9s", "Td", "Tc"]);
    assert_eq!(eval_7(&a), eval_7(&b));
    let f = hand(["2h", "9h", "6h", "Jh", "Th"]);
    let g = hand(["Tc", "Jc", "6c", "9c", "2c"]);
    assert_eq!(eval_5(&f), eval_5(&g));
}

#[test]
fn test_score_bytes_in_range() {
    for cards in [
        seven(["Ah", "Ad", "Ac", "As", "Kh", "Kd", "Qc"]),
        seven(["2h", "3d", "4c", "5s", "7h", "8d", "Tc"]),
        seven(["5h", "6h", "7h", "8h", "9h", "Td", "Jc"]),
    ] {
        let x = eval_7(&cards).0;
        assert!(x < 1 << 44);
        assert!(x >> 40 <= 8);
        for k in 0..5 {
            let t = (x >> (8 * k)) & 0xff;
            assert!(t == 0 || (2..=14).contains(&t));
        }
    }
}
