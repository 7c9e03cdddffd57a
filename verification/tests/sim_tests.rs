use pocketduel::card::Card;
use pocketduel::everything::{resolve_matchup, HandType};
use pocketduel::sim::run_simulation;

fn c(s: &str) -> Card {
    Card::parse(s).unwrap()
}

#[test]
fn test_total_boards() {
    // AA vs KK should enumerate exactly 1,712,304 boards
    let hand1 = [c("Ah"), c("Ad")];
    let hand2 = [c("Kh"), c("Kd")];
    let result = run_simulation(hand1, hand2);
    assert_eq!(result.total, 1_712_304);
    assert_eq!(result.wins1 + result.wins2 + result.ties, result.total);
}

#[test]
fn test_aa_vs_kk_equity() {
    // AA vs KK: AA should win approximately 81-82%
    let hand1 = [c("Ah"), c("Ad")];
    let hand2 = [c("Kh"), c("Kd")];
    let result = run_simulation(hand1, hand2);
    let pct1 = result.wins1 as f64 / result.total as f64 * 100.0;
    // Exact equity: AA wins ~81.9%
    assert!(pct1 > 80.0 && pct1 < 84.0, "AA win% was {:.2}", pct1);
}

#[test]
fn test_mirror_hands_roughly_equal() {
    // AhKh vs AcKc: nearly identical equity
    let hand1 = [c("Ah"), c("Kh")];
    let hand2 = [c("Ac"), c("Kc")];
    let result = run_simulation(hand1, hand2);
    let pct1 = result.wins1 as f64 / result.total as f64 * 100.0;
    let pct2 = result.wins2 as f64 / result.total as f64 * 100.0;
    assert!((pct1 - pct2).abs() < 1.0, "pct1={:.2} pct2={:.2}", pct1, pct2);
}

// --- own tests ---

#[test]
fn test_aa_vs_kk_exact_counts() {
    let result = run_simulation([c("Ah"), c("Ad")], [c("Kh"), c("Kd")]);
    assert_eq!(result.wins1, 1_410_336);
    assert_eq!(result.wins2, 292_660);
    assert_eq!(result.ties, 9_308);
    assert_eq!(result.total, 1_712_304);
}

#[test]
fn test_swapped_hands_swap_wins() {
    let ab = run_simulation([c("Ah"), c("Kh")], [c("Qc"), c("Qd")]);
    let ba = run_simulation([c("Qc"), c("Qd")], [c("Ah"), c("Kh")]);
    assert_eq!(ab.wins1, ba.wins2);
    assert_eq!(ab.wins2, ba.wins1);
    assert_eq!(ab.ties, ba.ties);
    assert_eq!(ab.total, ba.total);
}

#[test]
fn test_resolved_matchup_counts_all_boards() {
    let (a, b) = resolve_matchup(&HandType::Suited(14, 13), &HandType::Offsuit(7, 2)).unwrap();
    let result = run_simulation(a, b);
    assert_eq!(result.total, 1_712_304);
    assert_eq!(result.wins1 + result.wins2 + result.ties, result.total);
}

#[test]
fn test_mirror_hands_win_exactly_equally() {
    let r = run_simulation([c("Ah"), c("Kh")], [c("Ac"), c("Kc")]);
    assert_eq!(r.wins1, r.wins2);
}

#[test]
fn test_renamed_suits_same_tallies() {
    // hearts -> spades, diamonds -> clubs, clubs -> hearts, spades -> diamonds
    let a = run_simulation([c("Ah"), c("Kd")], [c("Qc"), c("Qs")]);
    let b = run_simulation([c("As"), c("Kc")], [c("Qh"), c("Qd")]);
    assert_eq!((a.wins1, a.wins2, a.ties, a.total), (b.wins1, b.wins2, b.ties, b.total));
}
