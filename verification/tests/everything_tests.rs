use std::collections::HashSet;

use pocketduel::card::Card;
use pocketduel::everything::{
    version_meets, all_hand_types, is_complete_text, matchup_file_name, matchup_total, next_matchup,
    resolve_matchup, BatchTally, HandType, MatchupOutcome, CURRENT_VERSION,
};

#[test]
fn test_all_hand_types_count() {
    assert_eq!(all_hand_types().len(), 169);
}

#[test]
fn test_hand_type_names() {
    assert_eq!(HandType::Pair(14).name(), "AA");
    assert_eq!(HandType::Pair(2).name(), "22");
    assert_eq!(HandType::Suited(14, 13).name(), "AKs");
    assert_eq!(HandType::Suited(3, 2).name(), "32s");
    assert_eq!(HandType::Offsuit(13, 12).name(), "KQo");
    assert_eq!(HandType::Offsuit(3, 2).name(), "32o");
}

#[test]
fn test_total_matchups() {
    let n = 169usize;
    assert_eq!(n * (n + 1) / 2, 14_365);
}

#[test]
fn test_all_hand_types_resolvable() {
    // Every hand type should resolve successfully against an empty used set
    for ht in all_hand_types() {
        let result = ht.resolve(&Vec::new());
        assert!(result.is_ok(), "{} failed to resolve: {:?}", ht.name(), result);
    }
}

#[test]
fn test_self_matchup_resolvable() {
    // e.g. AA vs AA should use different suits for each hand
    for ht in all_hand_types() {
        let mut used: Vec<Card> = Vec::new();
        let h1 = ht.resolve(&used).expect("hand1 resolve failed");
        used.extend(h1.iter());
        let h2 = ht.resolve(&used).expect("hand2 resolve failed");
        // All 4 cards must be distinct
        let all = [h1[0], h1[1], h2[0], h2[1]];
        let unique: HashSet<_> = all.iter().collect();
        assert_eq!(unique.len(), 4, "collision in {} vs {}", ht.name(), ht.name());
    }
}

#[test]
fn test_all_matchup_pairs_no_card_collision() {
    // For every (i, j) pair, both hands must resolve to 4 distinct cards.
    let types = all_hand_types();
    let n = types.len();
    for i in 0..n {
        for j in i..n {
            let mut used: Vec<Card> = Vec::new();
            let h1 = types[i]
                .resolve(&used)
                .unwrap_or_else(|e| panic!("i={} ({}) failed: {}", i, types[i].name(), e));
            used.extend(h1.iter());
            let h2 = types[j]
                .resolve(&used)
                .unwrap_or_else(|e| panic!("j={} ({}) failed: {}", j, types[j].name(), e));
            let all = [h1[0], h1[1], h2[0], h2[1]];
            let unique: HashSet<_> = all.iter().collect();
            assert_eq!(
                unique.len(),
                4,
                "card collision: {} vs {}",
                types[i].name(),
                types[j].name()
            );
        }
    }
}

#[test]
fn test_is_complete_version_check() {
    let content = r#"{"version": 1, "other": "data"}"#;
    assert!(is_complete_text(content, 1)); // exact version → complete
    assert!(!is_complete_text(content, 2)); // requires newer version → stale
}

// --- own tests ---

#[test]
fn test_is_complete_text_rejects() {
    assert!(!is_complete_text("not json", 1));
    assert!(!is_complete_text("", 1));
    assert!(!is_complete_text(r#"{"other": 1}"#, 1));
    assert!(!is_complete_text(r#"{"version": "1"}"#, 1));
    assert!(!is_complete_text(r#"{"version": -1}"#, 0));
    assert!(!is_complete_text(r#"{"version": 1.5}"#, 1));
    assert!(!is_complete_text(r#"[1, 2]"#, 0));
    assert!(is_complete_text(r#"{"version": 3}"#, 2));
    assert!(is_complete_text(r#"{"version": 0}"#, 0));
    assert!(is_complete_text(r#"{"version": 1}"#, CURRENT_VERSION));
    // a version beyond u32 still meets every requirement
    assert!(is_complete_text(r#"{"version": 4294967296}"#, 1));
    assert!(is_complete_text(r#"{"version": 18446744073709551615}"#, u32::MAX));
}

#[test]
fn test_matchup_file_name() {
    assert_eq!(matchup_file_name(&HandType::Pair(14), &HandType::Pair(13)), "AA_vs_KK.json");
    assert_eq!(
        matchup_file_name(&HandType::Suited(14, 13), &HandType::Offsuit(7, 2)),
        "AKs_vs_72o.json"
    );
}

#[test]
fn test_resolve_matchup() {
    let p = |s: &str| Card::parse(s).unwrap();
    let (a, b) = resolve_matchup(&HandType::Pair(14), &HandType::Pair(13)).unwrap();
    assert_eq!(a, [p("Ah"), p("Ad")]);
    assert_eq!(b, [p("Kh"), p("Kd")]);
    let (a, b) = resolve_matchup(&HandType::Pair(14), &HandType::Pair(14)).unwrap();
    assert_eq!(a, [p("Ah"), p("Ad")]);
    assert_eq!(b, [p("Ac"), p("As")]);
    let (a, b) = resolve_matchup(&HandType::Suited(14, 13), &HandType::Offsuit(14, 13)).unwrap();
    assert_eq!(a, [p("Ah"), p("Kh")]);
    assert_eq!(b, [p("Ad"), p("Kc")]);
    let bad = resolve_matchup(&HandType::Pair(15), &HandType::Pair(13));
    assert!(bad.is_err());
}

#[test]
fn test_matchup_total() {
    assert_eq!(matchup_total(169), 14_365);
    assert_eq!(matchup_total(0), 0);
    assert_eq!(matchup_total(1), 1);
    assert_eq!(matchup_total(65535), 2_147_450_880);
}

#[test]
fn test_next_matchup_order() {
    assert_eq!(next_matchup(0, 0, 3), Some((0, 1)));
    assert_eq!(next_matchup(0, 2, 3), Some((1, 1)));
    assert_eq!(next_matchup(1, 2, 3), Some((2, 2)));
    assert_eq!(next_matchup(2, 2, 3), None);
    // the run over all hand types visits every matchup once
    let n = all_hand_types().len();
    let mut at = Some((0usize, 0usize));
    let mut visited = 0usize;
    let mut last = (0usize, 0usize);
    while let Some((i, j)) = at {
        assert!(i <= j && j < n);
        visited += 1;
        last = (i, j);
        at = next_matchup(i, j, n);
    }
    assert_eq!(visited, matchup_total(n));
    assert_eq!(last, (n - 1, n - 1));
}

#[test]
fn test_batch_tally() {
    let mut t = BatchTally::new();
    assert_eq!((t.computed, t.skipped, t.errors), (0, 0, 0));
    t.record(MatchupOutcome::Skipped);
    t.record(MatchupOutcome::Computed);
    t.record(MatchupOutcome::Failed);
    t.record(MatchupOutcome::Computed);
    assert_eq!((t.computed, t.skipped, t.errors), (2, 1, 1));
    assert!(!t.report_due(100));
    assert!(t.report_due(3));
    for _ in 0..48 {
        t.record(MatchupOutcome::Computed);
    }
    assert_eq!(t.computed, 50);
    assert!(t.report_due(100));
}

#[test]
fn test_version_meets() {
    assert!(version_meets(Some(1), 1));
    assert!(!version_meets(Some(1), 2));
    assert!(version_meets(Some(1u64 << 32), 1));
    assert!(!version_meets(None, 0));
}
