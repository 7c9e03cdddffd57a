use std::collections::HashSet;

use pocketduel::card::{full_deck, parse_hand, parse_hand_any, Card};

fn empty() -> Vec<Card> {
    Vec::new()
}

#[test]
fn test_parse_card() {
    let c = Card::parse("Ah").unwrap();
    assert_eq!(c.rank.0, 14);
    assert_eq!(c.suit.0, 0);

    let c = Card::parse("Ts").unwrap();
    assert_eq!(c.rank.0, 10);
    assert_eq!(c.suit.0, 3);

    let c = Card::parse("2c").unwrap();
    assert_eq!(c.rank.0, 2);
    assert_eq!(c.suit.0, 2);
}

#[test]
fn test_parse_card_case_insensitive() {
    let c = Card::parse("ah").unwrap();
    assert_eq!(c.rank.0, 14);
    let c = Card::parse("tS").unwrap();
    assert_eq!(c.rank.0, 10);
    assert_eq!(c.suit.0, 3);
}

#[test]
fn test_parse_hand_no_space() {
    let h = parse_hand("AhKh").unwrap();
    assert_eq!(h[0].rank.0, 14);
    assert_eq!(h[1].rank.0, 13);
}

#[test]
fn test_parse_hand_with_space() {
    let h = parse_hand("Ah Kh").unwrap();
    assert_eq!(h[0].rank.0, 14);
    assert_eq!(h[1].rank.0, 13);
}

#[test]
fn test_full_deck() {
    let deck = full_deck();
    assert_eq!(deck.len(), 52);
    let set: HashSet<Card> = deck.iter().cloned().collect();
    assert_eq!(set.len(), 52);
}

// --- parse_hand_any tests ---

#[test]
fn test_shorthand_pair() {
    let h = parse_hand_any("AA", &empty()).unwrap();
    assert_eq!(h[0].rank.0, 14);
    assert_eq!(h[1].rank.0, 14);
    assert_ne!(h[0].suit, h[1].suit);
}

#[test]
fn test_shorthand_suited() {
    let h = parse_hand_any("AKs", &empty()).unwrap();
    assert_eq!(h[0].rank.0, 14);
    assert_eq!(h[1].rank.0, 13);
    assert_eq!(h[0].suit, h[1].suit);
}

#[test]
fn test_shorthand_offsuit() {
    let h = parse_hand_any("KQo", &empty()).unwrap();
    assert_eq!(h[0].rank.0, 13);
    assert_eq!(h[1].rank.0, 12);
    assert_ne!(h[0].suit, h[1].suit);
}

#[test]
fn test_shorthand_case_insensitive() {
    let h = parse_hand_any("aks", &empty()).unwrap();
    assert_eq!(h[0].rank.0, 14);
    assert_eq!(h[1].rank.0, 13);
    assert_eq!(h[0].suit, h[1].suit);
}

#[test]
fn test_shorthand_conflict_avoidance() {
    // AKs takes AhKh; AKo should avoid those and pick a different offsuit combo
    let mut used = Vec::new();
    let h1 = parse_hand_any("AKs", &used).unwrap();
    for c in h1.iter() {
        used.push(*c);
    }
    let h2 = parse_hand_any("AKo", &used).unwrap();
    // h2 must not overlap h1
    for c in h2.iter() {
        assert!(!used.contains(c), "conflict: {:?}", c);
    }
    // h2 must be offsuit
    assert_ne!(h2[0].suit, h2[1].suit);
}

#[test]
fn test_shorthand_two_suited_same_ranks() {
    // AKs vs AKs: should pick different suits
    let mut used = Vec::new();
    let h1 = parse_hand_any("AKs", &used).unwrap();
    for c in h1.iter() {
        used.push(*c);
    }
    let h2 = parse_hand_any("AKs", &used).unwrap();
    assert_ne!(h1[0], h2[0]);
    assert_eq!(h2[0].suit, h2[1].suit);
}

#[test]
fn test_concrete_conflict_detected() {
    let mut used = Vec::new();
    let h1 = parse_hand_any("AhKh", &used).unwrap();
    for c in h1.iter() {
        used.push(*c);
    }
    assert!(parse_hand_any("AhQd", &used).is_err());
}

#[test]
fn test_shorthand_two_char_non_pair_error() {
    assert!(parse_hand_any("AK", &empty()).is_err());
}

// --- error messages and round trips ---

#[test]
fn test_card_parse_errors() {
    assert_eq!(Card::parse("A"), Err("card must be 2 characters, got: A".to_string()));
    assert_eq!(Card::parse("Ahh"), Err("card must be 2 characters, got: Ahh".to_string()));
    assert_eq!(Card::parse("Xh"), Err("unknown rank 'X'".to_string()));
    assert_eq!(Card::parse("xh"), Err("unknown rank 'X'".to_string()));
    assert_eq!(Card::parse("Ax"), Err("unknown suit 'x'".to_string()));
    assert_eq!(Card::parse("AX"), Err("unknown suit 'x'".to_string()));
}

#[test]
fn test_card_text_round_trip() {
    for card in full_deck() {
        let text = card.to_string();
        assert_eq!(text.len(), 2);
        assert_eq!(Card::parse(&text), Ok(card));
    }
    assert_eq!(Card::parse("Td").unwrap().to_string(), "Td");
    assert_eq!(Card::parse("2c").unwrap().to_string(), "2c");
}

#[test]
fn test_full_deck_order() {
    let deck = full_deck();
    assert_eq!(deck[0], Card::parse("2h").unwrap());
    assert_eq!(deck[12], Card::parse("Ah").unwrap());
    assert_eq!(deck[13], Card::parse("2d").unwrap());
    assert_eq!(deck[26], Card::parse("2c").unwrap());
    assert_eq!(deck[51], Card::parse("As").unwrap());
}

#[test]
fn test_parse_hand_errors() {
    assert_eq!(parse_hand("AhK"), Err("cannot parse hand: AhK".to_string()));
    assert_eq!(
        parse_hand("Ah Kh Qh"),
        Err("hand must have exactly 2 cards, got: Ah Kh Qh".to_string())
    );
    assert_eq!(parse_hand("AhKx"), Err("unknown suit 'x'".to_string()));
    assert_eq!(parse_hand("Ah  Kh").unwrap(), parse_hand("AhKh").unwrap());
}

#[test]
fn test_parse_hand_any_concrete_errors() {
    assert_eq!(
        parse_hand_any("AhAh", &empty()),
        Err("hand contains duplicate cards".to_string())
    );
    let used = vec![Card::parse("Kh").unwrap()];
    assert_eq!(
        parse_hand_any("AhKh", &used),
        Err("card Kh conflicts with the other hand".to_string())
    );
}

#[test]
fn test_parse_hand_any_shorthand_errors() {
    assert_eq!(
        parse_hand_any("AK", &empty()),
        Err("cannot parse 'AK': 2-character hands must be a pair (same rank, e.g. AA)".to_string())
    );
    assert_eq!(
        parse_hand_any("AKx", &empty()),
        Err("cannot parse 'AKx': suffix 'x' not recognized (use 's' for suited or 'o' for offsuit)"
            .to_string())
    );
    assert_eq!(
        parse_hand_any("XK", &empty()),
        Err("cannot parse 'XK': unknown rank 'X'".to_string())
    );
    assert_eq!(
        parse_hand_any("AKQQQ", &empty()),
        Err("cannot parse 'AKQQQ': expected e.g. AhKh, AKs, KQo, or AA".to_string())
    );
}

#[test]
fn test_shorthand_assignment_errors() {
    let p = |s: &str| Card::parse(s).unwrap();
    assert_eq!(
        parse_hand_any("AA", &vec![p("Ah"), p("Ad"), p("Ac")]),
        Err("cannot assign two suits for AA; too many cards already in use".to_string())
    );
    assert_eq!(
        parse_hand_any("AKs", &vec![p("Ah"), p("Ad"), p("Kc"), p("Ks")]),
        Err("cannot assign a suit for AKs; all suited combinations already in use".to_string())
    );
    assert_eq!(
        parse_hand_any("AKo", &vec![p("Ah"), p("Ad"), p("Ac"), p("As")]),
        Err("no available suit for A in AKo".to_string())
    );
    assert_eq!(
        parse_hand_any("AKo", &vec![p("Ad"), p("Ac"), p("As"), p("Kd"), p("Kc"), p("Ks")]),
        Err("no available offsuit assignment for AKo".to_string())
    );
    assert_eq!(
        parse_hand_any("AAs", &empty()),
        Err("cannot assign a suit for AAs; a suited hand needs two different ranks".to_string())
    );
}

#[test]
fn test_offsuit_tries_other_first_suits() {
    let p = |s: &str| Card::parse(s).unwrap();
    // with only Kh free among the kings, the ace moves off hearts
    assert_eq!(
        parse_hand_any("AKo", &vec![p("Kd"), p("Kc"), p("Ks")]).unwrap(),
        [p("Ad"), p("Kh")]
    );
    assert_eq!(parse_hand_any("AAo", &empty()).unwrap(), [p("Ah"), p("Ad")]);
    let h = parse_hand_any("KQo", &vec![p("Kh"), p("Qd"), p("Qc"), p("Qs")]).unwrap();
    assert_eq!(h, [p("Kd"), p("Qh")]);
}

#[test]
fn test_shorthand_lowest_free_suits() {
    let p = |s: &str| Card::parse(s).unwrap();
    assert_eq!(parse_hand_any("AA", &empty()).unwrap(), [p("Ah"), p("Ad")]);
    assert_eq!(parse_hand_any("AA", &vec![p("Ah"), p("Ad")]).unwrap(), [p("Ac"), p("As")]);
    assert_eq!(parse_hand_any("AKs", &empty()).unwrap(), [p("Ah"), p("Kh")]);
    assert_eq!(parse_hand_any("AKs", &vec![p("Kh")]).unwrap(), [p("Ad"), p("Kd")]);
    assert_eq!(parse_hand_any("AKo", &empty()).unwrap(), [p("Ah"), p("Kd")]);
    assert_eq!(parse_hand_any("AKo", &vec![p("Ah"), p("Kh")]).unwrap(), [p("Ad"), p("Kc")]);
    assert_eq!(parse_hand_any("t9S", &empty()).unwrap(), [p("Th"), p("9h")]);
}

#[test]
fn test_hand_case_insensitive() {
    assert_eq!(parse_hand_any("aHkD", &empty()), parse_hand_any("AhKd", &empty()));
    assert_eq!(parse_hand_any("ah kd", &empty()), parse_hand_any("Ah Kd", &empty()));
    assert_eq!(parse_hand_any("kqO", &empty()), parse_hand_any("KQo", &empty()));
    assert_eq!(parse_hand_any("tt", &empty()), parse_hand_any("TT", &empty()));
    assert_eq!(Card::parse("qC"), Card::parse("Qc"));
    assert!(parse_hand_any("aHaH", &empty()).is_err());
    assert!(parse_hand_any("AhAh", &empty()).is_err());
}

#[test]
fn test_four_bytes_split_inside_a_character() {
    // "Aéh" is four bytes whose halves would split the 'é'
    assert_eq!(parse_hand("Aéh"), Err("cannot parse hand: Aéh".to_string()));
    assert_eq!(parse_hand_any("Aéh", &empty()), Err("cannot parse hand: Aéh".to_string()));
    // a four-byte text of two-byte characters splits cleanly and is read as bytes
    assert_eq!(parse_hand("éé"), Err("unknown rank '\u{c3}'".to_string()));
}

#[test]
fn test_parsed_card_name() {
    assert_eq!(Card::parse("tS").unwrap().to_string(), "Ts");
    assert_eq!(Card::parse("aH").unwrap().to_string(), "Ah");
    let odd = Card { rank: pocketduel::card::Rank(15), suit: pocketduel::card::Suit(4) };
    assert_eq!(odd.to_string(), "??");
}
