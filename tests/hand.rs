use mahjong_hand::hand::{
    decompose_hand, is_chiitoitsu, is_kokushi_13_wait, is_standard_hand, is_winning_hand,
    HandStructure,
};
use mahjong_hand::melds::{find_all_meld_combinations, Meld};
use mahjong_hand::tile::{Honor, Suit, Tile, TileCounts};

fn honor_of(d: u8) -> Honor {
    match d {
        1 => Honor::East,
        2 => Honor::South,
        3 => Honor::West,
        4 => Honor::North,
        5 => Honor::White,
        6 => Honor::Green,
        _ => Honor::Red,
    }
}

/// Builds the count table of a hand written as digits followed by a suit
/// letter, such as "123m456p789s11122z".
fn counts_of(notation: &str) -> TileCounts {
    let mut counts = TileCounts::new();
    let mut digits: Vec<u8> = Vec::new();
    for ch in notation.chars() {
        if let Some(d) = ch.to_digit(10) {
            digits.push(d as u8);
            continue;
        }
        for &d in &digits {
            let t = match ch {
                'm' => Tile::suited(Suit::Man, d),
                'p' => Tile::suited(Suit::Pin, d),
                's' => Tile::suited(Suit::Sou, d),
                'z' => Tile::honor(honor_of(d)),
                _ => panic!("unknown suit letter"),
            };
            counts.add(t);
        }
        digits.clear();
    }
    counts
}

fn meld_tiles(m: &Meld) -> Vec<u8> {
    match m {
        Meld::Koutsu(t) => vec![t.id, t.id, t.id],
        Meld::Shuntsu(t) => vec![t.id, t.id + 1, t.id + 2],
    }
}

#[test]
fn test_chiitoitsu() {
    let counts = counts_of("1122m3344p5566s77z");
    assert!(is_chiitoitsu(&counts));
    assert!(is_winning_hand(&counts));
}

#[test]
fn test_not_chiitoitsu_four_of_kind() {
    let counts = counts_of("1111m22m33p44p55s66s");
    assert!(!is_chiitoitsu(&counts));
}

#[test]
fn test_standard_hand() {
    let counts = counts_of("123m456p789s11122z");
    assert!(is_standard_hand(&counts));
    assert!(is_winning_hand(&counts));
}

#[test]
fn test_all_triplets() {
    let counts = counts_of("111m222p333s44455z");
    assert!(is_standard_hand(&counts));
}

#[test]
fn test_invalid_hand() {
    let counts = counts_of("1234m5678p9s123z");
    assert!(!is_winning_hand(&counts));
}

#[test]
fn test_pinfu_shape() {
    let counts = counts_of("123456m789p234s55z");
    assert!(is_standard_hand(&counts));
}

#[test]
fn test_decompose_simple_hand() {
    let counts = counts_of("123m456p789s11122z");
    let results = decompose_hand(&counts);
    assert_eq!(results.len(), 1);
    match &results[0] {
        HandStructure::Standard { melds, pair } => {
            assert_eq!(melds.len(), 4);
            assert_eq!(*pair, Tile::honor(Honor::South));
        }
        _ => panic!("Expected standard hand"),
    }
}

#[test]
fn test_decompose_chiitoitsu() {
    let counts = counts_of("1122m3344p5566s77z");
    let results = decompose_hand(&counts);
    assert_eq!(results.len(), 1);
    match &results[0] {
        HandStructure::Chiitoitsu { pairs } => {
            assert_eq!(pairs.len(), 7);
        }
        _ => panic!("Expected chiitoitsu"),
    }
}

#[test]
fn test_decompose_multiple_structures() {
    let counts = counts_of("111222333m11155z");
    let results = decompose_hand(&counts);
    assert!(results.len() >= 2, "Expected multiple decompositions, got {}", results.len());
    let has_all_triplets = results.iter().any(|r| match r {
        HandStructure::Standard { melds, .. } => {
            melds.iter().filter(|m| matches!(m, Meld::Koutsu(_))).count() == 4
        }
        _ => false,
    });
    let has_sequences = results.iter().any(|r| match r {
        HandStructure::Standard { melds, .. } => melds.iter().any(|m| matches!(m, Meld::Shuntsu(_))),
        _ => false,
    });
    assert!(has_all_triplets, "Should find all-triplet decomposition");
    assert!(has_sequences, "Should find sequence decomposition");
}

#[test]
fn test_decompose_iipeikou_shape() {
    let counts = counts_of("112233m456p789s55z");
    let results = decompose_hand(&counts);
    assert!(!results.is_empty());
    let has_iipeikou = results.iter().any(|r| match r {
        HandStructure::Standard { melds, .. } => {
            let seq_count = melds
                .iter()
                .filter(|m| **m == Meld::Shuntsu(Tile::suited(Suit::Man, 1)))
                .count();
            seq_count == 2
        }
        _ => false,
    });
    assert!(has_iipeikou, "Should find iipeikou (two identical sequences)");
}

#[test]
fn test_decompose_invalid_hand() {
    let counts = counts_of("1234m5678p9s12355z");
    let results = decompose_hand(&counts);
    assert!(results.is_empty(), "Invalid hand should have no decompositions");
}

#[test]
fn kokushi_hand_decomposes_to_its_pair() {
    let counts = counts_of("19m19p19s12345677z");
    let results = decompose_hand(&counts);
    assert_eq!(results.len(), 1);
    assert_eq!(results[0], HandStructure::Kokushi { pair: Tile::honor(Honor::Red) });
    assert!(is_winning_hand(&counts));
    assert!(!is_kokushi_13_wait(&counts));
}

#[test]
fn kokushi_wait_needs_each_orphan_once() {
    assert!(is_kokushi_13_wait(&counts_of("19m19p19s1234567z")));
    assert!(!is_kokushi_13_wait(&counts_of("19m19p19s1234566z")));
    assert!(!is_kokushi_13_wait(&counts_of("19m19p18s1234567z")));
    assert!(!is_kokushi_13_wait(&TileCounts::new()));
}

#[test]
fn kokushi_with_two_pairs_is_not_winning() {
    let counts = counts_of("119m19p19s1234566z");
    assert!(!is_winning_hand(&counts));
    assert!(decompose_hand(&counts).is_empty());
}

#[test]
fn triplet_and_run_on_same_tile_listed_once() {
    let counts = counts_of("111123m456p789s55z");
    let results = decompose_hand(&counts);
    assert_eq!(results.len(), 1);
    let man1 = Tile::suited(Suit::Man, 1);
    assert_eq!(
        results[0],
        HandStructure::Standard {
            melds: vec![
                Meld::Koutsu(man1),
                Meld::Shuntsu(man1),
                Meld::Shuntsu(Tile::suited(Suit::Pin, 4)),
                Meld::Shuntsu(Tile::suited(Suit::Sou, 7)),
            ],
            pair: Tile::honor(Honor::White),
        }
    );
}

#[test]
fn standard_readings_give_back_the_hand() {
    let counts = counts_of("111222333m11155z");
    let results = decompose_hand(&counts);
    assert_eq!(results.len(), 2);
    for r in &results {
        match r {
            HandStructure::Standard { melds, pair } => {
                let mut again = TileCounts::new();
                again.add(*pair);
                again.add(*pair);
                for m in melds {
                    for id in meld_tiles(m) {
                        again.add(Tile { id });
                    }
                }
                assert_eq!(again.counts, counts.counts);
            }
            _ => panic!("expected only standard readings"),
        }
    }
    assert_ne!(results[0], results[1]);
}

#[test]
fn seven_pairs_listed_in_tile_order() {
    let counts = counts_of("1122m3344p5566s77z");
    let results = decompose_hand(&counts);
    let expected: Vec<Tile> = vec![
        Tile::suited(Suit::Man, 1),
        Tile::suited(Suit::Man, 2),
        Tile::suited(Suit::Pin, 3),
        Tile::suited(Suit::Pin, 4),
        Tile::suited(Suit::Sou, 5),
        Tile::suited(Suit::Sou, 6),
        Tile::honor(Honor::Red),
    ];
    assert_eq!(results, vec![HandStructure::Chiitoitsu { pairs: expected }]);
    assert!(!is_standard_hand(&counts));
}

#[test]
fn seven_pairs_that_also_read_as_melds() {
    let counts = counts_of("112233m445566p77z");
    let results = decompose_hand(&counts);
    assert!(is_chiitoitsu(&counts));
    assert!(is_standard_hand(&counts));
    assert!(results.iter().any(|r| matches!(r, HandStructure::Chiitoitsu { .. })));
    assert!(results.iter().any(|r| matches!(r, HandStructure::Standard { .. })));
}

#[test]
fn winning_agrees_with_decomposition() {
    for hand in [
        "123m456p789s11122z",
        "1234m5678p9s12355z",
        "19m19p19s12345677z",
        "1122m3344p5566s77z",
        "111222333m11155z",
        "11m22m33m44m55m66m77m",
        "1112345678999m",
    ] {
        let counts = counts_of(hand);
        assert_eq!(is_winning_hand(&counts), !decompose_hand(&counts).is_empty());
    }
}

#[test]
fn nine_gates_has_a_reading_for_each_pair_choice() {
    let counts = counts_of("11123455678999m");
    let results = decompose_hand(&counts);
    assert!(is_winning_hand(&counts));
    assert!(!results.is_empty());
    assert!(results.iter().all(|r| matches!(r, HandStructure::Standard { .. })));
}

#[test]
fn tile_identities_and_counts() {
    assert_eq!(Tile::suited(Suit::Man, 1).id, 0);
    assert_eq!(Tile::suited(Suit::Pin, 1).id, 9);
    assert_eq!(Tile::suited(Suit::Sou, 9).id, 26);
    assert_eq!(Tile::honor(Honor::East).id, 27);
    assert_eq!(Tile::honor(Honor::Red).id, 33);
    assert!(Tile::suited(Suit::Sou, 9).is_terminal_or_honor());
    assert!(!Tile::suited(Suit::Pin, 5).is_terminal_or_honor());
    let mut c = TileCounts::new();
    c.add(Tile::honor(Honor::Green));
    c.add(Tile::honor(Honor::Green));
    assert_eq!(c.count(Tile::honor(Honor::Green)), 2);
    assert_eq!(c.count(Tile::honor(Honor::Red)), 0);
}

#[test]
fn readings_come_in_key_order() {
    let results = decompose_hand(&counts_of("111222333m11155z"));
    assert_eq!(results.len(), 2);
    match &results[0] {
        HandStructure::Standard { melds, .. } => {
            assert!(melds.iter().all(|m| matches!(m, Meld::Koutsu(_))))
        }
        _ => panic!("expected a standard reading first"),
    }
    match &results[1] {
        HandStructure::Standard { melds, .. } => assert_eq!(
            melds[0],
            Meld::Shuntsu(Tile::suited(Suit::Man, 1))
        ),
        _ => panic!("expected a standard reading second"),
    }
    let mixed = decompose_hand(&counts_of("112233m445566p77z"));
    assert!(matches!(mixed[0], HandStructure::Chiitoitsu { .. }));
    assert!(mixed[1..].iter().all(|r| matches!(r, HandStructure::Standard { .. })));
}

#[test]
fn zero_melds_from_empty_and_nonempty_tables() {
    let empty = TileCounts::new();
    assert_eq!(find_all_meld_combinations(empty.counts.clone(), 0), vec![Vec::<Meld>::new()]);
    let one = counts_of("5m");
    assert!(find_all_meld_combinations(one.counts.clone(), 0).is_empty());
    assert!(find_all_meld_combinations(empty.counts.clone(), 1).is_empty());
}

#[test]
fn meld_lists_start_at_the_pivot_and_do_not_repeat() {
    let counts = counts_of("111122223333m");
    let lists = find_all_meld_combinations(counts.counts.clone(), 4);
    assert!(!lists.is_empty());
    assert!(lists.len() <= 16);
    let man1 = Tile::suited(Suit::Man, 1);
    for l in &lists {
        assert!(l[0] == Meld::Koutsu(man1) || l[0] == Meld::Shuntsu(man1));
    }
    for i in 0..lists.len() {
        for j in i + 1..lists.len() {
            assert_ne!(lists[i], lists[j]);
        }
    }
}
