use bricks::cards::{parse_input, part1, part2, part2_holding, won, Card};

#[test]
fn test_part1_score_0() {
    let c0 = Card {
        have: vec![1].into_iter().collect(),
        winners: vec![2].into_iter().collect(),
    };
    assert_eq!(c0.count_wins(), 0);
    assert_eq!(c0.part1_score(), 0);
}

#[test]
fn test_part1_score_1() {
    let c1 = Card {
        have: vec![1].into_iter().collect(),
        winners: vec![1].into_iter().collect(),
    };
    assert_eq!(c1.count_wins(), 1);
    assert_eq!(c1.part1_score(), 1);
}

#[test]
fn test_part1_score_2() {
    let c2 = Card {
        have: vec![6, 7, 9].into_iter().collect(),
        winners: vec![6, 7, 10].into_iter().collect(),
    };
    assert_eq!(c2.count_wins(), 2);
    assert_eq!(c2.part1_score(), 2);
}

#[test]
fn test_part1_score_3() {
    let c3 = Card {
        have: vec![6, 7, 9].into_iter().collect(),
        winners: vec![6, 7, 9].into_iter().collect(),
    };
    assert_eq!(c3.count_wins(), 3);
    assert_eq!(c3.part1_score(), 4);
}

#[test]
fn score_doubles_per_win() {
    let c = Card {
        have: (1..=6).collect(),
        winners: (1..=40).collect(),
    };
    assert_eq!(c.count_wins(), 6);
    assert_eq!(c.part1_score(), 32);
}


fn example_cards() -> Vec<Card> {
    let rows: [(&[i32], &[i32]); 6] = [
        (&[41, 48, 83, 86, 17], &[83, 86, 6, 31, 17, 9, 48, 53]),
        (&[13, 32, 20, 16, 61], &[61, 30, 68, 82, 17, 32, 24, 19]),
        (&[1, 21, 53, 59, 44], &[69, 82, 63, 72, 16, 21, 14, 1]),
        (&[41, 92, 73, 84, 69], &[59, 84, 76, 51, 58, 5, 54, 83]),
        (&[87, 83, 26, 28, 32], &[88, 30, 70, 12, 93, 22, 82, 36]),
        (&[31, 18, 13, 56, 72], &[74, 77, 10, 23, 35, 67, 36, 11]),
    ];
    rows.iter()
        .map(|(have, winners)| Card {
            have: have.iter().copied().collect(),
            winners: winners.iter().copied().collect(),
        })
        .collect()
}

#[test]
fn example_scores_and_copies() {
    let cards = example_cards();
    assert_eq!(part1(&cards), 13);
    assert_eq!(part2_holding(&cards), vec![1, 2, 4, 8, 14, 1]);
    assert_eq!(part2(&cards), 30);
}

#[test]
fn winning_copies() {
    assert_eq!(won(vec![1, 1, 1, 1], (0, 2)), vec![1, 2, 2, 1]);
    assert_eq!(won(vec![1, 3, 1, 1], (1, 5)), vec![1, 3, 4, 4]);
    assert_eq!(won(vec![2, 1], (1, 0)), vec![2, 1]);
}

#[test]
fn cards_from_text() {
    let input = "Card 1: 41 48 83 86 17 | 83 86  6 31 17  9 48 53\n\
Card 2: 13 32 20 16 61 | 61 30 68 82 17 32 24 19\n\
Card 3:  1 21 53 59 44 | 69 82 63 72 16 21 14  1\n\
Card 4: 41 92 73 84 69 | 59 84 76 51 58  5 54 83\n\
Card 5: 87 83 26 28 32 | 88 30 70 12 93 22 82 36\n\
Card 6: 31 18 13 56 72 | 74 77 10 23 35 67 36 11\n";
    let cards = parse_input(input).expect("example should be valid");
    assert_eq!(cards.len(), 6);
    assert_eq!(part1(&cards), 13);
    assert_eq!(part2(&cards), 30);
    assert!(Card::try_from("Card 1 41 | 3").is_err());
    assert!(Card::try_from("Card 1: 41 3").is_err());
    assert!(Card::try_from("Card 1: 4x | 3").is_err());
}
