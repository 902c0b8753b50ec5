use bricks::camel::part1::Part1Card;
use bricks::camel::part2::Part2Card;
use bricks::camel::part1::get_hand_type;
use bricks::camel::HandType::{
    FiveOfAKind, FourOfAKind, FullHouse, HighCard, OnePair, ThreeOfAKind, TwoPair,
};
use bricks::camel::Label::{Ace, Jack, King, Number, Queen, Ten};
use bricks::camel::{parse_hand, parse_input, parse_line, Card, Hand, HandType, Label};

fn get_example() -> &'static str {
    "32T3K 765\nT55J5 684\nKK677 28\nKTJJT 220\nQQQJA 483\n"
}

#[test]
fn test_card_ordering() {
    fn card(value: Label) -> Part1Card {
        Part1Card { value: value }
    }
    assert!(card(Number('3')) > card(Number('2')));
    assert!(card(Number('4')) > card(Number('3')));
    assert!(card(Number('5')) > card(Number('4')));
    assert!(card(Number('6')) > card(Number('5')));
    assert!(card(Number('7')) > card(Number('6')));
    assert!(card(Number('8')) > card(Number('7')));
    assert!(card(Number('9')) > card(Number('8')));
    assert!((card(Ten)) > card(Number('9')));
    assert!(card(Jack) > card(Ten));
    assert!(card(Queen) > card(Jack));
    assert!(card(King) > card(Queen));
    assert!(card(Ace) > card(King));
}

#[test]
fn test_hand_comparison() {
    fn parse(s: &str) -> Result<Hand<Part1Card>, bricks::parse::Fail> {
        parse_hand::<Part1Card>(s)
    }
    assert!(parse("32T3K").unwrap() < parse("KTJJT").unwrap());
    assert!(parse("KTJJT").unwrap() < parse("KK677").unwrap());
    assert!(parse("KK677").unwrap() < parse("T55J5").unwrap());
    assert!(parse("T55J5").unwrap() < parse("QQQJA").unwrap());
}

#[test]
fn test_parse_line() {
    fn card(value: Label) -> Part1Card {
        Part1Card { value: value }
    }
    assert_eq!(
        parse_line::<Part1Card>("KTJJT 220"),
        Ok((
            Hand {
                hand_type: HandType::TwoPair,
                cards: [card(King), card(Ten), card(Jack), card(Jack), card(Ten),],
            },
            220
        ))
    );
}

#[test]
fn test_hand_type() {
    fn parse(s: &str) -> Hand<Part2Card> {
        parse_hand::<Part2Card>(s).expect("hand should be valid")
    }
    assert_eq!(parse("32T3K").get_type(), HandType::OnePair);
    assert_eq!(parse("KK677").get_type(), HandType::TwoPair);

    assert_eq!(parse("T55J5").get_type(), HandType::FourOfAKind);
    assert_eq!(parse("KTJJT").get_type(), HandType::FourOfAKind);
    assert_eq!(parse("QQQJA").get_type(), HandType::FourOfAKind);
}

#[test]
fn main_test_hand_comparison() {
    fn parse(s: &str) -> Hand<Part2Card> {
        parse_hand::<Part2Card>(s).expect("hand should be valid")
    }
    assert!(parse("32T3K") < parse("KK677"));

    assert!(parse("KK677") < parse("T55J5"));

    assert!(parse("T55J5") < parse("QQQJA"));
    assert!(parse("QQQJA") < parse("KTJJT"));

    assert!(parse("JKKK2") < parse("QQQQ2"));

    assert!(parse("JJJJJ") < parse("22222"));
}

#[test]
fn test_hand_type_ordering() {
    assert!(OnePair > HighCard);
    assert!(TwoPair > OnePair);
}

fn run_test_parse_input_part<C>()
where
    C: Card + From<Label> + PartialEq + std::fmt::Debug,
{
    let input: Vec<(Hand<C>, u32)> =
        parse_input::<C>(get_example()).expect("example should be valid");
    assert_eq!(input.len(), 5);

    fn card<C: Card + From<Label>>(value: Label) -> C {
        C::from(value)
    }

    let expected_first_hand: Hand<C> = Hand::<C> {
        hand_type: OnePair,
        cards: [
            card(Number('3')),
            card(Number('2')),
            card(Ten),
            card(Number('3')),
            card(King),
        ],
    };

    assert_eq!((expected_first_hand, 765), input[0]);
}

#[test]
fn test_parse_input_part1() {
    run_test_parse_input_part::<Part1Card>()
}

#[test]
fn test_parse_input_part2() {
    run_test_parse_input_part::<Part2Card>()
}

#[test]
fn hand_type_examples() {
    assert_eq!(get_hand_type("AAAAA"), Ok(FiveOfAKind));
    assert_eq!(get_hand_type("AA8AA"), Ok(FourOfAKind));
    assert_eq!(get_hand_type("23332"), Ok(FullHouse));
    assert_eq!(get_hand_type("TTT98"), Ok(ThreeOfAKind));
    assert_eq!(get_hand_type("23432"), Ok(TwoPair));
    assert_eq!(get_hand_type("A23A4"), Ok(OnePair));
    assert_eq!(get_hand_type("23456"), Ok(HighCard));
    assert!(get_hand_type("").is_err());
    assert!(get_hand_type("4444").is_err());
    assert!(get_hand_type("666666").is_err());
}

#[test]
fn invalid_hands_are_rejected() {
    assert!(parse_hand::<Part1Card>("11111").is_err());
    assert!(parse_hand::<Part1Card>("qqqqq").is_err());
    assert!(parse_line::<Part1Card>("KTJJT").is_err());
    assert!(parse_line::<Part1Card>("KTJJT x").is_err());
    assert_eq!(bricks::camel::part2::get_hand_type("JJJJJ"), Ok(HandType::FiveOfAKind));
}

#[test]
fn test_solve() {
    assert_eq!(bricks::camel::part1::solve(get_example()), 6440);
}

#[test]
fn main_test_solve() {
    assert_eq!(bricks::camel::part2::solve(get_example()), 5905);
}
