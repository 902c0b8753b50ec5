//! Camel cards where jacks are jokers.

use vstd::prelude::*;

use crate::camel::{
    count_of, distinct, label_profile, max_occurrences, occurrences, without_jacks, Card, HandType,
    Label,
};
use crate::camel::part1::{compare_ranks, rank_cmp};
use crate::camel::{entry_keys, line_key, line_ok, parse_input, total_winnings, winnings};
use crate::parse::{chars_of, lines, Fail};

verus! {

/// A card under the second rules: jacks are jokers and rank lowest.
#[derive(Debug, Clone, Copy)]
pub struct Part2Card {
    pub value: Label,
}

/// The rank of a label under the second rules.
pub open spec fn part2_rank(v: Label) -> int {
    match v {
        Label::Jack => 0,
        Label::Number(ch) => if '0' <= ch <= '9' {
            ch as int - '0' as int
        } else {
            0
        },
        Label::Ten => 10,
        Label::Queen => 12,
        Label::King => 13,
        Label::Ace => 14,
    }
}

pub fn part2_label_rank(v: Label) -> (r: u8)
    ensures
        r == part2_rank(v),
{
    match v {
        Label::Jack => 0,
        Label::Number(ch) => if ch >= '0' && ch <= '9' {
            (ch as u32 - '0' as u32) as u8
        } else {
            0
        },
        Label::Ten => 10,
        Label::Queen => 12,
        Label::King => 13,
        Label::Ace => 14,
    }
}

/// The kind of hand when the jokers join the most common other label:
/// `total` cards alike, `kinds` distinct labels other than jokers.
pub open spec fn classify_with_jokers(total: int, kinds: int) -> Option<HandType> {
    if total == 5 {
        Some(HandType::FiveOfAKind)
    } else if total == 4 {
        Some(HandType::FourOfAKind)
    } else if total == 3 && kinds == 2 {
        Some(HandType::FullHouse)
    } else if total == 3 && kinds == 3 {
        Some(HandType::ThreeOfAKind)
    } else if total == 2 && kinds == 4 {
        Some(HandType::OnePair)
    } else if total == 2 && kinds == 3 {
        Some(HandType::TwoPair)
    } else if total == 1 {
        Some(HandType::HighCard)
    } else {
        None
    }
}

/// The kind of hand that `s` shows under the second rules.
pub open spec fn part2_hand_type(s: Seq<char>) -> Option<HandType> {
    let others = without_jacks(s);
    if s.len() != 5 {
        None
    } else if others.len() == 0 {
        Some(HandType::FiveOfAKind)
    } else {
        classify_with_jokers(
            max_occurrences(others, others.len() as int) + occurrences(s, 'J'),
            distinct(others, others.len() as int),
        )
    }
}

/// The kind of hand that `s` shows under the second rules.
pub fn get_hand_type(s: &str) -> (r: Result<HandType, Fail>)
    ensures
        r is Ok <==> part2_hand_type(s@) is Some,
        r matches Ok(t) ==> part2_hand_type(s@) == Some(t),
{
    let cs = chars_of(s);
    let n = cs.len();
    if n != 5 {
        return Err(Fail(String::from_str("a hand has five cards")));
    }
    let mut others: Vec<char> = Vec::new();
    let mut i: usize = 0;
    while i < n
        invariant
            0 <= i <= n,
            n == cs@.len(),
            others@ == without_jacks(cs@.subrange(0, i as int)),
            others@.len() <= i,
        decreases n - i,
    {
        let c = cs[i];
        proof {
            cs@.subrange(0, i as int).lemma_filter_push(c, |c: char| c != 'J');
            assert(cs@.subrange(0, i + 1) =~= cs@.subrange(0, i as int).push(c));
        }
        if c != 'J' {
            others.push(c);
        }
        i = i + 1;
    }
    assert(cs@.subrange(0, n as int) =~= s@);
    if others.len() == 0 {
        return Ok(HandType::FiveOfAKind);
    }
    let jacks = count_of(&cs, n, 'J');
    let (most, kinds) = label_profile(&others);
    proof {
        assert(most <= others@.len() <= 5);
    }
    let total = most + jacks;
    if total == 5 {
        Ok(HandType::FiveOfAKind)
    } else if total == 4 {
        Ok(HandType::FourOfAKind)
    } else if total == 3 && kinds == 2 {
        Ok(HandType::FullHouse)
    } else if total == 3 && kinds == 3 {
        Ok(HandType::ThreeOfAKind)
    } else if total == 2 && kinds == 4 {
        Ok(HandType::OnePair)
    } else if total == 2 && kinds == 3 {
        Ok(HandType::TwoPair)
    } else if total == 1 {
        Ok(HandType::HighCard)
    } else {
        Err(Fail(String::from_str("not a recognised hand")))
    }
}

impl Card for Part2Card {
    open spec fn rank_of(self) -> int {
        part2_rank(self.value)
    }

    open spec fn card_wf(self) -> bool {
        self.value.wf()
    }

    open spec fn rank_of_label(l: Label) -> int {
        part2_rank(l)
    }

    open spec fn hand_type_of(s: Seq<char>) -> Option<HandType> {
        part2_hand_type(s)
    }

    fn rank(&self) -> (r: u8) {
        part2_label_rank(self.value)
    }

    fn of_label(l: Label) -> (r: Part2Card) {
        Part2Card { value: l }
    }

    fn hand_type(s: &str) -> (r: Result<HandType, Fail>) {
        get_hand_type(s)
    }
}

impl From<Label> for Part2Card {
    fn from(v: Label) -> (r: Part2Card)
        ensures
            r == (Part2Card { value: v }),
    {
        Part2Card { value: v }
    }
}

impl vstd::std_specs::convert::FromSpecImpl<Label> for Part2Card {
    open spec fn obeys_from_spec() -> bool {
        true
    }

    open spec fn from_spec(v: Label) -> Part2Card {
        Part2Card { value: v }
    }
}

impl PartialEq for Part2Card {
    fn eq(&self, other: &Part2Card) -> (r: bool)
        ensures
            r == (part2_rank(self.value) == part2_rank(other.value)),
    {
        part2_label_rank(self.value) == part2_label_rank(other.value)
    }
}

impl vstd::std_specs::cmp::PartialEqSpecImpl for Part2Card {
    open spec fn obeys_eq_spec() -> bool {
        true
    }

    open spec fn eq_spec(&self, other: &Part2Card) -> bool {
        part2_rank(self.value) == part2_rank(other.value)
    }
}

impl Eq for Part2Card {
}

impl PartialOrd for Part2Card {
    fn partial_cmp(&self, other: &Part2Card) -> (r: Option<std::cmp::Ordering>)
        ensures
            r == Some(rank_cmp(part2_rank(self.value), part2_rank(other.value))),
    {
        Some(compare_ranks(part2_label_rank(self.value), part2_label_rank(other.value)))
    }
}

impl vstd::std_specs::cmp::PartialOrdSpecImpl for Part2Card {
    open spec fn obeys_partial_cmp_spec() -> bool {
        true
    }

    open spec fn partial_cmp_spec(&self, other: &Part2Card) -> Option<std::cmp::Ordering> {
        Some(rank_cmp(part2_rank(self.value), part2_rank(other.value)))
    }
}

/// The keys of the entries that the lines of `s` describe.
pub open spec fn keys_of(s: Seq<char>) -> Seq<Seq<int>> {
    lines(s).map_values(|l: Seq<char>| line_key::<Part2Card>(l))
}

/// The total winnings of the hands and bids of `s`, one per line.
pub fn solve(s: &str) -> (r: u32)
    requires
        forall|k: int| 0 <= k < lines(s@).len() ==> line_ok::<Part2Card>(#[trigger] lines(s@)[k]),
        winnings(keys_of(s@), lines(s@).len() as int) <= u32::MAX,
    ensures
        r == winnings(keys_of(s@), lines(s@).len() as int),
{
    let hands = match parse_input::<Part2Card>(s) {
        Ok(v) => v,
        Err(_) => {
            return 0;
        },
    };
    assert(entry_keys(hands@) =~= keys_of(s@));
    total_winnings(hands.as_slice())
}

} // verus!
