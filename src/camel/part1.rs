//! Camel cards where jacks are ordinary cards.

use vstd::prelude::*;

use crate::camel::{
    classify, classify_profile, distinct, label_profile, max_occurrences, Card, HandType, Label,
};
use crate::camel::{entry_keys, line_key, line_ok, parse_input, total_winnings, winnings};
use crate::parse::{chars_of, lines, Fail};

verus! {

/// A card under the first rules: jacks rank between tens and queens.
#[derive(Debug, Clone, Copy)]
pub struct Part1Card {
    pub value: Label,
}

/// The rank of a label under the first rules.
pub open spec fn part1_rank(v: Label) -> int {
    match v {
        Label::Number(ch) => if '0' <= ch <= '9' {
            ch as int - '0' as int
        } else {
            0
        },
        Label::Ten => 10,
        Label::Jack => 11,
        Label::Queen => 12,
        Label::King => 13,
        Label::Ace => 14,
    }
}

pub fn part1_label_rank(v: Label) -> (r: u8)
    ensures
        r == part1_rank(v),
{
    match v {
        Label::Number(ch) => if ch >= '0' && ch <= '9' {
            (ch as u32 - '0' as u32) as u8
        } else {
            0
        },
        Label::Ten => 10,
        Label::Jack => 11,
        Label::Queen => 12,
        Label::King => 13,
        Label::Ace => 14,
    }
}

/// The kind of hand that `s` shows under the first rules: five labels,
/// classified by how often the most common one occurs and how many differ.
pub open spec fn part1_hand_type(s: Seq<char>) -> Option<HandType> {
    if s.len() != 5 {
        None
    } else {
        classify(max_occurrences(s, 5), distinct(s, 5))
    }
}

/// The kind of hand that `s` shows under the first rules.
pub fn get_hand_type(s: &str) -> (r: Result<HandType, Fail>)
    ensures
        r is Ok <==> part1_hand_type(s@) is Some,
        r matches Ok(t) ==> part1_hand_type(s@) == Some(t),
{
    let cs = chars_of(s);
    if cs.len() != 5 {
        return Err(Fail(String::from_str("a hand has five cards")));
    }
    let (most, kinds) = label_profile(&cs);
    classify_profile(most, kinds)
}

impl Card for Part1Card {
    open spec fn rank_of(self) -> int {
        part1_rank(self.value)
    }

    open spec fn card_wf(self) -> bool {
        self.value.wf()
    }

    open spec fn rank_of_label(l: Label) -> int {
        part1_rank(l)
    }

    open spec fn hand_type_of(s: Seq<char>) -> Option<HandType> {
        part1_hand_type(s)
    }

    fn rank(&self) -> (r: u8) {
        part1_label_rank(self.value)
    }

    fn of_label(l: Label) -> (r: Part1Card) {
        Part1Card { value: l }
    }

    fn hand_type(s: &str) -> (r: Result<HandType, Fail>) {
        get_hand_type(s)
    }
}

impl From<Label> for Part1Card {
    fn from(v: Label) -> (r: Part1Card)
        ensures
            r == (Part1Card { value: v }),
    {
        Part1Card { value: v }
    }
}

impl vstd::std_specs::convert::FromSpecImpl<Label> for Part1Card {
    open spec fn obeys_from_spec() -> bool {
        true
    }

    open spec fn from_spec(v: Label) -> Part1Card {
        Part1Card { value: v }
    }
}

impl PartialEq for Part1Card {
    fn eq(&self, other: &Part1Card) -> (r: bool)
        ensures
            r == (part1_rank(self.value) == part1_rank(other.value)),
    {
        part1_label_rank(self.value) == part1_label_rank(other.value)
    }
}

impl vstd::std_specs::cmp::PartialEqSpecImpl for Part1Card {
    open spec fn obeys_eq_spec() -> bool {
        true
    }

    open spec fn eq_spec(&self, other: &Part1Card) -> bool {
        part1_rank(self.value) == part1_rank(other.value)
    }
}

impl Eq for Part1Card {
}

/// Cards compare by rank.
pub open spec fn rank_cmp(a: int, b: int) -> std::cmp::Ordering {
    if a < b {
        std::cmp::Ordering::Less
    } else if a > b {
        std::cmp::Ordering::Greater
    } else {
        std::cmp::Ordering::Equal
    }
}

pub fn compare_ranks(a: u8, b: u8) -> (r: std::cmp::Ordering)
    ensures
        r == rank_cmp(a as int, b as int),
{
    if a < b {
        std::cmp::Ordering::Less
    } else if a > b {
        std::cmp::Ordering::Greater
    } else {
        std::cmp::Ordering::Equal
    }
}

impl PartialOrd for Part1Card {
    fn partial_cmp(&self, other: &Part1Card) -> (r: Option<std::cmp::Ordering>)
        ensures
            r == Some(rank_cmp(part1_rank(self.value), part1_rank(other.value))),
    {
        Some(compare_ranks(part1_label_rank(self.value), part1_label_rank(other.value)))
    }
}

impl vstd::std_specs::cmp::PartialOrdSpecImpl for Part1Card {
    open spec fn obeys_partial_cmp_spec() -> bool {
        true
    }

    open spec fn partial_cmp_spec(&self, other: &Part1Card) -> Option<std::cmp::Ordering> {
        Some(rank_cmp(part1_rank(self.value), part1_rank(other.value)))
    }
}

/// The keys of the entries that the lines of `s` describe.
pub open spec fn keys_of(s: Seq<char>) -> Seq<Seq<int>> {
    lines(s).map_values(|l: Seq<char>| line_key::<Part1Card>(l))
}

/// The total winnings of the hands and bids of `s`, one per line.
pub fn solve(s: &str) -> (r: u32)
    requires
        forall|k: int| 0 <= k < lines(s@).len() ==> line_ok::<Part1Card>(#[trigger] lines(s@)[k]),
        winnings(keys_of(s@), lines(s@).len() as int) <= u32::MAX,
    ensures
        r == winnings(keys_of(s@), lines(s@).len() as int),
{
    let hands = match parse_input::<Part1Card>(s) {
        Ok(v) => v,
        Err(_) => {
            return 0;
        },
    };
    assert(entry_keys(hands@) =~= keys_of(s@));
    total_winnings(hands.as_slice())
}

} // verus!
