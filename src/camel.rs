//! Hands of camel cards: labels, kinds of hand, parsing and winnings.

use vstd::prelude::*;

use crate::parse::{chars_of, i64_value, lines, parse_i64, Fail};

pub mod part1;
pub mod part2;

verus! {

/// The label on a card.
#[derive(Debug, Clone, Copy, PartialEq, Eq, Structural)]
pub enum Label {
    Number(char),
    Ten,
    Jack,
    Queen,
    King,
    Ace,
}

/// The label that a character names, if it names one.
pub open spec fn label_of(ch: char) -> Option<Label> {
    if '2' <= ch <= '9' {
        Some(Label::Number(ch))
    } else if ch == 'T' {
        Some(Label::Ten)
    } else if ch == 'J' {
        Some(Label::Jack)
    } else if ch == 'Q' {
        Some(Label::Queen)
    } else if ch == 'K' {
        Some(Label::King)
    } else if ch == 'A' {
        Some(Label::Ace)
    } else {
        None
    }
}

impl Label {
    /// A number label carries a digit from 2 to 9.
    pub open spec fn wf(self) -> bool {
        match self {
            Label::Number(ch) => '2' <= ch <= '9',
            _ => true,
        }
    }

    /// The label that `ch` names.
    pub fn from_char(ch: char) -> (r: Result<Label, Fail>)
        ensures
            r is Ok <==> label_of(ch) is Some,
            r matches Ok(l) ==> label_of(ch) == Some(l) && l.wf(),
    {
        if ch >= '2' && ch <= '9' {
            Ok(Label::Number(ch))
        } else if ch == 'T' {
            Ok(Label::Ten)
        } else if ch == 'J' {
            Ok(Label::Jack)
        } else if ch == 'Q' {
            Ok(Label::Queen)
        } else if ch == 'K' {
            Ok(Label::King)
        } else if ch == 'A' {
            Ok(Label::Ace)
        } else {
            Err(Fail(String::from_str("not a card label")))
        }
    }
}

impl TryFrom<char> for Label {
    type Error = Fail;

    fn try_from(ch: char) -> (r: Result<Label, Fail>)
        ensures
            r is Ok <==> label_of(ch) is Some,
            r matches Ok(l) ==> label_of(ch) == Some(l),
    {
        Label::from_char(ch)
    }
}

impl vstd::std_specs::convert::TryFromSpecImpl<char> for Label {
    open spec fn obeys_try_from_spec() -> bool {
        false
    }

    open spec fn try_from_spec(ch: char) -> Result<Label, Fail> {
        arbitrary()
    }
}

/// The kinds of hand, weakest first.
#[derive(Debug, PartialOrd, Ord, PartialEq, Eq, Structural, Copy, Clone)]
pub enum HandType {
    HighCard,
    OnePair,
    TwoPair,
    ThreeOfAKind,
    FullHouse,
    FourOfAKind,
    FiveOfAKind,
}

/// The strength of a kind of hand, weakest first.
pub open spec fn type_rank(t: HandType) -> int {
    match t {
        HandType::HighCard => 0,
        HandType::OnePair => 1,
        HandType::TwoPair => 2,
        HandType::ThreeOfAKind => 3,
        HandType::FullHouse => 4,
        HandType::FourOfAKind => 5,
        HandType::FiveOfAKind => 6,
    }
}

pub fn hand_type_rank(t: HandType) -> (r: u8)
    ensures
        r == type_rank(t),
{
    match t {
        HandType::HighCard => 0,
        HandType::OnePair => 1,
        HandType::TwoPair => 2,
        HandType::ThreeOfAKind => 3,
        HandType::FullHouse => 4,
        HandType::FourOfAKind => 5,
        HandType::FiveOfAKind => 6,
    }
}

// ---------------------------------------------------------------------------
// Counting labels.
// ---------------------------------------------------------------------------

/// How often `c` occurs in `s`.
pub open spec fn occurrences(s: Seq<char>, c: char) -> int
    decreases s.len(),
{
    if s.len() == 0 {
        0
    } else {
        occurrences(s.drop_last(), c) + if s.last() == c {
            1int
        } else {
            0int
        }
    }
}

/// The greatest number of times that any of the first `k` characters of `s`
/// occurs in `s` (0 when `k` is 0).
pub open spec fn max_occurrences(s: Seq<char>, k: int) -> int
    decreases k,
{
    if k <= 0 {
        0
    } else {
        let prev = max_occurrences(s, k - 1);
        let here = occurrences(s, s[k - 1]);
        if here > prev {
            here
        } else {
            prev
        }
    }
}

/// How many of the first `k` characters of `s` occur there for the first
/// time: the number of distinct characters among them.
pub open spec fn distinct(s: Seq<char>, k: int) -> int
    decreases k,
{
    if k <= 0 {
        0
    } else {
        distinct(s, k - 1) + if occurrences(s.subrange(0, k - 1), s[k - 1]) == 0 {
            1int
        } else {
            0int
        }
    }
}

/// `s` without the jacks.
pub open spec fn without_jacks(s: Seq<char>) -> Seq<char> {
    s.filter(|c: char| c != 'J')
}

pub fn count_of(cs: &Vec<char>, hi: usize, c: char) -> (r: usize)
    requires
        hi <= cs@.len(),
    ensures
        r == occurrences(cs@.subrange(0, hi as int), c),
        r <= hi,
{
    let mut n: usize = 0;
    let mut j: usize = 0;
    while j < hi
        invariant
            0 <= j <= hi <= cs@.len(),
            n == occurrences(cs@.subrange(0, j as int), c),
            n <= j,
        decreases hi - j,
    {
        assert(cs@.subrange(0, j + 1).drop_last() =~= cs@.subrange(0, j as int));
        if cs[j] == c {
            n = n + 1;
        }
        j = j + 1;
    }
    n
}

/// The greatest number of times a label occurs in `cs`, and the number of
/// distinct labels.
pub fn label_profile(cs: &Vec<char>) -> (r: (usize, usize))
    ensures
        r.0 == max_occurrences(cs@, cs@.len() as int),
        r.1 == distinct(cs@, cs@.len() as int),
        r.0 <= cs@.len(),
{
    let n = cs.len();
    let mut most: usize = 0;
    let mut kinds: usize = 0;
    let mut k: usize = 0;
    assert(cs@.subrange(0, n as int) =~= cs@);
    while k < n
        invariant
            0 <= k <= n,
            n == cs@.len(),
            cs@.subrange(0, n as int) == cs@,
            most == max_occurrences(cs@, k as int),
            kinds == distinct(cs@, k as int),
            most <= n,
            kinds <= k,
        decreases n - k,
    {
        let here = count_of(cs, n, cs[k]);
        if here > most {
            most = here;
        }
        let before = count_of(cs, k, cs[k]);
        if before == 0 {
            kinds = kinds + 1;
        }
        k = k + 1;
    }
    (most, kinds)
}

/// The kind of a hand from the greatest number of equal labels and the
/// number of distinct labels; `None` for a combination that five cards
/// cannot show.
pub open spec fn classify(most: int, kinds: int) -> Option<HandType> {
    if most == 5 {
        Some(HandType::FiveOfAKind)
    } else if most == 4 {
        Some(HandType::FourOfAKind)
    } else if most == 3 && kinds == 2 {
        Some(HandType::FullHouse)
    } else if most == 3 && kinds == 3 {
        Some(HandType::ThreeOfAKind)
    } else if most == 2 && kinds == 3 {
        Some(HandType::TwoPair)
    } else if most == 2 && kinds == 4 {
        Some(HandType::OnePair)
    } else if most == 1 {
        Some(HandType::HighCard)
    } else {
        None
    }
}

pub fn classify_profile(most: usize, kinds: usize) -> (r: Result<HandType, Fail>)
    ensures
        r is Ok <==> classify(most as int, kinds as int) is Some,
        r matches Ok(t) ==> classify(most as int, kinds as int) == Some(t),
{
    if most == 5 {
        Ok(HandType::FiveOfAKind)
    } else if most == 4 {
        Ok(HandType::FourOfAKind)
    } else if most == 3 && kinds == 2 {
        Ok(HandType::FullHouse)
    } else if most == 3 && kinds == 3 {
        Ok(HandType::ThreeOfAKind)
    } else if most == 2 && kinds == 3 {
        Ok(HandType::TwoPair)
    } else if most == 2 && kinds == 4 {
        Ok(HandType::OnePair)
    } else if most == 1 {
        Ok(HandType::HighCard)
    } else {
        Err(Fail(String::from_str("not a recognised hand")))
    }
}

// ---------------------------------------------------------------------------
// Cards and hands.
// ---------------------------------------------------------------------------

/// A kind of card: how labels rank and how a hand is classified.
pub trait Card: Sized + Copy {
    /// The rank of the card's label.
    spec fn rank_of(self) -> int;

    /// The card's label is well formed.
    spec fn card_wf(self) -> bool;

    /// The kind of hand that the text `s` shows, under these rules.
    spec fn hand_type_of(s: Seq<char>) -> Option<HandType>;

    /// The rank of a card with label `l`.
    spec fn rank_of_label(l: Label) -> int;

    fn rank(&self) -> (r: u8)
        requires
            self.card_wf(),
        ensures
            r == self.rank_of(),
    ;

    fn of_label(l: Label) -> (r: Self)
        requires
            l.wf(),
        ensures
            r.card_wf(),
            r.rank_of() == Self::rank_of_label(l),
    ;

    fn hand_type(s: &str) -> (r: Result<HandType, Fail>)
        ensures
            r is Ok <==> Self::hand_type_of(s@) is Some,
            r matches Ok(t) ==> Self::hand_type_of(s@) == Some(t),
    ;
}

/// A hand: its kind and its five cards in order.
#[derive(Debug, PartialOrd, PartialEq, Eq)]
pub struct Hand<C> {
    pub hand_type: HandType,
    pub cards: [C; 5],
}

impl<C: Card> Hand<C> {
    pub fn get_type(&self) -> (r: HandType)
        ensures
            r == self.hand_type,
    {
        self.hand_type
    }
}

/// The labels of a text, if every character is one.
pub open spec fn labels_of(s: Seq<char>) -> Option<Seq<Label>>
    decreases s.len(),
{
    if s.len() == 0 {
        Some(Seq::empty())
    } else {
        match (labels_of(s.drop_last()), label_of(s.last())) {
            (Some(ls), Some(l)) => Some(ls.push(l)),
            _ => None,
        }
    }
}

/// A text makes a hand under the rules of `C`: five labels, and a kind.
pub open spec fn hand_ok<C: Card>(s: Seq<char>) -> bool {
    &&& s.len() == 5
    &&& labels_of(s) is Some
    &&& C::hand_type_of(s) is Some
}

/// Reads a hand of five cards.
pub fn parse_hand<C: Card>(s: &str) -> (r: Result<Hand<C>, Fail>)
    ensures
        r is Ok <==> hand_ok::<C>(s@),
        r matches Ok(h) ==> Some(h.hand_type) == C::hand_type_of(s@) && forall|i: int|
            0 <= i < 5 ==> (#[trigger] h.cards@[i]).card_wf() && h.cards@[i].rank_of()
                == C::rank_of_label(labels_of(s@)->0[i]),
{
    let cs = chars_of(s);
    let mut labels: Vec<Label> = Vec::new();
    let mut i: usize = 0;
    while i < cs.len()
        invariant
            0 <= i <= cs@.len(),
            cs@ == s@,
            labels_of(cs@.subrange(0, i as int)) == Some(labels@),
            forall|k: int| 0 <= k < labels@.len() ==> (#[trigger] labels@[k]).wf(),
        decreases cs@.len() - i,
    {
        assert(cs@.subrange(0, i + 1).drop_last() =~= cs@.subrange(0, i as int));
        match Label::from_char(cs[i]) {
            Ok(l) => labels.push(l),
            Err(e) => {
                proof {
                    lemma_labels_extend(cs@, i as int);
                }
                return Err(e);
            },
        }
        i = i + 1;
    }
    assert(cs@.subrange(0, cs@.len() as int) =~= s@);
    proof {
        lemma_labels_len(s@);
    }
    if labels.len() != 5 {
        return Err(Fail(String::from_str("a hand has five cards")));
    }
    let hand_type = match C::hand_type(s) {
        Ok(t) => t,
        Err(e) => {
            return Err(e);
        },
    };
    assert(labels_of(s@) == Some(labels@));
    let cards = [
        C::of_label(labels[0]),
        C::of_label(labels[1]),
        C::of_label(labels[2]),
        C::of_label(labels[3]),
        C::of_label(labels[4]),
    ];
    Ok(Hand { hand_type, cards })
}

proof fn lemma_labels_len(s: Seq<char>)
    ensures
        labels_of(s) matches Some(ls) ==> ls.len() == s.len(),
    decreases s.len(),
{
    if s.len() > 0 {
        lemma_labels_len(s.drop_last());
    }
}

proof fn lemma_labels_extend(s: Seq<char>, i: int)
    requires
        0 <= i < s.len(),
        label_of(s[i]) is None,
    ensures
        labels_of(s) is None,
{
    lemma_labels_none_grows(s, i + 1);
}

proof fn lemma_labels_none_grows(s: Seq<char>, k: int)
    requires
        0 < k <= s.len(),
        label_of(s[k - 1]) is None,
    ensures
        labels_of(s) is None,
    decreases s.len() - k,
{
    if k == s.len() {
        assert(s.drop_last().len() == k - 1);
    } else {
        lemma_labels_none_grows(s.drop_last(), k);
        assert(s.drop_last()[k - 1] == s[k - 1]);
    }
}

/// The bid that a text spells: a number from 0 to `u32::MAX`.
pub open spec fn bid_value(s: Seq<char>) -> Option<u32> {
    match i64_value(s) {
        Some(v) => if 0 <= v <= u32::MAX {
            Some(v as u32)
        } else {
            None
        },
        None => None,
    }
}

/// A line `hand bid` that reads under the rules of `C`.
pub open spec fn line_ok<C: Card>(s: Seq<char>) -> bool {
    let i = crate::parse::first_at(s, ' ');
    &&& i < s.len()
    &&& hand_ok::<C>(s.subrange(0, i))
    &&& bid_value(s.subrange(i + 1, s.len() as int)) is Some
}

/// The key of the entry that a line `hand bid` describes: kind, the ranks
/// of the five cards, bid.
pub open spec fn line_key<C: Card>(l: Seq<char>) -> Seq<int> {
    let i = crate::parse::first_at(l, ' ');
    let h = l.subrange(0, i);
    let ls = labels_of(h)->0;
    seq![
        type_rank(C::hand_type_of(h)->0),
        C::rank_of_label(ls[0]),
        C::rank_of_label(ls[1]),
        C::rank_of_label(ls[2]),
        C::rank_of_label(ls[3]),
        C::rank_of_label(ls[4]),
        bid_value(l.subrange(i + 1, l.len() as int))->0 as int,
    ]
}

/// Every card of the entry has a well-formed label.
pub open spec fn entry_wf<C: Card>(e: (Hand<C>, u32)) -> bool {
    forall|i: int| 0 <= i < 5 ==> (#[trigger] e.0.cards@[i]).card_wf()
}

/// Reads a line `hand bid`.
pub fn parse_line<C: Card>(s: &str) -> (r: Result<(Hand<C>, u32), Fail>)
    ensures
        r is Ok <==> line_ok::<C>(s@),
        r matches Ok(e) ==> entry_key(e) == line_key::<C>(s@) && entry_wf(e),
        r matches Ok((h, b)) ==> {
            let i = crate::parse::first_at(s@, ' ');
            &&& Some(h.hand_type) == C::hand_type_of(s@.subrange(0, i))
            &&& Some(b) == bid_value(s@.subrange(i + 1, s@.len() as int))
        },
{
    let cs = chars_of(s);
    let n = cs.len();
    assert(cs@.subrange(0, n as int) =~= s@);
    let i = crate::parse::find_char(&cs, 0, n, ' ');
    if i == n {
        return Err(Fail(String::from_str("expected a space between hand and bid")));
    }
    let hand_text = crate::parse::string_from(&cs, 0, i);
    let hand = match parse_hand::<C>(hand_text.as_str()) {
        Ok(h) => h,
        Err(e) => {
            return Err(e);
        },
    };
    match parse_i64(&cs, i + 1, n) {
        Some(v) => if v >= 0 && v <= 4294967295 {
            assert(entry_key((hand, v as u32)) =~= line_key::<C>(s@));
            Ok((hand, v as u32))
        } else {
            Err(Fail(crate::parse::string_from(&cs, i + 1, n)))
        },
        None => Err(Fail(crate::parse::string_from(&cs, i + 1, n))),
    }
}

/// Reads one `hand bid` line per line of `s`.
pub fn parse_input<C: Card>(s: &str) -> (r: Result<Vec<(Hand<C>, u32)>, Fail>)
    ensures
        r is Ok <==> forall|k: int| 0 <= k < lines(s@).len() ==> line_ok::<C>(#[trigger] lines(s@)[k]),
        r matches Ok(v) ==> v@.len() == lines(s@).len() && forall|k: int|
            0 <= k < v@.len() ==> entry_key(#[trigger] v@[k]) == line_key::<C>(lines(s@)[k])
                && entry_wf(v@[k]),
{
    let cs = chars_of(s);
    let n = cs.len();
    let mut out: Vec<(Hand<C>, u32)> = Vec::new();
    let mut pos: usize = 0;
    let ghost mut done: Seq<Seq<char>> = Seq::empty();
    assert(cs@.subrange(0, n as int) =~= s@);
    assert(done + lines(cs@.subrange(0, n as int)) =~= lines(s@));
    while pos < n
        invariant
            cs@ == s@,
            n == cs@.len(),
            0 <= pos <= n,
            lines(s@) == done + lines(cs@.subrange(pos as int, n as int)),
            out@.len() == done.len(),
            forall|k: int| 0 <= k < done.len() ==> line_ok::<C>(#[trigger] done[k]),
            forall|k: int|
                0 <= k < done.len() ==> entry_key(#[trigger] out@[k]) == line_key::<C>(done[k])
                    && entry_wf(out@[k]),
        decreases n - pos,
    {
        let e = crate::parse::find_char(&cs, pos, n, '\n');
        let ghost rest = cs@.subrange(pos as int, n as int);
        proof {
            crate::parse::lemma_first_at_bounds(rest, '\n');
        }
        let ghost line = cs@.subrange(pos as int, e as int);
        assert(rest.subrange(0, e - pos) =~= line);
        let text = crate::parse::string_from(&cs, pos, e);
        match parse_line::<C>(text.as_str()) {
            Ok(item) => {
                out.push(item);
            },
            Err(f) => {
                proof {
                    let k = done.len() as int;
                    if e < n {
                        assert(rest.subrange(e - pos + 1, rest.len() as int) =~= cs@.subrange(
                            e + 1,
                            n as int,
                        ));
                        assert(lines(s@)[k] == line);
                    } else {
                        assert(rest =~= line);
                        assert(lines(s@)[k] == line);
                    }
                }
                return Err(f);
            },
        }
        proof {
            if e < n {
                assert(rest.subrange(e - pos + 1, rest.len() as int) =~= cs@.subrange(
                    e + 1,
                    n as int,
                ));
                assert(lines(rest) == seq![line] + lines(cs@.subrange(e + 1, n as int)));
            } else {
                assert(rest =~= line);
                assert(cs@.subrange(n as int, n as int) =~= Seq::<char>::empty());
                assert(lines(rest) == seq![line]);
                assert(lines(cs@.subrange(n as int, n as int)) == Seq::<Seq<char>>::empty());
            }
            let old_done = done;
            done = done.push(line);
            assert(done + lines(cs@.subrange(if e < n { e + 1 } else { n as int }, n as int))
                =~= old_done + lines(rest));
        }
        pos = if e < n {
            e + 1
        } else {
            n
        };
    }
    proof {
        assert(cs@.subrange(n as int, n as int) =~= Seq::<char>::empty());
        assert(lines(s@) =~= done);
    }
    Ok(out)
}

// ---------------------------------------------------------------------------
// Winnings.
// ---------------------------------------------------------------------------

/// How a hand with its bid is ordered: by kind, then card by card, then by
/// bid.
pub open spec fn entry_key<C: Card>(e: (Hand<C>, u32)) -> Seq<int> {
    seq![
        type_rank(e.0.hand_type),
        e.0.cards@[0].rank_of(),
        e.0.cards@[1].rank_of(),
        e.0.cards@[2].rank_of(),
        e.0.cards@[3].rank_of(),
        e.0.cards@[4].rank_of(),
        e.1 as int,
    ]
}

/// `a` comes before `b` in lexicographic order, from position `k` on.
pub open spec fn key_lt(a: Seq<int>, b: Seq<int>, k: int) -> bool
    decreases a.len() - k,
{
    if k < 0 || k >= a.len() || k >= b.len() {
        false
    } else if a[k] != b[k] {
        a[k] < b[k]
    } else {
        key_lt(a, b, k + 1)
    }
}

/// How many of the keys `ks[..j]` order strictly before key `i`.
pub open spec fn count_lower(ks: Seq<Seq<int>>, i: int, j: int) -> int
    decreases j,
{
    if j <= 0 {
        0
    } else {
        count_lower(ks, i, j - 1) + if key_lt(ks[j - 1], ks[i], 0) {
            1int
        } else {
            0int
        }
    }
}

/// How many of the keys `ks[..j]` equal key `i`.
pub open spec fn count_same(ks: Seq<Seq<int>>, i: int, j: int) -> int
    decreases j,
{
    if j <= 0 {
        0
    } else {
        count_same(ks, i, j - 1) + if ks[j - 1] == ks[i] {
            1int
        } else {
            0int
        }
    }
}

/// The rank of entry `i` once the entries are sorted by key, counting from
/// 1; of equal keys, the earlier ranks lower.
pub open spec fn position(ks: Seq<Seq<int>>, i: int) -> int {
    1 + count_lower(ks, i, ks.len() as int) + count_same(ks, i, i)
}

/// The sum of bid (the last value of a key) times rank over the keys
/// `ks[..k]`.
pub open spec fn winnings(ks: Seq<Seq<int>>, k: int) -> int
    decreases k,
{
    if k <= 0 {
        0
    } else {
        winnings(ks, k - 1) + ks[k - 1][6] * position(ks, k - 1)
    }
}

/// The keys of a list of entries.
pub open spec fn entry_keys<C: Card>(hs: Seq<(Hand<C>, u32)>) -> Seq<Seq<int>> {
    hs.map_values(|e: (Hand<C>, u32)| entry_key(e))
}

/// Every key has a bid that is not negative.
pub open spec fn bids_nonneg(ks: Seq<Seq<int>>) -> bool {
    forall|k: int| 0 <= k < ks.len() ==> #[trigger] ks[k].len() == 7 && ks[k][6] >= 0
}

proof fn lemma_key_lt_skip(a: Seq<int>, b: Seq<int>, k: int)
    requires
        0 <= k,
        forall|m: int| 0 <= m < k ==> a[m] == b[m],
        k <= a.len(),
        k <= b.len(),
    ensures
        key_lt(a, b, 0) == key_lt(a, b, k),
    decreases k,
{
    if k > 0 {
        lemma_key_lt_skip(a, b, k - 1);
    }
}

fn entry_key_values<C: Card>(e: &(Hand<C>, u32)) -> (r: Vec<u64>)
    requires
        forall|i: int| 0 <= i < 5 ==> (#[trigger] e.0.cards@[i]).card_wf(),
    ensures
        r@.len() == 7,
        forall|m: int| 0 <= m < 7 ==> r@[m] as int == entry_key(*e)[m],
{
    let mut r: Vec<u64> = Vec::new();
    r.push(hand_type_rank(e.0.hand_type) as u64);
    let mut c: usize = 0;
    while c < 5
        invariant
            0 <= c <= 5,
            r@.len() == c + 1,
            forall|i: int| 0 <= i < 5 ==> (#[trigger] e.0.cards@[i]).card_wf(),
            forall|m: int| 0 <= m < c + 1 ==> r@[m] as int == entry_key(*e)[m],
        decreases 5 - c,
    {
        r.push(e.0.cards[c].rank() as u64);
        c = c + 1;
    }
    r.push(e.1 as u64);
    r
}

/// Compares two entries by kind, then card by card, then by bid.
pub fn compare_entries<C: Card>(a: &(Hand<C>, u32), b: &(Hand<C>, u32)) -> (r: std::cmp::Ordering)
    requires
        forall|i: int| 0 <= i < 5 ==> (#[trigger] a.0.cards@[i]).card_wf(),
        forall|i: int| 0 <= i < 5 ==> (#[trigger] b.0.cards@[i]).card_wf(),
    ensures
        r == std::cmp::Ordering::Less <==> key_lt(entry_key(*a), entry_key(*b), 0),
        r == std::cmp::Ordering::Equal <==> entry_key(*a) == entry_key(*b),
{
    let ka = entry_key_values(a);
    let kb = entry_key_values(b);
    let ghost x = entry_key(*a);
    let ghost y = entry_key(*b);
    let mut k: usize = 0;
    while k < 7
        invariant
            0 <= k <= 7,
            ka@.len() == 7,
            kb@.len() == 7,
            x == entry_key(*a),
            y == entry_key(*b),
            forall|m: int| 0 <= m < 7 ==> ka@[m] as int == x[m],
            forall|m: int| 0 <= m < 7 ==> kb@[m] as int == y[m],
            forall|m: int| 0 <= m < k ==> x[m] == y[m],
        decreases 7 - k,
    {
        if ka[k] != kb[k] {
            proof {
                lemma_key_lt_skip(x, y, k as int);
                lemma_key_lt_skip(y, x, k as int);
                assert(x != y) by {
                    assert(x[k as int] != y[k as int]);
                }
            }
            if ka[k] < kb[k] {
                return std::cmp::Ordering::Less;
            } else {
                return std::cmp::Ordering::Greater;
            }
        }
        k = k + 1;
    }
    proof {
        lemma_key_lt_skip(x, y, 7);
        assert(x =~= y);
    }
    std::cmp::Ordering::Equal
}

proof fn lemma_winnings_grow(ks: Seq<Seq<int>>, k: int)
    requires
        0 <= k <= ks.len(),
        bids_nonneg(ks),
    ensures
        0 <= winnings(ks, k) <= winnings(ks, ks.len() as int),
    decreases ks.len() - k,
{
    lemma_winnings_nonneg(ks, k);
    if k < ks.len() {
        lemma_winnings_grow(ks, k + 1);
        lemma_counts_nonneg(ks, k);
        assert(ks[k].len() == 7);
        assert(ks[k][6] * position(ks, k) >= 0) by (nonlinear_arith)
            requires
                ks[k][6] >= 0,
                position(ks, k) >= 1,
        ;
    }
}

proof fn lemma_winnings_nonneg(ks: Seq<Seq<int>>, k: int)
    requires
        0 <= k <= ks.len(),
        bids_nonneg(ks),
    ensures
        winnings(ks, k) >= 0,
    decreases k,
{
    if k > 0 {
        lemma_winnings_nonneg(ks, k - 1);
        lemma_counts_nonneg(ks, k - 1);
        assert(ks[k - 1].len() == 7);
        assert(ks[k - 1][6] * position(ks, k - 1) >= 0) by (nonlinear_arith)
            requires
                ks[k - 1][6] >= 0,
                position(ks, k - 1) >= 1,
        ;
    }
}

proof fn lemma_counts_nonneg(ks: Seq<Seq<int>>, i: int)
    requires
        0 <= i < ks.len(),
    ensures
        0 <= count_lower(ks, i, ks.len() as int) <= ks.len(),
        0 <= count_same(ks, i, i) <= i,
        position(ks, i) >= 1,
{
    lemma_count_same_bounds(ks, i, i);
    lemma_count_lower_bounds(ks, i, ks.len() as int);
}

proof fn lemma_count_same_bounds(ks: Seq<Seq<int>>, i: int, j: int)
    requires
        0 <= j,
    ensures
        0 <= count_same(ks, i, j) <= j,
    decreases j,
{
    if j > 0 {
        lemma_count_same_bounds(ks, i, j - 1);
    }
}

proof fn lemma_count_lower_bounds(ks: Seq<Seq<int>>, i: int, j: int)
    requires
        0 <= j,
    ensures
        0 <= count_lower(ks, i, j) <= j,
    decreases j,
{
    if j > 0 {
        lemma_count_lower_bounds(ks, i, j - 1);
    }
}

/// The total winnings: each bid times the rank of its hand, hands ranking
/// from 1 (the weakest) by kind, then card by card, then by bid.
pub fn total_winnings<C: Card>(hands: &[(Hand<C>, u32)]) -> (r: u32)
    requires
        forall|k: int, i: int|
            0 <= k < hands@.len() && 0 <= i < 5 ==> (#[trigger] hands@[k].0.cards@[i]).card_wf(),
        winnings(entry_keys(hands@), hands@.len() as int) <= u32::MAX,
    ensures
        r == winnings(entry_keys(hands@), hands@.len() as int),
{
    let n = hands.len();
    let ghost ks = entry_keys(hands@);
    assert(bids_nonneg(ks));
    let mut total: u128 = 0;
    let mut i: usize = 0;
    while i < n
        invariant
            0 <= i <= n,
            n == hands@.len(),
            ks == entry_keys(hands@),
            bids_nonneg(ks),
            forall|k: int, c: int|
                0 <= k < hands@.len() && 0 <= c < 5 ==> (#[trigger] hands@[k].0.cards@[c]).card_wf(),
            winnings(ks, n as int) <= u32::MAX,
            total == winnings(ks, i as int),
        decreases n - i,
    {
        let mut lower: u128 = 0;
        let mut same: u128 = 0;
        let mut j: usize = 0;
        while j < n
            invariant
                0 <= i < n,
                0 <= j <= n,
                n == hands@.len(),
                ks == entry_keys(hands@),
                forall|k: int, c: int|
                    0 <= k < hands@.len() && 0 <= c < 5 ==> (#[trigger] hands@[k].0.cards@[c]).card_wf(),
                lower == count_lower(ks, i as int, j as int),
                same == count_same(ks, i as int, if j <= i { j as int } else { i as int }),
                lower <= j,
                same <= j,
            decreases n - j,
        {
            assert(forall|c: int| 0 <= c < 5 ==> (#[trigger] hands@[j as int].0.cards@[c]).card_wf());
            assert(forall|c: int| 0 <= c < 5 ==> (#[trigger] hands@[i as int].0.cards@[c]).card_wf());
            assert(ks[j as int] == entry_key(hands@[j as int]));
            assert(ks[i as int] == entry_key(hands@[i as int]));
            match compare_entries(&hands[j], &hands[i]) {
                std::cmp::Ordering::Less => {
                    lower = lower + 1;
                },
                std::cmp::Ordering::Equal => {
                    if j < i {
                        same = same + 1;
                    }
                },
                std::cmp::Ordering::Greater => {},
            }
            j = j + 1;
        }
        let place = 1 + lower + same;
        proof {
            lemma_winnings_grow(ks, i as int + 1);
            lemma_counts_nonneg(ks, i as int);
        }
        let bid = hands[i].1 as u128;
        assert(ks[i as int][6] == bid);
        assert(bid * place < 0x2_0000_0000_0000_0000_0000_0000) by (nonlinear_arith)
            requires
                bid <= 0xffff_ffff,
                place <= 2 * n + 1,
                n <= 0xffff_ffff_ffff_ffff,
        ;
        total = total + bid * place;
        i = i + 1;
    }
    total as u32
}

} // verus!
