//! Scratch cards and their scores.

use std::collections::HashSet;

use vstd::prelude::*;
use vstd::std_specs::iter::IteratorSpec;

use crate::parse::{chars_of, find_sub, first_sub, lines, Fail};
use crate::races::{all_words_i64, copy_range, try_word_values, word_values};

verus! {

broadcast use vstd::std_specs::hash::group_hash_axioms, vstd::seq_lib::seq_to_set_is_finite;

/// A scratch card: the numbers it holds and the winning numbers.
#[derive(Debug)]
pub struct Card {
    pub have: HashSet<i32>,
    pub winners: HashSet<i32>,
}

/// The score of a card with `wins` wins: 0 for none, 1 for one, doubled for
/// each further win.
pub open spec fn score(wins: nat) -> nat
    decreases wins,
{
    if wins == 0 {
        0
    } else if wins == 1 {
        1
    } else {
        2 * score((wins - 1) as nat)
    }
}

impl Card {
    /// How many of the numbers held are winning numbers.
    pub fn count_wins(&self) -> (r: usize)
        ensures
            r == self.have@.intersect(self.winners@).len(),
    {
        let n = self.have.len();
        let mut count: usize = 0;
        let ghost mut seen: Seq<i32> = Seq::empty();
        proof {
            vstd::seq_lib::seq_to_set_is_finite(seen);
            assert(seen.to_set() =~= Set::<i32>::empty());
            assert(seen.to_set().intersect(self.winners@) =~= Set::<i32>::empty());
        }
        for x in it: self.have.iter()
            invariant
                n == self.have@.len(),
                seen == it.seq().take(it.index() as int).unref(),
                it.seq().unref().to_set() == self.have@,
                it.seq().unref().no_duplicates(),
                it.seq().len() == n,
                count == seen.to_set().intersect(self.winners@).len(),
                count <= seen.len(),
                seen.len() == it.index(),
                seen.to_set().len() == seen.len(),
                seen.to_set().subset_of(self.have@),
                self.have@.finite(),
        {
            let ghost old_seen = seen;
            proof {
                assert(!old_seen.contains(*x)) by {
                    if old_seen.contains(*x) {
                        let k = choose|k: int| 0 <= k < old_seen.len() && old_seen[k] == *x;
                        assert(it.seq().unref()[k] == *x);
                        assert(it.seq().unref()[it.index() as int] == *x);
                    }
                }
                seen = seen.push(*x);
                old_seen.lemma_push_to_set_commute(*x);
                vstd::seq_lib::seq_to_set_is_finite(old_seen);
                vstd::set::axiom_set_insert_len(old_seen.to_set(), *x);
                assert(it.seq().unref().to_set().contains(*x)) by {
                    assert(it.seq().unref()[it.index() as int] == *x);
                }
                assert(seen == it.seq().take(it.index() + 1).unref()) by {
                    assert(seen =~= it.seq().take(it.index() + 1).unref());
                }
            }
            if self.winners.contains(x) {
                proof {
                    assert(seen.to_set().intersect(self.winners@) =~= old_seen.to_set().intersect(
                        self.winners@,
                    ).insert(*x));
                    vstd::set::axiom_set_insert_len(old_seen.to_set().intersect(self.winners@), *x);
                }
                count = count + 1;
            } else {
                proof {
                    assert(seen.to_set().intersect(self.winners@) =~= old_seen.to_set().intersect(
                        self.winners@,
                    ));
                }
            }
        }
        proof {
            vstd::set_lib::lemma_subset_equality(seen.to_set(), self.have@);
        }
        count
    }

    /// The score of the card: 0 without wins, else 2 to the power of one
    /// less than the number of wins.
    pub fn part1_score(&self) -> (r: u32)
        requires
            self.have@.intersect(self.winners@).len() <= 32,
        ensures
            r == score(self.have@.intersect(self.winners@).len()),
    {
        let wins = self.count_wins();
        let mut acc: u32 = 0;
        let mut k: usize = 0;
        while k < wins
            invariant
                0 <= k <= wins <= 32,
                acc == score(k as nat),
            decreases wins - k,
        {
            proof {
                if k >= 1 {
                    lemma_score_pow(k as nat);
                    vstd::arithmetic::power2::lemma2_to64();
                    if k - 1 < 30 {
                        vstd::arithmetic::power2::lemma_pow2_strictly_increases((k - 1) as nat, 30);
                    }
                }
            }
            acc = if acc == 0 {
                1
            } else {
                acc * 2
            };
            proof {
                if k >= 1 {
                    lemma_score_pow(k as nat);
                    lemma_score_pow((k + 1) as nat);
                    vstd::arithmetic::power2::lemma_pow2_unfold(k as nat);
                }
            }
            k = k + 1;
        }
        acc
    }
}

/// With at least one win, the score is a power of two.
proof fn lemma_score_pow(k: nat)
    requires
        k >= 1,
    ensures
        score(k) == vstd::arithmetic::power2::pow2((k - 1) as nat),
        score(k) >= 1,
    decreases k,
{
    vstd::arithmetic::power2::lemma2_to64();
    if k > 1 {
        lemma_score_pow((k - 1) as nat);
        vstd::arithmetic::power2::lemma_pow2_unfold((k - 1) as nat);
    }
}

/// The number of wins of each card.
pub open spec fn wins_of(cards: Seq<Card>) -> Seq<nat> {
    cards.map_values(|c: Card| c.have@.intersect(c.winners@).len())
}

/// The sum of the scores of the cards `cards[..k]`.
pub open spec fn score_total(cards: Seq<Card>, k: int) -> int
    decreases k,
{
    if k <= 0 || k > cards.len() {
        0
    } else {
        score_total(cards, k - 1) + score(wins_of(cards)[k - 1])
    }
}

proof fn lemma_score_total_grows(cards: Seq<Card>, k: int)
    requires
        0 <= k <= cards.len(),
    ensures
        0 <= score_total(cards, k) <= score_total(cards, cards.len() as int),
    decreases cards.len() - k,
{
    lemma_score_total_nonneg(cards, k);
    if k < cards.len() {
        lemma_score_total_grows(cards, k + 1);
    }
}

proof fn lemma_score_total_nonneg(cards: Seq<Card>, k: int)
    requires
        0 <= k <= cards.len(),
    ensures
        score_total(cards, k) >= 0,
    decreases k,
{
    if k > 0 {
        lemma_score_total_nonneg(cards, k - 1);
    }
}

/// The sum of the scores of all cards.
pub fn part1(cards: &[Card]) -> (r: u32)
    requires
        forall|k: int| 0 <= k < cards@.len() ==> #[trigger] wins_of(cards@)[k] <= 32,
        score_total(cards@, cards@.len() as int) <= u32::MAX,
    ensures
        r == score_total(cards@, cards@.len() as int),
{
    let mut total: u32 = 0;
    let mut k: usize = 0;
    while k < cards.len()
        invariant
            0 <= k <= cards@.len(),
            forall|j: int| 0 <= j < cards@.len() ==> #[trigger] wins_of(cards@)[j] <= 32,
            score_total(cards@, cards@.len() as int) <= u32::MAX,
            total == score_total(cards@, k as int),
        decreases cards@.len() - k,
    {
        assert(wins_of(cards@)[k as int] <= 32);
        let s = cards[k].part1_score();
        proof {
            lemma_score_total_grows(cards@, k + 1);
        }
        total = total + s;
        k = k + 1;
    }
    total
}

/// The counts of cards held after card `card_num`, held `holding[card_num]`
/// times, wins a copy of each of the next `wins` cards per copy held.
pub open spec fn won_spec(holding: Seq<usize>, card_num: int, wins: int) -> Seq<int> {
    Seq::new(
        holding.len(),
        |i: int|
            if card_num < i <= card_num + wins {
                holding[i] + holding[card_num]
            } else {
                holding[i] as int
            },
    )
}

/// Adds the copies that card `card_num` wins to the counts held.
pub fn won(holding: Vec<usize>, win: (usize, usize)) -> (r: Vec<usize>)
    requires
        win.0 < holding@.len(),
        forall|i: int|
            win.0 < i <= win.0 + win.1 && i < holding@.len() ==> #[trigger] holding@[i]
                + holding@[win.0 as int] <= usize::MAX,
    ensures
        r@.len() == holding@.len(),
        forall|i: int| 0 <= i < r@.len() ==> r@[i] == won_spec(holding@, win.0 as int, win.1 as int)[i],
{
    let (card_num, wins) = win;
    let ghost start = holding@;
    let mut holding = holding;
    let number_held_of_winning_card = holding[card_num];
    let len = holding.len();
    assert(card_num < len);
    let mut i: usize = card_num + 1;
    while i < holding.len() && i - card_num <= wins
        invariant
            card_num < i <= holding@.len(),
            holding@.len() == start.len(),
            number_held_of_winning_card == start[card_num as int],
            forall|j: int|
                card_num < j <= card_num + wins && j < start.len() ==> #[trigger] start[j]
                    + start[card_num as int] <= usize::MAX,
            forall|j: int|
                0 <= j < holding@.len() ==> holding@[j] == if card_num < j < i {
                    start[j] + start[card_num as int]
                } else {
                    start[j] as int
                },
            i - card_num - 1 <= wins,
        decreases holding@.len() - i,
    {
        let updated = holding[i] + number_held_of_winning_card;
        holding.set(i, updated);
        i = i + 1;
    }
    holding
}

/// The counts held after every card, in order, has won its copies:
/// starting from one of each, card `k` adds its copies to the counts of the
/// `wins[k]` cards after it.
pub open spec fn holdings(wins: Seq<nat>, k: int) -> Seq<int>
    decreases k,
{
    if k <= 0 {
        Seq::new(wins.len(), |i: int| 1int)
    } else {
        let h = holdings(wins, k - 1);
        Seq::new(
            wins.len(),
            |i: int|
                if k - 1 < i <= k - 1 + wins[k - 1] {
                    h[i] + h[k - 1]
                } else {
                    h[i]
                },
        )
    }
}

/// Every count met while the cards win their copies fits in a `usize`.
pub open spec fn holdings_fit(wins: Seq<nat>) -> bool {
    forall|k: int, i: int|
        0 <= k <= wins.len() && 0 <= i < wins.len() ==> #[trigger] holdings(wins, k)[i] <= usize::MAX
}

proof fn lemma_holdings_positive(wins: Seq<nat>, k: int)
    requires
        0 <= k,
    ensures
        holdings(wins, k).len() == wins.len(),
        forall|i: int| 0 <= i < wins.len() ==> #[trigger] holdings(wins, k)[i] >= 1,
    decreases k,
{
    if k > 0 {
        lemma_holdings_positive(wins, k - 1);
    }
}

/// How many of each card are held once every card has won its copies.
pub fn part2_holding(cards: &[Card]) -> (r: Vec<usize>)
    requires
        holdings_fit(wins_of(cards@)),
    ensures
        r@.len() == cards@.len(),
        forall|i: int|
            0 <= i < r@.len() ==> r@[i] == holdings(wins_of(cards@), cards@.len() as int)[i],
{
    let ghost ws = wins_of(cards@);
    let n = cards.len();
    let mut holding: Vec<usize> = Vec::new();
    while holding.len() < n
        invariant
            holding@.len() <= n,
            forall|i: int| 0 <= i < holding@.len() ==> holding@[i] == 1,
        decreases n - holding@.len(),
    {
        holding.push(1);
    }
    let mut k: usize = 0;
    while k < n
        invariant
            0 <= k <= n,
            n == cards@.len(),
            ws == wins_of(cards@),
            holdings_fit(ws),
            holding@.len() == n,
            forall|i: int| 0 <= i < n ==> holding@[i] == holdings(ws, k as int)[i],
        decreases n - k,
    {
        let wins = cards[k].count_wins();
        assert(ws[k as int] == wins);
        proof {
            lemma_holdings_positive(ws, k as int);
            assert forall|i: int| k < i <= k + wins && i < holding@.len() implies #[trigger] holding@[i]
                + holding@[k as int] <= usize::MAX by {
                assert(holdings(ws, k + 1)[i] <= usize::MAX);
            }
        }
        holding = won(holding, (k, wins));
        k = k + 1;
    }
    holding
}

/// The sum of the counts `h[..k]`.
pub open spec fn count_total(h: Seq<int>, k: int) -> int
    decreases k,
{
    if k <= 0 || k > h.len() {
        0
    } else {
        count_total(h, k - 1) + h[k - 1]
    }
}

proof fn lemma_count_total_grows(h: Seq<int>, k: int)
    requires
        0 <= k <= h.len(),
        forall|i: int| 0 <= i < h.len() ==> h[i] >= 0,
    ensures
        0 <= count_total(h, k) <= count_total(h, h.len() as int),
    decreases h.len() - k,
{
    lemma_count_total_nonneg(h, k);
    if k < h.len() {
        lemma_count_total_grows(h, k + 1);
    }
}

proof fn lemma_count_total_nonneg(h: Seq<int>, k: int)
    requires
        0 <= k <= h.len(),
        forall|i: int| 0 <= i < h.len() ==> h[i] >= 0,
    ensures
        count_total(h, k) >= 0,
    decreases k,
{
    if k > 0 {
        lemma_count_total_nonneg(h, k - 1);
    }
}

/// How many cards are held in the end.
pub fn part2(cards: &[Card]) -> (r: usize)
    requires
        holdings_fit(wins_of(cards@)),
        count_total(holdings(wins_of(cards@), cards@.len() as int), cards@.len() as int) <= usize::MAX,
    ensures
        r == count_total(holdings(wins_of(cards@), cards@.len() as int), cards@.len() as int),
{
    let holding = part2_holding(cards);
    let ghost h = holdings(wins_of(cards@), cards@.len() as int);
    proof {
        lemma_holdings_positive(wins_of(cards@), cards@.len() as int);
    }
    let mut total: usize = 0;
    let mut k: usize = 0;
    while k < holding.len()
        invariant
            0 <= k <= holding@.len(),
            holding@.len() == h.len(),
            forall|i: int| 0 <= i < h.len() ==> holding@[i] == h[i],
            forall|i: int| 0 <= i < h.len() ==> h[i] >= 0,
            count_total(h, h.len() as int) <= usize::MAX,
            total == count_total(h, k as int),
        decreases holding@.len() - k,
    {
        proof {
            lemma_count_total_grows(h, k + 1);
        }
        total = total + holding[k];
        k = k + 1;
    }
    total
}

// ---------------------------------------------------------------------------
// Reading cards.
// ---------------------------------------------------------------------------

/// Every word of `s` is a number that fits in an `i32`.
pub open spec fn numbers_valid(s: Seq<char>) -> bool {
    &&& all_words_i64(s)
    &&& forall|k: int|
        0 <= k < word_values(s).len() ==> i32::MIN <= #[trigger] word_values(s)[k] <= i32::MAX
}

/// The set of numbers that the words of `s` spell.
pub open spec fn number_set(s: Seq<char>) -> Set<i32> {
    word_values(s).map_values(|v: i64| v as i32).to_set()
}

/// The numbers of a list separated by white space, as a set.
pub fn parse_number_list(cs: &Vec<char>) -> (r: Result<HashSet<i32>, Fail>)
    ensures
        r is Ok <==> numbers_valid(cs@),
        r matches Ok(set) ==> set@ == number_set(cs@),
{
    let values = match try_word_values(cs) {
        Some(v) => v,
        None => {
            return Err(Fail(crate::parse::string_from(cs, 0, cs.len())));
        },
    };
    let ghost vs = values@.map_values(|v: i64| v as i32);
    let mut set: HashSet<i32> = HashSet::new();
    let mut k: usize = 0;
    assert(vs.subrange(0, 0).to_set() =~= Set::<i32>::empty());
    while k < values.len()
        invariant
            0 <= k <= values@.len(),
            values@ == word_values(cs@),
            vs == values@.map_values(|v: i64| v as i32),
            forall|j: int| 0 <= j < k ==> i32::MIN <= #[trigger] values@[j] <= i32::MAX,
            set@ == vs.subrange(0, k as int).to_set(),
        decreases values@.len() - k,
    {
        let v = values[k];
        if v < -2147483648 || v > 2147483647 {
            return Err(Fail(crate::parse::string_from(cs, 0, cs.len())));
        }
        set.insert(v as i32);
        proof {
            vs.subrange(0, k as int).lemma_push_to_set_commute(vs[k as int]);
            assert(vs.subrange(0, k + 1) =~= vs.subrange(0, k as int).push(vs[k as int]));
        }
        k = k + 1;
    }
    assert(vs.subrange(0, values@.len() as int) =~= vs);
    Ok(set)
}

/// The two lists of a card line `Card n: have | winners`.
pub open spec fn card_parts(s: Seq<char>) -> Option<(Seq<char>, Seq<char>)> {
    let i = first_sub(s, ": "@);
    let t = s.subrange(i + 2, s.len() as int);
    let j = first_sub(t, " | "@);
    if i >= s.len() || j >= t.len() {
        None
    } else {
        Some((t.subrange(0, j), t.subrange(j + 3, t.len() as int)))
    }
}

/// A line that reads as a card.
pub open spec fn card_ok(s: Seq<char>) -> bool {
    card_parts(s) matches Some((have, winners)) && numbers_valid(have) && numbers_valid(winners)
}

impl Card {
    /// Reads a card line `Card n: have | winners`.
    pub fn parse(s: &str) -> (r: Result<Card, Fail>)
        ensures
            r is Ok <==> card_ok(s@),
            r matches Ok(c) ==> card_parts(s@) matches Some((have, winners)) && c.have@
                == number_set(have) && c.winners@ == number_set(winners),
    {
        let cs = chars_of(s);
        let n = cs.len();
        assert(cs@.subrange(0, n as int) =~= s@);
        let colon = chars_of(": ");
        let bar = chars_of(" | ");
        proof {
            reveal_strlit(": ");
            reveal_strlit(" | ");
        }
        let i = find_sub(&cs, 0, n, &colon);
        if i == n {
            return Err(Fail(crate::parse::string_from(&cs, 0, n)));
        }
        let ghost t = s@.subrange(i + 2, s@.len() as int);
        assert(t == cs@.subrange(i + 2, n as int));
        let j = find_sub(&cs, i + 2, n, &bar);
        if j == n {
            return Err(Fail(crate::parse::string_from(&cs, 0, n)));
        }
        let have_text = copy_range(&cs, i + 2, j);
        let winners_text = copy_range(&cs, j + 3, n);
        assert(t.subrange(0, j - i - 2) =~= have_text@);
        assert(t.subrange(j - i - 2 + 3, t.len() as int) =~= winners_text@);
        let have = match parse_number_list(&have_text) {
            Ok(h) => h,
            Err(e) => {
                return Err(e);
            },
        };
        let winners = match parse_number_list(&winners_text) {
            Ok(w) => w,
            Err(e) => {
                return Err(e);
            },
        };
        Ok(Card { have, winners })
    }
}

impl<'a> TryFrom<&'a str> for Card {
    type Error = Fail;

    fn try_from(s: &'a str) -> (r: Result<Card, Fail>)
        ensures
            r is Ok <==> card_ok(s@),
    {
        Card::parse(s)
    }
}

impl<'a> vstd::std_specs::convert::TryFromSpecImpl<&'a str> for Card {
    open spec fn obeys_try_from_spec() -> bool {
        false
    }

    open spec fn try_from_spec(s: &'a str) -> Result<Card, Fail> {
        arbitrary()
    }
}

/// Reads one card per line.
pub fn parse_input(s: &str) -> (r: Result<Vec<Card>, Fail>)
    ensures
        r is Ok <==> forall|k: int| 0 <= k < lines(s@).len() ==> card_ok(#[trigger] lines(s@)[k]),
        r matches Ok(v) ==> v@.len() == lines(s@).len(),
{
    let cs = chars_of(s);
    let n = cs.len();
    let mut out: Vec<Card> = Vec::new();
    let mut pos: usize = 0;
    let ghost mut done: Seq<Seq<char>> = Seq::empty();
    assert(cs@.subrange(0, n as int) =~= s@);
    assert(done + lines(cs@.subrange(0, n as int)) =~= lines(s@));
    while pos < n
        invariant
            cs@ == s@,
            n == cs@.len(),
            0 <= pos <= n,
            lines(s@) == done + lines(cs@.subrange(pos as int, n as int)),
            out@.len() == done.len(),
            forall|k: int| 0 <= k < done.len() ==> card_ok(#[trigger] done[k]),
        decreases n - pos,
    {
        let e = crate::parse::find_char(&cs, pos, n, '\n');
        let ghost rest = cs@.subrange(pos as int, n as int);
        proof {
            crate::parse::lemma_first_at_bounds(rest, '\n');
        }
        let ghost line = cs@.subrange(pos as int, e as int);
        assert(rest.subrange(0, e - pos) =~= line);
        proof {
            if e < n {
                assert(rest.subrange(e - pos + 1, rest.len() as int) =~= cs@.subrange(
                    e + 1,
                    n as int,
                ));
                assert(lines(rest) == seq![line] + lines(cs@.subrange(e + 1, n as int)));
            } else {
                assert(rest =~= line);
                assert(cs@.subrange(n as int, n as int) =~= Seq::<char>::empty());
                assert(lines(rest) == seq![line]);
                assert(lines(cs@.subrange(n as int, n as int)) == Seq::<Seq<char>>::empty());
            }
            assert(lines(s@)[done.len() as int] == line);
        }
        let text = crate::parse::string_from(&cs, pos, e);
        match Card::parse(text.as_str()) {
            Ok(c) => {
                out.push(c);
            },
            Err(f) => {
                return Err(f);
            },
        }
        proof {
            let old_done = done;
            done = done.push(line);
            assert(done + lines(cs@.subrange(if e < n { e + 1 } else { n as int }, n as int))
                =~= old_done + lines(rest));
        }
        pos = if e < n {
            e + 1
        } else {
            n
        };
    }
    proof {
        assert(cs@.subrange(n as int, n as int) =~= Seq::<char>::empty());
        assert(lines(s@) =~= done);
    }
    Ok(out)
}

} // verus!
