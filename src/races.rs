//! Boat races: how long to hold the button to beat the record.

use vstd::prelude::*;

use crate::parse::{chars_of, first_at, i64_value, is_space, parse_i64};
use crate::sequences::{words, words_acc};

verus! {

/// Which reading of the numbers: each on its own, or all digits as one.
pub enum Part {
    One,
    Two,
}

/// The distance covered when the button is held for `charge` of the `race`
/// milliseconds: the speed is `charge` and the boat moves for the rest.
pub open spec fn distance(charge: int, race: int) -> int {
    charge * (race - charge)
}

/// Holding the button for `charge` beats the `record` distance.
pub open spec fn wins(charge: int, race: int, record: int) -> bool {
    distance(charge, race) > record
}

/// A race that can be won at all: holding for half the time wins.
pub open spec fn winnable(race: int, record: int) -> bool {
    0 <= race && 0 <= record && wins(race / 2, race, record)
}

/// Whether holding the button for `charge` beats `record`.
pub fn win(charge_time: i64, race_time: i64, record: i64) -> (r: bool)
    ensures
        r == wins(charge_time as int, race_time as int, record as int),
{
    let c = charge_time as i128;
    let d = race_time as i128 - charge_time as i128;
    assert(-0x1_0000_0000_0000_0000 < d < 0x1_0000_0000_0000_0000);
    assert(-0x7fff_ffff_ffff_ffff_ffff_ffff_ffff_ffff <= c * d <= 0x7fff_ffff_ffff_ffff_ffff_ffff_ffff_ffff)
        by (nonlinear_arith)
        requires
            -0x8000_0000_0000_0000 <= c <= 0x8000_0000_0000_0000,
            -0xffff_ffff_ffff_ffff <= d <= 0xffff_ffff_ffff_ffff,
    ;
    c * d > record as i128
}

proof fn lemma_distance_grows(a: int, b: int, t: int)
    requires
        0 <= a <= b,
        2 * b <= t,
    ensures
        distance(a, t) <= distance(b, t),
{
    assert(distance(b, t) - distance(a, t) == (b - a) * (t - a - b)) by (nonlinear_arith);
    assert((b - a) * (t - a - b) >= 0) by (nonlinear_arith)
        requires
            0 <= b - a,
            0 <= t - a - b,
    ;
}

proof fn lemma_distance_mirror(c: int, t: int)
    ensures
        distance(c, t) == distance(t - c, t),
{
    assert(distance(c, t) == distance(t - c, t)) by (nonlinear_arith);
}

proof fn lemma_distance_negative(c: int, t: int)
    requires
        c < 0,
        t >= 0,
    ensures
        distance(c, t) < 0,
{
    assert(c * (t - c) < 0) by (nonlinear_arith)
        requires
            c < 0,
            t - c > 0,
    ;
}

/// The shortest and the longest winning hold: exactly the holds between
/// the two, both included, win.
pub fn exact_win_region(race_time: i64, record: i64) -> (r: (i64, i64))
    requires
        winnable(race_time as int, record as int),
    ensures
        forall|c: int| wins(c, race_time as int, record as int) <==> r.0 <= c <= r.1,
        r.0 <= r.1,
        r.0 >= 1,
        r.1 == race_time - r.0,
{
    let t = race_time;
    let m = race_time / 2;
    let mut lo: i64 = 0;
    let mut hi: i64 = m;
    proof {
        assert(distance(0, t as int) == 0);
    }
    while hi - lo > 1
        invariant
            0 <= lo < hi <= m,
            m == t / 2,
            t >= 0,
            record >= 0,
            !wins(lo as int, t as int, record as int),
            wins(hi as int, t as int, record as int),
        decreases hi - lo,
    {
        let mid = lo + (hi - lo) / 2;
        if win(mid, t, record) {
            hi = mid;
        } else {
            lo = mid;
        }
    }
    let lower = hi;
    let upper = t - hi;
    proof {
        assert forall|c: int| wins(c, t as int, record as int) <==> lower <= c <= upper by {
            if c < 0 {
                lemma_distance_negative(c, t as int);
            } else if c <= lo {
                lemma_distance_grows(c, lo as int, t as int);
            } else if c <= m {
                lemma_distance_grows(hi as int, c, t as int);
            } else {
                lemma_distance_mirror(c, t as int);
                if t - c < 0 {
                    lemma_distance_negative(t - c, t as int);
                } else if t - c <= lo {
                    lemma_distance_grows(t - c, lo as int, t as int);
                } else {
                    lemma_distance_grows(hi as int, t - c, t as int);
                }
            }
        }
    }
    (lower, upper)
}

/// How many holds win the race.
pub fn count_ways_to_win(race_time: i64, record: i64) -> (r: i64)
    requires
        winnable(race_time as int, record as int),
    ensures
        r == Set::new(|c: int| wins(c, race_time as int, record as int)).len(),
        r >= 1,
{
    let (lower, upper) = exact_win_region(race_time, record);
    proof {
        let s = Set::new(|c: int| wins(c, race_time as int, record as int));
        assert(s =~= vstd::set_lib::set_int_range(lower as int, upper + 1));
        vstd::set_lib::lemma_int_range(lower as int, upper + 1);
    }
    1 + upper - lower
}

/// The number of winning holds of a race.
pub open spec fn ways(race: (i64, i64)) -> int {
    Set::new(|c: int| wins(c, race.0 as int, race.1 as int)).len() as int
}

/// The product of the numbers of winning holds of the races `rs[k..]`.
pub open spec fn ways_product(rs: Seq<(i64, i64)>, k: int) -> int
    decreases rs.len() - k,
{
    if k < 0 || k >= rs.len() {
        1
    } else {
        ways(rs[k]) * ways_product(rs, k + 1)
    }
}

/// The product over all races of the number of ways to win each.
pub fn solve(input: &[(i64, i64)]) -> (r: i64)
    requires
        forall|k: int| 0 <= k < input@.len() ==> winnable(#[trigger] input@[k].0 as int, input@[k].1 as int),
        ways_product(input@, 0) <= i64::MAX,
    ensures
        r == ways_product(input@, 0),
{
    let mut k: usize = input.len();
    let mut product: i64 = 1;
    proof {
        lemma_product_bounded(input@, input@.len() as int);
    }
    while k > 0
        invariant
            0 <= k <= input@.len(),
            forall|j: int| 0 <= j < input@.len() ==> winnable(#[trigger] input@[j].0 as int, input@[j].1 as int),
            ways_product(input@, 0) <= i64::MAX,
            product == ways_product(input@, k as int),
        decreases k,
    {
        let (time, record) = input[k - 1];
        let w = count_ways_to_win(time, record);
        proof {
            lemma_product_bounded(input@, k - 1);
        }
        product = w * product;
        k = k - 1;
    }
    product
}

/// Each suffix product is at least 1 and at most the whole product.
proof fn lemma_product_bounded(rs: Seq<(i64, i64)>, k: int)
    requires
        0 <= k <= rs.len(),
        forall|j: int| 0 <= j < rs.len() ==> winnable(#[trigger] rs[j].0 as int, rs[j].1 as int),
    ensures
        1 <= ways_product(rs, k) <= ways_product(rs, 0),
    decreases k,
{
    lemma_suffix_product_positive(rs, k);
    if k > 0 {
        lemma_product_bounded(rs, k - 1);
        lemma_ways_positive(rs[k - 1]);
        let w = ways(rs[k - 1]);
        let p = ways_product(rs, k);
        assert(p <= w * p) by (nonlinear_arith)
            requires
                w >= 1,
                p >= 1,
        ;
    }
}

proof fn lemma_suffix_product_positive(rs: Seq<(i64, i64)>, k: int)
    requires
        0 <= k <= rs.len(),
        forall|j: int| 0 <= j < rs.len() ==> winnable(#[trigger] rs[j].0 as int, rs[j].1 as int),
    ensures
        ways_product(rs, k) >= 1,
    decreases rs.len() - k,
{
    if k < rs.len() {
        lemma_suffix_product_positive(rs, k + 1);
        lemma_ways_positive(rs[k]);
        let w = ways(rs[k]);
        let p = ways_product(rs, k + 1);
        assert(w * p >= 1) by (nonlinear_arith)
            requires
                w >= 1,
                p >= 1,
        ;
    }
}

proof fn lemma_ways_positive(race: (i64, i64))
    requires
        winnable(race.0 as int, race.1 as int),
    ensures
        ways(race) >= 1,
{
    let s = Set::new(|c: int| wins(c, race.0 as int, race.1 as int));
    let m = race.0 as int / 2;
    assert(s.contains(m));
    assert(s.finite()) by {
        lemma_wins_bounded(race.0 as int, race.1 as int);
        assert(s.subset_of(vstd::set_lib::set_int_range(0, race.0 as int + 1)));
        vstd::set_lib::lemma_int_range(0, race.0 as int + 1);
        vstd::set_lib::lemma_len_subset(s, vstd::set_lib::set_int_range(0, race.0 as int + 1));
    }
    assert(set![m].subset_of(s));
    vstd::set_lib::lemma_len_subset(set![m], s);
}

proof fn lemma_wins_bounded(race: int, record: int)
    requires
        0 <= race,
        0 <= record,
    ensures
        forall|c: int| wins(c, race, record) ==> 0 <= c <= race,
{
    assert forall|c: int| wins(c, race, record) implies 0 <= c <= race by {
        if c < 0 {
            lemma_distance_negative(c, race);
        }
        if c > race {
            lemma_distance_mirror(c, race);
            lemma_distance_negative(race - c, race);
        }
    }
}

/// The characters `cs[lo..hi]` as a vector of their own.
pub fn copy_range(cs: &Vec<char>, lo: usize, hi: usize) -> (r: Vec<char>)
    requires
        lo <= hi <= cs@.len(),
    ensures
        r@ == cs@.subrange(lo as int, hi as int),
{
    let mut r: Vec<char> = Vec::new();
    let mut i: usize = lo;
    while i < hi
        invariant
            lo <= i <= hi <= cs@.len(),
            r@ == cs@.subrange(lo as int, i as int),
        decreases hi - i,
    {
        r.push(cs[i]);
        assert(r@ =~= cs@.subrange(lo as int, i + 1));
        i = i + 1;
    }
    r
}

/// The value of each word of `s`, separated by white space.
pub open spec fn word_values(s: Seq<char>) -> Seq<i64> {
    words(s).map_values(|w: Seq<char>| i64_value(w)->0)
}

/// Every word of `s` is an `i64`.
pub open spec fn all_words_i64(s: Seq<char>) -> bool {
    forall|k: int| 0 <= k < words(s).len() ==> (i64_value(#[trigger] words(s)[k]) is Some)
}

/// `s` with its white space removed.
pub open spec fn squeeze(s: Seq<char>) -> Seq<char> {
    s.filter(|c: char| !is_space(c))
}

/// The numbers of a line: each word on its own, or (for the second part)
/// all the digits together as one number.
pub open spec fn numbers_of(s: Seq<char>, part: Part) -> Seq<i64> {
    match part {
        Part::One => word_values(s),
        Part::Two => seq![i64_value(squeeze(s))->0],
    }
}

/// The numbers of `s` can be read as `part` asks.
pub open spec fn numbers_valid(s: Seq<char>, part: Part) -> bool {
    match part {
        Part::One => all_words_i64(s),
        Part::Two => i64_value(squeeze(s)) is Some,
    }
}

/// Each word of `cs` read as an `i64`, or `None` when a word is not one.
pub fn try_word_values(cs: &Vec<char>) -> (r: Option<Vec<i64>>)
    ensures
        r is Some <==> all_words_i64(cs@),
        r matches Some(v) ==> v@ == word_values(cs@),
{
    let n = cs.len();
    let mut r: Vec<i64> = Vec::new();
    let mut i: usize = 0;
    let mut start: Option<usize> = None;
    let ghost mut done: Seq<Seq<char>> = Seq::empty();
    let ghost s = cs@;
    while i < n
        invariant
            s == cs@,
            n == cs@.len(),
            0 <= i <= n,
            start matches Some(a) ==> a < i,
            words(s) == done + words_acc(
                s,
                i as int,
                match start {
                    Some(a) => a as int,
                    None => -1,
                },
            ),
            r@.len() == done.len(),
            forall|k: int| 0 <= k < r@.len() ==> Some(#[trigger] r@[k]) == i64_value(done[k]),
        decreases n - i,
    {
        let c = cs[i];
        if c == ' ' || c == '\t' || c == '\n' || c == '\r' || c == '\x0B' || c == '\x0C' {
            if let Some(a) = start {
                let ghost w = s.subrange(a as int, i as int);
                assert(words(s)[done.len() as int] == w);
                match parse_i64(cs, a, i) {
                    Some(v) => r.push(v),
                    None => {
                        assert(!(i64_value(words(s)[done.len() as int]) is Some));
                        return None;
                    },
                }
                proof {
                    let old_done = done;
                    done = done.push(w);
                    assert(old_done + (seq![w] + words_acc(s, i + 1, -1)) =~= done + words_acc(
                        s,
                        i + 1,
                        -1,
                    ));
                }
            }
            start = None;
        } else {
            if start.is_none() {
                start = Some(i);
            }
        }
        i = i + 1;
    }
    if let Some(a) = start {
        let ghost w = s.subrange(a as int, n as int);
        assert(words(s)[done.len() as int] == w);
        match parse_i64(cs, a, n) {
            Some(v) => r.push(v),
            None => {
                assert(!(i64_value(words(s)[done.len() as int]) is Some));
                return None;
            },
        }
        proof {
            done = done.push(w);
        }
    }
    assert(words(s) =~= done);
    assert(r@ =~= word_values(s)) by {
        assert forall|k: int| 0 <= k < r@.len() implies r@[k] == word_values(s)[k] by {
            assert(Some(r@[k]) == i64_value(done[k]));
        }
    }
    assert(all_words_i64(s)) by {
        assert forall|k: int| 0 <= k < words(s).len() implies (i64_value(#[trigger] words(s)[k]) is Some) by {
            assert(Some(r@[k]) == i64_value(done[k]));
        }
    }
    Some(r)
}

/// Each word of `cs` read as an `i64`.
pub fn parse_numbers_part1(cs: &Vec<char>) -> (r: Vec<i64>)
    requires
        all_words_i64(cs@),
    ensures
        r@ == word_values(cs@),
{
    match try_word_values(cs) {
        Some(v) => v,
        None => Vec::new(),
    }
}

/// All the digits of `cs` read together as one number.
pub fn parse_numbers_part2(cs: &Vec<char>) -> (r: Vec<i64>)
    requires
        i64_value(squeeze(cs@)) is Some,
    ensures
        r@ == seq![i64_value(squeeze(cs@))->0],
{
    let mut kept: Vec<char> = Vec::new();
    let mut i: usize = 0;
    while i < cs.len()
        invariant
            0 <= i <= cs@.len(),
            kept@ == squeeze(cs@.subrange(0, i as int)),
        decreases cs@.len() - i,
    {
        let c = cs[i];
        proof {
            cs@.subrange(0, i as int).lemma_filter_push(c, |c: char| !is_space(c));
            assert(cs@.subrange(0, i + 1) =~= cs@.subrange(0, i as int).push(c));
        }
        if !(c == ' ' || c == '\t' || c == '\n' || c == '\r' || c == '\x0B' || c == '\x0C') {
            kept.push(c);
        }
        i = i + 1;
    }
    assert(cs@.subrange(0, cs@.len() as int) =~= cs@);
    assert(kept@.subrange(0, kept@.len() as int) =~= kept@);
    let v = match parse_i64(&kept, 0, kept.len()) {
        Some(v) => v,
        None => 0,
    };
    let mut r: Vec<i64> = Vec::new();
    r.push(v);
    assert(r@ =~= seq![i64_value(squeeze(cs@))->0]);
    r
}

/// The numbers of a line, read as `part` asks.
pub fn parse_numbers(cs: &Vec<char>, part: &Part) -> (r: Vec<i64>)
    requires
        numbers_valid(cs@, *part),
    ensures
        r@ == numbers_of(cs@, *part),
{
    match part {
        Part::One => parse_numbers_part1(cs),
        Part::Two => parse_numbers_part2(cs),
    }
}

/// Input of two lines, `Time:` then `Distance:`, whose numbers can be read
/// as `part` asks.
pub open spec fn race_input_valid(s: Seq<char>, part: Part) -> bool {
    let i = first_at(s, '\n');
    &&& i < s.len()
    &&& i >= 5
    &&& s.subrange(0, 5) == "Time:"@
    &&& s.len() - (i + 1) >= 9
    &&& s.subrange(i + 1, i + 10) == "Distance:"@
    &&& numbers_valid(s.subrange(5, i), part)
    &&& numbers_valid(s.subrange(i + 10, s.len() as int), part)
}

/// The times and the distances of the races, paired in order.
pub open spec fn races_of(s: Seq<char>, part: Part) -> Seq<(i64, i64)> {
    let i = first_at(s, '\n');
    let times = numbers_of(s.subrange(5, i), part);
    let dists = numbers_of(s.subrange(i + 10, s.len() as int), part);
    let n = if times.len() <= dists.len() {
        times.len()
    } else {
        dists.len()
    };
    Seq::new(n, |k: int| (times[k], dists[k]))
}

/// The races described by two lines, `Time:` then `Distance:`.
pub fn parse_input(s: &str, part: &Part) -> (r: Vec<(i64, i64)>)
    requires
        race_input_valid(s@, *part),
    ensures
        r@ == races_of(s@, *part),
{
    let cs = chars_of(s);
    let n = cs.len();
    let i = crate::parse::find_char(&cs, 0, n, '\n');
    proof {
        assert(cs@.subrange(0, n as int) =~= s@);
        crate::parse::lemma_first_at_bounds(s@, '\n');
    }
    let time_line = copy_range(&cs, 5, i);
    let dist_line = copy_range(&cs, i + 10, n);
    let times = parse_numbers(&time_line, part);
    let distances = parse_numbers(&dist_line, part);
    let m = if times.len() <= distances.len() {
        times.len()
    } else {
        distances.len()
    };
    let mut r: Vec<(i64, i64)> = Vec::new();
    let mut k: usize = 0;
    while k < m
        invariant
            0 <= k <= m,
            m <= times@.len(),
            m <= distances@.len(),
            r@.len() == k,
            forall|j: int| 0 <= j < k ==> #[trigger] r@[j] == (times@[j], distances@[j]),
        decreases m - k,
    {
        r.push((times[k], distances[k]));
        k = k + 1;
    }
    assert(r@ =~= races_of(s@, *part));
    r
}

} // verus!
