//! Extending integer sequences through their tables of differences.

use vstd::prelude::*;

use crate::parse::{chars_of, i64_value, int_value, is_space, parse_i64};

verus! {

/// The values of a list of `i32` as integers.
pub open spec fn ints(v: Seq<i32>) -> Seq<int> {
    v.map_values(|x: i32| x as int)
}

/// The rows of a table of `i32` as integers.
pub open spec fn rows_of(v: Seq<Vec<i32>>) -> Seq<Seq<int>> {
    v.map_values(|r: Vec<i32>| ints(r@))
}

/// The differences between neighbouring values.
pub open spec fn diffs(s: Seq<int>) -> Seq<int> {
    if s.len() == 0 {
        Seq::empty()
    } else {
        Seq::new((s.len() - 1) as nat, |i: int| s[i + 1] - s[i])
    }
}

pub open spec fn is_all_zero(s: Seq<int>) -> bool {
    forall|i: int| 0 <= i < s.len() ==> s[i] == 0
}

/// `s`, its differences, their differences, and so on, down to the first
/// row that is all zero.
pub open spec fn pyramid(s: Seq<int>) -> Seq<Seq<int>>
    decreases s.len(),
{
    let d = diffs(s);
    if is_all_zero(d) || s.len() == 0 {
        seq![s, d]
    } else {
        seq![s] + pyramid(d)
    }
}

pub open spec fn fits_i32(v: int) -> bool {
    i32::MIN <= v <= i32::MAX
}

/// Every value of every row fits in an `i32`.
pub open spec fn table_fits(rows: Seq<Seq<int>>) -> bool {
    forall|i: int, j: int| 0 <= i < rows.len() && 0 <= j < rows[i].len() ==> fits_i32(rows[i][j])
}

/// The sum of the last values of rows `i..`.
pub open spec fn end_sum(rows: Seq<Seq<int>>, i: int) -> int
    decreases rows.len() - i,
{
    if i < 0 || i >= rows.len() {
        0
    } else {
        rows[i].last() + end_sum(rows, i + 1)
    }
}

/// The alternating difference of the first values of rows `i..`:
/// `rows[i][0] - (rows[i+1][0] - (...))`.
pub open spec fn start_diff(rows: Seq<Seq<int>>, i: int) -> int
    decreases rows.len() - i,
{
    if i < 0 || i >= rows.len() {
        0
    } else {
        rows[i][0] - start_diff(rows, i + 1)
    }
}

/// No row is empty.
pub open spec fn rows_nonempty(rows: Seq<Seq<int>>) -> bool {
    forall|i: int| 0 <= i < rows.len() ==> #[trigger] rows[i].len() > 0
}

/// Every partial sum `end_sum(rows, i)` fits in an `i32`.
pub open spec fn end_sums_fit(rows: Seq<Seq<int>>) -> bool {
    forall|i: int| 0 <= i <= rows.len() ==> fits_i32(#[trigger] end_sum(rows, i))
}

/// Every partial difference `start_diff(rows, i)` fits in an `i32`.
pub open spec fn start_diffs_fit(rows: Seq<Seq<int>>) -> bool {
    forall|i: int| 0 <= i <= rows.len() ==> fits_i32(#[trigger] start_diff(rows, i))
}

/// A sequence whose difference table can be built and extended in `i32`:
/// the table ends in a non-empty row of zeros, and every value met fits.
pub open spec fn extrapolates(s: Seq<int>) -> bool {
    &&& rows_nonempty(pyramid(s))
    &&& table_fits(pyramid(s))
    &&& end_sums_fit(pyramid(s))
    &&& start_diffs_fit(pyramid(s))
}

/// The differences between neighbouring values.
pub fn differences(v: &[i32]) -> (r: Vec<i32>)
    requires
        forall|i: int| 0 <= i < diffs(ints(v@)).len() ==> fits_i32(#[trigger] diffs(ints(v@))[i]),
    ensures
        ints(r@) == diffs(ints(v@)),
{
    let mut r: Vec<i32> = Vec::new();
    if v.len() == 0 {
        assert(ints(r@) =~= diffs(ints(v@)));
        return r;
    }
    let mut i: usize = 0;
    while i < v.len() - 1
        invariant
            v@.len() > 0,
            0 <= i < v@.len(),
            r@.len() == i,
            forall|k: int| 0 <= k < i ==> r@[k] == v@[k + 1] - v@[k],
            forall|k: int| 0 <= k < diffs(ints(v@)).len() ==> fits_i32(#[trigger] diffs(ints(v@))[k]),
        decreases v@.len() - i,
    {
        assert(diffs(ints(v@))[i as int] == v@[i + 1] - v@[i as int]);
        r.push(v[i + 1] - v[i]);
        i = i + 1;
    }
    assert(ints(r@) =~= diffs(ints(v@)));
    r
}

/// Every value is zero.
pub fn all_zero(v: &[i32]) -> (r: bool)
    ensures
        r == is_all_zero(ints(v@)),
{
    let mut i: usize = 0;
    while i < v.len()
        invariant
            0 <= i <= v@.len(),
            forall|k: int| 0 <= k < i ==> v@[k] == 0,
        decreases v@.len() - i,
    {
        if v[i] != 0 {
            assert(ints(v@)[i as int] != 0);
            return false;
        }
        i = i + 1;
    }
    true
}

proof fn lemma_pyramid_first(s: Seq<int>)
    ensures
        pyramid(s).len() >= 2,
        pyramid(s)[0] == s,
    decreases s.len(),
{
    let d = diffs(s);
    if !(is_all_zero(d) || s.len() == 0) {
        lemma_pyramid_first(d);
    }
}

/// The table starts with the sequence and its differences.
pub proof fn lemma_pyramid_head(s: Seq<int>)
    ensures
        pyramid(s).len() >= 2,
        pyramid(s)[0] == s,
        pyramid(s)[1] == diffs(s),
{
    let d = diffs(s);
    if !(is_all_zero(d) || s.len() == 0) {
        lemma_pyramid_first(d);
    }
}

proof fn lemma_rows_push(rows: Seq<Vec<i32>>, v: Vec<i32>)
    ensures
        rows_of(rows.push(v)) == rows_of(rows).push(ints(v@)),
{
    assert(rows_of(rows.push(v)) =~= rows_of(rows).push(ints(v@)));
}

/// The table of successive differences of `input`, down to the first row of
/// zeros.
pub fn compute_successive_diffs(input: Vec<i32>) -> (r: Vec<Vec<i32>>)
    requires
        table_fits(pyramid(ints(input@))),
    ensures
        rows_of(r@) == pyramid(ints(input@)),
{
    let ghost target = pyramid(ints(input@));
    let mut result: Vec<Vec<i32>> = Vec::new();
    proof {
        lemma_rows_push(result@, input);
    }
    result.push(input);
    loop
        invariant_except_break
            target == rows_of(result@).drop_last() + pyramid(rows_of(result@).last()),
        invariant
            result@.len() > 0,
            table_fits(target),
        ensures
            rows_of(result@) == target,
        decreases rows_of(result@).last().len(),
    {
        let last_index = result.len() - 1;
        let ghost last = rows_of(result@).last();
        assert(ints(result@[last_index as int]@) == last);
        let ghost d = diffs(last);
        proof {
            lemma_pyramid_head(last);
        }
        assert(pyramid(last)[1] == d);
        assert(target[last_index + 1] == d);
        let diffs_v = differences(result[last_index].as_slice());
        let done = all_zero(diffs_v.as_slice());
        let ghost before = rows_of(result@);
        proof {
            lemma_rows_push(result@, diffs_v);
        }
        result.push(diffs_v);
        if done || result[last_index].len() == 0 {
            assert(rows_of(result@) =~= target);
            break;
        }
        assert(target =~= rows_of(result@).drop_last() + pyramid(rows_of(result@).last())) by {
            assert(rows_of(result@).drop_last() =~= before);
            assert(pyramid(last) == seq![last] + pyramid(d));
            assert(before =~= before.drop_last().push(last));
        }
    }
    result
}

/// Each row with the sum of the last values of it and the rows below it
/// appended.
pub fn extrapolate_right(input: Vec<Vec<i32>>) -> (r: Vec<Vec<i32>>)
    requires
        rows_nonempty(rows_of(input@)),
        end_sums_fit(rows_of(input@)),
    ensures
        r@.len() == input@.len(),
        forall|i: int|
            0 <= i < r@.len() ==> ints(#[trigger] r@[i]@) == rows_of(input@)[i].push(
                end_sum(rows_of(input@), i),
            ),
{
    let ghost rows = rows_of(input@);
    let n = input.len();
    let mut rest = input;
    let mut rev: Vec<Vec<i32>> = Vec::new();
    let mut endval: i32 = 0;
    while rest.len() > 0
        invariant
            rows.len() == n,
            rows_nonempty(rows),
            end_sums_fit(rows),
            rest@.len() + rev@.len() == n,
            rows_of(rest@) == rows.subrange(0, rest@.len() as int),
            endval == end_sum(rows, rest@.len() as int),
            forall|m: int|
                0 <= m < rev@.len() ==> ints(#[trigger] rev@[m]@) == rows[n - 1 - m].push(
                    end_sum(rows, n - 1 - m),
                ),
        decreases rest@.len(),
    {
        let k = rest.len() - 1;
        let ghost before = rest@;
        assert(rows_of(before)[k as int] == rows[k as int]);
        let mut v = match rest.pop() {
            Some(v) => v,
            None => Vec::new(),
        };
        assert(ints(v@) == rows[k as int]);
        assert(rows[k as int].len() > 0);
        assert(rows_of(rest@) =~= rows.subrange(0, k as int)) by {
            assert(rest@ =~= before.drop_last());
        }
        assert(fits_i32(end_sum(rows, k as int)));
        endval = endval + v[v.len() - 1];
        v.push(endval);
        assert(ints(v@) =~= rows[k as int].push(end_sum(rows, k as int)));
        rev.push(v);
    }
    let mut result: Vec<Vec<i32>> = Vec::new();
    while rev.len() > 0
        invariant
            rows.len() == n,
            result@.len() + rev@.len() == n,
            forall|m: int|
                0 <= m < rev@.len() ==> ints(#[trigger] rev@[m]@) == rows[n - 1 - m].push(
                    end_sum(rows, n - 1 - m),
                ),
            forall|m: int|
                0 <= m < result@.len() ==> ints(#[trigger] result@[m]@) == rows[m].push(
                    end_sum(rows, m),
                ),
        decreases rev@.len(),
    {
        let ghost before = rev@;
        let v = match rev.pop() {
            Some(v) => v,
            None => Vec::new(),
        };
        assert(v == before[before.len() - 1]);
        assert forall|m: int| 0 <= m < rev@.len() implies ints(#[trigger] rev@[m]@) == rows[n - 1
            - m].push(end_sum(rows, n - 1 - m)) by {
            assert(rev@[m] == before[m]);
        }
        result.push(v);
    }
    result
}

/// Each row with the alternating difference of the first values of it and
/// the rows below it put in front.
pub fn extrapolate_left(input: Vec<Vec<i32>>) -> (r: Vec<Vec<i32>>)
    requires
        rows_nonempty(rows_of(input@)),
        start_diffs_fit(rows_of(input@)),
    ensures
        r@.len() == input@.len(),
        forall|i: int|
            0 <= i < r@.len() ==> ints(#[trigger] r@[i]@) == seq![start_diff(rows_of(input@), i)]
                + rows_of(input@)[i],
{
    let ghost rows = rows_of(input@);
    let n = input.len();
    let mut rest = input;
    let mut rev: Vec<Vec<i32>> = Vec::new();
    let mut endval: i32 = 0;
    while rest.len() > 0
        invariant
            rows.len() == n,
            rows_nonempty(rows),
            start_diffs_fit(rows),
            rest@.len() + rev@.len() == n,
            rows_of(rest@) == rows.subrange(0, rest@.len() as int),
            endval == start_diff(rows, rest@.len() as int),
            forall|m: int|
                0 <= m < rev@.len() ==> ints(#[trigger] rev@[m]@) == seq![
                    start_diff(rows, n - 1 - m),
                ] + rows[n - 1 - m],
        decreases rest@.len(),
    {
        let k = rest.len() - 1;
        let ghost before = rest@;
        assert(rows_of(before)[k as int] == rows[k as int]);
        let mut v = match rest.pop() {
            Some(v) => v,
            None => Vec::new(),
        };
        assert(ints(v@) == rows[k as int]);
        assert(rows[k as int].len() > 0);
        assert(rows_of(rest@) =~= rows.subrange(0, k as int)) by {
            assert(rest@ =~= before.drop_last());
        }
        assert(fits_i32(start_diff(rows, k as int)));
        endval = v[0] - endval;
        v.insert(0, endval);
        assert(ints(v@) =~= seq![start_diff(rows, k as int)] + rows[k as int]);
        rev.push(v);
    }
    let mut result: Vec<Vec<i32>> = Vec::new();
    while rev.len() > 0
        invariant
            rows.len() == n,
            result@.len() + rev@.len() == n,
            forall|m: int|
                0 <= m < rev@.len() ==> ints(#[trigger] rev@[m]@) == seq![
                    start_diff(rows, n - 1 - m),
                ] + rows[n - 1 - m],
            forall|m: int|
                0 <= m < result@.len() ==> ints(#[trigger] result@[m]@) == seq![start_diff(rows, m)]
                    + rows[m],
        decreases rev@.len(),
    {
        let ghost before = rev@;
        let v = match rev.pop() {
            Some(v) => v,
            None => Vec::new(),
        };
        assert(v == before[before.len() - 1]);
        assert forall|m: int| 0 <= m < rev@.len() implies ints(#[trigger] rev@[m]@) == seq![
            start_diff(rows, n - 1 - m),
        ] + rows[n - 1 - m] by {
            assert(rev@[m] == before[m]);
        }
        result.push(v);
    }
    result
}

/// The value that continues the sequence: the sum of the last values of
/// every row of its difference table.
pub open spec fn next_value(s: Seq<int>) -> int {
    end_sum(pyramid(s), 0)
}

/// The value that precedes the sequence, found from the first values of
/// every row of its difference table.
pub open spec fn prior_value(s: Seq<int>) -> int {
    start_diff(pyramid(s), 0)
}

/// The value that continues `v`.
pub fn predict_next_value(v: Vec<i32>) -> (r: i32)
    requires
        extrapolates(ints(v@)),
    ensures
        r == next_value(ints(v@)),
{
    let ghost s = ints(v@);
    let rows = compute_successive_diffs(v);
    proof {
        lemma_pyramid_head(s);
    }
    let ext = extrapolate_right(rows);
    let first = &ext[0];
    assert(ints(first@) == pyramid(s)[0].push(end_sum(pyramid(s), 0)));
    assert(ints(first@)[first@.len() - 1] == first@[first@.len() - 1] as int);
    first[first.len() - 1]
}

/// The value that precedes `v`.
pub fn predict_prior_value(v: Vec<i32>) -> (r: i32)
    requires
        extrapolates(ints(v@)),
    ensures
        r == prior_value(ints(v@)),
{
    let ghost s = ints(v@);
    let rows = compute_successive_diffs(v);
    proof {
        lemma_pyramid_head(s);
    }
    let ext = extrapolate_left(rows);
    let first = &ext[0];
    assert(ints(first@) == seq![start_diff(pyramid(s), 0)] + pyramid(s)[0]);
    assert(ints(first@)[0] == first@[0] as int);
    first[0]
}

/// The sum of `f` over the sequences `vv[k..]`.
pub open spec fn sum_from(vv: Seq<Vec<i32>>, k: int, forward: bool) -> int
    decreases vv.len() - k,
{
    if k < 0 || k >= vv.len() {
        0
    } else {
        (if forward {
            next_value(ints(vv[k]@))
        } else {
            prior_value(ints(vv[k]@))
        }) + sum_from(vv, k + 1, forward)
    }
}

/// Every sequence extrapolates within `i32`, and so does every partial sum
/// of the predictions.
pub open spec fn all_extrapolate(vv: Seq<Vec<i32>>, forward: bool) -> bool {
    &&& forall|k: int| 0 <= k < vv.len() ==> extrapolates(ints(#[trigger] vv[k]@))
    &&& forall|k: int| 0 <= k <= vv.len() ==> fits_i32(#[trigger] sum_from(vv, k, forward))
}

fn sum_predictions(vv: Vec<Vec<i32>>, forward: bool) -> (r: i32)
    requires
        all_extrapolate(vv@, forward),
    ensures
        r == sum_from(vv@, 0, forward),
{
    let ghost all = vv@;
    let mut rest = vv;
    let mut total: i32 = 0;
    while rest.len() > 0
        invariant
            all_extrapolate(all, forward),
            rest@.len() <= all.len(),
            rest@ == all.subrange(0, rest@.len() as int),
            total == sum_from(all, rest@.len() as int, forward),
        decreases rest@.len(),
    {
        let k = rest.len() - 1;
        let ghost before = rest@;
        let v = match rest.pop() {
            Some(v) => v,
            None => Vec::new(),
        };
        assert(before[k as int] == all[k as int]);
        assert(v == all[k as int]);
        assert(rest@ =~= all.subrange(0, k as int)) by {
            assert(rest@ =~= before.drop_last());
        }
        assert(extrapolates(ints(all[k as int]@)));
        assert(fits_i32(sum_from(all, k as int, forward)));
        let p = if forward {
            predict_next_value(v)
        } else {
            predict_prior_value(v)
        };
        total = total + p;
    }
    total
}

/// The sum of the values that continue each sequence.
pub fn part1(vv: Vec<Vec<i32>>) -> (r: i32)
    requires
        all_extrapolate(vv@, true),
    ensures
        r == sum_from(vv@, 0, true),
{
    sum_predictions(vv, true)
}

/// The sum of the values that precede each sequence.
pub fn part2(vv: Vec<Vec<i32>>) -> (r: i32)
    requires
        all_extrapolate(vv@, false),
    ensures
        r == sum_from(vv@, 0, false),
{
    sum_predictions(vv, false)
}

/// The words of `s[i..]`, separated by white space, given that the word
/// being read started at `start` (or that none is, when `start < 0`).
pub open spec fn words_acc(s: Seq<char>, i: int, start: int) -> Seq<Seq<char>>
    decreases s.len() - i,
{
    if i < 0 || i >= s.len() {
        if 0 <= start <= s.len() {
            seq![s.subrange(start, s.len() as int)]
        } else {
            Seq::empty()
        }
    } else if is_space(s[i]) {
        if 0 <= start <= i {
            seq![s.subrange(start, i)] + words_acc(s, i + 1, -1)
        } else {
            words_acc(s, i + 1, -1)
        }
    } else {
        words_acc(s, i + 1, if start >= 0 { start } else { i })
    }
}

/// The words of `s`, separated by white space.
pub open spec fn words(s: Seq<char>) -> Seq<Seq<char>> {
    words_acc(s, 0, -1)
}

/// The `i32` that `s` spells, if it spells one in range.
pub open spec fn i32_value(s: Seq<char>) -> Option<i32> {
    match int_value(s) {
        Some(v) => if fits_i32(v) {
            Some(v as i32)
        } else {
            None
        },
        None => None,
    }
}

fn parse_i32(cs: &Vec<char>, lo: usize, hi: usize) -> (r: Option<i32>)
    requires
        lo <= hi <= cs@.len(),
    ensures
        r == i32_value(cs@.subrange(lo as int, hi as int)),
{
    match parse_i64(cs, lo, hi) {
        Some(v) => if v >= -2147483648 && v <= 2147483647 {
            Some(v as i32)
        } else {
            None
        },
        None => None,
    }
}

/// The numbers of a line, separated by white space. Every word must be an
/// `i32`.
pub fn number_seq(s: &str) -> (r: Vec<i32>)
    requires
        forall|k: int| 0 <= k < words(s@).len() ==> (i32_value(#[trigger] words(s@)[k]) is Some),
    ensures
        r@.len() == words(s@).len(),
        forall|k: int| 0 <= k < r@.len() ==> Some(#[trigger] r@[k]) == i32_value(words(s@)[k]),
{
    let cs = chars_of(s);
    let n = cs.len();
    let mut r: Vec<i32> = Vec::new();
    let mut i: usize = 0;
    let mut start: Option<usize> = None;
    let ghost mut done: Seq<Seq<char>> = Seq::empty();
    while i < n
        invariant
            cs@ == s@,
            n == cs@.len(),
            0 <= i <= n,
            start matches Some(a) ==> a < i,
            words(s@) == done + words_acc(
                s@,
                i as int,
                match start {
                    Some(a) => a as int,
                    None => -1,
                },
            ),
            forall|k: int| 0 <= k < words(s@).len() ==> (i32_value(#[trigger] words(s@)[k]) is Some),
            r@.len() == done.len(),
            forall|k: int| 0 <= k < r@.len() ==> Some(#[trigger] r@[k]) == i32_value(done[k]),
        decreases n - i,
    {
        let ghost st: int = match start {
            Some(a) => a as int,
            None => -1,
        };
        if is_space_at(&cs, i) {
            if let Some(a) = start {
                let ghost w = s@.subrange(a as int, i as int);
                assert(words(s@)[done.len() as int] == w);
                let v = parse_i32(&cs, a, i);
                match v {
                    Some(v) => r.push(v),
                    None => {},
                }
                proof {
                    let old_done = done;
                    done = done.push(w);
                    assert(old_done + (seq![w] + words_acc(s@, i + 1, -1)) =~= done + words_acc(s@, i + 1, -1));
                }
            }
            start = None;
        } else {
            if start.is_none() {
                start = Some(i);
            }
        }
        i = i + 1;
    }
    if let Some(a) = start {
        let ghost w = s@.subrange(a as int, n as int);
        assert(words(s@)[done.len() as int] == w);
        let v = parse_i32(&cs, a, n);
        match v {
            Some(v) => r.push(v),
            None => {},
        }
        proof {
            done = done.push(w);
        }
    }
    assert(words(s@) =~= done);
    r
}

fn is_space_at(cs: &Vec<char>, i: usize) -> (r: bool)
    requires
        i < cs@.len(),
    ensures
        r == is_space(cs@[i as int]),
{
    let c = cs[i];
    c == ' ' || c == '\t' || c == '\n' || c == '\r' || c == '\x0B' || c == '\x0C'
}

} // verus!
