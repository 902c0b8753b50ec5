//! The first and last digits of a line.

use vstd::prelude::*;

use crate::parse::{chars_of, is_digit, lines, Fail};

verus! {

/// The decimal digits of `s`, in order, as numbers.
pub open spec fn digits_of(s: Seq<char>) -> Seq<u32> {
    s.filter(|c: char| is_digit(c)).map_values(|c: char| (c as u32 - '0' as u32) as u32)
}

/// The first and the last value, which are the same for a single value; an
/// error when there are none.
pub fn first_and_last(v: &[u32]) -> (r: Result<(u32, u32), Fail>)
    ensures
        r is Err <==> v@.len() == 0,
        r matches Ok(p) ==> p == (v@[0], v@.last()),
{
    if v.len() == 0 {
        Err(Fail(String::from_str("there are no digits")))
    } else {
        Ok((v[0], v[v.len() - 1]))
    }
}

/// The first and the last decimal digit of a line.
pub fn first_and_last_p1(s: &str) -> (r: Result<(u32, u32), Fail>)
    ensures
        r is Err <==> digits_of(s@).len() == 0,
        r matches Ok(p) ==> p == (digits_of(s@)[0], digits_of(s@).last()),
{
    let cs = chars_of(s);
    let mut digits: Vec<u32> = Vec::new();
    let mut i: usize = 0;
    while i < cs.len()
        invariant
            0 <= i <= cs@.len(),
            cs@ == s@,
            digits@ == digits_of(cs@.subrange(0, i as int)),
        decreases cs@.len() - i,
    {
        let c = cs[i];
        proof {
            cs@.subrange(0, i as int).lemma_filter_push(c, |c: char| is_digit(c));
            assert(cs@.subrange(0, i + 1) =~= cs@.subrange(0, i as int).push(c));
        }
        if c >= '0' && c <= '9' {
            digits.push(c as u32 - '0' as u32);
            assert(digits@ =~= digits_of(cs@.subrange(0, i + 1)));
        } else {
            assert(digits@ =~= digits_of(cs@.subrange(0, i + 1)));
        }
        i = i + 1;
    }
    assert(cs@.subrange(0, cs@.len() as int) =~= s@);
    first_and_last(digits.as_slice())
}

/// The calibration value of a line: ten times its first digit plus its last
/// digit, if it has a digit.
pub open spec fn line_value(l: Seq<char>) -> Option<int> {
    let d = digits_of(l);
    if d.len() == 0 {
        None
    } else {
        Some(10 * d[0] + d.last())
    }
}

/// The sum of the values of the lines `ls[..k]`.
pub open spec fn value_total(ls: Seq<Seq<char>>, k: int) -> int
    decreases k,
{
    if k <= 0 || k > ls.len() {
        0
    } else {
        value_total(ls, k - 1) + match line_value(ls[k - 1]) {
            Some(v) => v,
            None => 0,
        }
    }
}

proof fn lemma_digits_small(s: Seq<char>)
    ensures
        forall|i: int| 0 <= i < digits_of(s).len() ==> #[trigger] digits_of(s)[i] <= 9,
    decreases s.len(),
{
    let p = |c: char| is_digit(c);
    if s.len() > 0 {
        lemma_digits_small(s.drop_last());
        s.drop_last().lemma_filter_push(s.last(), p);
        assert(s.drop_last().push(s.last()) =~= s);
    }
}

proof fn lemma_value_total_bound(ls: Seq<Seq<char>>, k: int)
    requires
        0 <= k <= ls.len(),
    ensures
        0 <= value_total(ls, k) <= 99 * k,
    decreases k,
{
    if k > 0 {
        lemma_value_total_bound(ls, k - 1);
        lemma_digits_small(ls[k - 1]);
        let d = digits_of(ls[k - 1]);
        if d.len() > 0 {
            assert(d[0] <= 9 && d[d.len() - 1] <= 9);
        }
    }
}

/// The sum of the calibration values of the lines of `s`; an error names a
/// line without digits.
pub fn part1(s: &str) -> (r: Result<u32, Fail>)
    requires
        99 * lines(s@).len() <= u32::MAX,
    ensures
        r is Ok <==> forall|k: int| 0 <= k < lines(s@).len() ==> (line_value(#[trigger] lines(s@)[k]) is Some),
        r matches Ok(v) ==> v == value_total(lines(s@), lines(s@).len() as int),
{
    let cs = chars_of(s);
    let n = cs.len();
    let mut total: u32 = 0;
    let mut pos: usize = 0;
    let ghost mut done: Seq<Seq<char>> = Seq::empty();
    assert(cs@.subrange(0, n as int) =~= s@);
    assert(done + lines(cs@.subrange(0, n as int)) =~= lines(s@));
    while pos < n
        invariant
            cs@ == s@,
            n == cs@.len(),
            0 <= pos <= n,
            lines(s@) == done + lines(cs@.subrange(pos as int, n as int)),
            99 * lines(s@).len() <= u32::MAX,
            forall|k: int| 0 <= k < done.len() ==> (line_value(#[trigger] done[k]) is Some),
            total == value_total(done, done.len() as int),
        decreases n - pos,
    {
        let e = crate::parse::find_char(&cs, pos, n, '\n');
        let ghost rest = cs@.subrange(pos as int, n as int);
        proof {
            crate::parse::lemma_first_at_bounds(rest, '\n');
        }
        let ghost line = cs@.subrange(pos as int, e as int);
        assert(rest.subrange(0, e - pos) =~= line);
        proof {
            if e < n {
                assert(rest.subrange(e - pos + 1, rest.len() as int) =~= cs@.subrange(
                    e + 1,
                    n as int,
                ));
                assert(lines(rest) == seq![line] + lines(cs@.subrange(e + 1, n as int)));
            } else {
                assert(rest =~= line);
                assert(cs@.subrange(n as int, n as int) =~= Seq::<char>::empty());
                assert(lines(rest) == seq![line]);
            }
            assert(lines(s@)[done.len() as int] == line);
        }
        let text = crate::parse::string_from(&cs, pos, e);
        let (left, right) = match first_and_last_p1(text.as_str()) {
            Ok(pair) => pair,
            Err(f) => {
                return Err(f);
            },
        };
        proof {
            lemma_digits_small(line);
            lemma_value_total_bound(done.push(line), done.len() as int + 1);
            assert(value_total(done.push(line), done.len() as int) == value_total(done, done.len() as int)) by {
                lemma_value_total_prefix(done, line, done.len() as int);
            }
            assert(done.len() + 1 <= lines(s@).len());
        }
        total = total + 10 * left + right;
        proof {
            let old_done = done;
            done = done.push(line);
            assert(done + lines(cs@.subrange(if e < n { e + 1 } else { n as int }, n as int))
                =~= old_done + lines(rest)) by {
                if e == n {
                    assert(lines(cs@.subrange(n as int, n as int)) == Seq::<Seq<char>>::empty());
                }
            }
            assert forall|k: int| 0 <= k < done.len() implies (line_value(#[trigger] done[k]) is Some) by {
                if k < old_done.len() {
                    assert(done[k] == old_done[k]);
                }
            }
        }
        pos = if e < n {
            e + 1
        } else {
            n
        };
    }
    proof {
        assert(cs@.subrange(n as int, n as int) =~= Seq::<char>::empty());
        assert(lines(s@) =~= done);
    }
    Ok(total)
}

proof fn lemma_value_total_prefix(ls: Seq<Seq<char>>, x: Seq<char>, k: int)
    requires
        0 <= k <= ls.len(),
    ensures
        value_total(ls.push(x), k) == value_total(ls, k),
    decreases k,
{
    if k > 0 {
        lemma_value_total_prefix(ls, x, k - 1);
        assert(ls.push(x)[k - 1] == ls[k - 1]);
    }
}

} // verus!
