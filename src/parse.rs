//! Reading bricks from text, one `x,y,z~x,y,z` per line.

use vstd::prelude::*;

use crate::brick::{Brick, Position3};
use vstd::std_specs::iter::IteratorSpec;

verus! {

broadcast use vstd::string::next_postcondition, vstd::string::axiom_spec_iter;

/// A failure to read input, with a message that names the offending text.
#[derive(Debug, Clone, PartialEq, Eq)]
pub struct Fail(pub String);

// ---------------------------------------------------------------------------
// The text format, as spec functions on characters.
// ---------------------------------------------------------------------------

/// The index of the first `c` in `s`, or `s.len()` when there is none.
pub open spec fn first_at(s: Seq<char>, c: char) -> int
    decreases s.len(),
{
    if s.len() == 0 {
        0
    } else if s[0] == c {
        0
    } else {
        1 + first_at(s.drop_first(), c)
    }
}

/// The index of the first `<-` in `s`, or `s.len()` when there is none.
pub open spec fn first_arrow(s: Seq<char>) -> int
    decreases s.len(),
{
    if s.len() < 2 {
        s.len() as int
    } else if s[0] == '<' && s[1] == '-' {
        0
    } else {
        1 + first_arrow(s.drop_first())
    }
}

pub open spec fn is_space(c: char) -> bool {
    c == ' ' || c == '\t' || c == '\n' || c == '\r' || c == '\x0B' || c == '\x0C'
}

pub open spec fn trim_start(s: Seq<char>) -> Seq<char>
    decreases s.len(),
{
    if s.len() > 0 && is_space(s[0]) {
        trim_start(s.drop_first())
    } else {
        s
    }
}

pub open spec fn trim_end(s: Seq<char>) -> Seq<char>
    decreases s.len(),
{
    if s.len() > 0 && is_space(s.last()) {
        trim_end(s.drop_last())
    } else {
        s
    }
}

/// `s` without white space at either end.
pub open spec fn trim(s: Seq<char>) -> Seq<char> {
    trim_end(trim_start(s))
}

pub open spec fn is_digit(c: char) -> bool {
    '0' <= c <= '9'
}

pub open spec fn all_digits(s: Seq<char>) -> bool {
    forall|i: int| 0 <= i < s.len() ==> is_digit(#[trigger] s[i])
}

/// The number that a run of decimal digits spells.
pub open spec fn digits_value(s: Seq<char>) -> int
    decreases s.len(),
{
    if s.len() == 0 {
        0
    } else {
        digits_value(s.drop_last()) * 10 + (s.last() as int - '0' as int)
    }
}

/// The integer that `s` spells: an optional sign, then at least one digit.
pub open spec fn int_value(s: Seq<char>) -> Option<int> {
    if s.len() > 0 && (s[0] == '-' || s[0] == '+') {
        let d = s.drop_first();
        if d.len() > 0 && all_digits(d) {
            Some(
                if s[0] == '-' {
                    -digits_value(d)
                } else {
                    digits_value(d)
                },
            )
        } else {
            None
        }
    } else if s.len() > 0 && all_digits(s) {
        Some(digits_value(s))
    } else {
        None
    }
}

/// The `i64` that `s` spells, if it spells one in range.
pub open spec fn i64_value(s: Seq<char>) -> Option<i64> {
    match int_value(s) {
        Some(v) => if i64::MIN <= v <= i64::MAX {
            Some(v as i64)
        } else {
            None
        },
        None => None,
    }
}

/// A point written `x,y,z`.
pub open spec fn point_value(s: Seq<char>) -> Option<Position3> {
    let a = first_at(s, ',');
    let rest = s.subrange(a + 1, s.len() as int);
    let b = first_at(rest, ',');
    let rest2 = rest.subrange(b + 1, rest.len() as int);
    if a >= s.len() || b >= rest.len() || first_at(rest2, ',') < rest2.len() {
        None
    } else {
        match (
            i64_value(s.subrange(0, a)),
            i64_value(rest.subrange(0, b)),
            i64_value(rest2),
        ) {
            (Some(x), Some(y), Some(z)) => Some(Position3 { x, y, z }),
            _ => None,
        }
    }
}

/// The two ends and the label of a brick written `x,y,z~x,y,z`, optionally
/// followed by `<- label`.
pub open spec fn brick_value(s: Seq<char>) -> Option<(Position3, Position3, Option<Seq<char>>)> {
    let t = first_at(s, '~');
    let right = s.subrange(t + 1, s.len() as int);
    let a = first_arrow(right);
    let (right_text, label) = if a < right.len() {
        (trim(right.subrange(0, a)), Some(trim(right.subrange(a + 2, right.len() as int))))
    } else {
        (right, None)
    };
    if t >= s.len() {
        None
    } else {
        match (point_value(s.subrange(0, t)), point_value(right_text)) {
            (Some(p), Some(q)) => Some((p, q, label)),
            _ => None,
        }
    }
}

/// Brick `b` is what `s` describes: its ends ordered by height.
pub open spec fn brick_matches(b: Brick, s: Seq<char>) -> bool {
    match brick_value(s) {
        Some((p, q, label)) => {
            &&& p.z <= q.z ==> b.lower == p && b.upper == q
            &&& p.z > q.z ==> b.lower == q && b.upper == p
            &&& crate::brick::label_view(b.label) == label
        },
        None => false,
    }
}

/// The lines of `s`: split at each newline, with no empty last line for a
/// final newline.
pub open spec fn lines(s: Seq<char>) -> Seq<Seq<char>>
    decreases s.len(),
{
    if s.len() == 0 {
        Seq::empty()
    } else {
        let i = first_at(s, '\n');
        if i < 0 || i >= s.len() {
            seq![s]
        } else {
            seq![s.subrange(0, i)] + lines(s.subrange(i + 1, s.len() as int))
        }
    }
}

// ---------------------------------------------------------------------------
// Facts about the format.
// ---------------------------------------------------------------------------

pub proof fn lemma_first_at_bounds(s: Seq<char>, c: char)
    ensures
        0 <= first_at(s, c) <= s.len(),
        first_at(s, c) < s.len() ==> s[first_at(s, c)] == c,
        forall|k: int| 0 <= k < first_at(s, c) ==> s[k] != c,
    decreases s.len(),
{
    if s.len() > 0 && s[0] != c {
        lemma_first_at_bounds(s.drop_first(), c);
        assert forall|k: int| 0 <= k < first_at(s, c) implies s[k] != c by {
            if k > 0 {
                assert(s[k] == s.drop_first()[k - 1]);
            }
        }
    }
}

proof fn lemma_first_at_is(s: Seq<char>, c: char, i: int)
    requires
        0 <= i <= s.len(),
        forall|k: int| 0 <= k < i ==> s[k] != c,
        i < s.len() ==> s[i] == c,
    ensures
        first_at(s, c) == i,
    decreases s.len(),
{
    if s.len() > 0 && i > 0 {
        assert forall|k: int| 0 <= k < i - 1 implies s.drop_first()[k] != c by {
            assert(s.drop_first()[k] == s[k + 1]);
        }
        lemma_first_at_is(s.drop_first(), c, i - 1);
    }
}

proof fn lemma_first_arrow_is(s: Seq<char>, i: int)
    requires
        0 <= i <= s.len(),
        forall|k: int| 0 <= k < i && k + 1 < s.len() ==> !(#[trigger] s[k] == '<' && s[k + 1] == '-'),
        i + 1 < s.len() ==> s[i] == '<' && s[i + 1] == '-',
        i + 1 >= s.len() ==> i == s.len(),
    ensures
        first_arrow(s) == i,
    decreases s.len(),
{
    if s.len() >= 2 && i > 0 {
        assert forall|k: int|
            0 <= k < i - 1 && k + 1 < s.drop_first().len() implies !(#[trigger] s.drop_first()[k] == '<'
            && s.drop_first()[k + 1] == '-') by {
            assert(s.drop_first()[k] == s[k + 1]);
            assert(s.drop_first()[k + 1] == s[k + 2]);
        }
        lemma_first_arrow_is(s.drop_first(), i - 1);
    }
}

// ---------------------------------------------------------------------------
// Reading the format.
// ---------------------------------------------------------------------------

/// The characters of `s`, in order.
pub fn chars_of(s: &str) -> (r: Vec<char>)
    ensures
        r@ == s@,
{
    let mut it = s.chars();
    let mut r: Vec<char> = Vec::new();
    loop
        invariant
            r@ + it.remaining() == s@,
            it.obeys_prophetic_iter_laws(),
            it.decrease() is Some,
        ensures
            r@ == s@,
        decreases it.decrease()->0,
    {
        let ghost before = it.remaining();
        match it.next() {
            Some(c) => {
                r.push(c);
                assert(r@ + it.remaining() =~= s@) by {
                    assert(before =~= seq![c] + it.remaining());
                }
            },
            None => {
                assert(r@ =~= s@);
                break;
            },
        }
    }
    r
}

/// Relies on `String`'s `FromIterator<&char>`: the string holds the given
/// characters in order.
#[verifier::external_body]
pub(crate) fn string_from(cs: &Vec<char>, lo: usize, hi: usize) -> (r: String)
    requires
        lo <= hi <= cs@.len(),
    ensures
        r@ == cs@.subrange(lo as int, hi as int),
{
    String::from_iter(cs[lo..hi].iter())
}

pub fn find_char(cs: &Vec<char>, lo: usize, hi: usize, c: char) -> (r: usize)
    requires
        lo <= hi <= cs@.len(),
    ensures
        r == lo + first_at(cs@.subrange(lo as int, hi as int), c),
        lo <= r <= hi,
{
    let ghost sub = cs@.subrange(lo as int, hi as int);
    let mut i: usize = lo;
    while i < hi && cs[i] != c
        invariant
            lo <= i <= hi <= cs@.len(),
            forall|k: int| lo <= k < i ==> cs@[k] != c,
        decreases hi - i,
    {
        i = i + 1;
    }
    proof {
        assert forall|k: int| 0 <= k < i - lo implies sub[k] != c by {
            assert(sub[k] == cs@[lo + k]);
        }
        lemma_first_at_is(sub, c, i - lo);
    }
    i
}

fn find_arrow(cs: &Vec<char>, lo: usize, hi: usize) -> (r: usize)
    requires
        lo <= hi <= cs@.len(),
    ensures
        r == lo + first_arrow(cs@.subrange(lo as int, hi as int)),
        lo <= r <= hi,
        r < hi ==> r + 1 < hi,
{
    let ghost sub = cs@.subrange(lo as int, hi as int);
    let mut i: usize = lo;
    while i < hi && i + 1 < hi && !(cs[i] == '<' && cs[i + 1] == '-')
        invariant
            lo <= i <= hi <= cs@.len(),
            forall|k: int| lo <= k < i && k + 1 < hi ==> !(#[trigger] cs@[k] == '<' && cs@[k + 1] == '-'),
        decreases hi - i,
    {
        i = i + 1;
    }
    let r = if i < hi && i + 1 < hi {
        i
    } else {
        hi
    };
    proof {
        assert forall|k: int| 0 <= k < r - lo && k + 1 < sub.len() implies !(#[trigger] sub[k] == '<' && sub[k
            + 1] == '-') by {
            assert(sub[k] == cs@[lo + k]);
            assert(sub[k + 1] == cs@[lo + k + 1]);
        }
        lemma_first_arrow_is(sub, r - lo);
    }
    r
}

fn is_space_char(c: char) -> (r: bool)
    ensures
        r == is_space(c),
{
    c == ' ' || c == '\t' || c == '\n' || c == '\r' || c == '\x0B' || c == '\x0C'
}

/// The part of `cs[lo..hi]` left once white space is cut from both ends.
fn trim_range(cs: &Vec<char>, lo: usize, hi: usize) -> (r: (usize, usize))
    requires
        lo <= hi <= cs@.len(),
    ensures
        lo <= r.0 <= r.1 <= hi,
        cs@.subrange(r.0 as int, r.1 as int) == trim(cs@.subrange(lo as int, hi as int)),
{
    let mut a: usize = lo;
    while a < hi && is_space_char(cs[a])
        invariant
            lo <= a <= hi <= cs@.len(),
            trim_start(cs@.subrange(lo as int, hi as int)) == trim_start(
                cs@.subrange(a as int, hi as int),
            ),
        decreases hi - a,
    {
        assert(cs@.subrange(a as int, hi as int).drop_first() =~= cs@.subrange(
            a + 1,
            hi as int,
        ));
        a = a + 1;
    }
    let mut b: usize = hi;
    while b > a && is_space_char(cs[b - 1])
        invariant
            lo <= a <= b <= hi <= cs@.len(),
            trim_end(cs@.subrange(a as int, hi as int)) == trim_end(cs@.subrange(a as int, b as int)),
        decreases b - a,
    {
        assert(cs@.subrange(a as int, b as int).drop_last() =~= cs@.subrange(a as int, b - 1));
        b = b - 1;
    }
    (a, b)
}

proof fn lemma_digits_push(s: Seq<char>, lo: int, i: int)
    requires
        0 <= lo <= i < s.len(),
    ensures
        digits_value(s.subrange(lo, i + 1)) == digits_value(s.subrange(lo, i)) * 10 + (s[i] as int
            - '0' as int),
{
    assert(s.subrange(lo, i + 1).drop_last() =~= s.subrange(lo, i));
}

proof fn lemma_digits_nonneg(s: Seq<char>)
    requires
        all_digits(s),
    ensures
        digits_value(s) >= 0,
    decreases s.len(),
{
    if s.len() > 0 {
        assert(all_digits(s.drop_last())) by {
            assert forall|i: int| 0 <= i < s.drop_last().len() implies is_digit(
                #[trigger] s.drop_last()[i],
            ) by {
                assert(s.drop_last()[i] == s[i]);
            }
        }
        lemma_digits_nonneg(s.drop_last());
        assert(is_digit(s[s.len() - 1]));
    }
}

const OVER: i128 = 9223372036854775809;

/// The value of the digits `cs[lo..hi]`, or `OVER` once it is at least that.
fn digits_capped(cs: &Vec<char>, lo: usize, hi: usize) -> (r: i128)
    requires
        lo <= hi <= cs@.len(),
        all_digits(cs@.subrange(lo as int, hi as int)),
    ensures
        digits_value(cs@.subrange(lo as int, hi as int)) < OVER ==> r == digits_value(
            cs@.subrange(lo as int, hi as int),
        ),
        digits_value(cs@.subrange(lo as int, hi as int)) >= OVER ==> r == OVER,
{
    let mut acc: i128 = 0;
    let mut i: usize = lo;
    while i < hi
        invariant
            lo <= i <= hi <= cs@.len(),
            all_digits(cs@.subrange(lo as int, hi as int)),
            digits_value(cs@.subrange(lo as int, i as int)) >= 0,
            digits_value(cs@.subrange(lo as int, i as int)) < OVER ==> acc == digits_value(
                cs@.subrange(lo as int, i as int),
            ),
            digits_value(cs@.subrange(lo as int, i as int)) >= OVER ==> acc == OVER,
        decreases hi - i,
    {
        assert(cs@.subrange(lo as int, hi as int)[i - lo] == cs@[i as int]);
        assert(is_digit(cs@[i as int]));
        let d = (cs[i] as u32 - '0' as u32) as i128;
        proof {
            lemma_digits_push(cs@, lo as int, i as int);
        }
        if acc < OVER {
            let next = acc * 10 + d;
            acc = if next < OVER {
                next
            } else {
                OVER
            };
        }
        i = i + 1;
    }
    acc
}

/// Reads the `i64` that `cs[lo..hi]` spells.
pub fn parse_i64(cs: &Vec<char>, lo: usize, hi: usize) -> (r: Option<i64>)
    requires
        lo <= hi <= cs@.len(),
    ensures
        r == i64_value(cs@.subrange(lo as int, hi as int)),
{
    let ghost s = cs@.subrange(lo as int, hi as int);
    if lo == hi {
        return None;
    }
    let negative = cs[lo] == '-';
    let start = if cs[lo] == '-' || cs[lo] == '+' {
        lo + 1
    } else {
        lo
    };
    let ghost d = cs@.subrange(start as int, hi as int);
    proof {
        if start == lo + 1 {
            assert(s.drop_first() =~= d);
        } else {
            assert(s =~= d);
        }
    }
    if start == hi {
        return None;
    }
    let mut k: usize = start;
    while k < hi
        invariant
            start <= k <= hi <= cs@.len(),
            d == cs@.subrange(start as int, hi as int),
            s == cs@.subrange(lo as int, hi as int),
            s.len() > 0,
            start == lo || start == lo + 1,
            start == lo + 1 <==> (s[0] == '-' || s[0] == '+'),
            start == lo + 1 ==> s.drop_first() == d,
            start == lo ==> s == d,
            forall|j: int| start <= j < k ==> is_digit(#[trigger] cs@[j]),
        decreases hi - k,
    {
        if !(cs[k] >= '0' && cs[k] <= '9') {
            proof {
                assert(d[k - start] == cs@[k as int]);
                assert(!is_digit(d[k - start]));
                assert(!all_digits(d));
                if start == lo + 1 {
                    assert(s.drop_first() == d);
                } else {
                    assert(!all_digits(s));
                }
                assert(int_value(s) is None);
            }
            return None;
        }
        k = k + 1;
    }
    assert(all_digits(d)) by {
        assert forall|j: int| 0 <= j < d.len() implies is_digit(#[trigger] d[j]) by {
            assert(d[j] == cs@[start + j]);
        }
    }
    proof {
        lemma_digits_nonneg(d);
    }
    let v = digits_capped(cs, start, hi);
    if negative {
        if v <= 9223372036854775808 {
            Some((-v) as i64)
        } else {
            None
        }
    } else {
        if v <= 9223372036854775807 {
            Some(v as i64)
        } else {
            None
        }
    }
}

/// Reads the point `x,y,z` in `cs[lo..hi]`.
pub fn parse_point(cs: &Vec<char>, lo: usize, hi: usize) -> (r: Option<Position3>)
    requires
        lo <= hi <= cs@.len(),
    ensures
        r == point_value(cs@.subrange(lo as int, hi as int)),
{
    let ghost sub = cs@.subrange(lo as int, hi as int);
    let a = find_char(cs, lo, hi, ',');
    if a == hi {
        return None;
    }
    let ghost rest = sub.subrange(a - lo + 1, sub.len() as int);
    assert(rest =~= cs@.subrange(a + 1, hi as int));
    let b = find_char(cs, a + 1, hi, ',');
    if b == hi {
        return None;
    }
    let ghost rest2 = rest.subrange(b - a, rest.len() as int);
    assert(rest2 =~= cs@.subrange(b + 1, hi as int));
    let c = find_char(cs, b + 1, hi, ',');
    if c < hi {
        return None;
    }
    assert(sub.subrange(0, a - lo) =~= cs@.subrange(lo as int, a as int));
    assert(rest.subrange(0, b - a - 1) =~= cs@.subrange(a + 1, b as int));
    let x = parse_i64(cs, lo, a);
    let y = parse_i64(cs, a + 1, b);
    let z = parse_i64(cs, b + 1, hi);
    match (x, y, z) {
        (Some(x), Some(y), Some(z)) => Some(Position3 { x, y, z }),
        _ => None,
    }
}

/// Reads one brick, `x,y,z~x,y,z` with an optional `<- label`, from
/// `cs[lo..hi]`. A failure carries the text it could not read.
pub fn parse_brick(cs: &Vec<char>, lo: usize, hi: usize) -> (r: Result<Brick, Fail>)
    requires
        lo <= hi <= cs@.len(),
    ensures
        r is Ok <==> brick_value(cs@.subrange(lo as int, hi as int)) is Some,
        r matches Ok(b) ==> b.wf() && brick_matches(b, cs@.subrange(lo as int, hi as int)),
{
    let ghost sub = cs@.subrange(lo as int, hi as int);
    let t = find_char(cs, lo, hi, '~');
    if t == hi {
        return Err(Fail(string_from(cs, lo, hi)));
    }
    let ghost right = sub.subrange(t - lo + 1, sub.len() as int);
    assert(right =~= cs@.subrange(t + 1, hi as int));
    assert(sub.subrange(0, t - lo) =~= cs@.subrange(lo as int, t as int));
    let a = find_arrow(cs, t + 1, hi);
    let (rl, rh, label) = if a < hi {
        assert(right.subrange(0, a - t - 1) =~= cs@.subrange(t + 1, a as int));
        assert(right.subrange(a - t + 1, right.len() as int) =~= cs@.subrange(a + 2, hi as int));
        let (rl, rh) = trim_range(cs, t + 1, a);
        let (ll, lh) = trim_range(cs, a + 2, hi);
        (rl, rh, Some(string_from(cs, ll, lh)))
    } else {
        (t + 1, hi, None)
    };
    let p = parse_point(cs, lo, t);
    let q = parse_point(cs, rl, rh);
    match (p, q) {
        (Some(p), Some(q)) => Ok(Brick::from_endpoints(p, q, label)),
        _ => Err(Fail(string_from(cs, lo, hi))),
    }
}

impl<'a> TryFrom<&'a str> for Position3 {
    type Error = Fail;

    /// Reads a point written `x,y,z`.
    fn try_from(s: &'a str) -> (r: Result<Position3, Fail>)
        ensures
            r is Ok <==> point_value(s@) is Some,
            r matches Ok(p) ==> point_value(s@) == Some(p),
    {
        let cs = chars_of(s);
        assert(cs@.subrange(0, cs@.len() as int) =~= s@);
        match parse_point(&cs, 0, cs.len()) {
            Some(p) => Ok(p),
            None => Err(Fail(string_from(&cs, 0, cs.len()))),
        }
    }
}

impl<'a> vstd::std_specs::convert::TryFromSpecImpl<&'a str> for Position3 {
    open spec fn obeys_try_from_spec() -> bool {
        false
    }

    open spec fn try_from_spec(s: &'a str) -> Result<Position3, Fail> {
        arbitrary()
    }
}

impl Brick {
    /// Reads a brick written `x,y,z~x,y,z`, optionally followed by
    /// `<- label`.
    pub fn parse(s: &str) -> (r: Result<Brick, Fail>)
        ensures
            r is Ok <==> brick_value(s@) is Some,
            r matches Ok(b) ==> b.wf() && brick_matches(b, s@),
    {
        let cs = chars_of(s);
        assert(cs@.subrange(0, cs@.len() as int) =~= s@);
        parse_brick(&cs, 0, cs.len())
    }
}

impl<'a> TryFrom<&'a str> for Brick {
    type Error = Fail;

    fn try_from(s: &'a str) -> (r: Result<Brick, Fail>)
        ensures
            r is Ok <==> brick_value(s@) is Some,
            r matches Ok(b) ==> b.wf() && brick_matches(b, s@),
    {
        Brick::parse(s)
    }
}

impl<'a> vstd::std_specs::convert::TryFromSpecImpl<&'a str> for Brick {
    open spec fn obeys_try_from_spec() -> bool {
        false
    }

    open spec fn try_from_spec(s: &'a str) -> Result<Brick, Fail> {
        arbitrary()
    }
}

/// Reads one brick per line.
pub fn parse_input(s: &str) -> (r: Result<Vec<Brick>, Fail>)
    ensures
        r is Ok <==> forall|k: int| 0 <= k < lines(s@).len() ==> (brick_value(#[trigger] lines(s@)[k]) is Some),
        r matches Ok(v) ==> v@.len() == lines(s@).len() && forall|k: int|
            0 <= k < v@.len() ==> #[trigger] v@[k].wf() && brick_matches(v@[k], lines(s@)[k]),
{
    let cs = chars_of(s);
    let n = cs.len();
    let mut bricks: Vec<Brick> = Vec::new();
    let mut pos: usize = 0;
    let ghost mut done: Seq<Seq<char>> = Seq::empty();
    assert(cs@.subrange(0, n as int) =~= s@);
    assert(done + lines(cs@.subrange(0, n as int)) =~= lines(s@));
    while pos < n
        invariant
            cs@ == s@,
            n == cs@.len(),
            0 <= pos <= n,
            lines(s@) == done + lines(cs@.subrange(pos as int, n as int)),
            bricks@.len() == done.len(),
            forall|k: int|
                0 <= k < done.len() ==> #[trigger] bricks@[k].wf() && brick_matches(bricks@[k], done[k]),
        decreases n - pos,
    {
        let e = find_char(&cs, pos, n, '\n');
        let ghost rest = cs@.subrange(pos as int, n as int);
        proof {
            lemma_first_at_bounds(rest, '\n');
        }
        let ghost line = cs@.subrange(pos as int, e as int);
        assert(rest.subrange(0, e - pos) =~= line);
        match parse_brick(&cs, pos, e) {
            Ok(b) => {
                bricks.push(b);
            },
            Err(f) => {
                proof {
                    let k = done.len() as int;
                    if e < n {
                        assert(rest.subrange(e - pos + 1, rest.len() as int) =~= cs@.subrange(
                            e + 1,
                            n as int,
                        ));
                        assert(lines(s@)[k] == line);
                    } else {
                        assert(rest =~= line);
                        assert(lines(s@)[k] == line);
                    }
                }
                return Err(f);
            },
        }
        proof {
            if e < n {
                assert(rest.subrange(e - pos + 1, rest.len() as int) =~= cs@.subrange(
                    e + 1,
                    n as int,
                ));
                assert(lines(rest) == seq![line] + lines(cs@.subrange(e + 1, n as int)));
            } else {
                assert(rest =~= line);
                assert(cs@.subrange(n as int, n as int) =~= Seq::<char>::empty());
                assert(lines(rest) == seq![line]);
                assert(lines(cs@.subrange(n as int, n as int)) == Seq::<Seq<char>>::empty());
            }
            let old_done = done;
            done = done.push(line);
            assert(done + lines(cs@.subrange(if e < n { e + 1 } else { n as int }, n as int)) =~= old_done + lines(rest));
        }
        pos = if e < n {
            e + 1
        } else {
            n
        };
    }
    proof {
        assert(cs@.subrange(n as int, n as int) =~= Seq::<char>::empty());
        assert(lines(s@) =~= done);
        assert forall|k: int| 0 <= k < lines(s@).len() implies (brick_value(
            #[trigger] lines(s@)[k],
        ) is Some) by {
            assert(bricks@[k].wf());
            assert(brick_matches(bricks@[k], done[k]));
        }
    }
    Ok(bricks)
}

/// The index of the first occurrence of `pat` in `s`, or `s.len()` when
/// there is none.
pub open spec fn first_sub(s: Seq<char>, pat: Seq<char>) -> int
    decreases s.len(),
{
    if s.len() == 0 || s.len() < pat.len() {
        s.len() as int
    } else if s.subrange(0, pat.len() as int) == pat {
        0
    } else {
        1 + first_sub(s.drop_first(), pat)
    }
}

proof fn lemma_first_sub_is(s: Seq<char>, pat: Seq<char>, i: int)
    requires
        0 <= i <= s.len(),
        forall|k: int|
            0 <= k < i && k + pat.len() <= s.len() ==> #[trigger] s.subrange(k, k + pat.len()) != pat,
        i + pat.len() <= s.len() ==> s.subrange(i, i + pat.len()) == pat,
        i + pat.len() > s.len() ==> i == s.len(),
        pat.len() > 0,
    ensures
        first_sub(s, pat) == i,
    decreases s.len(),
{
    if s.len() >= pat.len() && i > 0 {
        let z: int = 0;
        assert(0 <= z < i && z + pat.len() <= s.len());
        assert(s.subrange(z, z + pat.len()) != pat);
        let t = s.drop_first();
        assert forall|k: int|
            0 <= k < i - 1 && k + pat.len() <= t.len() implies #[trigger] t.subrange(k, k + pat.len())
            != pat by {
            assert(t.subrange(k, k + pat.len()) =~= s.subrange(k + 1, k + 1 + pat.len()));
        }
        if i - 1 + pat.len() <= t.len() {
            assert(t.subrange(i - 1, i - 1 + pat.len()) =~= s.subrange(i, i + pat.len()));
        }
        lemma_first_sub_is(t, pat, i - 1);
    }
}

/// The index of the first `pat` in `cs[lo..hi]`, counted from 0, or
/// `hi` when there is none.
pub fn find_sub(cs: &Vec<char>, lo: usize, hi: usize, pat: &Vec<char>) -> (r: usize)
    requires
        lo <= hi <= cs@.len(),
        pat@.len() > 0,
    ensures
        r == lo + first_sub(cs@.subrange(lo as int, hi as int), pat@),
        lo <= r <= hi,
        r < hi ==> r + pat@.len() <= hi,
{
    let ghost sub = cs@.subrange(lo as int, hi as int);
    let m = pat.len();
    let mut i: usize = lo;
    while i < hi && hi - i >= m
        invariant
            lo <= i <= hi <= cs@.len(),
            m == pat@.len(),
            m > 0,
            sub == cs@.subrange(lo as int, hi as int),
            forall|k: int|
                0 <= k < i - lo && k + m <= sub.len() ==> #[trigger] sub.subrange(k, k + m) != pat@,
        decreases hi - i,
    {
        let mut j: usize = 0;
        while j < m && cs[i + j] == pat[j]
            invariant
                lo <= i <= hi <= cs@.len(),
                hi - i >= m,
                m == pat@.len(),
                0 <= j <= m,
                forall|q: int| 0 <= q < j ==> cs@[i + q] == pat@[q],
            decreases m - j,
        {
            j = j + 1;
        }
        if j == m {
            proof {
                assert(sub.subrange(i - lo, i - lo + m) =~= pat@) by {
                    assert forall|q: int| 0 <= q < m implies sub.subrange(i - lo, i - lo + m)[q] == pat@[q] by {
                        assert(sub[i - lo + q] == cs@[i + q]);
                    }
                }
                lemma_first_sub_is(sub, pat@, i - lo);
            }
            return i;
        }
        proof {
            assert(sub.subrange(i - lo, i - lo + m) != pat@) by {
                assert(sub.subrange(i - lo, i - lo + m)[j as int] == cs@[i + j]);
            }
        }
        i = i + 1;
    }
    proof {
        lemma_first_sub_is(sub, pat@, hi - lo);
    }
    hi
}

} // verus!
