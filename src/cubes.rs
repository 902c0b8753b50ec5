//! A game of coloured cubes drawn from a bag.

use vstd::prelude::*;

use crate::parse::{chars_of, find_sub, first_at, first_sub, lines, Fail};

verus! {

/// Counts of cubes per colour, one entry per colour.
#[derive(Debug, Default)]
pub struct Stock {
    pub counts: Vec<(String, u32)>,
}

/// The count recorded for `colour` among the entries `cs`, or 0.
pub open spec fn amount(cs: Seq<(String, u32)>, colour: Seq<char>) -> int
    decreases cs.len(),
{
    if cs.len() == 0 {
        0
    } else if cs.last().0@ == colour {
        cs.last().1 as int
    } else {
        amount(cs.drop_last(), colour)
    }
}

/// Some entry of `cs` is for `colour`.
pub open spec fn has_colour(cs: Seq<(String, u32)>, colour: Seq<char>) -> bool {
    exists|i: int| 0 <= i < cs.len() && #[trigger] cs[i].0@ == colour
}

/// No two entries are for the same colour.
pub open spec fn colours_unique(cs: Seq<(String, u32)>) -> bool {
    forall|i: int, j: int| 0 <= i < j < cs.len() ==> cs[i].0@ != cs[j].0@
}

/// The product of the counts of the entries `cs`.
pub open spec fn product(cs: Seq<(String, u32)>) -> int
    decreases cs.len(),
{
    if cs.len() == 0 {
        1
    } else {
        product(cs.drop_last()) * cs.last().1
    }
}

proof fn lemma_amount_at(cs: Seq<(String, u32)>, i: int)
    requires
        colours_unique(cs),
        0 <= i < cs.len(),
    ensures
        amount(cs, cs[i].0@) == cs[i].1,
    decreases cs.len(),
{
    if i < cs.len() - 1 {
        assert(cs.last().0@ != cs[i].0@);
        assert(cs.drop_last()[i] == cs[i]);
        lemma_amount_at(cs.drop_last(), i);
    }
}

proof fn lemma_amount_absent(cs: Seq<(String, u32)>, colour: Seq<char>)
    requires
        !has_colour(cs, colour),
    ensures
        amount(cs, colour) == 0,
    decreases cs.len(),
{
    if cs.len() > 0 {
        assert(cs.last().0@ != colour) by {
            assert(cs[cs.len() - 1].0@ != colour);
        }
        assert(!has_colour(cs.drop_last(), colour)) by {
            if has_colour(cs.drop_last(), colour) {
                let i = choose|i: int| 0 <= i < cs.drop_last().len() && #[trigger] cs.drop_last()[i].0@ == colour;
                assert(cs[i].0@ == colour);
            }
        }
        lemma_amount_absent(cs.drop_last(), colour);
    }
}

fn find_colour(cs: &Vec<(String, u32)>, colour: &String) -> (r: Option<usize>)
    ensures
        r matches Some(i) ==> i < cs@.len() && cs@[i as int].0@ == colour@,
        r is None ==> !has_colour(cs@, colour@),
{
    let mut i: usize = 0;
    while i < cs.len()
        invariant
            0 <= i <= cs@.len(),
            forall|k: int| 0 <= k < i ==> cs@[k].0@ != colour@,
        decreases cs@.len() - i,
    {
        if cs[i].0.eq(colour) {
            return Some(i);
        }
        i = i + 1;
    }
    None
}

impl Stock {
    pub open spec fn wf(&self) -> bool {
        colours_unique(self.counts@)
    }

    /// The count for `colour`, 0 when it has none.
    pub fn get(&self, colour: &str) -> (r: u32)
        requires
            self.wf(),
        ensures
            r == amount(self.counts@, colour@),
    {
        let c = colour.to_owned();
        match find_colour(&self.counts, &c) {
            Some(i) => {
                proof {
                    lemma_amount_at(self.counts@, i as int);
                }
                self.counts[i].1
            },
            None => {
                proof {
                    lemma_amount_absent(self.counts@, colour@);
                }
                0
            },
        }
    }

    /// Raises the count for `colour` to at least `count`, recording the
    /// colour if it had no count.
    pub fn update_requirement(&mut self, colour: &str, count: u32)
        requires
            old(self).wf(),
        ensures
            final(self).wf(),
            has_colour(final(self).counts@, colour@),
            forall|c: Seq<char>|
                has_colour(final(self).counts@, c) <==> (has_colour(old(self).counts@, c) || c
                    == colour@),
            forall|c: Seq<char>|
                #[trigger] amount(final(self).counts@, c) == if c == colour@ {
                    if amount(old(self).counts@, c) < count {
                        count as int
                    } else {
                        amount(old(self).counts@, c)
                    }
                } else {
                    amount(old(self).counts@, c)
                },
    {
        let c = colour.to_owned();
        let ghost start = self.counts@;
        match find_colour(&self.counts, &c) {
            Some(i) => {
                let needed = self.counts[i].1;
                let name = self.counts[i].0.clone();
                let updated = if needed < count {
                    count
                } else {
                    needed
                };
                self.counts.set(i, (name, updated));
                proof {
                    assert(self.counts@[i as int].0@ == colour@);
                    assert(has_colour(self.counts@, colour@));
                    lemma_amount_at(start, i as int);
                    assert forall|a: int, b: int| 0 <= a < b < self.counts@.len() implies self.counts@[a].0@
                        != self.counts@[b].0@ by {
                        assert(start[a].0@ != start[b].0@);
                    }
                    assert forall|x: Seq<char>| #[trigger] amount(self.counts@, x) == if x == colour@ {
                        if amount(start, x) < count {
                            count as int
                        } else {
                            amount(start, x)
                        }
                    } else {
                        amount(start, x)
                    } by {
                        lemma_amount_update(start, i as int, (name, updated), x);
                    }
                    assert forall|x: Seq<char>| has_colour(self.counts@, x) <==> (has_colour(start, x)
                        || x == colour@) by {
                        if has_colour(start, x) {
                            let k = choose|k: int| 0 <= k < start.len() && #[trigger] start[k].0@ == x;
                            assert(self.counts@[k].0@ == x);
                        }
                        if has_colour(self.counts@, x) {
                            let k = choose|k: int| 0 <= k < self.counts@.len() && #[trigger] self.counts@[k].0@ == x;
                            assert(start[k].0@ == x);
                        }
                        if x == colour@ {
                            assert(self.counts@[i as int].0@ == x);
                        }
                    }
                }
            },
            None => {
                self.counts.push((c, count));
                proof {
                    assert(self.counts@[start.len() as int].0@ == colour@);
                    assert(has_colour(self.counts@, colour@));
                    lemma_amount_absent(start, colour@);
                    assert(self.counts@.drop_last() =~= start);
                    assert forall|a: int, b: int| 0 <= a < b < self.counts@.len() implies self.counts@[a].0@
                        != self.counts@[b].0@ by {
                        if b == self.counts@.len() - 1 {
                            assert(start[a].0@ != colour@);
                        } else {
                            assert(start[a].0@ != start[b].0@);
                        }
                    }
                    assert forall|x: Seq<char>| has_colour(self.counts@, x) <==> (has_colour(start, x)
                        || x == colour@) by {
                        if has_colour(start, x) {
                            let k = choose|k: int| 0 <= k < start.len() && #[trigger] start[k].0@ == x;
                            assert(self.counts@[k].0@ == x);
                        }
                        if has_colour(self.counts@, x) && x != colour@ {
                            let k = choose|k: int| 0 <= k < self.counts@.len() && #[trigger] self.counts@[k].0@ == x;
                            assert(start[k].0@ == x);
                        }
                        if x == colour@ {
                            assert(self.counts@[start.len() as int].0@ == x);
                        }
                    }
                }
            },
        }
    }

    /// Every colour that `required` has a count for is stocked at least as
    /// many times.
    pub fn suffices_for(&self, required: &Stock) -> (r: bool)
        requires
            self.wf(),
            required.wf(),
        ensures
            r == forall|c: Seq<char>|
                has_colour(required.counts@, c) ==> amount(self.counts@, c) >= amount(
                    required.counts@,
                    c,
                ),
    {
        let mut k: usize = 0;
        while k < required.counts.len()
            invariant
                self.wf(),
                required.wf(),
                0 <= k <= required.counts@.len(),
                forall|j: int|
                    0 <= j < k ==> amount(self.counts@, #[trigger] required.counts@[j].0@) >= required.counts@[j].1,
            decreases required.counts@.len() - k,
        {
            let have = self.get(required.counts[k].0.as_str());
            if have < required.counts[k].1 {
                proof {
                    lemma_amount_at(required.counts@, k as int);
                    assert(has_colour(required.counts@, required.counts@[k as int].0@));
                }
                return false;
            }
            k = k + 1;
        }
        proof {
            assert forall|c: Seq<char>| has_colour(required.counts@, c) implies amount(self.counts@, c)
                >= amount(required.counts@, c) by {
                let j = choose|j: int| 0 <= j < required.counts@.len() && #[trigger] required.counts@[j].0@ == c;
                lemma_amount_at(required.counts@, j);
            }
        }
        true
    }

    /// The product of the counts.
    pub fn power(&self) -> (r: u32)
        requires
            forall|k: int|
                0 <= k <= self.counts@.len() ==> #[trigger] product(self.counts@.subrange(0, k))
                    <= u32::MAX,
        ensures
            r == product(self.counts@),
    {
        let mut acc: u32 = 1;
        let mut k: usize = 0;
        proof {
            assert(self.counts@.subrange(0, 0) =~= Seq::<(String, u32)>::empty());
        }
        while k < self.counts.len()
            invariant
                0 <= k <= self.counts@.len(),
                forall|j: int|
                    0 <= j <= self.counts@.len() ==> #[trigger] product(self.counts@.subrange(0, j))
                        <= u32::MAX,
                acc == product(self.counts@.subrange(0, k as int)),
            decreases self.counts@.len() - k,
        {
            proof {
                assert(self.counts@.subrange(0, k + 1).drop_last() =~= self.counts@.subrange(0, k as int));
                assert(product(self.counts@.subrange(0, k + 1)) <= u32::MAX);
            }
            acc = acc * self.counts[k].1;
            k = k + 1;
        }
        assert(self.counts@.subrange(0, k as int) =~= self.counts@);
        acc
    }
}

proof fn lemma_amount_update(cs: Seq<(String, u32)>, i: int, e: (String, u32), x: Seq<char>)
    requires
        0 <= i < cs.len(),
        e.0@ == cs[i].0@,
        colours_unique(cs),
    ensures
        amount(cs.update(i, e), x) == if x == cs[i].0@ {
            e.1 as int
        } else {
            amount(cs, x)
        },
    decreases cs.len(),
{
    let t = cs.update(i, e);
    if i == cs.len() - 1 {
        assert(t.drop_last() =~= cs.drop_last());
    } else {
        assert(t.drop_last() =~= cs.drop_last().update(i, e));
        assert(colours_unique(cs.drop_last())) by {
            assert forall|a: int, b: int| 0 <= a < b < cs.drop_last().len() implies cs.drop_last()[a].0@
                != cs.drop_last()[b].0@ by {
                assert(cs[a].0@ != cs[b].0@);
            }
        }
        assert(cs.last().0@ != cs[i].0@);
        assert(cs.drop_last()[i] == cs[i]);
        lemma_amount_update(cs.drop_last(), i, e, x);
    }
}

/// The cubes shown in one turn, per colour.
#[derive(Debug)]
pub struct Turn {
    pub counts: Vec<(String, u32)>,
}

/// The greatest count that the entries `ts` show for `colour` (0 if none).
pub open spec fn max_for(ts: Seq<(String, u32)>, colour: Seq<char>) -> int
    decreases ts.len(),
{
    if ts.len() == 0 {
        0
    } else {
        let prev = max_for(ts.drop_last(), colour);
        if ts.last().0@ == colour && ts.last().1 > prev {
            ts.last().1 as int
        } else {
            prev
        }
    }
}

pub open spec fn max_int(a: int, b: int) -> int {
    if a >= b {
        a
    } else {
        b
    }
}

proof fn lemma_max_for_nonneg(ts: Seq<(String, u32)>, colour: Seq<char>)
    ensures
        max_for(ts, colour) >= 0,
    decreases ts.len(),
{
    if ts.len() > 0 {
        lemma_max_for_nonneg(ts.drop_last(), colour);
    }
}

proof fn lemma_amount_nonneg(cs: Seq<(String, u32)>, c: Seq<char>)
    ensures
        amount(cs, c) >= 0,
    decreases cs.len(),
{
    if cs.len() > 0 {
        lemma_amount_nonneg(cs.drop_last(), c);
    }
}

proof fn lemma_has_colour_push(ts: Seq<(String, u32)>, e: (String, u32), c: Seq<char>)
    ensures
        has_colour(ts.push(e), c) <==> (has_colour(ts, c) || e.0@ == c),
{
    let t = ts.push(e);
    if has_colour(ts, c) {
        let k = choose|k: int| 0 <= k < ts.len() && #[trigger] ts[k].0@ == c;
        assert(t[k].0@ == c);
    }
    if has_colour(t, c) && e.0@ != c {
        let k = choose|k: int| 0 <= k < t.len() && #[trigger] t[k].0@ == c;
        assert(ts[k].0@ == c);
    }
    if e.0@ == c {
        assert(t[ts.len() as int].0@ == c);
    }
}

impl Turn {
    /// Raises `req` to cover the cubes shown in this turn.
    pub fn update_requirement(&self, req: &mut Stock)
        requires
            old(req).wf(),
        ensures
            final(req).wf(),
            forall|c: Seq<char>|
                has_colour(final(req).counts@, c) <==> (has_colour(old(req).counts@, c)
                    || has_colour(self.counts@, c)),
            forall|c: Seq<char>|
                #[trigger] amount(final(req).counts@, c) == max_int(
                    amount(old(req).counts@, c),
                    max_for(self.counts@, c),
                ),
    {
        let ghost start = req.counts@;
        let mut k: usize = 0;
        proof {
            assert forall|c: Seq<char>| #[trigger] amount(req.counts@, c) == max_int(
                amount(start, c),
                max_for(self.counts@.subrange(0, 0), c),
            ) by {
                lemma_amount_nonneg(start, c);
            }
            assert forall|c: Seq<char>| has_colour(req.counts@, c) <==> (has_colour(start, c)
                || has_colour(self.counts@.subrange(0, 0), c)) by {}
        }
        while k < self.counts.len()
            invariant
                0 <= k <= self.counts@.len(),
                req.wf(),
                forall|c: Seq<char>|
                    #[trigger] has_colour(req.counts@, c) <==> (has_colour(start, c) || has_colour(
                        self.counts@.subrange(0, k as int),
                        c,
                    )),
                forall|c: Seq<char>|
                    #[trigger] amount(req.counts@, c) == max_int(
                        amount(start, c),
                        max_for(self.counts@.subrange(0, k as int), c),
                    ),
            decreases self.counts@.len() - k,
        {
            let ghost before = req.counts@;
            let ghost next = self.counts@.subrange(0, k + 1);
            req.update_requirement(self.counts[k].0.as_str(), self.counts[k].1);
            proof {
                let pre = self.counts@.subrange(0, k as int);
                let e = self.counts@[k as int];
                assert(next =~= pre.push(e));
                assert(forall|c: Seq<char>|
                    has_colour(req.counts@, c) <==> (has_colour(before, c) || c == e.0@));
                assert forall|c: Seq<char>| #[trigger] amount(req.counts@, c) == max_int(
                    amount(start, c),
                    max_for(next, c),
                ) by {
                    assert(pre.push(e).drop_last() =~= pre);
                    lemma_max_for_nonneg(pre, c);
                }
                assert forall|c: Seq<char>| #[trigger] has_colour(req.counts@, c) <==> (has_colour(start, c)
                    || has_colour(next, c)) by {
                    lemma_has_colour_push(pre, e, c);
                    assert(has_colour(before, c) <==> (has_colour(start, c) || has_colour(pre, c)));
                }
            }
            k = k + 1;
            assert(self.counts@.subrange(0, k as int) == next);
        }
        assert(self.counts@.subrange(0, self.counts@.len() as int) =~= self.counts@);
        assert forall|c: Seq<char>| #[trigger] has_colour(req.counts@, c) <==> (has_colour(start, c)
            || has_colour(self.counts@, c)) by {
            assert(has_colour(req.counts@, c) <==> (has_colour(start, c) || has_colour(
                self.counts@.subrange(0, k as int),
                c,
            )));
        }
    }
}

/// A game: its id and the turns played.
#[derive(Debug)]
pub struct Game {
    pub id: u32,
    pub turns: Vec<Turn>,
}

/// Some turn among `ts` shows `colour`.
pub open spec fn game_has(ts: Seq<Turn>, colour: Seq<char>) -> bool {
    exists|i: int| 0 <= i < ts.len() && has_colour(#[trigger] ts[i].counts@, colour)
}

/// The greatest count any turn among `ts` shows for `colour`.
pub open spec fn game_max(ts: Seq<Turn>, colour: Seq<char>) -> int
    decreases ts.len(),
{
    if ts.len() == 0 {
        0
    } else {
        max_int(game_max(ts.drop_last(), colour), max_for(ts.last().counts@, colour))
    }
}

impl Game {
    /// The fewest cubes of each colour that every turn of the game needs.
    pub fn min_requirement(&self) -> (r: Stock)
        ensures
            r.wf(),
            forall|c: Seq<char>| has_colour(r.counts@, c) <==> game_has(self.turns@, c),
            forall|c: Seq<char>| #[trigger] amount(r.counts@, c) == game_max(self.turns@, c),
    {
        let mut acc = Stock { counts: Vec::new() };
        let mut k: usize = 0;
        while k < self.turns.len()
            invariant
                0 <= k <= self.turns@.len(),
                acc.wf(),
                forall|c: Seq<char>|
                    has_colour(acc.counts@, c) <==> game_has(self.turns@.subrange(0, k as int), c),
                forall|c: Seq<char>|
                    #[trigger] amount(acc.counts@, c) == game_max(self.turns@.subrange(0, k as int), c),
            decreases self.turns@.len() - k,
        {
            let ghost before = acc.counts@;
            self.turns[k].update_requirement(&mut acc);
            proof {
                let pre = self.turns@.subrange(0, k as int);
                let t = self.turns@[k as int];
                assert(self.turns@.subrange(0, k + 1) =~= pre.push(t));
                assert(pre.push(t).drop_last() =~= pre);
                assert forall|c: Seq<char>| has_colour(acc.counts@, c) <==> game_has(
                    self.turns@.subrange(0, k + 1),
                    c,
                ) by {
                    let all = pre.push(t);
                    if game_has(pre, c) {
                        let i = choose|i: int| 0 <= i < pre.len() && has_colour(#[trigger] pre[i].counts@, c);
                        assert(all[i] == pre[i]);
                    }
                    if game_has(all, c) && !has_colour(t.counts@, c) {
                        let i = choose|i: int| 0 <= i < all.len() && has_colour(#[trigger] all[i].counts@, c);
                        assert(pre[i] == all[i]);
                    }
                    if has_colour(t.counts@, c) {
                        assert(all[k as int] == t);
                    }
                }
            }
            k = k + 1;
        }
        assert(self.turns@.subrange(0, self.turns@.len() as int) =~= self.turns@);
        acc
    }
}

/// The stock holds enough of every colour that the game shows.
pub open spec fn possible(stock: Stock, g: Game) -> bool {
    forall|c: Seq<char>| game_has(g.turns@, c) ==> amount(stock.counts@, c) >= game_max(g.turns@, c)
}

/// The sum of the ids of the games `gs[..k]` that the stock makes possible.
pub open spec fn possible_ids(gs: Seq<Game>, stock: Stock, k: int) -> int
    decreases k,
{
    if k <= 0 || k > gs.len() {
        0
    } else {
        possible_ids(gs, stock, k - 1) + if possible(stock, gs[k - 1]) {
            gs[k - 1].id as int
        } else {
            0
        }
    }
}

proof fn lemma_possible_ids_grow(gs: Seq<Game>, stock: Stock, k: int)
    requires
        0 <= k <= gs.len(),
    ensures
        0 <= possible_ids(gs, stock, k) <= possible_ids(gs, stock, gs.len() as int),
    decreases gs.len() - k,
{
    lemma_possible_ids_nonneg(gs, stock, k);
    if k < gs.len() {
        lemma_possible_ids_grow(gs, stock, k + 1);
    }
}

proof fn lemma_possible_ids_nonneg(gs: Seq<Game>, stock: Stock, k: int)
    requires
        0 <= k <= gs.len(),
    ensures
        possible_ids(gs, stock, k) >= 0,
    decreases k,
{
    if k > 0 {
        lemma_possible_ids_nonneg(gs, stock, k - 1);
    }
}

/// The sum of the ids of the games that the stock makes possible.
pub fn part1(games: &[Game], stock: &Stock) -> (r: u32)
    requires
        stock.wf(),
        possible_ids(games@, *stock, games@.len() as int) <= u32::MAX,
    ensures
        r == possible_ids(games@, *stock, games@.len() as int),
{
    let mut total: u32 = 0;
    let mut k: usize = 0;
    while k < games.len()
        invariant
            0 <= k <= games@.len(),
            stock.wf(),
            possible_ids(games@, *stock, games@.len() as int) <= u32::MAX,
            total == possible_ids(games@, *stock, k as int),
        decreases games@.len() - k,
    {
        let need = games[k].min_requirement();
        let ok = stock.suffices_for(&need);
        proof {
            lemma_possible_ids_grow(games@, *stock, k + 1);
            let g = games@[k as int];
            assert(ok == possible(*stock, g)) by {
                if ok {
                    assert forall|c: Seq<char>| game_has(g.turns@, c) implies amount(stock.counts@, c)
                        >= game_max(g.turns@, c) by {
                        assert(has_colour(need.counts@, c));
                    }
                } else {
                    let c = choose|c: Seq<char>|
                        !(has_colour(need.counts@, c) ==> amount(stock.counts@, c) >= amount(
                            need.counts@,
                            c,
                        ));
                    assert(game_has(g.turns@, c));
                }
            }
        }
        if ok {
            total = total + games[k].id;
        }
        k = k + 1;
    }
    total
}

// ---------------------------------------------------------------------------
// Reading games.
// ---------------------------------------------------------------------------

/// The pieces of `s` between occurrences of `sep` (one piece when there is
/// none).
pub open spec fn split_on(s: Seq<char>, sep: Seq<char>) -> Seq<Seq<char>>
    decreases s.len(),
{
    let i = first_sub(s, sep);
    if sep.len() == 0 || i < 0 || i + sep.len() > s.len() {
        seq![s]
    } else {
        seq![s.subrange(0, i)] + split_on(s.subrange(i + sep.len(), s.len() as int), sep)
    }
}

/// The number that a text spells, if it is a `u32` without a sign.
pub open spec fn u32_value(s: Seq<char>) -> Option<u32> {
    if s.len() > 0 && (s[0] == '-' || s[0] == '+') {
        None
    } else {
        match crate::parse::i64_value(s) {
            Some(v) => if 0 <= v <= u32::MAX {
                Some(v as u32)
            } else {
                None
            },
            None => None,
        }
    }
}

/// Reads a count: digits only.
pub fn str_to_num(cs: &Vec<char>, lo: usize, hi: usize) -> (r: Result<u32, Fail>)
    requires
        lo <= hi <= cs@.len(),
    ensures
        r is Ok <==> u32_value(cs@.subrange(lo as int, hi as int)) is Some,
        r matches Ok(v) ==> u32_value(cs@.subrange(lo as int, hi as int)) == Some(v),
{
    if lo < hi && (cs[lo] == '-' || cs[lo] == '+') {
        return Err(Fail(crate::parse::string_from(cs, lo, hi)));
    }
    match crate::parse::parse_i64(cs, lo, hi) {
        Some(v) => if v >= 0 && v <= 4294967295 {
            Ok(v as u32)
        } else {
            Err(Fail(crate::parse::string_from(cs, lo, hi)))
        },
        None => Err(Fail(crate::parse::string_from(cs, lo, hi))),
    }
}

/// The colour and count of a pair `n colour`.
pub open spec fn pair_value(p: Seq<char>) -> Option<(Seq<char>, u32)> {
    let i = first_at(p, ' ');
    if i >= p.len() {
        None
    } else {
        match u32_value(p.subrange(0, i)) {
            Some(n) => Some((p.subrange(i + 1, p.len() as int), n)),
            None => None,
        }
    }
}

/// Every pair of the turn `t` (pairs separated by `, `) reads.
pub open spec fn turn_ok(t: Seq<char>) -> bool {
    forall|k: int| 0 <= k < split_on(t, ", "@).len() ==> (pair_value(#[trigger] split_on(t, ", "@)[k]) is Some)
}

proof fn lemma_split_step(cs: Seq<char>, pos: int, e: int, n: int, sep: Seq<char>)
    requires
        0 <= pos <= e <= n <= cs.len(),
        sep.len() > 0,
        e == pos + first_sub(cs.subrange(pos, n), sep),
        e < n ==> e + sep.len() <= n,
    ensures
        e < n ==> split_on(cs.subrange(pos, n), sep) == seq![cs.subrange(pos, e)] + split_on(
            cs.subrange(e + sep.len(), n),
            sep,
        ),
        e == n ==> split_on(cs.subrange(pos, n), sep) == seq![cs.subrange(pos, e)],
{
    let rest = cs.subrange(pos, n);
    assert(rest.subrange(0, e - pos) =~= cs.subrange(pos, e));
    if e < n {
        assert(rest.subrange(e - pos + sep.len(), rest.len() as int) =~= cs.subrange(e + sep.len(), n));
    } else {
        assert(rest =~= cs.subrange(pos, e));
    }
}

impl Turn {
    /// Reads a turn: pairs `n colour` separated by `, `.
    pub fn parse(cs: &Vec<char>, lo: usize, hi: usize) -> (r: Result<Turn, Fail>)
        requires
            lo <= hi <= cs@.len(),
        ensures
            r is Ok <==> turn_ok(cs@.subrange(lo as int, hi as int)),
            r matches Ok(t) ==> t.counts@.len() == split_on(cs@.subrange(lo as int, hi as int), ", "@).len()
                && forall|k: int|
                0 <= k < t.counts@.len() ==> pair_value(
                    split_on(cs@.subrange(lo as int, hi as int), ", "@)[k],
                ) == Some(((#[trigger] t.counts@[k]).0@, t.counts@[k].1)),
    {
        let sep = chars_of(", ");
        proof {
            reveal_strlit(", ");
        }
        let ghost whole = cs@.subrange(lo as int, hi as int);
        let ghost ps = split_on(whole, ", "@);
        let mut counts: Vec<(String, u32)> = Vec::new();
        let mut pos: usize = lo;
        let ghost mut done: Seq<Seq<char>> = Seq::empty();
        assert(done + split_on(cs@.subrange(lo as int, hi as int), ", "@) =~= ps);
        loop
            invariant_except_break
                ps == done + split_on(cs@.subrange(pos as int, hi as int), ", "@),
            invariant
                lo <= pos <= hi <= cs@.len(),
                sep@ == ", "@,
                sep@.len() == 2,
                whole == cs@.subrange(lo as int, hi as int),
                ps == split_on(whole, ", "@),
                counts@.len() == done.len(),
                forall|k: int|
                    0 <= k < done.len() ==> pair_value(done[k]) == Some(
                        ((#[trigger] counts@[k]).0@, counts@[k].1),
                    ),
            ensures
                done == ps,
                counts@.len() == done.len(),
                forall|k: int|
                    0 <= k < done.len() ==> pair_value(done[k]) == Some(
                        ((#[trigger] counts@[k]).0@, counts@[k].1),
                    ),
            decreases hi - pos,
        {
            let e = find_sub(cs, pos, hi, &sep);
            proof {
                lemma_split_step(cs@, pos as int, e as int, hi as int, ", "@);
            }
            let ghost piece = cs@.subrange(pos as int, e as int);
            let sp = crate::parse::find_char(cs, pos, e, ' ');
            if sp == e {
                proof {
                    assert(ps[done.len() as int] == piece);
                }
                return Err(Fail(crate::parse::string_from(cs, pos, e)));
            }
            assert(piece.subrange(0, sp - pos) =~= cs@.subrange(pos as int, sp as int));
            assert(piece.subrange(sp - pos + 1, piece.len() as int) =~= cs@.subrange(sp + 1, e as int));
            let n = match str_to_num(cs, pos, sp) {
                Ok(n) => n,
                Err(f) => {
                    proof {
                        assert(ps[done.len() as int] == piece);
                    }
                    return Err(f);
                },
            };
            let colour = crate::parse::string_from(cs, sp + 1, e);
            counts.push((colour, n));
            proof {
                let old_done = done;
                done = done.push(piece);
                if e < hi {
                    assert(old_done + (seq![piece] + split_on(cs@.subrange(e + 2, hi as int), ", "@))
                        =~= done + split_on(cs@.subrange(e + 2, hi as int), ", "@));
                } else {
                    assert(done =~= ps);
                }
                assert forall|k: int| 0 <= k < done.len() implies pair_value(done[k]) == Some(
                    ((#[trigger] counts@[k]).0@, counts@[k].1),
                ) by {
                    if k < old_done.len() {
                        assert(done[k] == old_done[k]);
                    }
                }
            }
            if e == hi {
                break;
            }
            pos = e + 2;
        }
        proof {
            assert forall|k: int| 0 <= k < ps.len() implies (pair_value(#[trigger] ps[k]) is Some) by {
                assert(pair_value(done[k]) == Some((counts@[k].0@, counts@[k].1)));
            }
        }
        Ok(Turn { counts })
    }
}

/// A game line `Game n: turn; turn; ...` that reads.
pub open spec fn game_ok(l: Seq<char>) -> bool {
    let i = first_sub(l, ": "@);
    &&& i + 2 <= l.len()
    &&& i >= 5
    &&& l.subrange(0, 5) == "Game "@
    &&& u32_value(l.subrange(5, i)) is Some
    &&& forall|k: int|
        0 <= k < split_on(l.subrange(i + 2, l.len() as int), "; "@).len() ==> turn_ok(
            #[trigger] split_on(l.subrange(i + 2, l.len() as int), "; "@)[k],
        )
}

fn has_prefix(cs: &Vec<char>, lo: usize, hi: usize, pat: &Vec<char>) -> (r: bool)
    requires
        lo <= hi <= cs@.len(),
    ensures
        r == (hi - lo >= pat@.len() && cs@.subrange(lo as int, lo + pat@.len()) == pat@),
{
    if hi - lo < pat.len() {
        return false;
    }
    let mut k: usize = 0;
    while k < pat.len()
        invariant
            lo + pat@.len() <= hi <= cs@.len(),
            0 <= k <= pat@.len(),
            forall|j: int| 0 <= j < k ==> cs@[lo + j] == pat@[j],
        decreases pat@.len() - k,
    {
        if cs[lo + k] != pat[k] {
            assert(cs@.subrange(lo as int, lo + pat@.len())[k as int] != pat@[k as int]);
            return false;
        }
        k = k + 1;
    }
    assert(cs@.subrange(lo as int, lo + pat@.len()) =~= pat@);
    true
}

impl Game {
    /// Reads a game line `Game n: turn; turn; ...`.
    pub fn parse(s: &str) -> (r: Result<Game, Fail>)
        ensures
            r is Ok <==> game_ok(s@),
            r matches Ok(g) ==> Some(g.id) == u32_value(s@.subrange(5, first_sub(s@, ": "@)))
                && g.turns@.len() == split_on(
                s@.subrange(first_sub(s@, ": "@) + 2, s@.len() as int),
                "; "@,
            ).len(),
    {
        let cs = chars_of(s);
        let n = cs.len();
        assert(cs@.subrange(0, n as int) =~= s@);
        let colon = chars_of(": ");
        let semi = chars_of("; ");
        let game = chars_of("Game ");
        proof {
            reveal_strlit(": ");
            reveal_strlit("; ");
            reveal_strlit("Game ");
        }
        let i = find_sub(&cs, 0, n, &colon);
        if i == n {
            return Err(Fail(crate::parse::string_from(&cs, 0, n)));
        }
        if i < 5 || !has_prefix(&cs, 0, i, &game) {
            proof {
                if i >= 5 {
                    assert(cs@.subrange(0, 5) == s@.subrange(0, 5));
                }
            }
            return Err(Fail(crate::parse::string_from(&cs, 0, n)));
        }
        assert(cs@.subrange(0, 5) == s@.subrange(0, 5));
        let id = match str_to_num(&cs, 5, i) {
            Ok(id) => id,
            Err(f) => {
                return Err(f);
            },
        };
        let ghost rest = s@.subrange(i + 2, n as int);
        let ghost ps = split_on(rest, "; "@);
        assert(i == first_sub(s@, ": "@));
        let mut turns: Vec<Turn> = Vec::new();
        let mut pos: usize = i + 2;
        let ghost mut done: Seq<Seq<char>> = Seq::empty();
        assert(done + split_on(cs@.subrange(pos as int, n as int), "; "@) =~= ps);
        loop
            invariant_except_break
                ps == done + split_on(cs@.subrange(pos as int, n as int), "; "@),
            invariant
                i + 2 <= pos <= n,
                n == cs@.len(),
                cs@ == s@,
                semi@ == "; "@,
                semi@.len() == 2,
                rest == s@.subrange(i + 2, n as int),
                ps == split_on(rest, "; "@),
                i == first_sub(s@, ": "@),
                turns@.len() == done.len(),
                forall|k: int| 0 <= k < done.len() ==> turn_ok(#[trigger] done[k]),
            ensures
                done == ps,
                turns@.len() == done.len(),
                forall|k: int| 0 <= k < done.len() ==> turn_ok(#[trigger] done[k]),
            decreases n - pos,
        {
            let e = find_sub(&cs, pos, n, &semi);
            proof {
                lemma_split_step(cs@, pos as int, e as int, n as int, "; "@);
            }
            let ghost piece = cs@.subrange(pos as int, e as int);
            match Turn::parse(&cs, pos, e) {
                Ok(t) => {
                    turns.push(t);
                },
                Err(f) => {
                    proof {
                        assert(ps[done.len() as int] == piece);
                        assert(!turn_ok(ps[done.len() as int]));
                        assert(first_sub(s@, ": "@) == i);
                        assert(!game_ok(s@));
                    }
                    return Err(f);
                },
            }
            proof {
                let old_done = done;
                done = done.push(piece);
                if e < n {
                    assert(old_done + (seq![piece] + split_on(cs@.subrange(e + 2, n as int), "; "@))
                        =~= done + split_on(cs@.subrange(e + 2, n as int), "; "@));
                } else {
                    assert(done =~= ps);
                }
                assert forall|k: int| 0 <= k < done.len() implies turn_ok(#[trigger] done[k]) by {
                    if k < old_done.len() {
                        assert(done[k] == old_done[k]);
                    }
                }
            }
            if e == n {
                break;
            }
            pos = e + 2;
        }
        Ok(Game { id, turns })
    }
}

impl<'a> TryFrom<&'a str> for Game {
    type Error = Fail;

    fn try_from(s: &'a str) -> (r: Result<Game, Fail>)
        ensures
            r is Ok <==> game_ok(s@),
    {
        Game::parse(s)
    }
}

impl<'a> vstd::std_specs::convert::TryFromSpecImpl<&'a str> for Game {
    open spec fn obeys_try_from_spec() -> bool {
        false
    }

    open spec fn try_from_spec(s: &'a str) -> Result<Game, Fail> {
        arbitrary()
    }
}

/// Reads one game per line.
pub fn parse_input(input: &str) -> (r: Result<Vec<Game>, Fail>)
    ensures
        r is Ok <==> forall|k: int| 0 <= k < lines(input@).len() ==> game_ok(#[trigger] lines(input@)[k]),
        r matches Ok(v) ==> v@.len() == lines(input@).len(),
{
    let cs = chars_of(input);
    let n = cs.len();
    let mut out: Vec<Game> = Vec::new();
    let mut pos: usize = 0;
    let ghost mut done: Seq<Seq<char>> = Seq::empty();
    assert(cs@.subrange(0, n as int) =~= input@);
    assert(done + lines(cs@.subrange(0, n as int)) =~= lines(input@));
    while pos < n
        invariant
            cs@ == input@,
            n == cs@.len(),
            0 <= pos <= n,
            lines(input@) == done + lines(cs@.subrange(pos as int, n as int)),
            out@.len() == done.len(),
            forall|k: int| 0 <= k < done.len() ==> game_ok(#[trigger] done[k]),
        decreases n - pos,
    {
        let e = crate::parse::find_char(&cs, pos, n, '\n');
        let ghost rest = cs@.subrange(pos as int, n as int);
        proof {
            crate::parse::lemma_first_at_bounds(rest, '\n');
        }
        let ghost line = cs@.subrange(pos as int, e as int);
        assert(rest.subrange(0, e - pos) =~= line);
        proof {
            if e < n {
                assert(rest.subrange(e - pos + 1, rest.len() as int) =~= cs@.subrange(
                    e + 1,
                    n as int,
                ));
                assert(lines(rest) == seq![line] + lines(cs@.subrange(e + 1, n as int)));
            } else {
                assert(rest =~= line);
                assert(cs@.subrange(n as int, n as int) =~= Seq::<char>::empty());
                assert(lines(rest) == seq![line]);
                assert(lines(cs@.subrange(n as int, n as int)) == Seq::<Seq<char>>::empty());
            }
            assert(lines(input@)[done.len() as int] == line);
        }
        let text = crate::parse::string_from(&cs, pos, e);
        match Game::parse(text.as_str()) {
            Ok(g) => {
                out.push(g);
            },
            Err(f) => {
                return Err(f);
            },
        }
        proof {
            let old_done = done;
            done = done.push(line);
            assert(done + lines(cs@.subrange(if e < n { e + 1 } else { n as int }, n as int))
                =~= old_done + lines(rest));
        }
        pos = if e < n {
            e + 1
        } else {
            n
        };
    }
    proof {
        assert(cs@.subrange(n as int, n as int) =~= Seq::<char>::empty());
        assert(lines(input@) =~= done);
    }
    Ok(out)
}

} // verus!
