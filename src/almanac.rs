//! Id mappings made of ranges.

use vstd::prelude::*;

use crate::parse::{chars_of, Fail};
use crate::parse::lines;
use crate::races::{all_words_i64, copy_range, try_word_values, word_values};

verus! {

pub type Id = u32;

/// Ids `source_start ..< source_start + len` map to the ids from
/// `dest_start` on, in order.
#[derive(Debug)]
pub struct MappingRange {
    pub dest_start: Id,
    pub source_start: Id,
    pub len: Id,
}

/// What range `m` maps `id` to, if it covers `id`.
pub open spec fn range_get(m: MappingRange, id: int) -> Option<int> {
    if m.source_start <= id < m.source_start + m.len {
        Some(m.dest_start + (id - m.source_start))
    } else {
        None
    }
}

impl MappingRange {
    /// Every id that the range covers maps to an `Id`.
    pub open spec fn wf(&self) -> bool {
        self.dest_start + self.len <= Id::MAX + 1
    }

    /// The id that `id` maps to, if the range covers it.
    pub fn get(&self, id: Id) -> (r: Option<Id>)
        requires
            self.wf(),
        ensures
            r matches Some(v) ==> range_get(*self, id as int) == Some(v as int),
            r is None ==> range_get(*self, id as int) is None,
    {
        if id < self.source_start {
            None
        } else {
            let offset = id - self.source_start;
            if offset >= self.len {
                None
            } else {
                Some(self.dest_start + offset)
            }
        }
    }
}

/// A list of ranges; an id that none covers maps to itself.
#[derive(Debug)]
pub struct Mapping {
    pub entries: Vec<MappingRange>,
}

/// What the ranges `rs[k..]` map `id` to: the first range that covers it
/// decides.
pub open spec fn mapping_get(rs: Seq<MappingRange>, k: int, id: int) -> int
    decreases rs.len() - k,
{
    if k < 0 || k >= rs.len() {
        id
    } else {
        match range_get(rs[k], id) {
            Some(v) => v,
            None => mapping_get(rs, k + 1, id),
        }
    }
}

impl Mapping {
    pub open spec fn wf(&self) -> bool {
        forall|k: int| 0 <= k < self.entries@.len() ==> #[trigger] self.entries@[k].wf()
    }

    /// The id that `id` maps to.
    pub fn get(&self, id: Id) -> (r: Id)
        requires
            self.wf(),
        ensures
            r == mapping_get(self.entries@, 0, id as int),
    {
        let mut k: usize = 0;
        while k < self.entries.len()
            invariant
                self.wf(),
                0 <= k <= self.entries@.len(),
                mapping_get(self.entries@, 0, id as int) == mapping_get(
                    self.entries@,
                    k as int,
                    id as int,
                ),
            decreases self.entries@.len() - k,
        {
            assert(self.entries@[k as int].wf());
            if let Some(result) = self.entries[k].get(id) {
                return result;
            }
            k = k + 1;
        }
        id
    }
}

/// The range that a line `dest source len` describes, if its three words
/// are ids and every id it covers maps to an id.
pub open spec fn range_line(l: Seq<char>) -> Option<MappingRange> {
    let v = word_values(l);
    if all_words_i64(l) && v.len() == 3 && 0 <= v[0] <= Id::MAX && 0 <= v[1] <= Id::MAX && 0
        <= v[2] <= Id::MAX && v[0] + v[2] <= Id::MAX + 1 {
        Some(MappingRange { dest_start: v[0] as Id, source_start: v[1] as Id, len: v[2] as Id })
    } else {
        None
    }
}

fn parse_range(cs: &Vec<char>, lo: usize, hi: usize) -> (r: Result<MappingRange, Fail>)
    requires
        lo <= hi <= cs@.len(),
    ensures
        r is Ok <==> range_line(cs@.subrange(lo as int, hi as int)) is Some,
        r matches Ok(m) ==> Some(m) == range_line(cs@.subrange(lo as int, hi as int)),
{
    let line = copy_range(cs, lo, hi);
    match try_word_values(&line) {
        Some(v) => {
            if v.len() == 3 && v[0] >= 0 && v[0] <= 4294967295 && v[1] >= 0 && v[1] <= 4294967295
                && v[2] >= 0 && v[2] <= 4294967295 && v[0] + v[2] <= 4294967296 {
                Ok(MappingRange { dest_start: v[0] as Id, source_start: v[1] as Id, len: v[2] as Id })
            } else {
                Err(Fail(crate::parse::string_from(cs, lo, hi)))
            }
        },
        None => Err(Fail(crate::parse::string_from(cs, lo, hi))),
    }
}

impl<'a> TryFrom<&'a str> for MappingRange {
    type Error = Fail;

    /// Reads a range written `dest source len`.
    fn try_from(s: &'a str) -> (r: Result<MappingRange, Fail>)
        ensures
            r is Ok <==> range_line(s@) is Some,
            r matches Ok(m) ==> Some(m) == range_line(s@),
    {
        let cs = chars_of(s);
        assert(cs@.subrange(0, cs@.len() as int) =~= s@);
        parse_range(&cs, 0, cs.len())
    }
}

impl<'a> vstd::std_specs::convert::TryFromSpecImpl<&'a str> for MappingRange {
    open spec fn obeys_try_from_spec() -> bool {
        false
    }

    open spec fn try_from_spec(s: &'a str) -> Result<MappingRange, Fail> {
        arbitrary()
    }
}

impl Mapping {
    /// Reads one range per line.
    pub fn parse(s: &str) -> (r: Result<Mapping, Fail>)
        ensures
            r is Ok <==> forall|k: int| 0 <= k < lines(s@).len() ==> (range_line(#[trigger] lines(s@)[k]) is Some),
            r matches Ok(m) ==> m.wf() && m.entries@.len() == lines(s@).len() && forall|k: int|
                0 <= k < m.entries@.len() ==> Some(#[trigger] m.entries@[k]) == range_line(lines(s@)[k]),
    {
        let cs = chars_of(s);
        let n = cs.len();
        let mut entries: Vec<MappingRange> = Vec::new();
        let mut pos: usize = 0;
        let ghost mut done: Seq<Seq<char>> = Seq::empty();
        assert(cs@.subrange(0, n as int) =~= s@);
        assert(done + lines(cs@.subrange(0, n as int)) =~= lines(s@));
        while pos < n
            invariant
                cs@ == s@,
                n == cs@.len(),
                0 <= pos <= n,
                lines(s@) == done + lines(cs@.subrange(pos as int, n as int)),
                entries@.len() == done.len(),
                forall|k: int| 0 <= k < done.len() ==> Some(#[trigger] entries@[k]) == range_line(done[k]),
            decreases n - pos,
        {
            let e = crate::parse::find_char(&cs, pos, n, '\n');
            let ghost rest = cs@.subrange(pos as int, n as int);
            proof {
                crate::parse::lemma_first_at_bounds(rest, '\n');
            }
            let ghost line = cs@.subrange(pos as int, e as int);
            assert(rest.subrange(0, e - pos) =~= line);
            match parse_range(&cs, pos, e) {
                Ok(m) => {
                    entries.push(m);
                },
                Err(f) => {
                    proof {
                        let k = done.len() as int;
                        if e < n {
                            assert(rest.subrange(e - pos + 1, rest.len() as int) =~= cs@.subrange(
                                e + 1,
                                n as int,
                            ));
                            assert(lines(s@)[k] == line);
                        } else {
                            assert(rest =~= line);
                            assert(lines(s@)[k] == line);
                        }
                    }
                    return Err(f);
                },
            }
            proof {
                if e < n {
                    assert(rest.subrange(e - pos + 1, rest.len() as int) =~= cs@.subrange(
                        e + 1,
                        n as int,
                    ));
                    assert(lines(rest) == seq![line] + lines(cs@.subrange(e + 1, n as int)));
                } else {
                    assert(rest =~= line);
                    assert(cs@.subrange(n as int, n as int) =~= Seq::<char>::empty());
                    assert(lines(rest) == seq![line]);
                    assert(lines(cs@.subrange(n as int, n as int)) == Seq::<Seq<char>>::empty());
                }
                let old_done = done;
                done = done.push(line);
                assert(done + lines(cs@.subrange(if e < n { e + 1 } else { n as int }, n as int))
                    =~= old_done + lines(rest));
            }
            pos = if e < n {
                e + 1
            } else {
                n
            };
        }
        proof {
            assert(cs@.subrange(n as int, n as int) =~= Seq::<char>::empty());
            assert(lines(s@) =~= done);
            assert forall|k: int| 0 <= k < lines(s@).len() implies (range_line(
                #[trigger] lines(s@)[k],
            ) is Some) by {
                assert(Some(entries@[k]) == range_line(done[k]));
            }
        }
        let m = Mapping { entries };
        assert(m.wf()) by {
            assert forall|k: int| 0 <= k < m.entries@.len() implies #[trigger] m.entries@[k].wf() by {
                assert(Some(m.entries@[k]) == range_line(done[k]));
            }
        }
        Ok(m)
    }
}

impl<'a> TryFrom<&'a str> for Mapping {
    type Error = Fail;

    fn try_from(s: &'a str) -> (r: Result<Mapping, Fail>)
        ensures
            r is Ok <==> forall|k: int| 0 <= k < lines(s@).len() ==> (range_line(#[trigger] lines(s@)[k]) is Some),
            r matches Ok(m) ==> m.wf() && m.entries@.len() == lines(s@).len(),
    {
        Mapping::parse(s)
    }
}

impl<'a> vstd::std_specs::convert::TryFromSpecImpl<&'a str> for Mapping {
    open spec fn obeys_try_from_spec() -> bool {
        false
    }

    open spec fn try_from_spec(s: &'a str) -> Result<Mapping, Fail> {
        arbitrary()
    }
}

} // verus!
