//! Boxes of lenses arranged by a hash of their labels.

use vstd::prelude::*;

use crate::ascii_hash::{hash_chars, hash_spec, is_ascii_text};
use crate::parse::{chars_of, first_at, i64_value, parse_i64, Fail};

verus! {

/// A lens with its label and focal length.
#[derive(Debug, Default, PartialEq, Eq)]
pub struct LabeledLens {
    pub label: String,
    pub focal_length: u8,
}

impl LabeledLens {
    /// The focusing power of the lens in slot `pos` (counting from 1).
    pub fn power(&self, pos: usize) -> (r: u64)
        requires
            pos * self.focal_length <= u64::MAX,
        ensures
            r == pos * self.focal_length,
    {
        (pos as u64) * (self.focal_length as u64)
    }
}

/// A box of lenses, front to back.
#[derive(Debug, Default, PartialEq, Eq)]
pub struct LensBox {
    pub lenses: Vec<LabeledLens>,
}

/// The power of the lenses `ls[k..]` of box number `boxnum`, the first of
/// them in slot `k + 1`.
pub open spec fn box_power(ls: Seq<(Seq<char>, u8)>, boxnum: int, k: int) -> int
    decreases ls.len() - k,
{
    if k < 0 || k >= ls.len() {
        0
    } else {
        boxnum * ((k + 1) * ls[k].1) + box_power(ls, boxnum, k + 1)
    }
}

proof fn lemma_box_power_nonneg(ls: Seq<(Seq<char>, u8)>, boxnum: int, k: int)
    requires
        0 <= k <= ls.len(),
        boxnum >= 0,
    ensures
        box_power(ls, boxnum, k) >= 0,
    decreases ls.len() - k,
{
    if k < ls.len() {
        lemma_box_power_nonneg(ls, boxnum, k + 1);
        assert(boxnum * ((k + 1) * ls[k].1) >= 0) by (nonlinear_arith)
            requires
                boxnum >= 0,
                k + 1 >= 0,
                ls[k].1 >= 0,
        ;
    }
}

proof fn lemma_prefix_bound(ls: Seq<(Seq<char>, u8)>, boxnum: int, j: int)
    requires
        0 <= j < ls.len(),
        boxnum >= 0,
    ensures
        box_power(ls, boxnum, j) <= box_power(ls, boxnum, 0),
        boxnum * ((j + 1) * ls[j].1) <= box_power(ls, boxnum, j),
    decreases j,
{
    lemma_box_power_nonneg(ls, boxnum, j + 1);
    if j > 0 {
        lemma_prefix_bound(ls, boxnum, j - 1);
    }
}

impl LensBox {
    /// The box holds no lens.
    pub fn is_empty(&self) -> (r: bool)
        ensures
            r == (self.lenses@.len() == 0),
    {
        self.lenses.len() == 0
    }

    /// The focusing power of all lenses of box number `boxnum` (counting
    /// from 1).
    pub fn power(&self, boxnum: usize) -> (r: u64)
        requires
            box_power(lens_view(self.lenses@), boxnum as int, 0) <= u64::MAX,
        ensures
            r == box_power(lens_view(self.lenses@), boxnum as int, 0),
    {
        let ghost v = lens_view(self.lenses@);
        let n = self.lenses.len();
        let mut total: u64 = 0;
        let mut k: usize = n;
        proof {
            lemma_box_power_nonneg(v, boxnum as int, n as int);
        }
        while k > 0
            invariant
                0 <= k <= n,
                n == self.lenses@.len(),
                v == lens_view(self.lenses@),
                box_power(v, boxnum as int, 0) <= u64::MAX,
                total == box_power(v, boxnum as int, k as int),
            decreases k,
        {
            let i = k - 1;
            assert(v[i as int].1 == self.lenses@[i as int].focal_length);
            proof {
                lemma_prefix_bound(v, boxnum as int, i as int);
                lemma_box_power_nonneg(v, boxnum as int, k as int);
                assert((i + 1) * v[i as int].1 <= boxnum * ((i + 1) * v[i as int].1) || boxnum == 0)
                    by (nonlinear_arith)
                    requires
                        boxnum >= 0,
                        (i + 1) * v[i as int].1 >= 0,
                ;
            }
            let lens_power = if boxnum == 0 {
                0
            } else {
                self.lenses[i].power(i + 1)
            };
            let term = (boxnum as u64) * lens_power;
            assert(term == boxnum * ((i + 1) * v[i as int].1)) by {
                if boxnum == 0 {
                    assert(boxnum * ((i + 1) * v[i as int].1) == 0) by (nonlinear_arith)
                        requires
                            boxnum == 0,
                    ;
                }
            }
            total = term + total;
            k = i;
        }
        total
    }
}

/// The 256 boxes of lenses.
#[derive(Debug)]
pub struct LensArray {
    pub lens_boxes: Vec<LensBox>,
}

const BOXES: usize = 256;

impl Default for LensArray {
    fn default() -> (r: LensArray)
        ensures
            r.lens_boxes@.len() == 256,
            forall|i: int| 0 <= i < 256 ==> (#[trigger] r.lens_boxes@[i]).lenses@.len() == 0,
    {
        let mut lens_boxes: Vec<LensBox> = Vec::new();
        while lens_boxes.len() < BOXES
            invariant
                lens_boxes@.len() <= 256,
                forall|i: int| 0 <= i < lens_boxes@.len() ==> (#[trigger] lens_boxes@[i]).lenses@.len() == 0,
            decreases 256 - lens_boxes@.len(),
        {
            lens_boxes.push(LensBox { lenses: Vec::new() });
        }
        LensArray { lens_boxes }
    }
}

/// The contents of a box: each lens as its label and focal length.
pub open spec fn lens_view(ls: Seq<LabeledLens>) -> Seq<(Seq<char>, u8)> {
    ls.map_values(|l: LabeledLens| (l.label@, l.focal_length))
}

/// `s` without the lenses labelled `label`, the others in order.
pub open spec fn without_label(s: Seq<(Seq<char>, u8)>, label: Seq<char>) -> Seq<
    (Seq<char>, u8),
> {
    s.filter(|l: (Seq<char>, u8)| l.0 != label)
}

/// The position of the first lens labelled `label`, or `s.len()`.
pub open spec fn label_index(s: Seq<(Seq<char>, u8)>, label: Seq<char>) -> int
    decreases s.len(),
{
    if s.len() == 0 {
        0
    } else if s[0].0 == label {
        0
    } else {
        1 + label_index(s.drop_first(), label)
    }
}

/// `s` after putting in a lens: it replaces the focal length of the first
/// lens with that label, or goes at the back.
pub open spec fn with_lens(s: Seq<(Seq<char>, u8)>, label: Seq<char>, fl: u8) -> Seq<
    (Seq<char>, u8),
> {
    let i = label_index(s, label);
    if 0 <= i < s.len() {
        s.update(i, (label, fl))
    } else {
        s.push((label, fl))
    }
}

proof fn lemma_label_index_is(s: Seq<(Seq<char>, u8)>, label: Seq<char>, i: int)
    requires
        0 <= i <= s.len(),
        forall|k: int| 0 <= k < i ==> s[k].0 != label,
        i < s.len() ==> s[i].0 == label,
    ensures
        label_index(s, label) == i,
    decreases s.len(),
{
    if s.len() > 0 && i > 0 {
        assert forall|k: int| 0 <= k < i - 1 implies s.drop_first()[k].0 != label by {
            assert(s.drop_first()[k] == s[k + 1]);
        }
        lemma_label_index_is(s.drop_first(), label, i - 1);
    }
}

/// What an instruction asks: take out the lenses with a label, or put one
/// in.
#[derive(Debug, PartialEq, Eq)]
pub enum Instruction {
    Remove(String),
    Insert(String, u8),
}

/// The focal length that a text spells: a number from 0 to 255, without a
/// minus sign.
pub open spec fn focal_value(s: Seq<char>) -> Option<u8> {
    if s.len() > 0 && s[0] == '-' {
        None
    } else {
        match i64_value(s) {
            Some(v) => if 0 <= v <= 255 {
                Some(v as u8)
            } else {
                None
            },
            None => None,
        }
    }
}

/// The label and, for an insertion, the focal length that `label=n` or
/// `label-` describes.
pub open spec fn instruction_value(s: Seq<char>) -> Option<(Seq<char>, Option<u8>)> {
    let e = first_at(s, '=');
    if 0 <= e < s.len() {
        match focal_value(s.subrange(e + 1, s.len() as int)) {
            Some(fl) => Some((s.subrange(0, e), Some(fl))),
            None => None,
        }
    } else if s.len() > 0 && s.last() == '-' {
        Some((s.subrange(0, s.len() - 1), None))
    } else {
        None
    }
}

impl Instruction {
    pub open spec fn label_spec(&self) -> Seq<char> {
        match self {
            Instruction::Remove(l) => l@,
            Instruction::Insert(l, _) => l@,
        }
    }

    /// The label the instruction is about.
    pub fn label(&self) -> (r: &str)
        ensures
            r@ == self.label_spec(),
    {
        match self {
            Instruction::Remove(label) => label.as_str(),
            Instruction::Insert(label, _) => label.as_str(),
        }
    }

    /// The box the instruction is for: the hash of its label.
    pub fn target(&self) -> (r: usize)
        requires
            is_ascii_text(self.label_spec()),
        ensures
            r == hash_spec(self.label_spec()),
            r < 256,
    {
        let cs = chars_of(self.label());
        assert(cs@.subrange(0, cs@.len() as int) =~= cs@);
        hash_chars(&cs, 0, cs.len()) as usize
    }

    /// Reads `label=n` or `label-`.
    pub fn parse(s: &str) -> (r: Result<Instruction, Fail>)
        ensures
            r is Ok <==> instruction_value(s@) is Some,
            r matches Ok(i) ==> instruction_value(s@) == Some(
                (
                    i.label_spec(),
                    match i {
                        Instruction::Insert(_, fl) => Some(fl),
                        Instruction::Remove(_) => None,
                    },
                ),
            ),
    {
        let cs = chars_of(s);
        let n = cs.len();
        assert(cs@.subrange(0, n as int) =~= s@);
        let e = crate::parse::find_char(&cs, 0, n, '=');
        if e < n {
            if e + 1 < n && cs[e + 1] == '-' {
                return Err(Fail(crate::parse::string_from(&cs, 0, n)));
            }
            assert(cs@.subrange(e + 1, n as int) == s@.subrange(e + 1, s@.len() as int));
            match parse_i64(&cs, e + 1, n) {
                Some(v) => if v >= 0 && v <= 255 {
                    Ok(Instruction::Insert(crate::parse::string_from(&cs, 0, e), v as u8))
                } else {
                    Err(Fail(crate::parse::string_from(&cs, 0, n)))
                },
                None => Err(Fail(crate::parse::string_from(&cs, 0, n))),
            }
        } else if n > 0 && cs[n - 1] == '-' {
            Ok(Instruction::Remove(crate::parse::string_from(&cs, 0, n - 1)))
        } else {
            Err(Fail(crate::parse::string_from(&cs, 0, n)))
        }
    }
}

impl<'a> TryFrom<&'a str> for Instruction {
    type Error = Fail;

    fn try_from(s: &'a str) -> (r: Result<Instruction, Fail>)
        ensures
            r is Ok <==> instruction_value(s@) is Some,
    {
        Instruction::parse(s)
    }
}

impl<'a> vstd::std_specs::convert::TryFromSpecImpl<&'a str> for Instruction {
    open spec fn obeys_try_from_spec() -> bool {
        false
    }

    open spec fn try_from_spec(s: &'a str) -> Result<Instruction, Fail> {
        arbitrary()
    }
}

impl LensBox {
    /// Takes out every lens labelled `label_to_remove`.
    pub fn remove(&mut self, label_to_remove: &str)
        ensures
            lens_view(final(self).lenses@) == without_label(
                lens_view(old(self).lenses@),
                label_to_remove@,
            ),
    {
        let target = label_to_remove.to_owned();
        let mut old_lenses: Vec<LabeledLens> = Vec::new();
        std::mem::swap(&mut old_lenses, &mut self.lenses);
        let ghost start = lens_view(old_lenses@);
        let mut kept: Vec<LabeledLens> = Vec::new();
        let mut rev: Vec<LabeledLens> = Vec::new();
        while old_lenses.len() > 0
            invariant
                start.len() == old_lenses@.len() + rev@.len(),
                lens_view(old_lenses@) == start.subrange(0, old_lenses@.len() as int),
                forall|k: int|
                    0 <= k < rev@.len() ==> lens_view(rev@)[k] == start[start.len() - 1 - k],
            decreases old_lenses@.len(),
        {
            let ghost before = old_lenses@;
            let lens = match old_lenses.pop() {
                Some(l) => l,
                None => LabeledLens { label: String::new(), focal_length: 0 },
            };
            assert(lens == before[before.len() - 1]);
            assert(lens_view(before)[before.len() - 1] == (lens.label@, lens.focal_length));
            assert(lens_view(old_lenses@) =~= start.subrange(0, old_lenses@.len() as int)) by {
                assert(old_lenses@ =~= before.drop_last());
            }
            let ghost rev_before = rev@;
            rev.push(lens);
            assert forall|k: int| 0 <= k < rev@.len() implies lens_view(rev@)[k] == start[start.len()
                - 1 - k] by {
                if k < rev_before.len() {
                    assert(rev@[k] == rev_before[k]);
                    assert(lens_view(rev@)[k] == lens_view(rev_before)[k]);
                } else {
                    assert(rev@[k] == lens);
                    assert(start[before.len() - 1] == start.subrange(0, before.len() as int)[before.len() - 1]);
                }
            }
        }
        let ghost n: int = start.len() as int;
        while rev.len() > 0
            invariant
                n == start.len(),
                rev@.len() <= n,
                forall|k: int| 0 <= k < rev@.len() ==> lens_view(rev@)[k] == start[n - 1 - k],
                lens_view(kept@) == without_label(start.subrange(0, n - rev@.len()), target@),
                target@ == label_to_remove@,
            decreases rev@.len(),
        {
            let ghost before = rev@;
            let lens = match rev.pop() {
                Some(l) => l,
                None => LabeledLens { label: String::new(), focal_length: 0 },
            };
            let ghost i = n - before.len();
            assert(lens == before[before.len() - 1]);
            assert(lens_view(before)[before.len() - 1] == start[i]);
            assert forall|k: int| 0 <= k < rev@.len() implies lens_view(rev@)[k] == start[n - 1 - k] by {
                assert(rev@[k] == before[k]);
                assert(lens_view(before)[k] == start[n - 1 - k]);
            }
            proof {
                start.subrange(0, i).lemma_filter_push(start[i], |l: (Seq<char>, u8)| l.0 != target@);
                assert(start.subrange(0, i + 1) =~= start.subrange(0, i).push(start[i]));
            }
            if !lens.label.eq(&target) {
                kept.push(lens);
                assert(lens_view(kept@) =~= without_label(start.subrange(0, i + 1), target@));
            } else {
                assert(lens_view(kept@) =~= without_label(start.subrange(0, i + 1), target@));
            }
        }
        assert(start.subrange(0, n as int) =~= start);
        self.lenses = kept;
    }

    /// Puts in a lens: it replaces the focal length of the lens with the same
    /// label, or goes at the back.
    pub fn insert(&mut self, label_to_add: &str, focal_length: u8)
        ensures
            lens_view(final(self).lenses@) == with_lens(
                lens_view(old(self).lenses@),
                label_to_add@,
                focal_length,
            ),
    {
        let target = label_to_add.to_owned();
        let ghost start = lens_view(self.lenses@);
        let mut i: usize = 0;
        while i < self.lenses.len()
            invariant
                start == lens_view(self.lenses@),
                start == lens_view(old(self).lenses@),
                0 <= i <= self.lenses@.len(),
                target@ == label_to_add@,
                forall|k: int| 0 <= k < i ==> start[k].0 != label_to_add@,
            decreases self.lenses@.len() - i,
        {
            if self.lenses[i].label.eq(&target) {
                proof {
                    lemma_label_index_is(start, label_to_add@, i as int);
                }
                let label = self.lenses[i].label.clone();
                self.lenses.set(i, LabeledLens { label, focal_length });
                assert(lens_view(self.lenses@) =~= with_lens(start, label_to_add@, focal_length));
                return;
            }
            i = i + 1;
        }
        proof {
            lemma_label_index_is(start, label_to_add@, i as int);
        }
        self.lenses.push(LabeledLens { label: target, focal_length });
        assert(lens_view(self.lenses@) =~= with_lens(start, label_to_add@, focal_length));
    }

    /// Carries out an instruction on this box.
    pub fn perform(&mut self, instruction: &Instruction)
        ensures
            lens_view(final(self).lenses@) == match *instruction {
                Instruction::Remove(l) => without_label(lens_view(old(self).lenses@), l@),
                Instruction::Insert(l, fl) => with_lens(lens_view(old(self).lenses@), l@, fl),
            },
    {
        match instruction {
            Instruction::Remove(label) => {
                self.remove(label.as_str());
            },
            Instruction::Insert(label, focal_length) => {
                self.insert(label.as_str(), *focal_length);
            },
        }
    }
}

// ---------------------------------------------------------------------------
// The whole row of boxes.
// ---------------------------------------------------------------------------

/// The contents of every box.
pub open spec fn boxes_view(bs: Seq<LensBox>) -> Seq<Seq<(Seq<char>, u8)>> {
    bs.map_values(|b: LensBox| lens_view(b.lenses@))
}

/// An instruction as its label and, for an insertion, its focal length.
pub open spec fn step_of(i: Instruction) -> (Seq<char>, Option<u8>) {
    match i {
        Instruction::Remove(l) => (l@, None),
        Instruction::Insert(l, fl) => (l@, Some(fl)),
    }
}

/// A box after one step.
pub open spec fn box_apply(v: Seq<(Seq<char>, u8)>, step: (Seq<char>, Option<u8>)) -> Seq<
    (Seq<char>, u8),
> {
    match step.1 {
        None => without_label(v, step.0),
        Some(fl) => with_lens(v, step.0, fl),
    }
}

/// The boxes after one step: only the box that the label hashes to changes.
pub open spec fn array_apply(a: Seq<Seq<(Seq<char>, u8)>>, step: (Seq<char>, Option<u8>)) -> Seq<
    Seq<(Seq<char>, u8)>,
> {
    a.update(hash_spec(step.0), box_apply(a[hash_spec(step.0)], step))
}

/// The boxes after the steps, in order.
pub open spec fn run(a: Seq<Seq<(Seq<char>, u8)>>, steps: Seq<(Seq<char>, Option<u8>)>) -> Seq<
    Seq<(Seq<char>, u8)>,
>
    decreases steps.len(),
{
    if steps.len() == 0 {
        a
    } else {
        array_apply(run(a, steps.drop_last()), steps.last())
    }
}

/// The focusing power of the boxes `a[k..]`, box `k` being number `k + 1`.
pub open spec fn array_power(a: Seq<Seq<(Seq<char>, u8)>>, k: int) -> int
    decreases a.len() - k,
{
    if k < 0 || k >= a.len() {
        0
    } else {
        box_power(a[k], k + 1, 0) + array_power(a, k + 1)
    }
}

proof fn lemma_array_power_bounds(a: Seq<Seq<(Seq<char>, u8)>>, k: int)
    requires
        0 <= k <= a.len(),
    ensures
        0 <= array_power(a, k) <= array_power(a, 0),
    decreases k,
{
    lemma_array_power_nonneg(a, k);
    if k > 0 {
        lemma_array_power_bounds(a, k - 1);
        lemma_box_power_nonneg(a[k - 1], k, 0);
    }
}

proof fn lemma_array_power_nonneg(a: Seq<Seq<(Seq<char>, u8)>>, k: int)
    requires
        0 <= k <= a.len(),
    ensures
        array_power(a, k) >= 0,
    decreases a.len() - k,
{
    if k < a.len() {
        lemma_array_power_nonneg(a, k + 1);
        lemma_box_power_nonneg(a[k], k + 1, 0);
    }
}

/// All 256 boxes empty.
pub open spec fn empty_boxes() -> Seq<Seq<(Seq<char>, u8)>> {
    Seq::new(256, |i: int| Seq::<(Seq<char>, u8)>::empty())
}

impl LensArray {
    /// Carries out one instruction on the box that its label hashes to.
    /// Step-by-step tracing is left to the caller: the flag changes nothing
    /// here.
    pub fn perform(&mut self, instruction: &Instruction, _verbose: bool)
        requires
            old(self).lens_boxes@.len() == 256,
            is_ascii_text(instruction.label_spec()),
        ensures
            final(self).lens_boxes@.len() == 256,
            boxes_view(final(self).lens_boxes@) == array_apply(
                boxes_view(old(self).lens_boxes@),
                step_of(*instruction),
            ),
    {
        let box_index = instruction.target();
        let ghost before = self.lens_boxes@;
        let mut target = self.lens_boxes.remove(box_index);
        target.perform(instruction);
        self.lens_boxes.insert(box_index, target);
        proof {
            let a = boxes_view(before);
            let t = hash_spec(instruction.label_spec());
            assert(step_of(*instruction).0 == instruction.label_spec());
            assert(box_apply(a[t], step_of(*instruction)) == lens_view(target.lenses@)) by {
                assert(a[t] == lens_view(before[t].lenses@));
            }
            assert(self.lens_boxes@ =~= before.update(t, target));
            assert(boxes_view(self.lens_boxes@) =~= array_apply(a, step_of(*instruction)));
        }
    }

    /// Carries out the instructions in order.
    pub fn perform_sequence(&mut self, instructions: &[Instruction], verbose: bool)
        requires
            old(self).lens_boxes@.len() == 256,
            forall|k: int|
                0 <= k < instructions@.len() ==> is_ascii_text(#[trigger] instructions@[k].label_spec()),
        ensures
            final(self).lens_boxes@.len() == 256,
            boxes_view(final(self).lens_boxes@) == run(
                boxes_view(old(self).lens_boxes@),
                instructions@.map_values(|i: Instruction| step_of(i)),
            ),
    {
        let ghost start = boxes_view(self.lens_boxes@);
        let ghost steps = instructions@.map_values(|i: Instruction| step_of(i));
        let mut k: usize = 0;
        assert(steps.subrange(0, 0) =~= Seq::<(Seq<char>, Option<u8>)>::empty());
        while k < instructions.len()
            invariant
                0 <= k <= instructions@.len(),
                steps == instructions@.map_values(|i: Instruction| step_of(i)),
                self.lens_boxes@.len() == 256,
                forall|j: int|
                    0 <= j < instructions@.len() ==> is_ascii_text(#[trigger] instructions@[j].label_spec()),
                boxes_view(self.lens_boxes@) == run(start, steps.subrange(0, k as int)),
            decreases instructions@.len() - k,
        {
            self.perform(&instructions[k], verbose);
            assert(steps.subrange(0, k + 1).drop_last() =~= steps.subrange(0, k as int));
            k = k + 1;
        }
        assert(steps.subrange(0, k as int) =~= steps);
    }

    /// The focusing power of all the boxes.
    pub fn power(&self) -> (r: u64)
        requires
            array_power(boxes_view(self.lens_boxes@), 0) <= u64::MAX,
        ensures
            r == array_power(boxes_view(self.lens_boxes@), 0),
    {
        let ghost a = boxes_view(self.lens_boxes@);
        let mut total: u64 = 0;
        let mut k: usize = self.lens_boxes.len();
        while k > 0
            invariant
                0 <= k <= self.lens_boxes@.len(),
                a == boxes_view(self.lens_boxes@),
                array_power(a, 0) <= u64::MAX,
                total == array_power(a, k as int),
            decreases k,
        {
            let i = k - 1;
            proof {
                lemma_array_power_bounds(a, i as int);
                lemma_array_power_nonneg(a, k as int);
                lemma_box_power_nonneg(a[i as int], i + 1, 0);
            }
            assert(a[i as int] == lens_view(self.lens_boxes@[i as int].lenses@));
            let p = self.lens_boxes[i].power(i + 1);
            total = p + total;
            k = i;
        }
        total
    }
}

// ---------------------------------------------------------------------------
// Reading and running a comma-separated list.
// ---------------------------------------------------------------------------

/// The pieces of `s` between the commas (one piece when there is none).
pub open spec fn pieces(s: Seq<char>) -> Seq<Seq<char>>
    decreases s.len(),
{
    let i = first_at(s, ',');
    if i < 0 || i >= s.len() {
        seq![s]
    } else {
        seq![s.subrange(0, i)] + pieces(s.subrange(i + 1, s.len() as int))
    }
}

/// The sum of the hashes of the pieces `ps[..k]`.
pub open spec fn hash_total(ps: Seq<Seq<char>>, k: int) -> int
    decreases k,
{
    if k <= 0 || k > ps.len() {
        0
    } else {
        hash_total(ps, k - 1) + hash_spec(ps[k - 1])
    }
}

proof fn lemma_hash_total_grows(ps: Seq<Seq<char>>, k: int)
    requires
        0 <= k <= ps.len(),
    ensures
        0 <= hash_total(ps, k) <= hash_total(ps, ps.len() as int),
    decreases ps.len() - k,
{
    lemma_hash_total_nonneg(ps, k);
    if k < ps.len() {
        lemma_hash_total_grows(ps, k + 1);
        lemma_hash_nonneg(ps[k]);
    }
}

proof fn lemma_hash_total_nonneg(ps: Seq<Seq<char>>, k: int)
    requires
        0 <= k <= ps.len(),
    ensures
        hash_total(ps, k) >= 0,
    decreases k,
{
    if k > 0 {
        lemma_hash_total_nonneg(ps, k - 1);
        lemma_hash_nonneg(ps[k - 1]);
    }
}

proof fn lemma_hash_nonneg(s: Seq<char>)
    ensures
        0 <= hash_spec(s) < 256,
    decreases s.len(),
{
    if s.len() > 0 {
        lemma_hash_nonneg(s.drop_last());
    }
}

proof fn lemma_pieces_step(cs: Seq<char>, pos: int, e: int, n: int)
    requires
        0 <= pos <= e <= n == cs.len(),
        e == pos + first_at(cs.subrange(pos, n), ','),
    ensures
        e < n ==> pieces(cs.subrange(pos, n)) == seq![cs.subrange(pos, e)] + pieces(
            cs.subrange(e + 1, n),
        ),
        e == n ==> pieces(cs.subrange(pos, n)) == seq![cs.subrange(pos, e)],
{
    let rest = cs.subrange(pos, n);
    crate::parse::lemma_first_at_bounds(rest, ',');
    assert(rest.subrange(0, e - pos) =~= cs.subrange(pos, e));
    if e < n {
        assert(rest.subrange(e - pos + 1, rest.len() as int) =~= cs.subrange(e + 1, n));
    } else {
        assert(rest =~= cs.subrange(pos, e));
    }
}

/// The sum of the hashes of the comma-separated pieces of `s`.
pub fn part1(s: &str) -> (r: u64)
    requires
        is_ascii_text(s@),
        hash_total(pieces(s@), pieces(s@).len() as int) <= u64::MAX,
    ensures
        r == hash_total(pieces(s@), pieces(s@).len() as int),
{
    let cs = chars_of(s);
    let n = cs.len();
    let ghost ps = pieces(s@);
    let mut total: u64 = 0;
    let mut pos: usize = 0;
    let ghost mut done: Seq<Seq<char>> = Seq::empty();
    assert(cs@.subrange(0, n as int) =~= s@);
    assert(done + pieces(cs@.subrange(0, n as int)) =~= ps);
    loop
        invariant_except_break
            ps == done + pieces(cs@.subrange(pos as int, n as int)),
        invariant
            cs@ == s@,
            n == cs@.len(),
            0 <= pos <= n,
            ps == pieces(s@),
            done.len() <= ps.len(),
            is_ascii_text(s@),
            hash_total(ps, ps.len() as int) <= u64::MAX,
            total == hash_total(ps, done.len() as int),
        ensures
            done == ps,
            total == hash_total(ps, done.len() as int),
        decreases n - pos,
    {
        let e = crate::parse::find_char(&cs, pos, n, ',');
        proof {
            lemma_pieces_step(cs@, pos as int, e as int, n as int);
            lemma_hash_total_grows(ps, done.len() as int + 1);
            assert(ps[done.len() as int] == cs@.subrange(pos as int, e as int));
            lemma_hash_nonneg(cs@.subrange(pos as int, e as int));
            assert(is_ascii_text(cs@.subrange(pos as int, e as int))) by {
                assert forall|i: int| 0 <= i < e - pos implies (#[trigger] cs@.subrange(pos as int, e as int)[i] as u32) < 128 by {
                    assert(cs@.subrange(pos as int, e as int)[i] == s@[pos + i]);
                }
            }
        }
        let h = hash_chars(&cs, pos, e);
        total = total + h as u64;
        proof {
            let old_done = done;
            done = done.push(cs@.subrange(pos as int, e as int));
            if e < n {
                assert(old_done + (seq![cs@.subrange(pos as int, e as int)] + pieces(cs@.subrange(e + 1, n as int))) =~= done + pieces(cs@.subrange(e + 1, n as int)));
            } else {
                assert(done =~= ps);
            }
        }
        if e == n {
            break;
        }
        pos = e + 1;
    }
    assert(done.len() == ps.len());
    total
}

/// Reads the comma-separated instructions of `s`.
pub fn parse_instructions(s: &str) -> (r: Result<Vec<Instruction>, Fail>)
    ensures
        r is Ok <==> forall|k: int| 0 <= k < pieces(s@).len() ==> (instruction_value(#[trigger] pieces(s@)[k]) is Some),
        r matches Ok(v) ==> v@.len() == pieces(s@).len() && forall|k: int|
            0 <= k < v@.len() ==> instruction_value(pieces(s@)[k]) == Some(step_of(#[trigger] v@[k])),
{
    let cs = chars_of(s);
    let n = cs.len();
    let ghost ps = pieces(s@);
    let mut out: Vec<Instruction> = Vec::new();
    let mut pos: usize = 0;
    let ghost mut done: Seq<Seq<char>> = Seq::empty();
    assert(cs@.subrange(0, n as int) =~= s@);
    assert(done + pieces(cs@.subrange(0, n as int)) =~= ps);
    loop
        invariant_except_break
            ps == done + pieces(cs@.subrange(pos as int, n as int)),
        invariant
            cs@ == s@,
            n == cs@.len(),
            0 <= pos <= n,
            ps == pieces(s@),
            out@.len() == done.len(),
            forall|k: int| 0 <= k < done.len() ==> instruction_value(done[k]) == Some(step_of(#[trigger] out@[k])),
        ensures
            done == ps,
            out@.len() == done.len(),
            forall|k: int| 0 <= k < done.len() ==> instruction_value(done[k]) == Some(step_of(#[trigger] out@[k])),
        decreases n - pos,
    {
        let e = crate::parse::find_char(&cs, pos, n, ',');
        proof {
            lemma_pieces_step(cs@, pos as int, e as int, n as int);
        }
        let piece = crate::parse::string_from(&cs, pos, e);
        match Instruction::parse(piece.as_str()) {
            Ok(i) => {
                out.push(i);
            },
            Err(f) => {
                assert(ps[done.len() as int] == cs@.subrange(pos as int, e as int));
                return Err(f);
            },
        }
        proof {
            let old_done = done;
            done = done.push(cs@.subrange(pos as int, e as int));
            if e < n {
                assert(old_done + (seq![cs@.subrange(pos as int, e as int)] + pieces(cs@.subrange(e + 1, n as int))) =~= done + pieces(cs@.subrange(e + 1, n as int)));
            } else {
                assert(done =~= ps);
            }
            assert forall|k: int| 0 <= k < done.len() implies instruction_value(done[k]) == Some(step_of(#[trigger] out@[k])) by {
                if k < old_done.len() {
                    assert(done[k] == old_done[k]);
                }
            }
        }
        if e == n {
            break;
        }
        pos = e + 1;
    }
    assert forall|k: int| 0 <= k < pieces(s@).len() implies (instruction_value(
        #[trigger] pieces(s@)[k],
    ) is Some) by {
        assert(instruction_value(done[k]) == Some(step_of(out@[k])));
    }
    Ok(out)
}

/// The steps that the comma-separated instructions of `s` describe.
pub open spec fn steps_of(s: Seq<char>) -> Seq<(Seq<char>, Option<u8>)> {
    pieces(s).map_values(|p: Seq<char>| instruction_value(p)->0)
}

/// Every piece of `s` is an instruction with an ASCII label.
pub open spec fn instructions_valid(s: Seq<char>) -> bool {
    forall|k: int|
        0 <= k < pieces(s).len() ==> {
            &&& instruction_value(#[trigger] pieces(s)[k]) matches Some((label, _))
            &&& is_ascii_text(label)
        }
}

/// Runs the instructions of `s` on empty boxes and returns the focusing
/// power of the result. Step-by-step tracing is left to the caller:
/// `verbose` changes nothing here.
pub fn part2(s: &str, verbose: bool) -> (r: u64)
    requires
        instructions_valid(s@),
        array_power(run(empty_boxes(), steps_of(s@)), 0) <= u64::MAX,
    ensures
        r == array_power(run(empty_boxes(), steps_of(s@)), 0),
{
    let instructions = match parse_instructions(s) {
        Ok(v) => v,
        Err(_) => {
            return 0;
        },
    };
    let mut array = LensArray::default();
    proof {
        assert(boxes_view(array.lens_boxes@) =~= empty_boxes()) by {
            assert forall|i: int| 0 <= i < 256 implies boxes_view(array.lens_boxes@)[i]
                =~= empty_boxes()[i] by {
                assert(array.lens_boxes@[i].lenses@.len() == 0);
            }
        }
        assert(instructions@.map_values(|i: Instruction| step_of(i)) =~= steps_of(s@)) by {
            assert forall|k: int| 0 <= k < instructions@.len() implies step_of(instructions@[k])
                == steps_of(s@)[k] by {
                assert(instruction_value(pieces(s@)[k]) == Some(step_of(instructions@[k])));
            }
        }
        assert forall|k: int| 0 <= k < instructions@.len() implies is_ascii_text(
            #[trigger] instructions@[k].label_spec(),
        ) by {
            assert(instruction_value(pieces(s@)[k]) == Some(step_of(instructions@[k])));
        }
    }
    array.perform_sequence(instructions.as_slice(), verbose);
    array.power()
}

} // verus!
