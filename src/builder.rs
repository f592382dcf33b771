use std::collections::VecDeque;

use vstd::prelude::*;

use crate::heuristic::{appends_path, heuristic_encode, heuristic_path, squares_then};
use crate::inst::{
    is_mutating, lemma_no_blanks_concat, lemma_outputs_concat, lemma_outputs_mutating,
    lemma_run_concat, lemma_run_push, lemma_run_repeat, no_blanks, offset_insts, outputs, repeat,
    run, sat_abs, step, Inst,
};
use crate::value::{abs_int, add_steps, normalized, square_steps, sub_steps, Offset, Value};

verus! {

/// The program an offset list stands for: the first offset from the start,
/// then for each further offset a square and that offset.
pub open spec fn offset_chain(offsets: Seq<Offset>) -> Seq<Inst> {
    if offsets.len() == 0 {
        seq![]
    } else {
        offset_insts(offsets[0]@) + squares_then(offsets.subrange(1, offsets.len() as int))
    }
}

/// The code points that `Builder::push_string` prints for `s`: each
/// character's own, with `Ā` (256) written as `A` and U+0304. (No code point
/// is the all-ones word, so `normalized` leaves the others as they are.)
pub open spec fn char_codes(s: Seq<char>) -> Seq<u32>
    decreases s.len(),
{
    if s.len() == 0 {
        seq![]
    } else if s.last() as u32 == 256 {
        char_codes(s.drop_last()) + seq![0x41u32, 0x304u32]
    } else {
        char_codes(s.drop_last()) + seq![normalized(s.last() as u32)]
    }
}

/// An instruction buffer together with the accumulator value that it is
/// taken to end on.
#[derive(Clone, Debug)]
pub struct Builder {
    insts: Vec<Inst>,
    acc: Value,
}

impl Builder {
    /// The instructions written so far.
    pub closed spec fn spec_insts(&self) -> Seq<Inst> {
        self.insts@
    }

    /// The tracked accumulator value.
    pub closed spec fn spec_acc(&self) -> u32 {
        self.acc@
    }

    /// An empty buffer starting from `acc`.
    pub fn new(acc: Value) -> (r: Builder)
        ensures
            r.spec_insts() == Seq::<Inst>::empty(),
            r.spec_acc() == acc@,
    {
        Builder::from_insts(Vec::new(), acc)
    }

    /// A buffer holding `insts`, taken to end on `acc`.
    pub fn from_insts(insts: Vec<Inst>, acc: Value) -> (r: Builder)
        ensures
            r.spec_insts() == insts@,
            r.spec_acc() == acc@,
    {
        Builder { insts, acc }
    }

    pub fn acc(&self) -> (r: Value)
        ensures
            r@ == self.spec_acc(),
    {
        self.acc
    }

    pub fn insts(&self) -> (r: &[Inst])
        ensures
            r@ == self.spec_insts(),
    {
        self.insts.as_slice()
    }

    pub fn into_insts(self) -> (r: Vec<Inst>)
        ensures
            r@ == self.spec_insts(),
    {
        self.insts
    }

    /// Empties the buffer and starts again from `acc`.
    pub fn reset(&mut self, acc: Value)
        ensures
            final(self).spec_insts() == Seq::<Inst>::empty(),
            final(self).spec_acc() == acc@,
    {
        self.acc = acc;
        self.insts.clear();
    }

    /// Encodes `n`: a path to it, then an output.
    pub fn push_number(&mut self, n: Value)
        ensures
            final(self).spec_insts() == old(self).spec_insts() + heuristic_path(
                old(self).spec_acc(),
                n@,
            ).push(Inst::O),
            final(self).spec_insts().len() > old(self).spec_insts().len(),
            final(self).spec_insts().last() == Inst::O,
            appends_path(
                old(self).spec_insts(),
                old(self).spec_acc(),
                final(self).spec_insts().drop_last(),
                n@,
            ),
            final(self).spec_acc() == n@,
            outputs(
                final(self).spec_insts().subrange(
                    old(self).spec_insts().len() as int,
                    final(self).spec_insts().len() as int,
                ),
                old(self).spec_acc(),
            ) == seq![n@],
            no_blanks(
                final(self).spec_insts().subrange(
                    old(self).spec_insts().len() as int,
                    final(self).spec_insts().len() as int,
                ),
            ),
            run(
                final(self).spec_insts().subrange(
                    old(self).spec_insts().len() as int,
                    final(self).spec_insts().len() as int,
                ),
                old(self).spec_acc(),
            ) == n@,
            (old(self).spec_acc() < 256) == (n@ < 256) ==> final(self).spec_insts().len() - old(
                self,
            ).spec_insts().len() <= abs_int(n@ - old(self).spec_acc()) + 1,
    {
        let ghost before = self.insts@;
        let ghost acc0 = self.acc@;
        heuristic_encode(self, n);
        let ghost mid = self.insts@;
        self.insts.push(Inst::O);
        self.acc = n;
        proof {
            assert(self.insts@ =~= before + heuristic_path(acc0, n@).push(Inst::O));
            let p = mid.subrange(before.len() as int, mid.len() as int);
            assert(self.insts@.drop_last() =~= mid);
            assert(self.insts@.subrange(before.len() as int, self.insts@.len() as int) =~= p.push(
                Inst::O,
            ));
            lemma_outputs_mutating(p, acc0);
            assert(p.push(Inst::O).drop_last() =~= p);
            assert(outputs(p.push(Inst::O), acc0) =~= seq![n@]);
            lemma_run_push(p, Inst::O, acc0);
            assert forall|j: int| 0 <= j < p.push(Inst::O).len() implies #[trigger] p.push(
                Inst::O,
            )[j] != Inst::Blank by {
                if j < p.len() {
                    assert(is_mutating(p[j]));
                }
            }
        }
    }

    /// Encodes each number in turn.
    pub fn push_numbers(&mut self, numbers: &[Value])
        ensures
            old(self).spec_insts().len() <= final(self).spec_insts().len(),
            final(self).spec_insts().subrange(0, old(self).spec_insts().len() as int) == old(
                self,
            ).spec_insts(),
            outputs(
                final(self).spec_insts().subrange(
                    old(self).spec_insts().len() as int,
                    final(self).spec_insts().len() as int,
                ),
                old(self).spec_acc(),
            ) == numbers@.map_values(|v: Value| v@),
            no_blanks(
                final(self).spec_insts().subrange(
                    old(self).spec_insts().len() as int,
                    final(self).spec_insts().len() as int,
                ),
            ),
            final(self).spec_acc() == (if numbers@.len() == 0 {
                old(self).spec_acc()
            } else {
                numbers@.last()@
            }),
    {
        let ghost before = self.insts@;
        let ghost acc0 = self.acc@;
        let mut i: usize = 0;
        assert(self.insts@.subrange(before.len() as int, self.insts@.len() as int)
            =~= Seq::<Inst>::empty());
        while i < numbers.len()
            invariant
                i <= numbers@.len(),
                before.len() <= self.insts@.len(),
                self.insts@.subrange(0, before.len() as int) == before,
                outputs(self.insts@.subrange(before.len() as int, self.insts@.len() as int), acc0)
                    == numbers@.subrange(0, i as int).map_values(|v: Value| v@),
                run(self.insts@.subrange(before.len() as int, self.insts@.len() as int), acc0)
                    == self.acc@,
                no_blanks(self.insts@.subrange(before.len() as int, self.insts@.len() as int)),
                self.acc@ == (if i == 0 {
                    acc0
                } else {
                    numbers@[i - 1]@
                }),
            decreases numbers@.len() - i,
        {
            let ghost prev = self.insts@;
            let ghost prev_acc = self.acc@;
            self.push_number(numbers[i]);
            proof {
                let done = prev.subrange(before.len() as int, prev.len() as int);
                let added = self.insts@.subrange(prev.len() as int, self.insts@.len() as int);
                assert(self.insts@.subrange(0, prev.len() as int) =~= prev);
                assert(self.insts@.subrange(0, before.len() as int) =~= before);
                assert(self.insts@.subrange(before.len() as int, self.insts@.len() as int)
                    =~= done + added);
                lemma_outputs_concat(done, added, acc0);
                lemma_run_concat(done, added, acc0);
                lemma_no_blanks_concat(done, added);
                assert(numbers@.subrange(0, i + 1).map_values(|v: Value| v@) =~= numbers@.subrange(
                    0,
                    i as int,
                ).map_values(|v: Value| v@).push(numbers@[i as int]@));
            }
            i += 1;
        }
        assert(numbers@.subrange(0, numbers@.len() as int) =~= numbers@);
    }

    /// Encodes each character's code point. `Ā` (code point 256, which the
    /// machine cannot hold) is encoded as its decomposition `A` and U+0304.
    pub fn push_string(&mut self, s: &str)
        ensures
            old(self).spec_insts().len() <= final(self).spec_insts().len(),
            final(self).spec_insts().subrange(0, old(self).spec_insts().len() as int) == old(
                self,
            ).spec_insts(),
            outputs(
                final(self).spec_insts().subrange(
                    old(self).spec_insts().len() as int,
                    final(self).spec_insts().len() as int,
                ),
                old(self).spec_acc(),
            ) == char_codes(s@),
            no_blanks(
                final(self).spec_insts().subrange(
                    old(self).spec_insts().len() as int,
                    final(self).spec_insts().len() as int,
                ),
            ),
    {
        let mut numbers: Vec<Value> = Vec::new();
        for c in it: s.chars()
            invariant
                it.seq() == s@,
                numbers@.map_values(|v: Value| v@) == char_codes(s@.subrange(0, it.index() as int)),
        {
            let ghost before = numbers@;
            let ghost pre = s@.subrange(0, it.index() as int);
            proof {
                assert(s@.subrange(0, it.index() + 1) =~= pre.push(c));
                assert(pre.push(c).drop_last() =~= pre);
            }
            let code = c as u32;
            if code == 256 {
                numbers.push(Value::from_raw(0x41));
                numbers.push(Value::from_raw(0x304));
                assert(numbers@.map_values(|v: Value| v@) =~= before.map_values(|v: Value| v@)
                    + seq![0x41u32, 0x304u32]);
            } else {
                numbers.push(Value::from_u32(code));
                assert(numbers@.map_values(|v: Value| v@) =~= before.map_values(|v: Value| v@)
                    + seq![normalized(code)]);
            }
        }
        assert(s@.subrange(0, s@.len() as int) =~= s@);
        self.push_numbers(numbers.as_slice());
    }

    /// Encodes each byte.
    pub fn push_bytes(&mut self, b: &[u8])
        ensures
            old(self).spec_insts().len() <= final(self).spec_insts().len(),
            final(self).spec_insts().subrange(0, old(self).spec_insts().len() as int) == old(
                self,
            ).spec_insts(),
            outputs(
                final(self).spec_insts().subrange(
                    old(self).spec_insts().len() as int,
                    final(self).spec_insts().len() as int,
                ),
                old(self).spec_acc(),
            ) == b@.map_values(|x: u8| x as u32),
            no_blanks(
                final(self).spec_insts().subrange(
                    old(self).spec_insts().len() as int,
                    final(self).spec_insts().len() as int,
                ),
            ),
    {
        let mut numbers: Vec<Value> = Vec::new();
        let mut i: usize = 0;
        while i < b.len()
            invariant
                i <= b@.len(),
                numbers@.map_values(|v: Value| v@) == b@.subrange(0, i as int).map_values(
                    |x: u8| x as u32,
                ),
            decreases b@.len() - i,
        {
            numbers.push(Value::from_raw(b[i] as u32));
            assert(b@.subrange(0, i + 1).map_values(|x: u8| x as u32) =~= b@.subrange(
                0,
                i as int,
            ).map_values(|x: u8| x as u32).push(b@[i as int] as u32));
            assert(numbers@.map_values(|v: Value| v@) =~= b@.subrange(0, i + 1).map_values(
                |x: u8| x as u32,
            ));
            i += 1;
        }
        assert(b@.subrange(0, b@.len() as int) =~= b@);
        self.push_numbers(numbers.as_slice());
    }

    /// Appends the instructions and runs them on the accumulator.
    pub fn append(&mut self, insts: &[Inst])
        ensures
            final(self).spec_insts() == old(self).spec_insts() + insts@,
            final(self).spec_acc() == run(insts@, old(self).spec_acc()),
    {
        let ghost start = self.insts@;
        let ghost acc0 = self.acc;
        let mut i: usize = 0;
        while i < insts.len()
            invariant
                i <= insts@.len(),
                self.insts@ == start + insts@.subrange(0, i as int),
                self.acc == acc0,
            decreases insts@.len() - i,
        {
            self.insts.push(insts[i]);
            assert(insts@.subrange(0, i as int).push(insts@[i as int]) =~= insts@.subrange(
                0,
                i + 1,
            ));
            i += 1;
        }
        assert(insts@.subrange(0, insts@.len() as int) =~= insts@);
        self.acc = Inst::eval(insts, self.acc);
    }

    /// Appends one instruction and applies it to the accumulator.
    pub fn push(&mut self, inst: Inst)
        ensures
            final(self).spec_insts() == old(self).spec_insts().push(inst),
            final(self).spec_acc() == step(old(self).spec_acc(), inst),
    {
        self.insts.push(inst);
        self.acc = self.acc.apply(inst);
    }

    /// Appends the run of increments or decrements that `offset` stands for.
    pub fn offset(&mut self, offset: Offset)
        ensures
            final(self).spec_insts() == old(self).spec_insts() + offset_insts(offset@),
            final(self).spec_acc() == run(offset_insts(offset@), old(self).spec_acc()),
    {
        proof {
            lemma_run_repeat(sat_abs(offset@), self.acc@);
        }
        if offset.is_negative() {
            self.sub(offset.abs());
        } else {
            self.add(offset.abs());
        }
    }

    /// Appends `x` increments; the accumulator moves in one step.
    pub fn add(&mut self, x: u32)
        ensures
            final(self).spec_insts() == old(self).spec_insts() + repeat(Inst::I, x as nat),
            final(self).spec_acc() == add_steps(old(self).spec_acc(), x as nat),
    {
        self.push_repeat(Inst::I, x);
        self.acc = self.acc.saturating_add(x);
    }

    /// Appends `x` decrements; the accumulator moves in one step.
    pub fn sub(&mut self, x: u32)
        ensures
            final(self).spec_insts() == old(self).spec_insts() + repeat(Inst::D, x as nat),
            final(self).spec_acc() == sub_steps(old(self).spec_acc(), x as nat),
    {
        self.push_repeat(Inst::D, x);
        self.acc = self.acc.saturating_sub(x);
    }

    /// Appends `count` squares.
    pub fn square(&mut self, count: u32)
        ensures
            final(self).spec_insts() == old(self).spec_insts() + repeat(Inst::S, count as nat),
            final(self).spec_acc() == square_steps(old(self).spec_acc(), count as nat),
    {
        self.push_repeat(Inst::S, count);
        self.acc = self.acc.square_repeat(count);
    }

    fn push_repeat(&mut self, inst: Inst, count: u32)
        ensures
            final(self).spec_insts() == old(self).spec_insts() + repeat(inst, count as nat),
            final(self).spec_acc() == old(self).spec_acc(),
    {
        let ghost start = self.insts@;
        let mut i: u32 = 0;
        while i < count
            invariant
                i <= count,
                self.insts@ == start + repeat(inst, i as nat),
                self.acc == old(self).acc,
            decreases count - i,
        {
            self.insts.push(inst);
            assert(repeat(inst, i as nat).push(inst) =~= repeat(inst, (i + 1) as nat));
            i += 1;
        }
    }

    /// Appends the first offset, then a square and an offset for each of the
    /// others.
    pub(crate) fn offset_squares(&mut self, offsets: &VecDeque<Offset>)
        ensures
            final(self).spec_insts() == old(self).spec_insts() + offset_chain(offsets@),
            final(self).spec_acc() == run(offset_chain(offsets@), old(self).spec_acc()),
    {
        if offsets.len() == 0 {
            assert(old(self).spec_insts() + offset_chain(offsets@) =~= old(self).spec_insts());
            return;
        }
        let ghost start = self.insts@;
        let ghost acc0 = self.acc@;
        self.offset(offsets[0]);
        let mut i: usize = 1;
        assert(offsets@.subrange(1, 1) =~= Seq::<Offset>::empty());
        assert(offset_insts(offsets@[0]@) + squares_then(offsets@.subrange(1, 1)) =~= offset_insts(
            offsets@[0]@,
        ));
        while i < offsets.len()
            invariant
                1 <= i <= offsets@.len(),
                self.insts@ == start + offset_insts(offsets@[0]@) + squares_then(
                    offsets@.subrange(1, i as int),
                ),
                self.acc@ == run(
                    offset_insts(offsets@[0]@) + squares_then(offsets@.subrange(1, i as int)),
                    acc0,
                ),
            decreases offsets@.len() - i,
        {
            let ghost prefix = offset_insts(offsets@[0]@) + squares_then(
                offsets@.subrange(1, i as int),
            );
            self.push(Inst::S);
            self.offset(offsets[i]);
            proof {
                assert(offsets@.subrange(1, i + 1).drop_last() =~= offsets@.subrange(1, i as int));
                assert(squares_then(offsets@.subrange(1, i + 1)) == squares_then(
                    offsets@.subrange(1, i as int),
                ) + seq![Inst::S] + offset_insts(offsets@[i as int]@));
                lemma_run_push(prefix, Inst::S, acc0);
                lemma_run_concat(prefix.push(Inst::S), offset_insts(offsets@[i as int]@), acc0);
                assert(prefix.push(Inst::S) + offset_insts(offsets@[i as int]@) =~= offset_insts(
                    offsets@[0]@,
                ) + squares_then(offsets@.subrange(1, i + 1)));
            }
            i += 1;
        }
    }
}


impl Default for Builder {
    fn default() -> (r: Builder)
        ensures
            r.spec_insts() == Seq::<Inst>::empty(),
            r.spec_acc() == 0,
    {
        Builder::new(Value::new())
    }
}

} // verus!
