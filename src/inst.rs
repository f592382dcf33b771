use vstd::prelude::*;

use crate::builder::Builder;
use crate::heuristic::heuristic_path;
use crate::text::{char_from_u32, decimal, is_scalar, push_char, push_chars, push_decimal};
use crate::value::{
    abs_int, add_closed, add_steps, decremented, incremented, is_normal, lemma_add_closed,
    lemma_sub_closed, square_steps, squared, sub_closed, sub_steps, Value,
};

verus! {

/// Deadfish instructions.
#[derive(Clone, Copy, Debug, PartialEq, Eq, Structural, PartialOrd, Ord, Hash)]
pub enum Inst {
    /// `i`: increment.
    I,
    /// `d`: decrement.
    D,
    /// `s`: square.
    S,
    /// `o`: output.
    O,
    /// Any other character: print a line feed.
    Blank,
}

/// The accumulator after one instruction.
pub open spec fn step(n: u32, inst: Inst) -> u32 {
    match inst {
        Inst::I => incremented(n),
        Inst::D => decremented(n),
        Inst::S => squared(n),
        _ => n,
    }
}

/// The accumulator after a sequence of instructions, applied from the front.
pub open spec fn run(insts: Seq<Inst>, n: u32) -> u32
    decreases insts.len(),
{
    if insts.len() == 0 {
        n
    } else {
        step(run(insts.drop_last(), n), insts.last())
    }
}

/// Running `a` and then `b` is running their concatenation.
pub proof fn lemma_run_concat(a: Seq<Inst>, b: Seq<Inst>, n: u32)
    ensures
        run(a + b, n) == run(b, run(a, n)),
    decreases b.len(),
{
    if b.len() == 0 {
        assert(a + b =~= a);
    } else {
        assert((a + b).drop_last() =~= a + b.drop_last());
        lemma_run_concat(a, b.drop_last(), n);
    }
}

/// Running one more instruction.
pub proof fn lemma_run_push(a: Seq<Inst>, inst: Inst, n: u32)
    ensures
        run(a.push(inst), n) == step(run(a, n), inst),
{
    assert(a.push(inst).drop_last() =~= a);
}

/// `k` copies of one instruction.
pub open spec fn repeat(inst: Inst, k: nat) -> Seq<Inst> {
    Seq::new(k, |_i: int| inst)
}

/// The magnitude of an offset, saturated to `u32::MAX`.
pub open spec fn sat_abs(o: int) -> nat {
    if abs_int(o) > 0xffff_ffff {
        0xffff_ffff
    } else {
        abs_int(o) as nat
    }
}

/// The run of increments (or, for a negative offset, decrements) that an
/// offset stands for.
pub open spec fn offset_insts(o: int) -> Seq<Inst> {
    if o < 0 {
        repeat(Inst::D, sat_abs(o))
    } else {
        repeat(Inst::I, sat_abs(o))
    }
}

/// Whether an instruction changes the accumulator.
pub open spec fn is_mutating(inst: Inst) -> bool {
    inst == Inst::I || inst == Inst::D || inst == Inst::S
}

/// Whether every instruction changes the accumulator.
pub open spec fn all_mutating(insts: Seq<Inst>) -> bool {
    forall|i: int| 0 <= i < insts.len() ==> #[trigger] is_mutating(insts[i])
}

/// Whether the program has no blank instructions.
pub open spec fn no_blanks(insts: Seq<Inst>) -> bool {
    forall|i: int| 0 <= i < insts.len() ==> #[trigger] insts[i] != Inst::Blank
}

/// Concatenations of programs without blanks have none.
pub proof fn lemma_no_blanks_concat(a: Seq<Inst>, b: Seq<Inst>)
    requires
        no_blanks(a),
        no_blanks(b),
    ensures
        no_blanks(a + b),
{
    assert forall|i: int| 0 <= i < (a + b).len() implies #[trigger] (a + b)[i] != Inst::Blank by {
        if i < a.len() {
            assert((a + b)[i] == a[i]);
        } else {
            assert((a + b)[i] == b[i - a.len()]);
        }
    }
}

/// The values printed by the `o` instructions, in order.
pub open spec fn outputs(insts: Seq<Inst>, n: u32) -> Seq<u32>
    decreases insts.len(),
{
    if insts.len() == 0 {
        seq![]
    } else if insts.last() == Inst::O {
        outputs(insts.drop_last(), n).push(run(insts.drop_last(), n))
    } else {
        outputs(insts.drop_last(), n)
    }
}

/// Runs of one instruction agree with repeated single steps.
pub proof fn lemma_run_repeat(k: nat, n: u32)
    ensures
        run(repeat(Inst::I, k), n) == add_steps(n, k),
        run(repeat(Inst::D, k), n) == sub_steps(n, k),
        run(repeat(Inst::S, k), n) == square_steps(n, k),
    decreases k,
{
    if k > 0 {
        lemma_run_repeat((k - 1) as nat, n);
        assert(repeat(Inst::I, k).drop_last() =~= repeat(Inst::I, (k - 1) as nat));
        assert(repeat(Inst::D, k).drop_last() =~= repeat(Inst::D, (k - 1) as nat));
        assert(repeat(Inst::S, k).drop_last() =~= repeat(Inst::S, (k - 1) as nat));
    }
}

/// An offset run, in closed form.
pub proof fn lemma_run_offset(o: int, n: u32)
    requires
        is_normal(n),
    ensures
        run(offset_insts(o), n) == (if o < 0 {
            sub_closed(n, sat_abs(o))
        } else {
            add_closed(n, sat_abs(o))
        }),
{
    lemma_run_repeat(sat_abs(o), n);
    lemma_add_closed(n, sat_abs(o));
    lemma_sub_closed(n, sat_abs(o));
}

/// Between two values on the same side of 256, the offset run lands exactly.
pub proof fn lemma_run_same_side(a: u32, b: u32)
    requires
        is_normal(a),
        is_normal(b),
        (a < 256) == (b < 256),
    ensures
        run(offset_insts(b - a), a) == b,
{
    lemma_run_offset(b - a, a);
}

/// A sequence of mutating instructions prints nothing.
pub proof fn lemma_outputs_mutating(insts: Seq<Inst>, n: u32)
    requires
        all_mutating(insts),
    ensures
        outputs(insts, n) == Seq::<u32>::empty(),
    decreases insts.len(),
{
    if insts.len() > 0 {
        assert(is_mutating(insts[insts.len() - 1]));
        assert(all_mutating(insts.drop_last()));
        lemma_outputs_mutating(insts.drop_last(), n);
    }
}

/// What `a + b` prints: what `a` prints, then what `b` prints from where `a`
/// left the accumulator.
pub proof fn lemma_outputs_concat(a: Seq<Inst>, b: Seq<Inst>, n: u32)
    ensures
        outputs(a + b, n) == outputs(a, n) + outputs(b, run(a, n)),
    decreases b.len(),
{
    if b.len() == 0 {
        assert(a + b =~= a);
        assert(outputs(a, n) + outputs(b, run(a, n)) =~= outputs(a, n));
    } else {
        assert((a + b).drop_last() =~= a + b.drop_last());
        lemma_outputs_concat(a, b.drop_last(), n);
        lemma_run_concat(a, b.drop_last(), n);
        if b.last() == Inst::O {
            assert(outputs(a, n) + outputs(b, run(a, n)) =~= (outputs(a, n) + outputs(
                b.drop_last(),
                run(a, n),
            )).push(run(b.drop_last(), run(a, n))));
        }
    }
}

/// `p` changes the accumulator at every step and takes it from `from` to `to`.
pub open spec fn is_path(from: u32, to: u32, p: Seq<Inst>) -> bool {
    all_mutating(p) && run(p, from) == to
}

/// Runs of increments, decrements and squares change the accumulator.
pub proof fn lemma_repeat_mutating(inst: Inst, k: nat)
    requires
        is_mutating(inst),
    ensures
        all_mutating(repeat(inst, k)),
{
    assert forall|i: int| 0 <= i < repeat(inst, k).len() implies #[trigger] is_mutating(
        repeat(inst, k)[i],
    ) by {}
}

/// Offset runs change the accumulator.
pub proof fn lemma_offset_mutating(o: int)
    ensures
        all_mutating(offset_insts(o)),
{
    lemma_repeat_mutating(Inst::I, sat_abs(o));
    lemma_repeat_mutating(Inst::D, sat_abs(o));
}

/// Concatenations of mutating sequences are mutating.
pub proof fn lemma_mutating_concat(a: Seq<Inst>, b: Seq<Inst>)
    requires
        all_mutating(a),
        all_mutating(b),
    ensures
        all_mutating(a + b),
{
    assert forall|i: int| 0 <= i < (a + b).len() implies #[trigger] is_mutating((a + b)[i]) by {
        if i < a.len() {
            assert((a + b)[i] == a[i]);
        } else {
            assert((a + b)[i] == b[i - a.len()]);
        }
    }
}

/// The instruction a source byte stands for.
pub open spec fn parsed(c: u8) -> Inst {
    if c == 105 {
        Inst::I
    } else if c == 100 {
        Inst::D
    } else if c == 115 {
        Inst::S
    } else if c == 111 {
        Inst::O
    } else {
        Inst::Blank
    }
}

/// The shell prompt printed before every instruction.
pub open spec fn prompt() -> Seq<char> {
    seq!['>', '>', ' ']
}

/// What the interpreter prints for the instruction `inst` when the
/// accumulator holds `n`, after the prompt.
pub open spec fn shown(inst: Inst, n: u32) -> Seq<char> {
    if inst == Inst::O {
        decimal((n as i32) as int).push('\n')
    } else if inst == Inst::Blank {
        seq!['\n']
    } else {
        seq![]
    }
}

/// What the interpreter prints for a program started from zero.
pub open spec fn transcript(insts: Seq<Inst>) -> Seq<char>
    decreases insts.len(),
{
    if insts.len() == 0 {
        seq![]
    } else {
        transcript(insts.drop_last()) + prompt() + shown(insts.last(), run(insts.drop_last(), 0))
    }
}

/// Whether every printed value is a character code.
pub open spec fn all_scalar(ns: Seq<u32>) -> bool {
    forall|i: int| 0 <= i < ns.len() ==> is_scalar(#[trigger] ns[i])
}

/// `s` holds the characters with the codes `ns`.
pub open spec fn spells(s: Seq<char>, ns: Seq<u32>) -> bool {
    s.len() == ns.len() && forall|i: int| 0 <= i < ns.len() ==> #[trigger] s[i] as u32 == ns[i]
}

/// A run of `k` increments, decrements or squares, replayed one instruction
/// at a time, ends where the batch arithmetic of `Value::saturating_add`,
/// `Value::saturating_sub` and `Value::square_repeat` (and so `Builder::add`,
/// `Builder::sub` and `Builder::square`) says it ends.
pub proof fn lemma_batch_matches_replay(n: u32, k: nat)
    requires
        is_normal(n),
    ensures
        run(repeat(Inst::I, k), n) == add_closed(n, k),
        run(repeat(Inst::D, k), n) == sub_closed(n, k),
        run(repeat(Inst::S, k), n) == square_steps(n, k),
{
    lemma_run_repeat(k, n);
    lemma_add_closed(n, k);
    lemma_sub_closed(n, k);
}

impl Inst {
    /// Evaluates the instructions from the accumulator `acc`.
    pub fn eval(insts: &[Inst], acc: Value) -> (r: Value)
        ensures
            r@ == run(insts@, acc@),
    {
        let mut cur = acc;
        let mut i: usize = 0;
        while i < insts.len()
            invariant
                i <= insts@.len(),
                cur@ == run(insts@.subrange(0, i as int), acc@),
            decreases insts@.len() - i,
        {
            proof {
                lemma_run_push(insts@.subrange(0, i as int), insts@[i as int], acc@);
                assert(insts@.subrange(0, i as int).push(insts@[i as int]) =~= insts@.subrange(
                    0,
                    i + 1,
                ));
            }
            cur = cur.apply(insts[i]);
            i += 1;
        }
        assert(insts@.subrange(0, insts@.len() as int) =~= insts@);
        cur
    }

    /// Encodes `to` from `from`: a path, then an output.
    pub fn encode_number(from: Value, to: Value) -> (r: Vec<Inst>)
        ensures
            r@ == heuristic_path(from@, to@).push(Inst::O),
            r@.len() >= 1,
            r@.last() == Inst::O,
            is_path(from@, to@, r@.drop_last()),
            run(r@, from@) == to@,
            outputs(r@, from@) == seq![to@],
            (from@ < 256) == (to@ < 256) ==> r@.len() <= abs_int(to@ - from@) + 1,
    {
        let mut b = Builder::new(from);
        b.push_number(to);
        proof {
            assert(b.spec_insts() =~= heuristic_path(from@, to@).push(Inst::O));
            lemma_run_push(b.spec_insts().drop_last(), Inst::O, from@);
            assert(b.spec_insts().drop_last().push(Inst::O) =~= b.spec_insts());
            assert(b.spec_insts().subrange(0, b.spec_insts().len() as int) =~= b.spec_insts());
            assert(b.spec_insts().drop_last().subrange(0, b.spec_insts().drop_last().len() as int)
                =~= b.spec_insts().drop_last());
        }
        b.into_insts()
    }

    /// A program that prints the numbers in order, starting from zero.
    pub fn encode_numbers(ir: &Vec<Value>) -> (r: Vec<Inst>)
        ensures
            outputs(r@, 0) == ir@.map_values(|v: Value| v@),
            no_blanks(r@),
    {
        let mut b = Builder::new(Value::new());
        b.push_numbers(ir.as_slice());
        proof {
            assert(b.spec_insts().subrange(0, b.spec_insts().len() as int) =~= b.spec_insts());
        }
        b.into_insts()
    }

    /// A program that prints what `insts` prints, rebuilt from scratch.
    pub fn minimize(insts: &[Inst]) -> (r: Vec<Inst>)
        ensures
            outputs(r@, 0) == outputs(insts@, 0),
            no_blanks(r@),
    {
        let (numbers, _) = Inst::eval_numbers(insts);
        Self::encode_numbers(&numbers)
    }

    /// Reads a program: `i`, `d`, `s` and `o` are instructions, and every
    /// other byte prints a line feed.
    pub fn parse(src: &[u8]) -> (r: Vec<Inst>)
        ensures
            r@.len() == src@.len(),
            forall|i: int| 0 <= i < src@.len() ==> r@[i] == parsed(#[trigger] src@[i]),
    {
        let mut insts: Vec<Inst> = Vec::with_capacity(src.len());
        let mut i: usize = 0;
        while i < src.len()
            invariant
                i <= src@.len(),
                insts@.len() == i,
                forall|j: int| 0 <= j < i ==> insts@[j] == parsed(#[trigger] src@[j]),
            decreases src@.len() - i,
        {
            let c = src[i];
            insts.push(
                if c == 105 {
                    Inst::I
                } else if c == 100 {
                    Inst::D
                } else if c == 115 {
                    Inst::S
                } else if c == 111 {
                    Inst::O
                } else {
                    Inst::Blank
                },
            );
            i += 1;
        }
        insts
    }

    /// Runs the program from zero: the printed numbers, and the final value.
    pub fn eval_numbers(insts: &[Inst]) -> (r: (Vec<Value>, Value))
        ensures
            r.0@.map_values(|v: Value| v@) == outputs(insts@, 0),
            r.1@ == run(insts@, 0),
    {
        let mut numbers: Vec<Value> = Vec::new();
        let mut acc = Value::new();
        let mut i: usize = 0;
        while i < insts.len()
            invariant
                i <= insts@.len(),
                numbers@.map_values(|v: Value| v@) == outputs(insts@.subrange(0, i as int), 0),
                acc@ == run(insts@.subrange(0, i as int), 0),
            decreases insts@.len() - i,
        {
            let inst = insts[i];
            let ghost pre = insts@.subrange(0, i as int);
            proof {
                assert(insts@.subrange(0, i + 1) =~= pre.push(inst));
                assert(pre.push(inst).drop_last() =~= pre);
                lemma_run_push(pre, inst, 0);
            }
            match inst {
                Inst::O => {
                    let ghost before = numbers@;
                    numbers.push(acc);
                    assert(numbers@.map_values(|v: Value| v@) =~= before.map_values(
                        |v: Value| v@,
                    ).push(acc@));
                },
                _ => acc = acc.apply(inst),
            }
            i += 1;
        }
        assert(insts@.subrange(0, insts@.len() as int) =~= insts@);
        (numbers, acc)
    }

    /// Runs the program from zero and reads the printed numbers as
    /// characters; `None` where one is not a character code.
    pub fn eval_string(insts: &[Inst]) -> (r: Option<String>)
        ensures
            r is Some <==> all_scalar(outputs(insts@, 0)),
            r is Some ==> spells(r->0@, outputs(insts@, 0)),
    {
        let mut s = String::new();
        let mut acc = Value::new();
        let mut i: usize = 0;
        while i < insts.len()
            invariant
                i <= insts@.len(),
                spells(s@, outputs(insts@.subrange(0, i as int), 0)),
                all_scalar(outputs(insts@.subrange(0, i as int), 0)),
                acc@ == run(insts@.subrange(0, i as int), 0),
            decreases insts@.len() - i,
        {
            let inst = insts[i];
            let ghost pre = insts@.subrange(0, i as int);
            proof {
                assert(insts@.subrange(0, i + 1) =~= pre.push(inst));
                assert(pre.push(inst).drop_last() =~= pre);
                lemma_run_push(pre, inst, 0);
            }
            match inst {
                Inst::O => {
                    match char_from_u32(acc.value()) {
                        Some(c) => push_char(&mut s, c),
                        None => {
                            proof {
                                lemma_outputs_concat(
                                    pre.push(inst),
                                    insts@.subrange(i + 1, insts@.len() as int),
                                    0,
                                );
                                assert(pre.push(inst) + insts@.subrange(
                                    i + 1,
                                    insts@.len() as int,
                                ) =~= insts@);
                                let all = outputs(insts@, 0);
                                assert(all[outputs(pre, 0).len() as int] == acc@);
                            }
                            return None;
                        },
                    }
                },
                _ => acc = acc.apply(inst),
            }
            i += 1;
        }
        assert(insts@.subrange(0, insts@.len() as int) =~= insts@);
        Some(s)
    }

    /// What the interpreter prints for the program: a prompt before every
    /// instruction, the accumulator (read as signed) and a line feed for
    /// each `o`, and a line feed for each blank.
    pub fn interpret(insts: &[Inst]) -> (r: String)
        ensures
            r@ == transcript(insts@),
    {
        let mut out = String::new();
        let mut acc = Value::new();
        let prompt_chars: [char; 3] = ['>', '>', ' '];
        let mut i: usize = 0;
        while i < insts.len()
            invariant
                i <= insts@.len(),
                out@ == transcript(insts@.subrange(0, i as int)),
                acc@ == run(insts@.subrange(0, i as int), 0),
                prompt_chars@ == prompt(),
            decreases insts@.len() - i,
        {
            let inst = insts[i];
            let ghost pre = insts@.subrange(0, i as int);
            proof {
                assert(insts@.subrange(0, i + 1) =~= pre.push(inst));
                assert(pre.push(inst).drop_last() =~= pre);
                lemma_run_push(pre, inst, 0);
            }
            let ghost before = out@;
            push_chars(&mut out, prompt_chars.as_slice());
            match inst {
                Inst::I | Inst::D | Inst::S => {
                    acc = acc.apply(inst);
                    assert(out@ =~= before + prompt() + shown(inst, run(pre, 0)));
                },
                Inst::O => {
                    push_decimal(&mut out, acc.value() as i32);
                    push_char(&mut out, '\n');
                    assert(out@ =~= before + prompt() + shown(inst, run(pre, 0)));
                },
                Inst::Blank => {
                    push_char(&mut out, '\n');
                    assert(out@ =~= before + prompt() + shown(inst, run(pre, 0)));
                },
            }
            i += 1;
        }
        assert(insts@.subrange(0, insts@.len() as int) =~= insts@);
        out
    }
}

} // verus!
