use vstd::prelude::*;

use crate::inst::{all_scalar, lemma_run_push, outputs, prompt, run, spells, Inst};
use crate::text::{char_from_u32, decimal, is_scalar, push_char, push_chars, push_decimal};
use crate::value::Value;

verus! {

/// Deadfish intermediate representation: what the interpreter prints, with
/// runs of prompts and of line feeds counted.
#[derive(Clone, Copy, Debug, PartialEq, Eq, Structural, PartialOrd, Ord, Hash)]
pub enum Ir {
    /// Output a number.
    Number(Value),
    /// Print `">> "` shell prompts.
    Prompts(u32),
    /// Print line feeds.
    Blanks(u32),
}

/// The numbers in order.
pub open spec fn ir_numbers(ir: Seq<Ir>) -> Seq<u32>
    decreases ir.len(),
{
    if ir.len() == 0 {
        seq![]
    } else {
        match ir.last() {
            Ir::Number(n) => ir_numbers(ir.drop_last()).push(n@),
            _ => ir_numbers(ir.drop_last()),
        }
    }
}

/// The number of prompts.
pub open spec fn ir_prompts(ir: Seq<Ir>) -> nat
    decreases ir.len(),
{
    if ir.len() == 0 {
        0
    } else {
        ir_prompts(ir.drop_last()) + match ir.last() {
            Ir::Prompts(c) => c as nat,
            _ => 0,
        }
    }
}

/// The number of line feeds for blanks.
pub open spec fn ir_blanks(ir: Seq<Ir>) -> nat
    decreases ir.len(),
{
    if ir.len() == 0 {
        0
    } else {
        ir_blanks(ir.drop_last()) + match ir.last() {
            Ir::Blanks(c) => c as nat,
            _ => 0,
        }
    }
}

/// The number of blank instructions.
pub open spec fn count_blanks(insts: Seq<Inst>) -> nat
    decreases insts.len(),
{
    if insts.len() == 0 {
        0
    } else {
        count_blanks(insts.drop_last()) + if insts.last() == Inst::Blank {
            1nat
        } else {
            0nat
        }
    }
}

/// `c` prompts.
pub open spec fn prompts(c: nat) -> Seq<char>
    decreases c,
{
    if c == 0 {
        seq![]
    } else {
        prompts((c - 1) as nat) + prompt()
    }
}

/// What one element prints.
pub open spec fn ir_shown(ir: Ir) -> Seq<char> {
    match ir {
        Ir::Number(n) => decimal((n@ as i32) as int).push('\n'),
        Ir::Prompts(c) => prompts(c as nat),
        Ir::Blanks(c) => Seq::new(c as nat, |_i: int| '\n'),
    }
}

/// What the elements print, in order.
pub open spec fn ir_text(ir: Seq<Ir>) -> Seq<char>
    decreases ir.len(),
{
    if ir.len() == 0 {
        seq![]
    } else {
        ir_text(ir.drop_last()) + ir_shown(ir.last())
    }
}

/// An element as a (kind, payload) pair: 0 for a number, 1 for prompts, 2
/// for blanks.
pub open spec fn ir_view(x: Ir) -> (int, int) {
    match x {
        Ir::Number(n) => (0, n@ as int),
        Ir::Prompts(c) => (1, c as int),
        Ir::Blanks(c) => (2, c as int),
    }
}

/// The grouping state after a program: the elements so far, whether
/// prompts (rather than blanks) are being counted, and the count.
pub open spec fn ir_state(insts: Seq<Inst>) -> (Seq<(int, int)>, bool, int)
    decreases insts.len(),
{
    if insts.len() == 0 {
        (seq![], true, 0)
    } else {
        let (ir, counting_prompts, count) = ir_state(insts.drop_last());
        let acc = run(insts.drop_last(), 0);
        match insts.last() {
            Inst::O => if !counting_prompts && count != 0 {
                (ir.push((2, count)).push((1, 1)).push((0, acc as int)), counting_prompts, 0)
            } else {
                (ir.push((1, count + 1)).push((0, acc as int)), counting_prompts, 0)
            },
            Inst::Blank => if counting_prompts && count != 0 {
                (ir.push((1, count)), false, 1)
            } else {
                (ir, false, count + 1)
            },
            _ => if !counting_prompts && count != 0 {
                (ir.push((2, count)), true, 1)
            } else {
                (ir, true, count + 1)
            },
        }
    }
}

/// The grouping of a whole program: each run of prompts (one per
/// instruction but the blanks, the `o` included) and of line feeds (one per
/// blank) becomes one element, and each `o` a number after its prompts.
pub open spec fn ir_groups(insts: Seq<Inst>) -> Seq<(int, int)> {
    let (ir, counting_prompts, count) = ir_state(insts);
    if count == 0 {
        ir
    } else if counting_prompts {
        ir.push((1, count))
    } else {
        ir.push((2, count))
    }
}

proof fn lemma_push_ir(ir: Seq<Ir>, x: Ir)
    ensures
        ir_numbers(ir.push(x)) == (match x {
            Ir::Number(n) => ir_numbers(ir).push(n@),
            _ => ir_numbers(ir),
        }),
        ir_prompts(ir.push(x)) == ir_prompts(ir) + (match x {
            Ir::Prompts(c) => c as nat,
            _ => 0,
        }),
        ir_blanks(ir.push(x)) == ir_blanks(ir) + (match x {
            Ir::Blanks(c) => c as nat,
            _ => 0,
        }),
        ir_text(ir.push(x)) == ir_text(ir) + ir_shown(x),
{
    assert(ir.push(x).drop_last() =~= ir);
}

impl Ir {
    /// Runs the program from zero and records what the interpreter prints:
    /// the numbers, and runs of prompts (one for each instruction but the
    /// blanks) and of line feeds (one for each blank).
    pub fn eval(insts: &[Inst]) -> (r: (Vec<Ir>, Value))
        requires
            insts@.len() <= u32::MAX,
        ensures
            r.1@ == run(insts@, 0),
            ir_numbers(r.0@) == outputs(insts@, 0),
            ir_prompts(r.0@) + count_blanks(insts@) == insts@.len(),
            ir_blanks(r.0@) == count_blanks(insts@),
            r.0@.map_values(|x: Ir| ir_view(x)) == ir_groups(insts@),
            forall|j: int|
                0 <= j < r.0@.len() ==> #[trigger] r.0@[j] != Ir::Prompts(0) && r.0@[j]
                    != Ir::Blanks(0),
    {
        let mut ir: Vec<Ir> = Vec::new();
        let mut acc = Value::new();
        // Counting prompts or blanks.
        let mut counting_prompts = true;
        let mut count: u32 = 0;
        let mut i: usize = 0;
        while i < insts.len()
            invariant
                i <= insts@.len() <= u32::MAX,
                count <= i,
                acc@ == run(insts@.subrange(0, i as int), 0),
                ir_numbers(ir@) == outputs(insts@.subrange(0, i as int), 0),
                ir_prompts(ir@) + (if counting_prompts { count as nat } else { 0 }) + count_blanks(
                    insts@.subrange(0, i as int),
                ) == i,
                ir_blanks(ir@) + (if counting_prompts { 0 } else { count as nat }) == count_blanks(
                    insts@.subrange(0, i as int),
                ),
                forall|j: int|
                    0 <= j < ir@.len() ==> #[trigger] ir@[j] != Ir::Prompts(0) && ir@[j]
                        != Ir::Blanks(0),
                ir_state(insts@.subrange(0, i as int)) == (
                    ir@.map_values(|x: Ir| ir_view(x)),
                    counting_prompts,
                    count as int,
                ),
            decreases insts@.len() - i,
        {
            let inst = insts[i];
            let ghost pre = insts@.subrange(0, i as int);
            proof {
                assert(insts@.subrange(0, i + 1) =~= pre.push(inst));
                assert(pre.push(inst).drop_last() =~= pre);
                lemma_run_push(pre, inst, 0);
            }
            let ghost before = ir@;
            match inst {
                Inst::I | Inst::D | Inst::S => {
                    // Flush any blanks and switch to counting prompts.
                    if !counting_prompts && count != 0 {
                        proof {
                            lemma_push_ir(ir@, Ir::Blanks(count));
                        }
                        ir.push(Ir::Blanks(count));
                        count = 0;
                    }
                    counting_prompts = true;
                    count += 1;
                    acc = acc.apply(inst);
                },
                Inst::O => {
                    // Flush any prompts and blanks, with a prompt for `o`.
                    if !counting_prompts && count != 0 {
                        proof {
                            lemma_push_ir(ir@, Ir::Blanks(count));
                            lemma_push_ir(ir@.push(Ir::Blanks(count)), Ir::Prompts(1));
                        }
                        ir.push(Ir::Blanks(count));
                        ir.push(Ir::Prompts(1));
                    } else {
                        proof {
                            lemma_push_ir(ir@, Ir::Prompts((count + 1) as u32));
                        }
                        ir.push(Ir::Prompts(count + 1));
                    }
                    count = 0;
                    proof {
                        lemma_push_ir(ir@, Ir::Number(acc));
                    }
                    ir.push(Ir::Number(acc));
                },
                Inst::Blank => {
                    // Flush any prompts and switch to counting blanks.
                    if counting_prompts && count != 0 {
                        proof {
                            lemma_push_ir(ir@, Ir::Prompts(count));
                        }
                        ir.push(Ir::Prompts(count));
                        count = 0;
                    }
                    counting_prompts = false;
                    count += 1;
                },
            }
            proof {
                let tail = ir@.subrange(before.len() as int, ir@.len() as int);
                assert(ir@ =~= before + tail);
                assert(ir@.map_values(|x: Ir| ir_view(x)) =~= before.map_values(|x: Ir| ir_view(x))
                    + tail.map_values(|x: Ir| ir_view(x)));
            }
            i += 1;
        }
        let ghost before = ir@;
        // Flush remaining prompts and blanks.
        if count != 0 {
            if counting_prompts {
                proof {
                    lemma_push_ir(ir@, Ir::Prompts(count));
                }
                ir.push(Ir::Prompts(count));
            } else {
                proof {
                    lemma_push_ir(ir@, Ir::Blanks(count));
                }
                ir.push(Ir::Blanks(count));
            }
        }
        assert(insts@.subrange(0, insts@.len() as int) =~= insts@);
        proof {
            let tail = ir@.subrange(before.len() as int, ir@.len() as int);
            assert(ir@ =~= before + tail);
            assert(ir@.map_values(|x: Ir| ir_view(x)) =~= before.map_values(|x: Ir| ir_view(x))
                + tail.map_values(|x: Ir| ir_view(x)));
        }
        (ir, acc)
    }

    /// Reads the numbers as characters; `None` where one is not a character
    /// code.
    pub fn eval_string(ir: &[Ir]) -> (r: Option<String>)
        ensures
            r is Some <==> all_scalar(ir_numbers(ir@)),
            r is Some ==> spells(r->0@, ir_numbers(ir@)),
    {
        let mut s = String::new();
        let mut i: usize = 0;
        while i < ir.len()
            invariant
                i <= ir@.len(),
                spells(s@, ir_numbers(ir@.subrange(0, i as int))),
                all_scalar(ir_numbers(ir@.subrange(0, i as int))),
            decreases ir@.len() - i,
        {
            let x = ir[i];
            proof {
                assert(ir@.subrange(0, i + 1) =~= ir@.subrange(0, i as int).push(x));
                lemma_push_ir(ir@.subrange(0, i as int), x);
            }
            match x {
                Ir::Number(n) => {
                    match char_from_u32(n.value()) {
                        Some(c) => push_char(&mut s, c),
                        None => {
                            proof {
                                lemma_numbers_prefix(ir@, i as int + 1);
                                let idx = ir_numbers(ir@.subrange(0, i as int)).len() as int;
                                assert(ir_numbers(ir@.subrange(0, i + 1))[idx] == n@);
                                assert(ir_numbers(ir@)[idx] == n@);
                                assert(!is_scalar(n@));
                            }
                            return None;
                        },
                    }
                },
                _ => {},
            }
            i += 1;
        }
        assert(ir@.subrange(0, ir@.len() as int) =~= ir@);
        Some(s)
    }

    /// What the interpreter prints, replayed from the representation.
    pub fn interpret(ir: &[Ir]) -> (r: String)
        ensures
            r@ == ir_text(ir@),
    {
        let mut out = String::new();
        let prompt_chars: [char; 3] = ['>', '>', ' '];
        let mut i: usize = 0;
        while i < ir.len()
            invariant
                i <= ir@.len(),
                out@ == ir_text(ir@.subrange(0, i as int)),
                prompt_chars@ == prompt(),
            decreases ir@.len() - i,
        {
            let x = ir[i];
            proof {
                assert(ir@.subrange(0, i + 1) =~= ir@.subrange(0, i as int).push(x));
                lemma_push_ir(ir@.subrange(0, i as int), x);
            }
            let ghost before = out@;
            match x {
                Ir::Number(n) => {
                    push_decimal(&mut out, n.value() as i32);
                    push_char(&mut out, '\n');
                },
                Ir::Prompts(count) => {
                    let mut k: u32 = 0;
                    while k < count
                        invariant
                            k <= count,
                            out@ == before + prompts(k as nat),
                            prompt_chars@ == prompt(),
                        decreases count - k,
                    {
                        push_chars(&mut out, prompt_chars.as_slice());
                        k += 1;
                    }
                },
                Ir::Blanks(count) => {
                    let mut k: u32 = 0;
                    while k < count
                        invariant
                            k <= count,
                            out@ == before + Seq::new(k as nat, |_i: int| '\n'),
                        decreases count - k,
                    {
                        push_char(&mut out, '\n');
                        assert(before + Seq::new((k + 1) as nat, |_i: int| '\n') =~= (before
                            + Seq::new(k as nat, |_i: int| '\n')).push('\n'));
                        k += 1;
                    }
                },
            }
            i += 1;
        }
        assert(ir@.subrange(0, ir@.len() as int) =~= ir@);
        out
    }
}

/// The numbers of a prefix lead the numbers of the whole.
proof fn lemma_numbers_prefix(ir: Seq<Ir>, k: int)
    requires
        0 <= k <= ir.len(),
    ensures
        ir_numbers(ir.subrange(0, k)).len() <= ir_numbers(ir).len(),
        forall|j: int|
            0 <= j < ir_numbers(ir.subrange(0, k)).len() ==> #[trigger] ir_numbers(
                ir.subrange(0, k),
            )[j] == ir_numbers(ir)[j],
    decreases ir.len() - k,
{
    if k == ir.len() {
        assert(ir.subrange(0, k) =~= ir);
    } else {
        lemma_numbers_prefix(ir, k + 1);
        assert(ir.subrange(0, k + 1) =~= ir.subrange(0, k).push(ir[k]));
        lemma_push_ir(ir.subrange(0, k), ir[k]);
        let short = ir_numbers(ir.subrange(0, k));
        let long = ir_numbers(ir.subrange(0, k + 1));
        assert forall|j: int| 0 <= j < short.len() implies #[trigger] short[j] == ir_numbers(
            ir,
        )[j] by {
            assert(short[j] == long[j]);
        }
    }
}

} // verus!
