use std::collections::HashSet;

use fxhash::FxBuildHasher;
use vstd::prelude::*;

use crate::builder::Builder;
use crate::heuristic::heuristic_encode;
use crate::inst::{
    all_mutating, is_mutating, is_path, lemma_mutating_concat, lemma_offset_mutating,
    lemma_run_concat, lemma_run_push, lemma_run_same_side, offset_insts, run, step, Inst,
};
use crate::value::{Offset, Value};

verus! {

#[verifier::external_type_specification]
#[verifier::external_body]
#[verifier::reject_recursive_types(H)]
pub struct ExBuildHasherDefault<H>(std::hash::BuildHasherDefault<H>);

#[verifier::external_type_specification]
#[verifier::external_body]
pub struct ExFxHasher(fxhash::FxHasher);

/// Relies on `HashSet::default` with fxhash's `FxBuildHasher`: a new set is
/// empty.
#[verifier::external_body]
fn new_visited() -> (r: HashSet<u32, FxBuildHasher>)
    ensures
        r@ == Set::<u32>::empty(),
{
    HashSet::default()
}

/// Relies on `HashSet::insert` hashing with fxhash's `FxHasher`, a fixed
/// function of the key: the set gains `v`, and the result says whether `v`
/// was new.
#[verifier::external_body]
fn visit(visited: &mut HashSet<u32, FxBuildHasher>, v: u32) -> (fresh: bool)
    ensures
        final(visited)@ == old(visited)@.insert(v),
        fresh == !old(visited)@.contains(v),
{
    visited.insert(v)
}

/// A search state: a value, the instruction that produced it from the node at
/// `prev` (none for the first node), and the length of its path.
#[derive(Clone, Copy, Debug)]
struct Node {
    value: Value,
    inst: Option<Inst>,
    prev: usize,
    len: u16,
}

/// Node `j` of `q` is the start node, or follows from an earlier node by one
/// instruction that changes the accumulator.
spec fn node_ok(q: Seq<Node>, j: int, from: u32) -> bool {
    if j == 0 {
        q[0].value@ == from && q[0].inst is None && q[0].len == 0
    } else {
        &&& q[j].inst is Some
        &&& is_mutating(q[j].inst->0)
        &&& q[j].prev < j
        &&& q[j].value@ == step(q[q[j].prev as int].value@, q[j].inst->0)
        &&& q[j].len == q[q[j].prev as int].len + 1
    }
}

/// The search arena from `from` with `done` nodes expanded: nodes in order of
/// path length, none longer than `max`, and every expanded node shorter than
/// `max` has each successor somewhere in the arena, no further than one step
/// beyond it.
spec fn searched(q: Seq<Node>, done: int, from: u32, max: nat) -> bool {
    &&& 1 <= q.len()
    &&& 0 <= done <= q.len()
    &&& forall|j: int| 0 <= j < q.len() ==> #[trigger] node_ok(q, j, from)
    &&& forall|i: int, j: int| 0 <= i <= j < q.len() ==> q[i].len <= q[j].len
    &&& forall|j: int| 0 <= j < q.len() ==> #[trigger] q[j].len <= max
    &&& forall|i: int, inst: Inst| 0 <= i < done ==> #[trigger] covered(q, i, inst, max)
}

/// Node `i`, when shorter than `max`, has its successor by `inst` in the
/// arena, no more than one step longer.
spec fn covered(q: Seq<Node>, i: int, inst: Inst, max: nat) -> bool {
    q[i].len < max && is_mutating(inst) ==> exists|j: int|
        0 <= j < q.len() && #[trigger] q[j].value@ == step(q[i].value@, inst) && q[j].len <= q[i].len
            + 1
}

/// The arena holds well-formed nodes, and the visited set holds exactly the
/// values of the nodes after the first, each once.
spec fn arena_ok(q: Seq<Node>, visited: Set<u32>, from: u32) -> bool {
    &&& 1 <= q.len()
    &&& forall|j: int| 0 <= j < q.len() ==> #[trigger] node_ok(q, j, from)
    &&& visited.finite()
    &&& visited.len() + 1 == q.len()
    &&& forall|j: int| 1 <= j < q.len() ==> visited.contains(#[trigger] q[j].value@)
    &&& forall|v: u32| #[trigger]
        visited.contains(v) ==> exists|j: int| 1 <= j < q.len() && #[trigger] q[j].value@ == v
}

/// Path lengths are in order, at most `top` and at most `max`.
spec fn lens_ok(q: Seq<Node>, top: int, max: nat) -> bool {
    &&& forall|i: int, j: int| 0 <= i <= j < q.len() ==> q[i].len <= q[j].len
    &&& forall|j: int| 0 <= j < q.len() ==> #[trigger] q[j].len <= top
    &&& forall|j: int| 0 <= j < q.len() ==> #[trigger] q[j].len <= max
}

/// The tracked square node lies on `to`'s side of 256, `o` away from it.
spec fn square_ok(c: Option<(usize, Offset, u64)>, q: Seq<Node>, to: u32) -> bool {
    match c {
        Some((k, o, _)) => k < q.len() && o@ == to - q[k as int].value@ && (q[k as int].value@
            < 256) == (to < 256),
        None => true,
    }
}

/// Along a path of at most `max` steps, the value after `k` steps is found
/// among the expanded nodes at no greater length, unless the first unexpanded
/// node is already no longer than `k`.
proof fn lemma_search_reaches(q: Seq<Node>, done: int, from: u32, max: nat, p: Seq<Inst>, k: nat)
    requires
        searched(q, done, from, max),
        all_mutating(p),
        k <= p.len() <= max,
    ensures
        (done < q.len() && q[done].len <= k) || exists|j: int|
            0 <= j < done && #[trigger] q[j].value@ == run(p.subrange(0, k as int), from)
                && q[j].len <= k,
    decreases k,
{
    if k == 0 {
        assert(p.subrange(0, 0) =~= Seq::<Inst>::empty());
        assert(node_ok(q, 0, from));
        if done > 0 {
            assert(q[0].value@ == run(p.subrange(0, 0), from));
        }
    } else {
        lemma_search_reaches(q, done, from, max, p, (k - 1) as nat);
        let prefix = p.subrange(0, k - 1);
        assert(p.subrange(0, k as int) =~= prefix.push(p[k - 1]));
        lemma_run_push(prefix, p[k - 1], from);
        if !(done < q.len() && q[done].len <= k - 1) {
            let j = choose|j: int|
                0 <= j < done && #[trigger] q[j].value@ == run(prefix, from) && q[j].len <= k - 1;
            assert(is_mutating(p[k - 1]));
            assert(covered(q, j, p[k - 1], max));
            let j2 = choose|j2: int|
                0 <= j2 < q.len() && #[trigger] q[j2].value@ == step(q[j].value@, p[k - 1])
                    && q[j2].len <= q[j].len + 1;
            if j2 >= done {
                assert(q[done].len <= q[j2].len);
            } else {
                assert(q[j2].value@ == run(p.subrange(0, k as int), from));
            }
        }
    }
}

/// The first node found with value `to` ends a shortest path to it.
proof fn lemma_found_shortest(q: Seq<Node>, i: int, from: u32, to: u32, max: nat)
    requires
        searched(q, i, from, max),
        0 <= i < q.len(),
        q[i].value@ == to,
        forall|j: int| 0 <= j < i ==> #[trigger] q[j].value@ != to,
    ensures
        forall|p: Seq<Inst>| #[trigger] is_path(from, to, p) ==> q[i].len <= p.len(),
{
    assert forall|p: Seq<Inst>| #[trigger] is_path(from, to, p) implies q[i].len <= p.len() by {
        if p.len() <= max {
            lemma_search_reaches(q, i, from, max, p, p.len());
            assert(p.subrange(0, p.len() as int) =~= p);
        }
    }
}

/// Once every node is expanded and none has value `to`, no path of at most
/// `max` steps leads to `to`.
proof fn lemma_exhausted(q: Seq<Node>, from: u32, to: u32, max: nat)
    requires
        searched(q, q.len() as int, from, max),
        forall|j: int| 0 <= j < q.len() ==> #[trigger] q[j].value@ != to,
    ensures
        forall|p: Seq<Inst>| #[trigger] is_path(from, to, p) ==> p.len() > max,
{
    assert forall|p: Seq<Inst>| #[trigger] is_path(from, to, p) implies p.len() > max by {
        if p.len() <= max {
            lemma_search_reaches(q, q.len() as int, from, max, p, p.len());
            assert(p.subrange(0, p.len() as int) =~= p);
        }
    }
}

/// Expanding node `i` keeps the search invariant, one node further.
proof fn lemma_expanded(q0: Seq<Node>, q1: Seq<Node>, i: int, from: u32, max: nat)
    requires
        searched(q0, i, from, max),
        0 <= i < q0.len(),
        q0.len() <= q1.len(),
        forall|j: int| 0 <= j < q0.len() ==> #[trigger] q1[j] == q0[j],
        forall|j: int| 0 <= j < q1.len() ==> #[trigger] node_ok(q1, j, from),
        lens_ok(q1, q0[i].len + 1, max),
        q0[i].len < max ==> forall|inst: Inst|
            is_mutating(inst) ==> exists|j: int|
                0 <= j < q1.len() && #[trigger] q1[j].value@ == step(q0[i].value@, inst),
    ensures
        searched(q1, i + 1, from, max),
{
    assert(forall|a: int, b: int| 0 <= a <= b < q1.len() ==> q1[a].len <= q1[b].len);
    assert(forall|j: int| 0 <= j < q1.len() ==> #[trigger] q1[j].len <= max);
    assert forall|i2: int, inst: Inst| 0 <= i2 < i + 1 implies #[trigger] covered(
        q1,
        i2,
        inst,
        max,
    ) by {
        assert(q1[i2] == q0[i2]);
        if !(q1[i2].len < max && is_mutating(inst)) {
        } else if i2 < i {
            assert(covered(q0, i2, inst, max));
            let j = choose|j: int|
                0 <= j < q0.len() && #[trigger] q0[j].value@ == step(q0[i2].value@, inst)
                    && q0[j].len <= q0[i2].len + 1;
            assert(q1[j] == q0[j]);
            assert(0 <= j < q1.len() && q1[j].value@ == step(q1[i2].value@, inst) && q1[j].len
                <= q1[i2].len + 1);
        } else {
            assert(exists|j: int|
                0 <= j < q1.len() && #[trigger] q1[j].value@ == step(q0[i].value@, inst));
            let j = choose|j: int|
                0 <= j < q1.len() && #[trigger] q1[j].value@ == step(q0[i].value@, inst);
            assert(q1[j].len <= q0[i].len + 1);
            assert(0 <= j < q1.len() && q1[j].value@ == step(q1[i2].value@, inst) && q1[j].len
                <= q1[i2].len + 1);
        }
    }
}

/// Breadth-first search for shortest programs, with paths capped at a bound.
#[derive(Debug)]
pub struct BfsEncoder {
    queue: Vec<Node>,
    /// The index in `queue` of the next node to expand.
    index: usize,
    visited: HashSet<u32, FxBuildHasher>,
    max_len: u16,
}

/// A finite set of words has at most 2^32 members.
proof fn lemma_word_set_len(s: Set<u32>)
    requires
        s.finite(),
    ensures
        s.len() <= 0x1_0000_0000,
{
    let all = Set::<u32>::range(0, 0xffff_ffff).insert(0xffff_ffff);
    <u32 as vstd::set_lib::FiniteRange>::range_properties(0, 0xffff_ffff);
    assert(s.subset_of(all));
    vstd::set::axiom_set_insert_len(Set::<u32>::range(0, 0xffff_ffff), 0xffff_ffff);
    vstd::set::axiom_set_insert_finite(Set::<u32>::range(0, 0xffff_ffff), 0xffff_ffff);
    vstd::set_lib::lemma_len_subset(s, all);
}

impl BfsEncoder {
    /// The cap on path length.
    pub closed spec fn bound(&self) -> nat {
        self.max_len as nat
    }

    /// A search with no cap beyond the largest one it can hold.
    pub fn new() -> (r: BfsEncoder)
        ensures
            r.bound() == 0xffff,
    {
        BfsEncoder::with_bound(usize::MAX)
    }

    /// A search that gives up on paths longer than `max_len` (at most 65535).
    pub fn with_bound(max_len: usize) -> (r: BfsEncoder)
        ensures
            r.bound() == (if max_len > 0xffff { 0xffff } else { max_len as nat }),
    {
        BfsEncoder {
            queue: Vec::new(),
            index: 0,
            visited: new_visited(),
            max_len: if max_len > u16::MAX as usize {
                u16::MAX
            } else {
                max_len as u16
            },
        }
    }

    pub fn set_bound(&mut self, max_len: usize)
        ensures
            final(self).bound() == (if max_len > 0xffff { 0xffff } else { max_len as nat }),
    {
        self.max_len = if max_len > u16::MAX as usize {
            u16::MAX
        } else {
            max_len as u16
        };
    }

    /// Performs a breadth-first search for a program that takes `from` to `to`
    /// and then outputs. Returns the program, if one could be built, and
    /// whether it is proven shortest. Where no path of at most `bound` steps
    /// exists, the program is completed from the search's best partial paths:
    /// the first path to zero, and the square closest to `to`.
    pub fn encode(&mut self, from: Value, to: Value) -> (r: (Option<Vec<Inst>>, bool))
        ensures
            final(self).bound() == old(self).bound(),
            r.0 is Some ==> r.0->0@.len() >= 1 && r.0->0@.last() == Inst::O && is_path(
                from@,
                to@,
                r.0->0@.drop_last(),
            ),
            r.1 ==> r.0 is Some,
            r.1 ==> r.0->0@.len() <= old(self).bound() + 1,
            r.1 ==> forall|p: Seq<Inst>| #[trigger]
                is_path(from@, to@, p) ==> r.0->0@.len() <= p.len() + 1,
            forall|p: Seq<Inst>| #[trigger]
                is_path(from@, to@, p) && p.len() <= old(self).bound() ==> r.1,
            r.0 is None ==> forall|p: Seq<Inst>| #[trigger]
                is_path(from@, 0, p) ==> p.len() > old(self).bound(),
    {
        self.queue.clear();
        self.index = 0;
        self.visited.clear();
        let max = self.max_len;
        let target = to.value();
        let mut zero_index: Option<usize> = None;
        let mut closest_square: Option<(usize, Offset, u64)> = None;
        self.queue.push(Node { value: from, inst: None, prev: 0, len: 0 });
        proof {
            assert(node_ok(self.queue@, 0, from@));
        }
        while self.index < self.queue.len()
            invariant
                self.max_len == max,
                old(self).max_len == max,
                searched(self.queue@, self.index as int, from@, max as nat),
                arena_ok(self.queue@, self.visited@, from@),
                lens_ok(
                    self.queue@,
                    if self.index == 0 {
                        0
                    } else {
                        self.queue@[self.index - 1].len + 1
                    },
                    max as nat,
                ),
                forall|j: int| 0 <= j < self.index ==> #[trigger] self.queue@[j].value@ != to@,
                target == to@,
                match zero_index {
                    Some(z) => z < self.index && self.queue@[z as int].value@ == 0,
                    None => forall|j: int|
                        0 <= j < self.index ==> #[trigger] self.queue@[j].value@ != 0,
                },
                square_ok(closest_square, self.queue@, to@),
            decreases 0x1_0000_0001 - self.index,
        {
            proof {
                lemma_word_set_len(self.visited@);
            }
            let i = self.index;
            let node = self.queue[i];
            let ghost q0 = self.queue@;
            self.index = i + 1;
            if node.value.value() == target {
                let mut out = self.path_from_queue(i, Ghost(from@));
                let ghost p = out@;
                out.push(Inst::O);
                proof {
                    assert(out@.drop_last() =~= p);
                    lemma_found_shortest(q0, i as int, from@, to@, max as nat);
                }
                return (Some(out), true);
            }
            // The shortest path to 0 is tracked: from 0, a path to `to` is
            // usually short.
            if node.value.value() == 0 && zero_index.is_none() {
                zero_index = Some(i);
            }
            proof {
                assert(node_ok(q0, 0, from@));
                if i > 0 {
                    assert(q0[i - 1].len <= q0[i as int].len);
                }
            }
            if node.len < max {
                self.expand(i, node, Inst::I, to, &mut closest_square, Ghost(from@));
                let ghost q_i = self.queue@;
                let ghost j_i = choose|j: int|
                    0 <= j < q_i.len() && #[trigger] q_i[j].value@ == step(node.value@, Inst::I);
                self.expand(i, node, Inst::D, to, &mut closest_square, Ghost(from@));
                let ghost q_d = self.queue@;
                let ghost j_d = choose|j: int|
                    0 <= j < q_d.len() && #[trigger] q_d[j].value@ == step(node.value@, Inst::D);
                self.expand(i, node, Inst::S, to, &mut closest_square, Ghost(from@));
                let ghost q_s = self.queue@;
                let ghost j_s = choose|j: int|
                    0 <= j < q_s.len() && #[trigger] q_s[j].value@ == step(node.value@, Inst::S);
                proof {
                    assert(q_s[j_i] == q_d[j_i] && q_d[j_i] == q_i[j_i]);
                    assert(q_s[j_d] == q_d[j_d]);
                    assert forall|inst: Inst| is_mutating(inst) implies exists|j: int|
                        0 <= j < q_s.len() && #[trigger] q_s[j].value@ == step(
                            node.value@,
                            inst,
                        ) by {
                        if inst == Inst::I {
                            assert(q_s[j_i].value@ == step(node.value@, inst));
                        } else if inst == Inst::D {
                            assert(q_s[j_d].value@ == step(node.value@, inst));
                        } else {
                            assert(q_s[j_s].value@ == step(node.value@, inst));
                        }
                    }
                }
            }
            proof {
                lemma_expanded(q0, self.queue@, i as int, from@, max as nat);
            }
        }
        let mut path: Option<Vec<Inst>> = None;
        match zero_index {
            Some(z) => {
                let prefix = self.path_from_queue(z, Ghost(from@));
                let ghost pz = prefix@;
                let mut b = Builder::from_insts(prefix, Value::new());
                heuristic_encode(&mut b, to);
                let ghost mid = b.spec_insts();
                b.push(Inst::O);
                let p = b.into_insts();
                proof {
                    let rest = mid.subrange(pz.len() as int, mid.len() as int);
                    assert(mid =~= pz + rest);
                    lemma_run_concat(pz, rest, from@);
                    lemma_mutating_concat(pz, rest);
                    assert(p@.drop_last() =~= mid);
                }
                path = Some(p);
            },
            None => {},
        }
        match closest_square {
            Some((k, offset, _)) => {
                let prefix = self.path_from_queue(k, Ghost(from@));
                let ghost pk = prefix@;
                let start = self.queue[k].value.value();
                let mut b = Builder::from_insts(prefix, self.queue[k].value);
                b.offset(offset);
                let ghost mid = b.spec_insts();
                b.push(Inst::O);
                let square_path = b.into_insts();
                proof {
                    let start = self.queue@[k as int].value@;
                    lemma_run_same_side(start, to@);
                    lemma_run_concat(pk, offset_insts(offset@), from@);
                    lemma_offset_mutating(offset@);
                    lemma_mutating_concat(pk, offset_insts(offset@));
                    assert(square_path@.drop_last() =~= mid);
                }
                let better = match &path {
                    Some(p) => p.len() > square_path.len(),
                    None => true,
                };
                if better {
                    path = Some(square_path);
                }
            },
            None => {},
        }
        proof {
            lemma_exhausted(self.queue@, from@, to@, max as nat);
            if path is None {
                lemma_exhausted(self.queue@, from@, 0, max as nat);
            }
        }
        (path, false)
    }

    /// Adds the successor of node `i` by `inst`, unless its value was seen,
    /// and keeps track of the square closest to `to`.
    fn expand(
        &mut self,
        i: usize,
        node: Node,
        inst: Inst,
        to: Value,
        closest_square: &mut Option<(usize, Offset, u64)>,
        Ghost(from): Ghost<u32>,
    )
        requires
            i < old(self).queue@.len(),
            node == old(self).queue@[i as int],
            node.len < old(self).max_len,
            is_mutating(inst),
            arena_ok(old(self).queue@, old(self).visited@, from),
            lens_ok(old(self).queue@, node.len + 1, old(self).max_len as nat),
            square_ok(*old(closest_square), old(self).queue@, to@),
        ensures
            final(self).max_len == old(self).max_len,
            final(self).index == old(self).index,
            arena_ok(final(self).queue@, final(self).visited@, from),
            lens_ok(final(self).queue@, node.len + 1, old(self).max_len as nat),
            square_ok(*final(closest_square), final(self).queue@, to@),
            old(self).queue@.len() <= final(self).queue@.len(),
            forall|j: int|
                0 <= j < old(self).queue@.len() ==> #[trigger] final(self).queue@[j]
                    == old(self).queue@[j],
            exists|j: int|
                0 <= j < final(self).queue@.len() && #[trigger] final(self).queue@[j].value@
                    == step(node.value@, inst),
    {
        let value = node.value.apply(inst);
        let ghost q0 = self.queue@;
        let ghost v0 = self.visited@;
        if visit(&mut self.visited, value.value()) {
            let path_len = node.len + 1;
            self.queue.push(Node { value, inst: Some(inst), prev: i, len: path_len });
            let k = self.queue.len() - 1;
            proof {
                let q1 = self.queue@;
                assert(q1[k as int].value@ == step(node.value@, inst));
                assert forall|j: int| 0 <= j < q1.len() implies #[trigger] node_ok(q1, j, from) by {
                    if j < q0.len() {
                        assert(node_ok(q0, j, from));
                        if j > 0 {
                            assert(q1[q1[j].prev as int] == q0[q0[j].prev as int]);
                        }
                    }
                }
                assert forall|v: u32| #[trigger] self.visited@.contains(v) implies exists|j: int|
                    1 <= j < q1.len() && #[trigger] q1[j].value@ == v by {
                    if v != value@ {
                        assert(v0.contains(v));
                        let j = choose|j: int| 1 <= j < q0.len() && #[trigger] q0[j].value@ == v;
                        assert(q1[j] == q0[j]);
                    } else {
                        assert(q1[k as int].value@ == v);
                    }
                }
                assert forall|j: int| 1 <= j < q1.len() implies self.visited@.contains(
                    #[trigger] q1[j].value@,
                ) by {
                    if j < q0.len() {
                        assert(q1[j] == q0[j]);
                    }
                }
            }
            // Tracks the square that is closest to `to` by an offset.
            if inst == Inst::S {
                match value.offset_to(to) {
                    Some(offset) => {
                        let total = path_len as u64 + offset.abs() as u64;
                        let keep = match *closest_square {
                            Some((_, _, len)) => len <= total,
                            None => false,
                        };
                        if !keep {
                            *closest_square = Some((k, offset, total));
                        }
                    },
                    None => {},
                }
            }
        } else {
            assert(v0.contains(value@));
            assert(self.visited@ == v0);
        }
    }

    /// The path from the start node to node `tail`.
    fn path_from_queue(&self, tail: usize, Ghost(from): Ghost<u32>) -> (r: Vec<Inst>)
        requires
            tail < self.queue@.len(),
            forall|j: int| 0 <= j < self.queue@.len() ==> #[trigger] node_ok(self.queue@, j, from),
        ensures
            is_path(from, self.queue@[tail as int].value@, r@),
            r@.len() == self.queue@[tail as int].len,
    {
        let mut path: Vec<Inst> = Vec::new();
        let mut index = tail;
        let ghost end = self.queue@[tail as int].value@;
        assert(all_mutating(path@));
        while self.queue[index].inst.is_some()
            invariant
                index < self.queue@.len(),
                forall|j: int|
                    0 <= j < self.queue@.len() ==> #[trigger] node_ok(self.queue@, j, from),
                is_path(self.queue@[index as int].value@, end, path@),
                path@.len() + self.queue@[index as int].len == self.queue@[tail as int].len,
            decreases index,
        {
            let node = self.queue[index];
            let inst = node.inst.unwrap();
            proof {
                assert(node_ok(self.queue@, index as int, from));
            }
            let ghost rest = path@;
            path.insert(0, inst);
            proof {
                let pv = self.queue@[node.prev as int].value@;
                assert(path@ =~= seq![inst] + rest);
                lemma_run_push(Seq::<Inst>::empty(), inst, pv);
                assert(seq![inst] =~= Seq::<Inst>::empty().push(inst));
                lemma_run_concat(seq![inst], rest, pv);
                assert(all_mutating(seq![inst])) by {
                    assert(is_mutating(seq![inst][0]));
                }
                lemma_mutating_concat(seq![inst], rest);
            }
            index = node.prev;
        }
        proof {
            assert(node_ok(self.queue@, index as int, from));
        }
        path
    }
}


impl Default for BfsEncoder {
    fn default() -> (r: BfsEncoder)
        ensures
            r.bound() == 0xffff,
    {
        BfsEncoder::new()
    }
}

} // verus!
