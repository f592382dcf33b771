//! Closed-form synthesis.
//!
//! Squaring a number doubles its count of trailing zero bits, up to 32: for
//! every `n: u32`,
//! `n.wrapping_mul(n).trailing_zeros() == (2 * n.trailing_zeros()).min(32)`.
//! So a few squarings take any even value to zero, and from zero a chain of
//! nearest square roots leads back up to any value.
//!
//! Among paths of equal length, those with fewer squares are preferred.

use std::collections::VecDeque;

use vstd::prelude::*;

use crate::builder::{offset_chain, Builder};
use crate::inst::{
    all_mutating, is_mutating, is_path, lemma_mutating_concat, lemma_offset_mutating,
    lemma_repeat_mutating, lemma_run_concat, lemma_run_offset, lemma_run_push, lemma_run_repeat, lemma_run_same_side,
    offset_insts, repeat, run, sat_abs, Inst,
};
use crate::value::{
    abs_int, floor_sqrt, is_floor_sqrt, lemma_square_steps_split, lemma_square_zero,
    nearest_root, normalized, square_steps, squared, Offset, Value,
};

verus! {

/// For each offset, a square and then the offset's run.
pub open spec fn squares_then(offsets: Seq<Offset>) -> Seq<Inst>
    decreases offsets.len(),
{
    if offsets.len() == 0 {
        seq![]
    } else {
        squares_then(offsets.drop_last()) + seq![Inst::S] + offset_insts(offsets.last()@)
    }
}

/// The offset `o` followed by `squares` squarings takes `v` to zero.
pub open spec fn reaches_zero(v: u32, o: int, squares: nat) -> bool {
    run(offset_insts(o) + repeat(Inst::S, squares), v) == 0
}

/// The anchor band plan for `v`: the anchor it offsets to and how many squares
/// then take that anchor to zero.
pub open spec fn band_anchor(v: u32) -> (u32, nat) {
    if v < 4 {
        (0, 0)
    } else if v < LOW_16 {
        (4, 2)
    } else if v < LOW_256 {
        (16, 1)
    } else if v < LOW_N16 {
        (256, 0)
    } else if v < LOW_N4 {
        (N16, 1)
    } else if v < LOW_N1 {
        (N4, 2)
    } else {
        (0xffff_ffff, 0)
    }
}

/// -16 as an unsigned word.
pub const N16: u32 = 0xffff_fff0;

/// -4 as an unsigned word.
pub const N4: u32 = 0xffff_fffc;

/// Band edges: each lies halfway between two neighbouring anchors.
pub const LOW_16: u32 = (4 + 16) / 2;

pub const LOW_256: u32 = (16 + 256) / 2;

pub const LOW_N16: u32 = 256 / 2 + N16 / 2;

pub const LOW_N4: u32 = N16 / 2 + N4 / 2 + 1;

pub const LOW_N1: u32 = N4 / 2 + 0xffff_ffff / 2;

/// The squares reach zero from `n` when its low bits are clear.
proof fn lemma_square_masks(n: u32)
    ensures
        n & 1 == 0 ==> squared(n) & 3 == 0,
        n & 3 == 0 ==> squared(n) & 0xf == 0,
        n & 0xf == 0 ==> squared(n) & 0xff == 0,
        n & 0xff == 0 ==> squared(n) & 0xffff == 0,
        n & 0xffff == 0 ==> squared(n) == 0,
{
    assert(((n * n) % 0x1_0000_0000) == ((n as int * n as int) % 0x1_0000_0000));
    let raw = ((n * n) % 0x1_0000_0000) as u32;
    assert(n & 1 == 0 ==> raw & 3 == 0) by (bit_vector)
        requires
            raw == ((n * n) % 0x1_0000_0000) as u32,
    ;
    assert(n & 3 == 0 ==> raw & 0xf == 0) by (bit_vector)
        requires
            raw == ((n * n) % 0x1_0000_0000) as u32,
    ;
    assert(n & 0xf == 0 ==> raw & 0xff == 0) by (bit_vector)
        requires
            raw == ((n * n) % 0x1_0000_0000) as u32,
    ;
    assert(n & 0xff == 0 ==> raw & 0xffff == 0) by (bit_vector)
        requires
            raw == ((n * n) % 0x1_0000_0000) as u32,
    ;
    assert(n & 0xffff == 0 ==> raw == 0) by (bit_vector)
        requires
            raw == ((n * n) % 0x1_0000_0000) as u32,
    ;
    assert(0u32 & 3 == 0 && 0u32 & 0xf == 0 && 0u32 & 0xff == 0 && 0u32 & 0xffff == 0)
        by (bit_vector);
}

/// Squaring once more, as the first step.
proof fn lemma_square_steps_first(n: u32, k: nat)
    requires
        k > 0,
    ensures
        square_steps(n, k) == square_steps(squared(n), (k - 1) as nat),
{
    lemma_square_steps_split(n, 1, (k - 1) as nat);
    assert(square_steps(n, 1) == squared(square_steps(n, 0)));
}

/// `6 - k` low bits, doubled at each squaring, take `n` to zero in `k` squares.
proof fn lemma_masked_to_zero(n: u32, k: nat)
    requires
        1 <= k <= 5,
        k == 5 ==> n & 1 == 0,
        k == 4 ==> n & 3 == 0,
        k == 3 ==> n & 0xf == 0,
        k == 2 ==> n & 0xff == 0,
        k == 1 ==> n & 0xffff == 0,
    ensures
        square_steps(n, k) == 0,
    decreases k,
{
    lemma_square_masks(n);
    lemma_square_steps_first(n, k);
    if k == 1 {
        assert(square_steps(squared(n), 0) == squared(n));
    } else {
        lemma_masked_to_zero(squared(n), (k - 1) as nat);
    }
}

/// The low bits that `trailing_zeros` reports clear.
proof fn lemma_trailing_zeros(n: u32)
    ensures
        n.trailing_zeros() <= 32,
        n == 0 <==> n.trailing_zeros() == 32,
        n.trailing_zeros() == 0 ==> n & 1 == 1,
        n.trailing_zeros() == 1 ==> n & 3 == 2,
        n.trailing_zeros() >= 1 ==> n & 1 == 0,
        n.trailing_zeros() >= 2 ==> n & 3 == 0,
        n.trailing_zeros() >= 4 ==> n & 0xf == 0,
        n.trailing_zeros() >= 8 ==> n & 0xff == 0,
        n.trailing_zeros() >= 16 ==> n & 0xffff == 0,
{
    vstd::std_specs::bits::axiom_u32_trailing_zeros(n);
    let tz = n.trailing_zeros();
    assert(n << vstd::prelude::sub(32u32, tz) == 0u32);
    assert(tz >= 1 ==> n & 1 == 0) by (bit_vector)
        requires
            tz <= 32,
            n << vstd::prelude::sub(32u32, tz) == 0u32,
    ;
    assert(tz >= 2 ==> n & 3 == 0) by (bit_vector)
        requires
            tz <= 32,
            n << vstd::prelude::sub(32u32, tz) == 0u32,
    ;
    assert(tz >= 4 ==> n & 0xf == 0) by (bit_vector)
        requires
            tz <= 32,
            n << vstd::prelude::sub(32u32, tz) == 0u32,
    ;
    assert(tz >= 8 ==> n & 0xff == 0) by (bit_vector)
        requires
            tz <= 32,
            n << vstd::prelude::sub(32u32, tz) == 0u32,
    ;
    assert(tz >= 16 ==> n & 0xffff == 0) by (bit_vector)
        requires
            tz <= 32,
            n << vstd::prelude::sub(32u32, tz) == 0u32,
    ;
    if tz == 0 {
        assert((n >> 0u32) & 1u32 == 1u32);
        assert((n >> 0u32) & 1u32 == 1u32 ==> n & 1 == 1) by (bit_vector);
    }
    if tz == 1 {
        assert((n >> 1u32) & 1u32 == 1u32);
        assert((n >> 0u32) & 1u32 == 0u32);
        assert((n >> 1u32) & 1u32 == 1u32 && (n >> 0u32) & 1u32 == 0u32 ==> n & 3 == 2)
            by (bit_vector);
    }
}

/// The squares that take `n` to zero, from its trailing zero count.
fn squares_by_trailing_zeros(n: u32) -> (r: u32)
    requires
        n & 1 == 0,
    ensures
        square_steps(n, r as nat) == 0,
        r <= 5,
        r == tz_squares(n.trailing_zeros()),
{
    let tz = n.trailing_zeros();
    proof {
        lemma_trailing_zeros(n);
    }
    // Squaring until there are 32 trailing zeros: 5 - floor(log2(tz)) times.
    let r: u32 = if tz >= 32 {
        0
    } else if tz >= 16 {
        1
    } else if tz >= 8 {
        2
    } else if tz >= 4 {
        3
    } else if tz >= 2 {
        4
    } else {
        5
    };
    proof {
        if r == 0 {
            assert(n == 0);
        } else {
            if r == 5 {
                assert(tz != 0 || n & 1 == 1);
            }
            lemma_masked_to_zero(n, r as nat);
        }
    }
    r
}

/// Offsets `v` to the anchor of its band, from which the squares reach zero
/// without leaving the machine's range on the way.
pub fn encode_to_0_no_overflow(v: Value) -> (r: (Offset, u32))
    ensures
        r.0@ == band_anchor(v@).0 - v@,
        r.1 == band_anchor(v@).1,
        reaches_zero(v@, r.0@, r.1 as nat),
{
    // Paths that square to a multiple of 2^32 are not needed here: each of
    // those roots has at least 16 trailing zeros and is covered by
    // `encode_to_0_overflow`.
    let n = v.value();
    let (target, squares): (u32, u32) = if n < 4 {
        (0, 0)
    } else if n < LOW_16 {
        (4, 2)
    } else if n < LOW_256 {
        (16, 1)
    } else if n < LOW_N16 {
        (256, 0)
    } else if n < LOW_N4 {
        (N16, 1)
    } else if n < LOW_N1 {
        (N4, 2)
    } else {
        (u32::MAX, 0)
    };
    let o = Offset(target as i64 - n as i64);
    proof {
        lemma_run_offset(o@, n);
        let landed = run(offset_insts(o@), n);
        assert(landed == normalized(target));
        lemma_run_concat(offset_insts(o@), repeat(Inst::S, squares as nat), n);
        lemma_run_repeat(squares as nat, landed);
        assert(squared(4) == 16);
        assert(squared(16) == 0);
        assert(squared(N16) == 0);
        assert(squared(N4) == 16);
        assert(square_steps(landed, 0) == landed);
        if squares > 0 {
            lemma_square_steps_first(landed, squares as nat);
        }
        if squares == 2 {
            lemma_square_steps_first(squared(landed), 1);
        }
    }
    (o, squares)
}

/// The wrapping square of `n`, before the machine's reset.
pub open spec fn wrapped_square(n: u32) -> u32 {
    vstd::wrapping::u32_specs::wrapping_mul(n, n)
}

/// Squarings that take an even value with `tz` trailing zeros to zero:
/// 5 - floor(log2(tz)), none for zero itself.
pub open spec fn tz_squares(tz: u32) -> nat {
    if tz >= 32 {
        0
    } else if tz >= 16 {
        1
    } else if tz >= 8 {
        2
    } else if tz >= 4 {
        3
    } else if tz >= 2 {
        4
    } else {
        5
    }
}

/// The squarings the overflow strategy plans for the moved value `m`: one,
/// two or three where `m` is a modular square root (or a root of a root) of
/// 256, else as many as its trailing zeros need; 6 for an odd value, which
/// squaring never takes to zero.
pub open spec fn plan_squares(m: u32) -> nat {
    if wrapped_square(m) == 256 {
        1
    } else if wrapped_square(wrapped_square(m)) == 256 {
        2
    } else if wrapped_square(wrapped_square(wrapped_square(m))) == 256 {
        3
    } else if m & 1 == 0 {
        tz_squares(m.trailing_zeros())
    } else {
        6
    }
}

/// The offset of the overflow strategy: none with two or more trailing
/// zeros; with one, +2 or -2 to four or more, where the low bits allow;
/// with none, +3 or -3 to eight or more where they allow, else +1 or -1 to
/// two or more.
pub open spec fn overflow_offset_of(n: u32) -> int {
    if n.trailing_zeros() >= 2 {
        0
    } else if n.trailing_zeros() == 1 {
        if n & 0xf == 0xe {
            2
        } else if n & 0xf == 2 {
            -2
        } else {
            0
        }
    } else if n & 0xff == 0xfd {
        3
    } else if n & 0xff == 3 {
        -3
    } else {
        (n & 3) - 2
    }
}

/// The smallest move to two or more trailing zeros: none for an even value,
/// else +1 or -1.
pub open spec fn near_offset_of(n: u32) -> int {
    if n & 1 == 0 {
        0
    } else {
        (n & 3) - 2
    }
}

/// The instructions an (offset, squares) plan takes.
pub open spec fn plan_len(p: (int, nat)) -> int {
    abs_int(p.0) + p.1
}

/// The overflow strategy's plan: its own offset and squares, or the smallest
/// move with its squares where that is strictly shorter.
pub open spec fn overflow_plan_of(v: u32) -> (int, nat) {
    let wide = (overflow_offset_of(v), plan_squares(run(offset_insts(overflow_offset_of(v)), v)));
    let near = (near_offset_of(v), plan_squares(run(offset_insts(near_offset_of(v)), v)));
    if near.0 != wide.0 && plan_len(near) < plan_len(wide) {
        near
    } else {
        wide
    }
}

/// The anchor band plan, as an (offset, squares) pair.
pub open spec fn band_plan(v: u32) -> (int, nat) {
    (band_anchor(v).0 - v, band_anchor(v).1)
}

/// The plan `encode_to_0` settles on: the shorter of the band plan and the
/// overflow plan, the one with fewer squares on a tie.
pub open spec fn to_zero_plan(v: u32) -> (int, nat) {
    let p1 = band_plan(v);
    let p2 = overflow_plan_of(v);
    if plan_len(p1) < plan_len(p2) || plan_len(p1) == plan_len(p2) && p1.1 <= p2.1 {
        p1
    } else {
        p2
    }
}

/// Moving `v` by `o` lands on an even value, without passing 256 or the
/// all-ones pattern on the way.
pub open spec fn good_move(v: u32, o: int) -> bool {
    &&& (v + o) % 2 == 0
    &&& 0 <= v + o
    &&& v < 256 ==> v + o <= 256
    &&& v > 256 ==> v + o >= 256
    &&& v + o < 0xffff_ffff
}

/// The offset the overflow strategy applies to `n`: up to 3 in magnitude,
/// chosen from the low 2, 4 or 8 bits, so that the result has at least two
/// (or four, or eight) trailing zeros.
fn overflow_offset(n: u32) -> (r: Offset)
    ensures
        r@ == overflow_offset_of(n),
        n == 0xffff_fffe ==> r@ == 2,
        n == 0xffff_fffd ==> r@ == 3,
        -3 <= r@ <= 3,
        n.trailing_zeros() >= 2 ==> r@ == 0,
        (n + r@) % 2 == 0,
        0 <= n + r@,
        n < 256 ==> n + r@ <= 256,
        n > 256 ==> n + r@ >= 256,
        n <= 0xffff_fffc ==> n + r@ < 0xffff_ffff,
{
    let tz = n.trailing_zeros();
    proof {
        lemma_trailing_zeros(n);
        assert(n & 1 == n % 2 && (n & 3) % 2 == n % 2) by (bit_vector);
        assert(n & 1 == 0 || n & 1 == 1) by (bit_vector);
        assert(n & 0xff == 0xfd ==> n % 2 == 1 && n >= 0xfd) by (bit_vector);
        assert(n & 0xff == 0xfd && n < 256 ==> n == 253) by (bit_vector);
        assert(n & 0xff == 0xfd && n <= 0xffff_fffc ==> n <= 0xffff_fefd) by (bit_vector);
        assert(n & 0xff == 3 ==> n >= 3) by (bit_vector);
        assert(n & 0xff == 3 && n > 256 ==> n >= 259) by (bit_vector);
        assert(n & 0xf == 0xe && n < 256 ==> n <= 254) by (bit_vector);
        assert(n & 0xf == 0xe && n <= 0xffff_fffc ==> n <= 0xffff_ffee) by (bit_vector);
        assert(n & 0xf == 2 ==> n >= 2) by (bit_vector);
        assert(n & 0xf == 2 && n > 256 ==> n >= 258) by (bit_vector);
        assert(n & 3 <= 3) by (bit_vector);
        assert(n & 3 == 1 || n & 3 == 3 ==> n % 2 == 1) by (bit_vector);
        assert(n & 1 == 1 ==> n & 3 == 1 || n & 3 == 3) by (bit_vector);
        assert(n & 1 == 1 ==> n >= 1) by (bit_vector);
        assert(n == 0xffff_fffe ==> n & 0xf == 0xe && n & 3 == 2) by (bit_vector);
        assert(n == 0xffff_fffd ==> n & 0xff == 0xfd && n & 1 == 1) by (bit_vector);
    }
    if tz >= 2 {
        Offset(0)
    } else if tz == 1 {
        let low = n & 0b1111;
        if low == 0b1110 {
            // To four or more trailing zeros.
            Offset(2)
        } else if low == 0b0010 {
            Offset(-2)
        } else {
            // Keeps the one trailing zero.
            Offset(0)
        }
    } else {
        let low = n & 0b1111_1111;
        if low == 0b1111_1101 {
            // To eight or more trailing zeros.
            Offset(3)
        } else if low == 0b0000_0011 {
            Offset(-3)
        } else {
            // To two or more trailing zeros: 0b11 => +1, 0b01 => -1.
            Offset((n & 0b11) as i64 - 2)
        }
    }
}

/// The squares that take `v`, moved by `offset`, to zero: few where the
/// moved value is a modular square root of 256, else as many as its trailing
/// zeros need. Where the move leaves an odd value, which squaring never takes
/// to zero, the plan fails and asks for 6.
fn overflow_plan(v: Value, offset: Offset) -> (r: u32)
    requires
        -3 <= offset@ <= 3,
    ensures
        r == plan_squares(run(offset_insts(offset@), v@)),
        reaches_zero(v@, offset@, r as nat) || r == 6,
        good_move(v@, offset@) ==> reaches_zero(v@, offset@, r as nat) && r <= 5,
        r <= 6,
{
    let start = v.value();
    let moved = shift(v, offset);
    let n = moved.value();
    proof {
        lemma_run_offset(offset@, start);
        assert(n & 1 == n % 2) by (bit_vector);
        if good_move(v@, offset@) {
            assert(sat_abs(offset@) == abs_int(offset@));
            assert(n as int == v@ + offset@ || (n == 0 && v@ + offset@ == 256));
            assert(n % 2 == 0);
        }
    }
    // Squares of 256's modular square roots are reset to zero at once.
    let square = n.wrapping_mul(n);
    let square2 = square.wrapping_mul(square);
    let square3 = square2.wrapping_mul(square2);
    let squares: u32 = if square == 256 {
        1
    } else if square2 == 256 {
        2
    } else if square3 == 256 {
        3
    } else if n & 1 == 0 {
        squares_by_trailing_zeros(n)
    } else {
        6
    };
    proof {
        let s1 = squared(n);
        let s2 = squared(s1);
        assert(square == (n as int * n as int) % 0x1_0000_0000);
        assert(s1 == normalized(square));
        if squares <= 3 && (square == 256 || square2 == 256 || square3 == 256) {
            lemma_square_zero(2);
            lemma_square_steps_first(n, squares as nat);
            assert(square_steps(s1, 0) == s1);
            if squares >= 2 {
                lemma_square_steps_first(s1, (squares - 1) as nat);
                assert(squared(0) == 0);
                if s1 != 0 {
                    assert(s1 == square);
                    assert(s2 == normalized(square2));
                } else {
                    assert(s2 == 0);
                }
                if squares == 3 {
                    lemma_square_steps_first(s2, 1);
                    if s2 != 0 {
                        assert(s2 == square2);
                    }
                }
            }
        }
        lemma_run_concat(offset_insts(offset@), repeat(Inst::S, squares as nat), v@);
        lemma_run_repeat(squares as nat, n);
    }
    squares
}

/// The smallest move to an even value with at least two trailing zeros
/// (none for an even value): it may find a modular square root of 256 that
/// the wider move of `overflow_offset` passes by.
fn near_offset(n: u32) -> (r: Offset)
    requires
        n != 0xffff_ffff,
    ensures
        r@ == near_offset_of(n),
        n + r@ < 0xffff_ffff,
        -1 <= r@ <= 1,
        (n + r@) % 2 == 0,
        0 <= n + r@,
        n < 256 ==> n + r@ <= 256,
        n > 256 ==> n + r@ >= 256,
        n <= 0xffff_fffc ==> n + r@ < 0xffff_ffff,
{
    proof {
        assert(n & 1 == n % 2 && (n & 3) % 2 == n % 2) by (bit_vector);
        assert(n & 3 <= 3) by (bit_vector);
        assert(n & 1 == 1 ==> n & 3 == 1 || n & 3 == 3) by (bit_vector);
        assert(n & 1 == 1 ==> n >= 1) by (bit_vector);
        assert(n & 1 == 0 || n & 1 == 1) by (bit_vector);
        assert(n & 3 == 3 && n != 0xffff_ffff ==> n <= 0xffff_fffb) by (bit_vector);
        assert(n & 1 == 0 && n != 0xffff_ffff ==> n <= 0xffff_fffe) by (bit_vector);
    }
    if n & 1 == 0 {
        Offset(0)
    } else {
        Offset((n & 0b11) as i64 - 2)
    }
}

/// Brings `v` to an even value (at most 3 away) and squares it until its
/// trailing zeros run out; squaring stops sooner where a square root of 256
/// is met on the way. The smallest move to two trailing zeros is taken
/// instead where it leads to a strictly shorter plan.
pub fn encode_to_0_overflow(v: Value) -> (r: (Offset, u32))
    ensures
        (r.0@, r.1 as nat) == overflow_plan_of(v@),
        reaches_zero(v@, r.0@, r.1 as nat),
        -3 <= r.0@ <= 3,
        r.1 <= 5,
        v@.trailing_zeros() >= 2 ==> r.0@ == 0,
{
    let n = v.value();
    proof {
        lemma_trailing_zeros(n);
    }
    let offset = overflow_offset(n);
    let squares = overflow_plan(v, offset);
    let near = near_offset(n);
    if near.0 != offset.0 {
        let near_squares = overflow_plan(v, near);
        if (near.abs() as u64 + near_squares as u64) < (offset.abs() as u64 + squares as u64) {
            return (near, near_squares);
        }
        proof {
            if squares == 6 && !good_move(n, offset@) {
                assert(n >= 0xffff_fffd);
            }
        }
    }
    (offset, squares)
}

/// `v` moved by `o`, as the run of increments or decrements would move it.
fn shift(v: Value, o: Offset) -> (r: Value)
    ensures
        r@ == run(offset_insts(o@), v@),
{
    proof {
        lemma_run_repeat(sat_abs(o@), v@);
    }
    if o.is_negative() {
        v.saturating_sub(o.abs())
    } else {
        v.saturating_add(o.abs())
    }
}

/// The shorter of the two plans to reach zero from `v`, the one with fewer
/// squares on a tie.
pub fn encode_to_0(v: Value) -> (r: (Offset, u32))
    ensures
        (r.0@, r.1 as nat) == to_zero_plan(v@),
        reaches_zero(v@, r.0@, r.1 as nat),
        abs_int(r.0@) + r.1 <= abs_int(band_anchor(v@).0 - v@) + band_anchor(v@).1,
        abs_int(r.0@) <= 0xffff_ffff,
        r.1 <= 5,
{
    let (offset1, squares1) = encode_to_0_no_overflow(v);
    let (offset2, squares2) = encode_to_0_overflow(v);
    let len1 = offset1.abs() as u64 + squares1 as u64;
    let len2 = offset2.abs() as u64 + squares2 as u64;
    if len1 < len2 || len1 == len2 && squares1 <= squares2 {
        (offset1, squares1)
    } else {
        (offset2, squares2)
    }
}


/// Squares and offsets read from the front.
proof fn lemma_squares_then_cons(o: Offset, t: Seq<Offset>)
    ensures
        squares_then(seq![o] + t) == seq![Inst::S] + offset_insts(o@) + squares_then(t),
    decreases t.len(),
{
    if t.len() == 0 {
        assert(seq![o] + t =~= seq![o]);
        assert(seq![o].drop_last() =~= Seq::<Offset>::empty());
        assert(squares_then(Seq::<Offset>::empty()) =~= Seq::<Inst>::empty());
        assert(seq![Inst::S] + offset_insts(o@) + squares_then(t) =~= seq![Inst::S]
            + offset_insts(o@));
    } else {
        assert((seq![o] + t).drop_last() =~= seq![o] + t.drop_last());
        assert((seq![o] + t).last() == t.last());
        lemma_squares_then_cons(o, t.drop_last());
        assert(squares_then(seq![o] + t) =~= seq![Inst::S] + offset_insts(o@) + squares_then(t));
    }
}

/// The chain of an offset list, read from the front.
proof fn lemma_offset_chain_cons(o: Offset, t: Seq<Offset>)
    ensures
        offset_chain(seq![o] + t) == offset_insts(o@) + squares_then(t),
{
    assert((seq![o] + t).subrange(1, (seq![o] + t).len() as int) =~= t);
}

/// Squares and offset runs change the accumulator.
proof fn lemma_squares_then_mutating(t: Seq<Offset>)
    ensures
        all_mutating(squares_then(t)),
    decreases t.len(),
{
    if t.len() > 0 {
        lemma_squares_then_mutating(t.drop_last());
        assert(all_mutating(seq![Inst::S])) by {
            assert(is_mutating(seq![Inst::S][0]));
        }
        lemma_offset_mutating(t.last()@);
        lemma_mutating_concat(squares_then(t.drop_last()), seq![Inst::S]);
        lemma_mutating_concat(squares_then(t.drop_last()) + seq![Inst::S], offset_insts(t.last()@));
    }
}

/// What the chain of nearest roots relies on: the root is smaller than `n`,
/// its square is exact and lies on the same side of 256 as `n`, and the
/// offset is small against `n`.
proof fn lemma_nearest_root(n: int)
    requires
        4 <= n < 0xffff_ffff,
        n != 256,
        is_floor_sqrt(floor_sqrt(n), n),
    ensures
        0 <= nearest_root(n) < n,
        nearest_root(n) != 16,
        nearest_root(n) != 256,
        nearest_root(n) < 65536 ==> nearest_root(n) * nearest_root(n) < 0xffff_ffff,
        nearest_root(n) < 65536 ==> nearest_root(n) * nearest_root(n) != 256,
        (nearest_root(n) * nearest_root(n) < 256) == (n < 256),
        abs_int(n - nearest_root(n) * nearest_root(n)) + 1 + 8 * nearest_root(n) <= 8 * n,
{
    let f = floor_sqrt(n);
    let r = nearest_root(n);
    assert(f >= 2) by (nonlinear_arith)
        requires
            0 <= f,
            n < (f + 1) * (f + 1),
            n >= 4,
    {
        if f <= 1 {
            assert((f + 1) * (f + 1) <= 4);
        }
    }
    assert(f + 1 < f * f) by (nonlinear_arith)
        requires
            f >= 2,
    ;
    assert(10 * f + 10 <= 8 * (f * f)) by (nonlinear_arith)
        requires
            f >= 2,
    ;
    assert((f + 1) * (f + 1) == f * f + 2 * f + 1) by (nonlinear_arith);
    assert(r == f || r == f + 1);
    if r < 65536 {
        assert(r * r <= 65535 * 65535) by (nonlinear_arith)
            requires
                0 <= r <= 65535,
        ;
        if r <= 15 {
            assert(r * r <= 225) by (nonlinear_arith)
                requires
                    0 <= r <= 15,
            ;
        } else if r >= 17 {
            assert(r * r >= 289) by (nonlinear_arith)
                requires
                    r >= 17,
            ;
        }
    }
    if n < 256 {
        assert(f <= 15) by (nonlinear_arith)
            requires
                0 <= f,
                f * f <= n,
                n < 256,
        {
            if f >= 16 {
                assert(f * f >= 256);
            }
        }
        if r == f + 1 {
            assert(f + 1 <= 15);
            assert(r * r <= 225) by (nonlinear_arith)
                requires
                    0 <= r <= 15,
            ;
        } else {
            assert(r * r <= 225) by (nonlinear_arith)
                requires
                    0 <= r <= 15,
            ;
        }
    } else {
        assert(f >= 16) by (nonlinear_arith)
            requires
                0 <= f,
                n < (f + 1) * (f + 1),
                n > 256,
        {
            if f <= 15 {
                assert((f + 1) * (f + 1) <= 256);
            }
        }
        if r == f {
            assert(f != 16);
            assert(r * r >= 289) by (nonlinear_arith)
                requires
                    r >= 17,
            ;
        } else {
            assert(r * r >= 289) by (nonlinear_arith)
                requires
                    r >= 17,
            ;
        }
    }
}

/// The offsets of the chain of nearest roots down from `v` (at most `fuel`
/// roots): the run from zero to the last value below 4 first, then for each
/// root on the way back up, the offset from its square.
pub open spec fn root_chain(v: int, fuel: nat) -> Seq<Offset>
    decreases fuel,
{
    if v < 4 || fuel == 0 {
        seq![Offset(v as i64)]
    } else {
        let r = nearest_root(v);
        root_chain(r, (fuel - 1) as nat).push(Offset((v - r * r) as i64))
    }
}

/// The offsets `encode_from_0` gives for `v`; five roots always suffice to
/// get below 4 from a 32-bit value.
pub open spec fn from_zero_offsets(v: u32) -> Seq<Offset> {
    root_chain(v as int, 8)
}

/// Nearest roots shrink fast: a 32-bit value is below 4 after five of them.
proof fn lemma_root_shrinks(n: int)
    requires
        4 <= n < 0xffff_ffff,
        n != 256,
        is_floor_sqrt(floor_sqrt(n), n),
    ensures
        n <= 65535 ==> nearest_root(n) <= 255,
        n <= 255 ==> nearest_root(n) <= 15,
        n <= 15 ==> nearest_root(n) <= 4,
        n <= 4 ==> nearest_root(n) < 4,
{
    lemma_nearest_root(n);
    let f = floor_sqrt(n);
    assert(n <= 65535 ==> f <= 255) by (nonlinear_arith)
        requires
            0 <= f,
            f * f <= n,
    {
        if n <= 65535 && f >= 256 {
            assert(f * f >= 256 * 256);
        }
    }
    assert(n <= 255 ==> f <= 15) by (nonlinear_arith)
        requires
            0 <= f,
            f * f <= n,
    {
        if n <= 255 && f >= 16 {
            assert(f * f >= 256);
        }
    }
    assert(n <= 15 ==> f <= 3) by (nonlinear_arith)
        requires
            0 <= f,
            f * f <= n,
    {
        if n <= 15 && f >= 4 {
            assert(f * f >= 16);
        }
    }
    if n == 4 {
        assert(f == 2) by (nonlinear_arith)
            requires
                0 <= f,
                f * f <= 4,
                4 < (f + 1) * (f + 1),
        {
            if f >= 3 {
                assert(f * f >= 9);
            }
            if f <= 1 {
                assert((f + 1) * (f + 1) <= 4);
            }
        }
    }
}

/// The offsets that lead from zero to `v`: a run to a value below 4, then
/// for each root on the way up, a square and the offset from that square.
fn encode_from_0(v: Value) -> (r: (VecDeque<Offset>, u64))
    ensures
        is_path(0, v@, offset_chain(r.0@)),
        r.1 == offset_chain(r.0@).len(),
        r.1 <= 8 * v@,
        forall|i: int| 0 <= i < r.0@.len() ==> abs_int(#[trigger] r.0@[i]@) <= 0xffff_ffff,
        r.0@ == from_zero_offsets(v@),
        r.0@.len() >= 1,
        0 <= r.0@[0]@ < 4,
{
    let mut cur = v;
    // The machine cannot hold the all-ones pattern, so `v` is below it.
    let top = v.value();
    assert(top < 0xffff_ffff);
    let mut offsets: VecDeque<Offset> = VecDeque::new();
    let mut len: u64 = 0;
    let ghost mut k: nat = 0;
    proof {
        assert(squares_then(offsets@) =~= Seq::<Inst>::empty());
        lemma_squares_then_mutating(offsets@);
        assert(root_chain(v@ as int, 8) =~= root_chain(cur@ as int, 8) + offsets@);
    }
    while cur.value() >= 4
        invariant
            k <= 5,
            k >= 1 ==> cur@ <= 65535,
            k >= 2 ==> cur@ <= 255,
            k >= 3 ==> cur@ <= 15,
            k >= 4 ==> cur@ <= 4,
            k >= 5 ==> cur@ < 4,
            root_chain(v@ as int, 8) == root_chain(cur@ as int, (8 - k) as nat) + offsets@,
            run(squares_then(offsets@), cur@) == v@,
            len == squares_then(offsets@).len(),
            len + 8 * cur@ <= 8 * v@,
            v@ < 0xffff_ffff,
            forall|i: int| 0 <= i < offsets@.len() ==> abs_int(#[trigger] offsets@[i]@) <= 0xffff_ffff,
        decreases cur@,
    {
        let n = cur.value();
        let (root, offset) = cur.nearest_sqrt();
        let ghost rho = root@;
        proof {
            lemma_nearest_root(n as int);
            lemma_root_shrinks(n as int);
            assert(offset == Offset((n - rho * rho) as i64));
            assert(root_chain(n as int, (8 - k) as nat) == root_chain(rho as int, (7 - k) as nat).push(
                offset,
            ));
            assert(root_chain(rho as int, (7 - k) as nat).push(offset) + offsets@ =~= root_chain(
                rho as int,
                (7 - k) as nat,
            ) + (seq![offset] + offsets@));
            assert(squared(rho) == rho * rho);
            lemma_run_same_side((rho * rho) as u32, n);
            lemma_squares_then_cons(offset, offsets@);
            lemma_run_push(Seq::<Inst>::empty(), Inst::S, rho);
            assert(seq![Inst::S] =~= Seq::<Inst>::empty().push(Inst::S));
            lemma_run_concat(seq![Inst::S], offset_insts(offset@), rho);
            lemma_run_concat(seq![Inst::S] + offset_insts(offset@), squares_then(offsets@), rho);
        }
        let ghost old_offsets = offsets@;
        offsets.push_front(offset);
        len = len + offset.abs() as u64 + 1;
        cur = root;
        proof {
            k = k + 1;
            assert forall|i: int| 0 <= i < offsets@.len() implies abs_int(
                #[trigger] offsets@[i]@,
            ) <= 0xffff_ffff by {
                if i > 0 {
                    assert(offsets@[i] == old_offsets[i - 1]);
                }
            }
        }
    }
    let n = cur.value();
    let first = Offset(n as i64);
    proof {
        lemma_offset_chain_cons(first, offsets@);
        lemma_run_same_side(0, n);
        lemma_run_concat(offset_insts(first@), squares_then(offsets@), 0);
        lemma_squares_then_mutating(offsets@);
        lemma_offset_mutating(first@);
        lemma_mutating_concat(offset_insts(first@), squares_then(offsets@));
    }
    let ghost old_offsets = offsets@;
    offsets.push_front(first);
    len = len + n as u64;
    proof {
        assert(root_chain(n as int, (8 - k) as nat) == seq![first]);
        assert(seq![first] + old_offsets =~= offsets@);
        assert(offsets@[0] == first);
        assert forall|i: int| 0 <= i < offsets@.len() implies abs_int(#[trigger] offsets@[i]@)
            <= 0xffff_ffff by {
            if i > 0 {
                assert(offsets@[i] == old_offsets[i - 1]);
            }
        }
    }
    (offsets, len)
}


/// The way through zero: the plan to zero from `from`, then the chain of
/// nearest roots up to `to`.
pub open spec fn via_zero_insts(from: u32, to: u32) -> Seq<Inst> {
    offset_insts(to_zero_plan(from).0) + repeat(Inst::S, to_zero_plan(from).1) + offset_chain(
        from_zero_offsets(to),
    )
}

/// The heuristic path from `from` to `to`: the direct run where both lie on
/// one side of 256 and the way through zero is not strictly shorter, else
/// the way through zero.
pub open spec fn heuristic_path(from: u32, to: u32) -> Seq<Inst> {
    if (from < 256) == (to < 256) && abs_int(to - from) <= via_zero_insts(from, to).len() {
        offset_insts(to - from)
    } else {
        via_zero_insts(from, to)
    }
}

/// What the builder gains from `heuristic_encode`: a path from its value to
/// `to`, appended after what it held.
pub open spec fn appends_path(before: Seq<Inst>, from: u32, after: Seq<Inst>, to: u32) -> bool {
    &&& before.len() <= after.len()
    &&& after.subrange(0, before.len() as int) == before
    &&& is_path(from, to, after.subrange(before.len() as int, after.len() as int))
}

/// Appends a path from the builder's value to `v`: the direct run of
/// increments or decrements where one exists and is no longer than the way
/// through zero, else the way through zero.
pub(crate) fn heuristic_encode(b: &mut Builder, v: Value)
    ensures
        final(b).spec_insts() == old(b).spec_insts() + heuristic_path(old(b).spec_acc(), v@),
        appends_path(old(b).spec_insts(), old(b).spec_acc(), final(b).spec_insts(), v@),
        final(b).spec_acc() == v@,
        (old(b).spec_acc() < 256) == (v@ < 256) ==> final(b).spec_insts().len() - old(
            b,
        ).spec_insts().len() <= abs_int(v@ - old(b).spec_acc()),
{
    let acc = b.acc();
    let from = acc.value();
    let ghost before = b.spec_insts();
    let simple_offset = acc.offset_to(v);
    let (offset_to_0, squares_to_0) = encode_to_0(acc);
    let (offsets_from_0, len_from_0) = encode_from_0(v);
    let len_via_0 = offset_to_0.abs() as u64 + squares_to_0 as u64 + len_from_0;
    let direct = match simple_offset {
        Some(offset) => offset.abs() as u64 <= len_via_0,
        None => false,
    };
    proof {
        assert(via_zero_insts(from, v@) =~= offset_insts(offset_to_0@) + repeat(
            Inst::S,
            squares_to_0 as nat,
        ) + offset_chain(offsets_from_0@));
        assert(sat_abs(offset_to_0@) == abs_int(offset_to_0@));
        assert(len_via_0 == via_zero_insts(from, v@).len());
    }
    if direct {
        let offset = simple_offset.unwrap();
        b.offset(offset);
        proof {
            lemma_run_same_side(from, v@);
            lemma_offset_mutating(offset@);
            assert(b.spec_insts().subrange(0, before.len() as int) =~= before);
            assert(b.spec_insts().subrange(before.len() as int, b.spec_insts().len() as int)
                =~= offset_insts(offset@));
            assert(abs_int(offset@) <= 0xffff_ffff);
        }
    } else {
        b.offset(offset_to_0);
        b.square(squares_to_0);
        let ghost mid = b.spec_insts();
        b.offset_squares(&offsets_from_0);
        proof {
            let to0 = offset_insts(offset_to_0@) + repeat(Inst::S, squares_to_0 as nat);
            let from0 = offset_chain(offsets_from_0@);
            lemma_run_repeat(squares_to_0 as nat, run(offset_insts(offset_to_0@), acc@));
            lemma_run_concat(offset_insts(offset_to_0@), repeat(Inst::S, squares_to_0 as nat), acc@);
            lemma_run_concat(to0, from0, acc@);
            lemma_offset_mutating(offset_to_0@);
            lemma_repeat_mutating(Inst::S, squares_to_0 as nat);
            lemma_mutating_concat(offset_insts(offset_to_0@), repeat(Inst::S, squares_to_0 as nat));
            lemma_mutating_concat(to0, from0);
            assert(b.spec_insts() =~= before + (to0 + from0));
            assert(b.spec_insts().subrange(0, before.len() as int) =~= before);
            assert(b.spec_insts().subrange(before.len() as int, b.spec_insts().len() as int)
                =~= to0 + from0);
            if simple_offset is Some {
                let offset = simple_offset.unwrap();
                assert(abs_int(offset@) <= 0xffff_ffff);
            }
        }
    }
}

} // verus!
