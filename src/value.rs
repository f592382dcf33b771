use vstd::prelude::*;

use crate::inst::{step, Inst};

verus! {

/// Whether the accumulator can hold `n`: the machine resets 256 and the
/// all-ones pattern to zero.
pub open spec fn is_normal(n: u32) -> bool {
    n != 256 && n != 0xffff_ffff
}

/// `n` with 256 and the all-ones pattern reset to zero.
pub open spec fn normalized(n: u32) -> u32 {
    if is_normal(n) {
        n
    } else {
        0
    }
}

/// The accumulator after an increment: wrapping add, then reset.
pub open spec fn incremented(n: u32) -> u32 {
    normalized(if n == 0xffff_ffff { 0 } else { (n + 1) as u32 })
}

/// The accumulator after a decrement: wrapping subtract, then reset.
pub open spec fn decremented(n: u32) -> u32 {
    normalized(if n == 0 { 0xffff_ffff } else { (n - 1) as u32 })
}

/// The accumulator after a square: wrapping multiply, then reset.
pub open spec fn squared(n: u32) -> u32 {
    normalized(((n as int * n as int) % 0x1_0000_0000) as u32)
}

/// `k` increments, one at a time.
pub open spec fn add_steps(n: u32, k: nat) -> u32
    decreases k,
{
    if k == 0 {
        n
    } else {
        incremented(add_steps(n, (k - 1) as nat))
    }
}

/// `k` decrements, one at a time.
pub open spec fn sub_steps(n: u32, k: nat) -> u32
    decreases k,
{
    if k == 0 {
        n
    } else {
        decremented(sub_steps(n, (k - 1) as nat))
    }
}

/// `k` squarings, one at a time.
pub open spec fn square_steps(n: u32, k: nat) -> u32
    decreases k,
{
    if k == 0 {
        n
    } else {
        squared(square_steps(n, (k - 1) as nat))
    }
}

/// `k` increments in closed form. Below 256 the accumulator cycles through
/// 0..256; above, it climbs until the all-ones pattern resets it to zero.
pub open spec fn add_closed(n: u32, k: nat) -> u32 {
    if n < 256 {
        ((n + k) % 256) as u32
    } else if n + k < 0xffff_ffff {
        (n + k) as u32
    } else {
        ((n + k - 0xffff_ffff) % 256) as u32
    }
}

/// `k` decrements in closed form. Zero is a fixed point of decrement, and
/// from above 256 the accumulator falls to 257 and then resets to zero.
pub open spec fn sub_closed(n: u32, k: nat) -> u32 {
    if n < 256 {
        if k <= n {
            (n - k) as u32
        } else {
            0
        }
    } else if k < n - 256 {
        (n - k) as u32
    } else {
        0
    }
}

/// The run of `k` increments agrees with its closed form.
pub proof fn lemma_add_closed(n: u32, k: nat)
    requires
        is_normal(n),
    ensures
        add_steps(n, k) == add_closed(n, k),
    decreases k,
{
    if k > 0 {
        lemma_add_closed(n, (k - 1) as nat);
    }
}

/// The run of `k` decrements agrees with its closed form.
pub proof fn lemma_sub_closed(n: u32, k: nat)
    requires
        is_normal(n),
    ensures
        sub_steps(n, k) == sub_closed(n, k),
    decreases k,
{
    if k > 0 {
        lemma_sub_closed(n, (k - 1) as nat);
    }
}

/// Once zero, squaring stays at zero.
pub proof fn lemma_square_zero(k: nat)
    ensures
        square_steps(0, k) == 0,
    decreases k,
{
    if k > 0 {
        lemma_square_zero((k - 1) as nat);
    }
}

/// Squaring `a + b` times is squaring `a` times, then `b` times.
pub proof fn lemma_square_steps_split(n: u32, a: nat, b: nat)
    ensures
        square_steps(n, a + b) == square_steps(square_steps(n, a), b),
    decreases b,
{
    if b > 0 {
        lemma_square_steps_split(n, a, (b - 1) as nat);
    }
}

/// An accumulator value: a 32-bit word that is never 256 nor the all-ones
/// pattern. It reads as signed when printed.
#[derive(Clone, Copy, Debug, PartialEq, Eq, Structural, PartialOrd, Ord, Hash)]
pub struct Value(u32);

/// A signed distance between two accumulator values.
#[derive(Clone, Copy, Debug, PartialEq, Eq, Structural, Hash)]
pub struct Offset(pub i64);

impl View for Value {
    type V = u32;

    closed spec fn view(&self) -> u32 {
        self.0
    }
}

impl View for Offset {
    type V = int;

    open spec fn view(&self) -> int {
        self.0 as int
    }
}

/// `n` with 256 and the all-ones pattern reset to zero.
pub fn normalize(n: u32) -> (r: u32)
    ensures
        r == normalized(n),
{
    if n == 256 || n == u32::MAX {
        0
    } else {
        n
    }
}

impl Value {
    #[verifier::type_invariant]
    spec fn inv(self) -> bool {
        is_normal(self.0)
    }

    /// A zero accumulator.
    pub fn new() -> (r: Value)
        ensures
            r@ == 0,
    {
        Value(0)
    }

    /// The value `n`, or `None` when the machine cannot hold it.
    pub fn from_checked(n: u32) -> (r: Option<Value>)
        ensures
            r is Some <==> is_normal(n),
            r is Some ==> r->0@ == n,
    {
        if n == normalize(n) {
            Some(Value(n))
        } else {
            None
        }
    }

    pub(crate) fn from_raw(n: u32) -> (r: Value)
        requires
            is_normal(n),
        ensures
            r@ == n,
    {
        Value(n)
    }

    /// The value as an unsigned word.
    pub fn value(self) -> (r: u32)
        ensures
            r == self@,
            is_normal(r),
    {
        proof {
            use_type_invariant(&self);
        }
        self.0
    }

    /// The value reset to zero where the machine would reset it.
    pub fn from_u32(n: u32) -> (r: Value)
        ensures
            r@ == normalized(n),
    {
        Value(normalize(n))
    }

    /// The value of a signed word, reset as `from_u32` does.
    pub fn from_i32(n: i32) -> (r: Value)
        ensures
            r@ == normalized(n as u32),
    {
        Value(normalize(n as u32))
    }

    /// Computes the operation on the value.
    pub fn apply(self, inst: Inst) -> (r: Value)
        ensures
            r@ == step(self@, inst),
    {
        match inst {
            Inst::I => self.increment(),
            Inst::D => self.decrement(),
            Inst::S => self.square(),
            _ => self,
        }
    }

    pub fn increment(self) -> (r: Value)
        ensures
            r@ == incremented(self@),
    {
        Value::from_u32(self.value().wrapping_add(1))
    }

    pub fn decrement(self) -> (r: Value)
        ensures
            r@ == decremented(self@),
    {
        Value::from_u32(self.value().wrapping_sub(1))
    }

    pub fn square(self) -> (r: Value)
        ensures
            r@ == squared(self@),
    {
        let n = self.value();
        Value::from_u32(n.wrapping_mul(n))
    }

    /// `rhs` increments at once.
    pub fn saturating_add(self, rhs: u32) -> (r: Value)
        ensures
            r@ == add_steps(self@, rhs as nat),
    {
        let n = self.value();
        proof {
            lemma_add_closed(n, rhs as nat);
        }
        if n < 256 {
            Value(((n as u64 + rhs as u64) % 256) as u32)
        } else {
            let room = u32::MAX - n;
            if rhs < room {
                Value(n + rhs)
            } else {
                Value((rhs - room) % 256)
            }
        }
    }

    /// `rhs` decrements at once.
    pub fn saturating_sub(self, rhs: u32) -> (r: Value)
        ensures
            r@ == sub_steps(self@, rhs as nat),
    {
        let n = self.value();
        proof {
            lemma_sub_closed(n, rhs as nat);
        }
        if n < 256 {
            Value(n.saturating_sub(rhs))
        } else if rhs < n - 256 {
            Value(n - rhs)
        } else {
            Value(0)
        }
    }

    /// `count` squarings; stops early once the value is zero.
    pub fn square_repeat(self, count: u32) -> (r: Value)
        ensures
            r@ == square_steps(self@, count as nat),
    {
        let mut v = self;
        let mut i: u32 = 0;
        while i < count
            invariant
                i <= count,
                v@ == square_steps(self@, i as nat),
            decreases count - i,
        {
            v = v.square();
            i += 1;
            if v.value() == 0 {
                proof {
                    lemma_square_zero((count - i) as nat);
                    lemma_square_steps_split(self@, i as nat, (count - i) as nat);
                }
                return v;
            }
        }
        v
    }
}


/// Magnitude of a signed integer.
pub open spec fn abs_int(x: int) -> int {
    if x < 0 {
        -x
    } else {
        x
    }
}

/// Whether `f` is the integer square root of `n`, rounded down.
pub open spec fn is_floor_sqrt(f: int, n: int) -> bool {
    0 <= f && f * f <= n < (f + 1) * (f + 1)
}

/// The integer square root of `n`, rounded down.
pub open spec fn floor_sqrt(n: int) -> int {
    choose|f: int| is_floor_sqrt(f, n)
}

/// The root that `Value::nearest_sqrt` settles on: the nearer of the two
/// roots around `n` (a tie cannot occur), but never 16, 256 or 65536, whose
/// squares the machine resets or cannot hold.
pub open spec fn nearest_root(n: int) -> int {
    let f = floor_sqrt(n);
    let below = n - f * f;
    let above = (f + 1) * (f + 1) - n;
    if (below < above && f != 16 && f != 256) || f + 1 == 16 || f + 1 == 256 || f + 1 == 65536 {
        f
    } else {
        f + 1
    }
}

/// The rounded-down square root is unique.
pub proof fn lemma_floor_sqrt_unique(f: int, n: int)
    requires
        is_floor_sqrt(f, n),
    ensures
        floor_sqrt(n) == f,
{
    let g = floor_sqrt(n);
    assert(is_floor_sqrt(g, n));
    if g < f {
        assert((g + 1) * (g + 1) <= f * f) by (nonlinear_arith)
            requires
                0 <= g < f,
        ;
    } else if f < g {
        assert((f + 1) * (f + 1) <= g * g) by (nonlinear_arith)
            requires
                0 <= f < g,
        ;
    }
}

/// Integer square root of `n`, rounded down, by bisection.
fn isqrt(n: u32) -> (r: u32)
    ensures
        is_floor_sqrt(r as int, n as int),
        r < 65536,
{
    let mut lo: u64 = 0;
    let mut hi: u64 = 65536;
    assert(n < 65536 * 65536);
    while hi - lo > 1
        invariant
            lo < hi <= 65536,
            lo * lo <= n,
            n < hi * hi,
        decreases hi - lo,
    {
        let mid = lo + (hi - lo) / 2;
        assert(mid * mid <= 65536 * 65536) by (nonlinear_arith)
            requires
                mid <= 65536,
        ;
        if mid * mid <= n as u64 {
            lo = mid;
        } else {
            hi = mid;
        }
    }
    lo as u32
}

impl Value {
    /// The root nearest to this value (see `nearest_root`) and the offset
    /// from its square back to this value.
    pub fn nearest_sqrt(&self) -> (r: (Value, Offset))
        ensures
            r.0@ == nearest_root(self@ as int),
            is_floor_sqrt(floor_sqrt(self@ as int), self@ as int),
            r.0@ as int * r.0@ as int + r.1@ == self@ as int,
            r.0@ < 65536,
    {
        let n = self.value();
        let f = isqrt(n);
        proof {
            lemma_floor_sqrt_unique(f as int, n as int);
        }
        let ff = f as u64 * f as u64;
        let c = f as u64 + 1;
        assert(c * c <= 65536 * 65536) by (nonlinear_arith)
            requires
                c <= 65536,
        ;
        let below = n as u64 - ff;
        let above = c * c - n as u64;
        if (below < above && f != 16 && f != 256) || c == 16 || c == 256 || c == 65536 {
            (Value(f), Offset(below as i64))
        } else {
            assert(c <= 65535);
            (Value(c as u32), Offset(-(above as i64)))
        }
    }

    /// The offset from this value to `other`, when both lie on the same side
    /// of 256; a run of increments or decrements between values on opposite
    /// sides would pass through 256 and reset.
    pub fn offset_to(self, other: Value) -> (r: Option<Offset>)
        ensures
            r is Some <==> ((self@ < 256) == (other@ < 256)),
            r is Some ==> r->0@ == other@ - self@,
    {
        let a = self.value();
        let b = other.value();
        if (a < 256) == (b < 256) {
            Some(Offset(b as i64 - a as i64))
        } else {
            None
        }
    }

    /// Computes the inverse operation on the value, where one exists.
    pub fn apply_inverse(self, inst: Inst) -> (r: Option<Value>)
        ensures
            inst == Inst::I ==> (r is Some <==> is_normal(pred_word(self@))),
            inst == Inst::I && r is Some ==> r->0@ == pred_word(self@),
            inst == Inst::D ==> (r is Some <==> is_normal(succ_word(self@))),
            inst == Inst::D && r is Some ==> r->0@ == succ_word(self@),
            inst == Inst::S ==> (r is Some <==> (floor_sqrt(self@ as int) * floor_sqrt(
                self@ as int,
            ) == self@ && is_normal(floor_sqrt(self@ as int) as u32))),
            inst == Inst::S && r is Some ==> r->0@ == floor_sqrt(self@ as int),
            inst == Inst::O || inst == Inst::Blank ==> r == Some(self),
    {
        let n = self.value();
        match inst {
            Inst::I => Value::from_checked(n.wrapping_sub(1)),
            Inst::D => Value::from_checked(n.wrapping_add(1)),
            Inst::S => {
                let f = isqrt(n);
                proof {
                    lemma_floor_sqrt_unique(f as int, n as int);
                }
                if f as u64 * f as u64 == n as u64 {
                    Value::from_checked(f)
                } else {
                    None
                }
            },
            _ => Some(self),
        }
    }
}

/// The word before `n`, wrapping.
pub open spec fn pred_word(n: u32) -> u32 {
    if n == 0 {
        0xffff_ffff
    } else {
        (n - 1) as u32
    }
}

/// The word after `n`, wrapping.
pub open spec fn succ_word(n: u32) -> u32 {
    if n == 0xffff_ffff {
        0
    } else {
        (n + 1) as u32
    }
}

impl Offset {
    /// The offset of magnitude `offset`, negative when `is_negative`.
    pub fn new(offset: u32, is_negative: bool) -> (r: Offset)
        ensures
            r@ == (if is_negative { -(offset as int) } else { offset as int }),
    {
        if is_negative {
            Offset(-(offset as i64))
        } else {
            Offset(offset as i64)
        }
    }

    /// The magnitude, saturated to `u32::MAX`.
    pub fn abs(&self) -> (r: u32)
        ensures
            r == (if abs_int(self@) > u32::MAX { u32::MAX as int } else { abs_int(self@) }),
    {
        if self.0 < -(u32::MAX as i64) || self.0 > u32::MAX as i64 {
            u32::MAX
        } else if self.0 < 0 {
            (-self.0) as u32
        } else {
            self.0 as u32
        }
    }

    /// The number of instructions the offset takes.
    pub fn len(&self) -> (r: usize)
        ensures
            r == (if abs_int(self@) > u32::MAX { u32::MAX as int } else { abs_int(self@) }),
    {
        self.abs() as usize
    }

    pub fn is_negative(&self) -> (r: bool)
        ensures
            r == (self@ < 0),
    {
        self.0 < 0
    }
}


/// How offsets are ordered: by magnitude, and on equal magnitude the
/// non-negative (increment) offset first.
pub open spec fn offset_order(a: int, b: int) -> std::cmp::Ordering {
    if a == b {
        std::cmp::Ordering::Equal
    } else if abs_int(a) < abs_int(b) || (abs_int(a) == abs_int(b) && a >= 0) {
        std::cmp::Ordering::Less
    } else {
        std::cmp::Ordering::Greater
    }
}

impl Offset {
    /// Compares by magnitude; of `+k` and `-k`, `+k` comes first.
    pub fn cmp(&self, other: &Offset) -> (r: std::cmp::Ordering)
        ensures
            r == offset_order(self@, other@),
    {
        if self.0 == other.0 {
            std::cmp::Ordering::Equal
        } else {
            let x: i128 = if self.0 < 0 { -(self.0 as i128) } else { self.0 as i128 };
            let y: i128 = if other.0 < 0 { -(other.0 as i128) } else { other.0 as i128 };
            if x < y || x == y && !self.is_negative() {
                std::cmp::Ordering::Less
            } else {
                std::cmp::Ordering::Greater
            }
        }
    }
}

impl PartialOrd for Offset {
    fn partial_cmp(&self, other: &Offset) -> (r: Option<std::cmp::Ordering>) {
        Some(self.cmp(other))
    }
}

impl vstd::std_specs::cmp::PartialOrdSpecImpl for Offset {
    open spec fn obeys_partial_cmp_spec() -> bool {
        true
    }

    open spec fn partial_cmp_spec(&self, other: &Offset) -> Option<std::cmp::Ordering> {
        Some(offset_order(self@, other@))
    }
}

impl From<u32> for Value {
    /// The value reset to zero where the machine would reset it.
    fn from(n: u32) -> (r: Value)
        ensures
            r@ == normalized(n),
    {
        Value::from_u32(n)
    }
}

impl vstd::std_specs::convert::FromSpecImpl<u32> for Value {
    open spec fn obeys_from_spec() -> bool {
        true
    }

    closed spec fn from_spec(n: u32) -> Value {
        Value(normalized(n))
    }
}

impl From<i32> for Value {
    /// The value of a signed word, reset where the machine would reset it.
    fn from(n: i32) -> (r: Value)
        ensures
            r@ == normalized(n as u32),
    {
        Value::from_i32(n)
    }
}

impl vstd::std_specs::convert::FromSpecImpl<i32> for Value {
    open spec fn obeys_from_spec() -> bool {
        true
    }

    closed spec fn from_spec(n: i32) -> Value {
        Value(normalized(n as u32))
    }
}

impl From<i64> for Offset {
    fn from(offset: i64) -> (r: Offset) {
        Offset(offset)
    }
}

impl vstd::std_specs::convert::FromSpecImpl<i64> for Offset {
    open spec fn obeys_from_spec() -> bool {
        true
    }

    open spec fn from_spec(offset: i64) -> Offset {
        Offset(offset)
    }
}

impl Default for Value {
    fn default() -> (r: Value)
        ensures
            r@ == 0,
    {
        Value::new()
    }
}

impl Default for Offset {
    fn default() -> (r: Offset)
        ensures
            r@ == 0,
    {
        Offset(0)
    }
}

/// Whatever word a value is made from, the machine can hold the result: it is
/// never 256 nor the all-ones pattern.
pub proof fn lemma_normalized_is_normal(m: u32)
    ensures
        is_normal(normalized(m)),
        normalized(m) != 256,
        normalized(m) != 0xffff_ffff,
{
}

} // verus!
