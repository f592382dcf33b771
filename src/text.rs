use vstd::prelude::*;

verus! {

/// Whether `n` is a Unicode scalar value: a code point outside the
/// surrogate range.
pub open spec fn is_scalar(n: u32) -> bool {
    n < 0xd800 || (0xe000 <= n && n <= 0x10ffff)
}

/// Relies on `char::from_u32`: the character with code `n`, exactly when `n`
/// is a Unicode scalar value.
#[verifier::external_body]
pub(crate) fn char_from_u32(n: u32) -> (r: Option<char>)
    ensures
        r is Some <==> is_scalar(n),
        r is Some ==> r->0 as u32 == n,
{
    char::from_u32(n)
}

/// Relies on `String::push`: the character is appended.
#[verifier::external_body]
pub(crate) fn push_char(s: &mut String, c: char)
    ensures
        final(s)@ == old(s)@.push(c),
{
    s.push(c)
}

/// The decimal digit `d`.
pub open spec fn digit_char(d: nat) -> char {
    if d == 0 {
        '0'
    } else if d == 1 {
        '1'
    } else if d == 2 {
        '2'
    } else if d == 3 {
        '3'
    } else if d == 4 {
        '4'
    } else if d == 5 {
        '5'
    } else if d == 6 {
        '6'
    } else if d == 7 {
        '7'
    } else if d == 8 {
        '8'
    } else {
        '9'
    }
}

/// The decimal digits of `n`, most significant first.
pub open spec fn digits(n: nat) -> Seq<char>
    decreases n,
{
    if n < 10 {
        seq![digit_char(n)]
    } else {
        digits(n / 10).push(digit_char(n % 10))
    }
}

/// `n` in decimal, with a leading minus sign when negative.
pub open spec fn decimal(n: int) -> Seq<char> {
    if n < 0 {
        seq!['-'] + digits((-n) as nat)
    } else {
        digits(n as nat)
    }
}

fn digit(d: u32) -> (r: char)
    requires
        d < 10,
    ensures
        r == digit_char(d as nat),
{
    if d == 0 {
        '0'
    } else if d == 1 {
        '1'
    } else if d == 2 {
        '2'
    } else if d == 3 {
        '3'
    } else if d == 4 {
        '4'
    } else if d == 5 {
        '5'
    } else if d == 6 {
        '6'
    } else if d == 7 {
        '7'
    } else if d == 8 {
        '8'
    } else {
        '9'
    }
}

/// Appends `n` in decimal.
pub(crate) fn push_decimal(s: &mut String, n: i32)
    ensures
        final(s)@ == old(s)@ + decimal(n as int),
{
    let ghost start = s@;
    let mut m: u32 = if n < 0 {
        push_char(s, '-');
        (-(n as i64)) as u32
    } else {
        n as u32
    };
    let ghost top = m as nat;
    let mut tail: Vec<char> = Vec::new();
    while m >= 10
        invariant
            digits(top) == digits(m as nat) + tail@,
        decreases m,
    {
        let ghost rest = tail@;
        tail.insert(0, digit(m % 10));
        proof {
            assert(digits(m as nat) == digits((m / 10) as nat).push(digit_char((m % 10) as nat)));
            assert(digits((m / 10) as nat).push(digit_char((m % 10) as nat)) + rest =~= digits(
                (m / 10) as nat,
            ) + tail@);
        }
        m = m / 10;
    }
    tail.insert(0, digit(m));
    assert(digits(top) =~= tail@);
    let ghost mid = s@;
    let mut i: usize = 0;
    while i < tail.len()
        invariant
            i <= tail@.len(),
            s@ == mid + tail@.subrange(0, i as int),
        decreases tail@.len() - i,
    {
        push_char(s, tail[i]);
        assert(tail@.subrange(0, i as int).push(tail@[i as int]) =~= tail@.subrange(0, i + 1));
        i += 1;
    }
    assert(tail@.subrange(0, tail@.len() as int) =~= tail@);
    proof {
        if n < 0 {
            assert(mid == start.push('-'));
            assert(start + decimal(n as int) =~= mid + tail@);
        } else {
            assert(mid == start);
        }
    }
}

/// Appends the characters of `t`.
pub(crate) fn push_chars(s: &mut String, t: &[char])
    ensures
        final(s)@ == old(s)@ + t@,
{
    let ghost start = s@;
    let mut i: usize = 0;
    while i < t.len()
        invariant
            i <= t@.len(),
            s@ == start + t@.subrange(0, i as int),
        decreases t@.len() - i,
    {
        push_char(s, t[i]);
        assert(t@.subrange(0, i as int).push(t@[i as int]) =~= t@.subrange(0, i + 1));
        i += 1;
    }
    assert(t@.subrange(0, t@.len() as int) =~= t@);
}

} // verus!
