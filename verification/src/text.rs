//! Decimal text: the digits of region codes and of catalog versions.

use vstd::prelude::*;

verus! {

/// `String::push` appends one character to the text of the string.
pub assume_specification[ String::push ](s: &mut String, ch: char)
    ensures
        final(s)@ == old(s)@.push(ch),
;

/// Whether `c` is one of the ten ASCII digits.
pub open spec fn is_digit(c: char) -> bool {
    48 <= c as u32 <= 57
}

/// The number that the ASCII digit `c` stands for.
pub open spec fn digit_value(c: char) -> nat
    recommends
        is_digit(c),
{
    (c as u32 - 48) as nat
}

/// The ASCII digit that stands for `d`.
pub open spec fn digit_char(d: nat) -> char
    recommends
        d < 10,
{
    ((48 + d) as u8) as char
}

/// The decimal digits of `n`, without leading zeros.
pub open spec fn decimal(n: nat) -> Seq<char>
    decreases n,
{
    if n < 10 {
        seq![digit_char(n)]
    } else {
        decimal(n / 10).push(digit_char(n % 10))
    }
}

/// The decimal digits of `n`, after a minus sign if it is negative.
pub open spec fn signed_decimal(n: int) -> Seq<char> {
    if n < 0 {
        seq!['-'] + decimal((-n) as nat)
    } else {
        decimal(n as nat)
    }
}

/// The ASCII digit for a number below ten.
pub fn digit_to_char(d: u8) -> (c: char)
    requires
        d < 10,
    ensures
        c == digit_char(d as nat),
        is_digit(c),
        digit_value(c) == d,
{
    (48u8 + d) as char
}

/// Appends the decimal digits of `n` to `out`.
pub fn push_decimal(out: &mut String, n: u32)
    ensures
        final(out)@ == old(out)@ + decimal(n as nat),
{
    let mut rest: u32 = n;
    let mut low: Vec<char> = Vec::new();
    while rest >= 10
        invariant
            decimal(n as nat) == decimal(rest as nat) + Seq::new(
                low@.len(),
                |i: int| low@[low@.len() - 1 - i],
            ),
        decreases rest,
    {
        let ghost before = Seq::new(low@.len(), |i: int| low@[low@.len() - 1 - i]);
        let c: char = digit_to_char((rest % 10) as u8);
        low.push(c);
        proof {
            let after = Seq::new(low@.len(), |i: int| low@[low@.len() - 1 - i]);
            assert(after =~= seq![c] + before);
            assert(decimal(rest as nat) == decimal((rest / 10) as nat).push(c));
            assert(decimal((rest / 10) as nat).push(c) + before =~= decimal((rest / 10) as nat)
                + after);
        }
        rest = rest / 10;
    }
    let ghost start = out@;
    let ghost tail = Seq::new(low@.len(), |i: int| low@[low@.len() - 1 - i]);
    out.push(digit_to_char(rest as u8));
    let mut left: usize = low.len();
    while left > 0
        invariant
            left <= low@.len(),
            tail == Seq::new(low@.len(), |i: int| low@[low@.len() - 1 - i]),
            out@ == start + decimal(rest as nat) + tail.take(low@.len() - left),
        decreases left,
    {
        left = left - 1;
        out.push(low[left]);
        proof {
            let done = low@.len() - left;
            assert(tail.take(done) =~= tail.take(done - 1).push(low@[left as int]));
        }
    }
    assert(tail.take(low@.len() as int) =~= tail);
    assert(start + decimal(rest as nat) + tail =~= start + (decimal(rest as nat) + tail));
}

/// The decimal digits of `n` as a string.
pub fn decimal_string(n: u32) -> (s: String)
    ensures
        s@ == decimal(n as nat),
{
    let mut s: String = String::new();
    push_decimal(&mut s, n);
    assert(Seq::<char>::empty() + decimal(n as nat) =~= decimal(n as nat));
    s
}

} // verus!
