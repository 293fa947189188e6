use vstd::prelude::*;

verus! {

/// Relies on String::push: appends exactly one character at the end.
#[verifier::external_body]
pub fn push_char(s: &mut String, c: char)
    ensures
        final(s)@ == old(s)@.push(c),
{
    s.push(c);
}

/// A string holding the single character `c`.
pub fn char_str(c: char) -> (s: String)
    ensures
        s@ == seq![c],
{
    let mut s = String::new();
    push_char(&mut s, c);
    proof {
        assert(s@ =~= seq![c]);
    }
    s
}

/// The decimal digit character for a value below ten.
pub open spec fn spec_digit_char(d: int) -> char
    recommends
        0 <= d < 10,
{
    seq!['0', '1', '2', '3', '4', '5', '6', '7', '8', '9'][if 0 <= d < 10 {
        d
    } else {
        0
    }]
}

/// The decimal text of a number, most significant digit first.
pub open spec fn spec_nat_str(n: nat) -> Seq<char>
    decreases n,
{
    if n < 10 {
        seq![spec_digit_char(n as int)]
    } else {
        spec_nat_str(n / 10).push(spec_digit_char((n % 10) as int))
    }
}

/// The decimal text of an unsigned 32-bit value.
pub open spec fn spec_u32_str(n: u32) -> Seq<char> {
    spec_nat_str(n as nat)
}

fn digit_char(d: u32) -> (c: char)
    requires
        d < 10,
    ensures
        c == spec_digit_char(d as int),
{
    if d == 0 {
        '0'
    } else if d == 1 {
        '1'
    } else if d == 2 {
        '2'
    } else if d == 3 {
        '3'
    } else if d == 4 {
        '4'
    } else if d == 5 {
        '5'
    } else if d == 6 {
        '6'
    } else if d == 7 {
        '7'
    } else if d == 8 {
        '8'
    } else {
        '9'
    }
}

/// Renders an unsigned 32-bit value in decimal.
pub fn u32_str(n: u32) -> (s: String)
    ensures
        s@ == spec_u32_str(n),
    decreases n,
{
    if n < 10 {
        char_str(digit_char(n))
    } else {
        let mut s = u32_str(n / 10);
        push_char(&mut s, digit_char(n % 10));
        s
    }
}

fn digit_char_us(d: usize) -> (c: char)
    requires
        d < 10,
    ensures
        c == spec_digit_char(d as int),
{
    if d == 0 {
        '0'
    } else if d == 1 {
        '1'
    } else if d == 2 {
        '2'
    } else if d == 3 {
        '3'
    } else if d == 4 {
        '4'
    } else if d == 5 {
        '5'
    } else if d == 6 {
        '6'
    } else if d == 7 {
        '7'
    } else if d == 8 {
        '8'
    } else {
        '9'
    }
}

/// Renders a machine-sized value in decimal.
pub fn usize_str(n: usize) -> (s: String)
    ensures
        s@ == spec_nat_str(n as nat),
    decreases n,
{
    if n < 10 {
        char_str(digit_char_us(n))
    } else {
        let mut s = usize_str(n / 10);
        push_char(&mut s, digit_char_us(n % 10));
        s
    }
}

} // verus!
