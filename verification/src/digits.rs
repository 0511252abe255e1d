//! Decimal notation for the small non-negative integers the store uses as
//! ids: a spec-level definition and a verified renderer.

use vstd::prelude::*;

verus! {

/// Is `c` a decimal digit?
pub open spec fn is_digit(c: char) -> bool {
    '0' <= c && c <= '9'
}

/// The numeric value of the digit `c`.
pub open spec fn digit_val(c: char) -> int {
    c as int - '0' as int
}

/// The digit character for a value below ten.
pub open spec fn digit_char(d: int) -> char {
    if d == 0 {
        '0'
    } else if d == 1 {
        '1'
    } else if d == 2 {
        '2'
    } else if d == 3 {
        '3'
    } else if d == 4 {
        '4'
    } else if d == 5 {
        '5'
    } else if d == 6 {
        '6'
    } else if d == 7 {
        '7'
    } else if d == 8 {
        '8'
    } else {
        '9'
    }
}

/// The decimal notation of `n`: most significant digit first, no leading
/// zeros (and `0` itself written as one digit).
pub open spec fn dec_of(n: int) -> Seq<char>
    decreases n,
{
    if n < 10 {
        seq![digit_char(n)]
    } else {
        dec_of(n / 10).push(digit_char(n % 10))
    }
}

/// Every character of a decimal notation is a digit, and the notation is
/// never empty.
pub proof fn lemma_dec_of_digits(n: int)
    requires
        0 <= n,
    ensures
        dec_of(n).len() >= 1,
        forall|i: int| 0 <= i < dec_of(n).len() ==> is_digit(#[trigger] dec_of(n)[i]),
    decreases n,
{
    if n >= 10 {
        lemma_dec_of_digits(n / 10);
    }
}

/// The digit character of a value below ten carries exactly that value.
pub proof fn lemma_digit_char_val(d: int)
    requires
        0 <= d < 10,
    ensures
        is_digit(digit_char(d)),
        digit_val(digit_char(d)) == d,
{
}

/// The digit character for a value below ten.
pub fn digit_to_char(d: u8) -> (c: char)
    requires
        d < 10,
    ensures
        c == digit_char(d as int),
{
    if d == 0 {
        '0'
    } else if d == 1 {
        '1'
    } else if d == 2 {
        '2'
    } else if d == 3 {
        '3'
    } else if d == 4 {
        '4'
    } else if d == 5 {
        '5'
    } else if d == 6 {
        '6'
    } else if d == 7 {
        '7'
    } else if d == 8 {
        '8'
    } else {
        '9'
    }
}

/// The decimal notation of `n`, as characters.
pub fn u8_to_dec(n: u8) -> (r: Vec<char>)
    ensures
        r@ == dec_of(n as int),
{
    let mut r: Vec<char> = Vec::new();
    if n < 10 {
        r.push(digit_to_char(n));
        proof {
            assert(r@ =~= dec_of(n as int));
        }
    } else if n < 100 {
        r.push(digit_to_char(n / 10));
        r.push(digit_to_char(n % 10));
        proof {
            reveal_with_fuel(dec_of, 3);
            assert((n as int) / 10 < 10);
            assert(r@ =~= dec_of(n as int));
        }
    } else {
        r.push(digit_to_char(n / 100));
        r.push(digit_to_char((n / 10) % 10));
        r.push(digit_to_char(n % 10));
        proof {
            reveal_with_fuel(dec_of, 4);
            assert((n as int) / 10 / 10 == (n as int) / 100);
            assert(r@ =~= dec_of(n as int));
        }
    }
    r
}

} // verus!
