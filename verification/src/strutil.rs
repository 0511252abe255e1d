//! Small verified helpers for moving between strings and character vectors.

use vstd::prelude::*;
use vstd::string::StrSliceExecFns;

verus! {

/// Relies on String::push: appends the given character to the end of the
/// string.
#[verifier::external_body]
pub(crate) fn push_char(s: &mut String, c: char)
    ensures
        final(s)@ == old(s)@.push(c),
{
    s.push(c)
}

/// The characters of `s`, as a vector.
pub fn str_chars(s: &str) -> (r: Vec<char>)
    ensures
        r@ == s@,
{
    let n = s.unicode_len();
    let mut r: Vec<char> = Vec::new();
    proof {
        assert(r@ =~= s@.take(0));
    }
    for i in 0..n
        invariant
            n == s@.len(),
            r@ == s@.take(i as int),
    {
        r.push(s.get_char(i));
        proof {
            assert(r@ =~= s@.take(i + 1));
        }
    }
    proof {
        assert(s@.take(n as int) =~= s@);
    }
    r
}

/// A string holding exactly the characters of `v`.
pub fn chars_to_string(v: &Vec<char>) -> (r: String)
    ensures
        r@ == v@,
{
    let mut r = String::new();
    let n = v.len();
    proof {
        assert(r@ =~= v@.take(0));
    }
    for i in 0..n
        invariant
            n == v@.len(),
            r@ == v@.take(i as int),
    {
        push_char(&mut r, v[i]);
        proof {
            assert(r@ =~= v@.take(i + 1));
        }
    }
    proof {
        assert(v@.take(n as int) =~= v@);
    }
    r
}

/// Append every character of `tail` to `s`.
pub fn append_chars(s: &mut Vec<char>, tail: &str)
    ensures
        final(s)@ == old(s)@ + tail@,
{
    let n = tail.unicode_len();
    proof {
        assert(s@ =~= old(s)@ + tail@.take(0));
    }
    for i in 0..n
        invariant
            n == tail@.len(),
            s@ == old(s)@ + tail@.take(i as int),
    {
        s.push(tail.get_char(i));
        proof {
            assert(s@ =~= old(s)@ + tail@.take(i + 1));
        }
    }
    proof {
        assert(tail@.take(n as int) =~= tail@);
    }
}

} // verus!
