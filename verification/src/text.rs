//! Small executable helpers for strings and characters.

use vstd::prelude::*;
use vstd::std_specs::iter::IteratorSpec;
use vstd::string::StrSliceExecFns;

verus! {

broadcast use vstd::string::group_string_axioms;

/// Decides equality of two string slices, character by character.
pub fn str_eq(a: &str, b: &str) -> (r: bool)
    ensures
        r == (a@ == b@),
{
    let alen = a.unicode_len();
    let blen = b.unicode_len();
    if alen != blen {
        return false;
    }
    let mut i: usize = 0;
    while i < alen
        invariant
            0 <= i <= alen,
            alen == a@.len(),
            alen == b@.len(),
            forall|j: int| 0 <= j < i ==> a@[j] == b@[j],
        decreases alen - i,
    {
        if a.get_char(i) != b.get_char(i) {
            return false;
        }
        i = i + 1;
    }
    proof {
        assert(a@ =~= b@);
    }
    true
}

/// The digit character for one value below ten.
pub open spec fn digit_char(d: nat) -> char {
    if d == 0 {
        '0'
    } else if d == 1 {
        '1'
    } else if d == 2 {
        '2'
    } else if d == 3 {
        '3'
    } else if d == 4 {
        '4'
    } else if d == 5 {
        '5'
    } else if d == 6 {
        '6'
    } else if d == 7 {
        '7'
    } else if d == 8 {
        '8'
    } else {
        '9'
    }
}

/// The decimal rendering of a number, most significant digit first.
pub open spec fn dec_rep(n: nat) -> Seq<char>
    decreases n,
{
    if n < 10 {
        seq![digit_char(n)]
    } else {
        dec_rep(n / 10) + seq![digit_char(n % 10)]
    }
}

fn exec_digit_char(d: usize) -> (c: char)
    requires
        d < 10,
    ensures
        c == digit_char(d as nat),
{
    if d == 0 {
        '0'
    } else if d == 1 {
        '1'
    } else if d == 2 {
        '2'
    } else if d == 3 {
        '3'
    } else if d == 4 {
        '4'
    } else if d == 5 {
        '5'
    } else if d == 6 {
        '6'
    } else if d == 7 {
        '7'
    } else if d == 8 {
        '8'
    } else {
        '9'
    }
}

/// Renders a number in decimal.
pub fn usize_to_string(n: usize) -> (s: String)
    ensures
        s@ == dec_rep(n as nat),
{
    let mut digits: Vec<char> = Vec::new();
    let mut m: usize = n;
    if m == 0 {
        digits.push('0');
    } else {
        loop
            invariant_except_break
                m >= 1,
                dec_rep(n as nat) =~= dec_rep(m as nat) + digits@,
            ensures
                dec_rep(n as nat) =~= digits@,
            decreases m,
        {
            let d = m % 10;
            proof {
                assert(m % 10 < 10 && (m >= 1 ==> m / 10 < m)) by (nonlinear_arith)
                    requires
                        m >= 1,
                ;
            }
            digits.insert(0, exec_digit_char(d));
            m = m / 10;
            if m == 0 {
                proof {
                    assert(dec_rep(n as nat) =~= digits@);
                }
                break ;
            }
            proof {
                assert(dec_rep(n as nat) =~= dec_rep(m as nat) + digits@);
            }
        }
    }
    chars_to_string(&digits)
}

/// Relies on `String`'s `FromIterator<char>`: collecting characters builds
/// the string that holds exactly those characters, in order.
#[verifier::external_body]
pub fn chars_to_string(v: &Vec<char>) -> (s: String)
    ensures
        s@ == v@,
{
    v.iter().copied().collect()
}

/// Collects the characters of a string slice into a vector.
pub fn collect_chars(s: &str) -> (v: Vec<char>)
    ensures
        v@ == s@,
{
    let mut it = s.chars();
    let mut v: Vec<char> = Vec::new();
    loop
        invariant
            it.obeys_prophetic_iter_laws(),
            v@.len() <= s@.len(),
            v@ == s@.subrange(0, v@.len() as int),
            it.remaining() =~= s@.subrange(v@.len() as int, s@.len() as int),
        ensures
            v@ == s@.subrange(0, v@.len() as int),
            v@.len() == s@.len(),
        decreases s@.len() - v@.len(),
    {
        match it.next() {
            Some(c) => {
                v.push(c);
            },
            None => {
                proof {
                    assert(s@.subrange(v@.len() as int, s@.len() as int).len() == 0);
                    assert(v@.len() == s@.len());
                }
                break ;
            },
        }
    }
    proof {
        assert(v@ =~= s@);
    }
    v
}

} // verus!
