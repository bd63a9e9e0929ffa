//! Character and string helpers: equality, decimal rendering, and the one
//! string-building primitive the rest of the crate uses.

use vstd::prelude::*;
use vstd::string::{StrSliceExecFns, StringExecFns};

verus! {

/// Relies on String::push: appends exactly one character to the string.
#[verifier::external_body]
pub fn push_char(s: &mut String, c: char)
    ensures
        final(s)@ == old(s)@.push(c),
{
    s.push(c);
}

/// Character-wise string equality, decided without any trusted comparison.
pub fn str_eq(a: &str, b: &str) -> (r: bool)
    ensures
        r == (a@ == b@),
{
    let n = a.unicode_len();
    let m = b.unicode_len();
    if n != m {
        return false;
    }
    let mut i: usize = 0;
    while i < n
        invariant
            n == a@.len(),
            n == b@.len(),
            i <= n,
            forall|j: int| 0 <= j < i ==> a@[j] == b@[j],
        decreases n - i,
    {
        if a.get_char(i) != b.get_char(i) {
            return false;
        }
        i = i + 1;
    }
    proof {
        assert(a@ =~= b@);
    }
    true
}

/// The character for one decimal digit.
pub open spec fn dec_digit(d: int) -> char {
    ((48 + d) as u8) as char
}

/// The decimal rendering of a natural number, most significant digit first.
pub open spec fn dec_str(n: nat) -> Seq<char>
    decreases n,
{
    if n < 10 {
        seq![dec_digit(n as int)]
    } else {
        dec_str(n / 10).push(dec_digit((n % 10) as int))
    }
}

/// Renders a number in decimal, as `format!("{}", n)` would.
pub fn u64_to_string(n: u64) -> (r: String)
    ensures
        r@ == dec_str(n as nat),
{
    let mut m: u64 = n;
    let mut digits: Vec<char> = Vec::new();
    digits.push((48 + (m % 10) as u8) as char);
    m = m / 10;
    while m > 0
        invariant
            dec_str(n as nat) =~= if m > 0 {
                dec_str(m as nat) + digits@.reverse()
            } else {
                digits@.reverse()
            },
        decreases m,
    {
        let d: char = (48 + (m % 10) as u8) as char;
        digits.push(d);
        proof {
            assert(digits@.reverse() =~= seq![d] + digits@.drop_last().reverse());
        }
        m = m / 10;
    }
    let mut s = String::new();
    let total = digits.len();
    let mut i: usize = 0;
    while i < total
        invariant
            total == digits@.len(),
            i <= total,
            s@ =~= digits@.reverse().take(i as int),
        decreases total - i,
    {
        let c = digits[total - 1 - i];
        push_char(&mut s, c);
        proof {
            assert(s@ =~= digits@.reverse().take(i + 1));
        }
        i = i + 1;
    }
    proof {
        assert(s@ =~= digits@.reverse());
    }
    s
}


/// Whether a character has the Unicode white-space property.
pub uninterp spec fn is_space(c: char) -> bool;

/// Relies on char::is_whitespace: the property depends on the character
/// alone, and the ASCII blank characters have it.
#[verifier::external_body]
pub fn char_is_whitespace(c: char) -> (r: bool)
    ensures
        r == is_space(c),
        c == ' ' || c == '\t' || c == '\n' || c == '\r' ==> r,
{
    c.is_whitespace()
}

/// The lowercase mapping of a string.
pub uninterp spec fn lower_of(s: Seq<char>) -> Seq<char>;

/// Relies on str::to_lowercase: the result depends on the characters
/// alone, and an empty string stays empty.
#[verifier::external_body]
pub fn to_lowercase(s: &str) -> (r: String)
    ensures
        r@ == lower_of(s@),
        s@.len() == 0 ==> r@.len() == 0,
{
    s.to_lowercase()
}

/// A string with its leading white space removed.
pub open spec fn trim_start_spaces(s: Seq<char>) -> Seq<char>
    decreases s.len(),
{
    if s.len() > 0 && is_space(s[0]) {
        trim_start_spaces(s.subrange(1, s.len() as int))
    } else {
        s
    }
}

/// A string with its trailing white space removed.
pub open spec fn trim_end_spaces(s: Seq<char>) -> Seq<char>
    decreases s.len(),
{
    if s.len() > 0 && is_space(s.last()) {
        trim_end_spaces(s.drop_last())
    } else {
        s
    }
}

/// A string with white space removed from both ends, as `str::trim` leaves
/// it.
pub open spec fn trimmed_spaces(s: Seq<char>) -> Seq<char> {
    trim_end_spaces(trim_start_spaces(s))
}

/// Removes white space from both ends of a string.
#[verifier::loop_isolation(false)]
pub fn trim_spaces(s: &str) -> (r: String)
    ensures
        r@ == trimmed_spaces(s@),
{
    let n = s.unicode_len();
    let mut start: usize = 0;
    proof {
        assert(s@.subrange(0, n as int) =~= s@);
    }
    while start < n && char_is_whitespace(s.get_char(start))
        invariant
            start <= n,
            trim_start_spaces(s@) == trim_start_spaces(s@.subrange(start as int, n as int)),
        decreases n - start,
    {
        proof {
            let u = s@.subrange(start as int, n as int);
            assert(u[0] == s@[start as int]);
            assert(u.subrange(1, u.len() as int) =~= s@.subrange(start + 1, n as int));
        }
        start = start + 1;
    }
    proof {
        let u = s@.subrange(start as int, n as int);
        if start < n {
            assert(u[0] == s@[start as int]);
        }
        assert(trim_start_spaces(s@) == u);
    }
    let mut end: usize = n;
    while end > start && char_is_whitespace(s.get_char(end - 1))
        invariant
            start <= end <= n,
            trim_end_spaces(s@.subrange(start as int, n as int)) == trim_end_spaces(
                s@.subrange(start as int, end as int),
            ),
        decreases end,
    {
        proof {
            let u = s@.subrange(start as int, end as int);
            assert(u.last() == s@[end - 1]);
            assert(u.drop_last() =~= s@.subrange(start as int, end - 1));
        }
        end = end - 1;
    }
    let r = s.substring_char(start, end);
    proof {
        let u = s@.subrange(start as int, end as int);
        if end > start {
            assert(u.last() == s@[end - 1]);
        }
        assert(trim_end_spaces(u) == u);
        assert(r@ == u);
    }
    String::from_str(r)
}

} // verus!
