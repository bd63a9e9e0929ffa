//! URL-shaped text handling: percent-encoding, trailing-slash trimming,
//! and extraction of a URL's final path segment.

use crate::text::push_char;
use vstd::prelude::*;
use vstd::string::{StrSliceExecFns, StringExecFns, StringSliceAdditionalSpecFns};

verus! {

/// A byte that percent-encoding leaves as itself: an ASCII alphanumeric or
/// one of `-`, `.`, `_`, `~`.
pub open spec fn is_unreserved(b: u8) -> bool {
    (48 <= b <= 57) || (65 <= b <= 90) || (97 <= b <= 122) || b == 45 || b == 46 || b == 95 || b
        == 126
}

/// The uppercase hexadecimal character for one nibble.
pub open spec fn hex_upper_digit(d: int) -> char {
    if d < 10 {
        ((48 + d) as u8) as char
    } else {
        ((55 + d) as u8) as char
    }
}

/// The percent-encoding of one byte.
pub open spec fn percent_encoded_byte(b: u8) -> Seq<char> {
    if is_unreserved(b) {
        seq![b as char]
    } else {
        seq!['%', hex_upper_digit((b as int) / 16), hex_upper_digit((b as int) % 16)]
    }
}

/// The percent-encoding of a byte string, byte by byte.
pub open spec fn percent_encoded(bytes: Seq<u8>) -> Seq<char>
    decreases bytes.len(),
{
    if bytes.len() == 0 {
        Seq::empty()
    } else {
        percent_encoded_byte(bytes[0]) + percent_encoded(bytes.subrange(1, bytes.len() as int))
    }
}

/// Percent-encodes the UTF-8 bytes of a string, leaving only unreserved
/// bytes as they are, as `urlencoding::encode` renders them.
pub fn urlencode(s: &str) -> (r: String)
    ensures
        r@ == percent_encoded(s.spec_bytes()),
{
    let bytes = s.as_bytes();
    let n = bytes.len();
    let mut out = String::new();
    let mut i: usize = 0;
    proof {
        lemma_percent_encoded_take(bytes@, 0);
    }
    while i < n
        invariant
            n == bytes@.len(),
            i <= n,
            bytes@ == s.spec_bytes(),
            out@ =~= percent_encoded(bytes@.take(i as int)),
        decreases n - i,
    {
        let b = bytes[i];
        if (48 <= b && b <= 57) || (65 <= b && b <= 90) || (97 <= b && b <= 122) || b == 45 || b
            == 46 || b == 95 || b == 126 {
            push_char(&mut out, b as char);
        } else {
            push_char(&mut out, '%');
            push_char(&mut out, upper_nibble_char(b / 16));
            push_char(&mut out, upper_nibble_char(b % 16));
        }
        proof {
            lemma_percent_encoded_take(bytes@, i + 1);
            assert(bytes@.take(i + 1).drop_last() =~= bytes@.take(i as int));
            assert(out@ =~= percent_encoded(bytes@.take(i + 1)));
        }
        i = i + 1;
    }
    proof {
        assert(bytes@.take(n as int) =~= bytes@);
    }
    out
}

fn upper_nibble_char(d: u8) -> (c: char)
    requires
        d < 16,
    ensures
        c == hex_upper_digit(d as int),
{
    if d < 10 {
        (48 + d) as char
    } else {
        (55 + d) as char
    }
}

/// The encoding of a prefix, extended by the encoding of the next byte.
proof fn lemma_percent_encoded_take(bytes: Seq<u8>, k: int)
    requires
        0 <= k <= bytes.len(),
    ensures
        k == 0 ==> percent_encoded(bytes.take(k)) == Seq::<char>::empty(),
        k > 0 ==> percent_encoded(bytes.take(k)) == percent_encoded(bytes.take(k - 1))
            + percent_encoded_byte(bytes[k - 1]),
    decreases k,
{
    if k > 0 {
        lemma_percent_encoded_snoc(bytes.take(k));
        assert(bytes.take(k).drop_last() =~= bytes.take(k - 1));
    }
}

/// Encoding a non-empty byte string encodes all but its last byte, then the
/// last byte.
proof fn lemma_percent_encoded_snoc(bytes: Seq<u8>)
    requires
        bytes.len() > 0,
    ensures
        percent_encoded(bytes) == percent_encoded(bytes.drop_last()) + percent_encoded_byte(
            bytes.last(),
        ),
    decreases bytes.len(),
{
    if bytes.len() == 1 {
        assert(bytes.drop_last() =~= Seq::<u8>::empty());
        assert(percent_encoded(bytes.drop_last()) == Seq::<char>::empty());
        assert(bytes.subrange(1, bytes.len() as int) =~= Seq::<u8>::empty());
        assert(percent_encoded(bytes) =~= percent_encoded_byte(bytes[0]));
        assert(percent_encoded(bytes.drop_last()) + percent_encoded_byte(bytes.last())
            =~= percent_encoded_byte(bytes[0]));
    } else {
        let tail = bytes.subrange(1, bytes.len() as int);
        lemma_percent_encoded_snoc(tail);
        assert(tail.drop_last() =~= bytes.drop_last().subrange(
            1,
            bytes.drop_last().len() as int,
        ));
        assert(tail.last() == bytes.last());
        assert(percent_encoded(bytes) == percent_encoded_byte(bytes[0]) + (percent_encoded(
            tail.drop_last(),
        ) + percent_encoded_byte(bytes.last())));
        assert(percent_encoded(bytes.drop_last()) == percent_encoded_byte(bytes[0])
            + percent_encoded(tail.drop_last()));
    }
}

/// A string with every trailing `/` removed.
pub open spec fn trimmed_end_slashes(s: Seq<char>) -> Seq<char>
    decreases s.len(),
{
    if s.len() > 0 && s.last() == '/' {
        trimmed_end_slashes(s.drop_last())
    } else {
        s
    }
}

/// Removes every trailing `/` from a string, as `trim_end_matches('/')`
/// does.
pub fn trim_end_slashes(s: &str) -> (r: String)
    ensures
        r@ == trimmed_end_slashes(s@),
{
    let n = s.unicode_len();
    let mut end: usize = n;
    proof {
        assert(s@.take(n as int) =~= s@);
    }
    while end > 0 && s.get_char(end - 1) == '/'
        invariant
            end <= n,
            n == s@.len(),
            trimmed_end_slashes(s@) == trimmed_end_slashes(s@.take(end as int)),
        decreases end,
    {
        proof {
            assert(s@.take(end as int).last() == s@[end - 1]);
            assert(s@.take(end as int).drop_last() =~= s@.take(end - 1));
        }
        end = end - 1;
    }
    let r = s.substring_char(0, end);
    proof {
        if end > 0 {
            assert(s@.take(end as int).last() == s@[end - 1]);
        }
        assert(trimmed_end_slashes(s@.take(end as int)) == s@.take(end as int));
        assert(r@ =~= s@.take(end as int));
    }
    String::from_str(r)
}

/// The part of a URL after its final `/`; the whole string when it has no
/// `/`; empty when it ends in `/`.
pub open spec fn last_segment(s: Seq<char>) -> Seq<char>
    decreases s.len(),
{
    if s.len() == 0 {
        s
    } else if s.last() == '/' {
        Seq::empty()
    } else {
        last_segment(s.drop_last()).push(s.last())
    }
}

/// The trailing path segment of a URL: what follows the last `/`.
pub fn url_last_segment(s: &str) -> (r: String)
    ensures
        r@ == last_segment(s@),
{
    let n = s.unicode_len();
    let mut start: usize = n;
    proof {
        assert(s@.take(n as int) =~= s@);
        assert(s@.subrange(n as int, n as int) =~= Seq::<char>::empty());
        assert(last_segment(s@) + Seq::<char>::empty() =~= last_segment(s@));
    }
    while start > 0 && s.get_char(start - 1) != '/'
        invariant
            start <= n,
            n == s@.len(),
            last_segment(s@) == last_segment(s@.take(start as int)) + s@.subrange(
                start as int,
                n as int,
            ),
        decreases start,
    {
        proof {
            assert(s@.take(start as int).last() == s@[start - 1]);
            assert(s@.take(start as int).drop_last() =~= s@.take(start - 1));
            assert(last_segment(s@.take(start as int)) + s@.subrange(start as int, n as int)
                =~= last_segment(s@.take(start - 1)) + s@.subrange(start - 1, n as int));
        }
        start = start - 1;
    }
    let r = s.substring_char(start, n);
    proof {
        if start > 0 {
            assert(s@.take(start as int).last() == s@[start - 1]);
            assert(last_segment(s@.take(start as int)) == Seq::<char>::empty());
        } else {
            assert(s@.take(0) =~= Seq::<char>::empty());
            assert(last_segment(s@.take(0)) == s@.take(0));
        }
        assert(last_segment(s@) =~= s@.subrange(start as int, n as int));
        assert(r@ == s@.subrange(start as int, n as int));
    }
    String::from_str(r)
}

} // verus!
