//! Lowercase hexadecimal rendering of byte strings, fully specified: each
//! byte becomes two digits, high nibble first.

use crate::text::push_char;
use vstd::prelude::*;

verus! {

/// The lowercase hexadecimal character for one nibble.
pub open spec fn hex_digit(d: int) -> char {
    if d < 10 {
        ((48 + d) as u8) as char
    } else {
        ((87 + d) as u8) as char
    }
}

/// The lowercase hexadecimal rendering of a byte string: two digits per
/// byte, high nibble first.
pub open spec fn hex_of(bytes: Seq<u8>) -> Seq<char> {
    Seq::new(
        2 * bytes.len(),
        |i: int|
            if i % 2 == 0 {
                hex_digit((bytes[i / 2] as int) / 16)
            } else {
                hex_digit((bytes[i / 2] as int) % 16)
            },
    )
}

/// Every character of a hexadecimal rendering is an ASCII lowercase hex
/// digit.
pub proof fn lemma_hex_of_chars(bytes: Seq<u8>)
    ensures
        forall|i: int|
            0 <= i < hex_of(bytes).len() ==> ('0' <= #[trigger] hex_of(bytes)[i] <= '9' || 'a'
                <= hex_of(bytes)[i] <= 'f'),
{
    assert forall|i: int| 0 <= i < hex_of(bytes).len() implies ('0' <= #[trigger] hex_of(
        bytes,
    )[i] <= '9' || 'a' <= hex_of(bytes)[i] <= 'f') by {
        let b = bytes[i / 2];
        let d: int = if i % 2 == 0 {
            (b as int) / 16
        } else {
            (b as int) % 16
        };
        assert(0 <= d < 16);
        assert(hex_of(bytes)[i] == hex_digit(d));
    }
}

/// Taking a prefix of the input takes twice that prefix of the rendering.
pub proof fn lemma_hex_of_take(bytes: Seq<u8>, k: int)
    requires
        0 <= k <= bytes.len(),
    ensures
        hex_of(bytes.subrange(0, k)) =~= hex_of(bytes).take(2 * k),
{
}

fn nibble_char(d: u8) -> (c: char)
    requires
        d < 16,
    ensures
        c == hex_digit(d as int),
{
    if d < 10 {
        (48 + d) as char
    } else {
        (87 + d) as char
    }
}

/// Renders a byte string as lowercase hexadecimal, as `hex::encode` would.
pub fn hex_encode(bytes: &[u8]) -> (r: String)
    ensures
        r@ == hex_of(bytes@),
{
    let n = bytes.len();
    let mut s = String::new();
    let mut i: usize = 0;
    while i < n
        invariant
            n == bytes@.len(),
            i <= n,
            s@ =~= hex_of(bytes@).take(2 * i as int),
        decreases n - i,
    {
        let b = bytes[i];
        let hi = nibble_char(b / 16);
        let lo = nibble_char(b % 16);
        push_char(&mut s, hi);
        push_char(&mut s, lo);
        proof {
            assert(s@ =~= hex_of(bytes@).take(2 * (i + 1)));
        }
        i = i + 1;
    }
    proof {
        assert(s@ =~= hex_of(bytes@));
    }
    s
}

} // verus!
