//! Small input-validation helpers shared by the upload and fetch paths.

use crate::text::{char_is_whitespace, is_space, lower_of, str_eq, to_lowercase};
use vstd::prelude::*;
use vstd::string::{StrSliceExecFns, StringSliceAdditionalSpecFns};

verus! {

/// A candidate upload size is acceptable when it does not exceed the
/// configured ceiling.
pub fn validate_file_size(size: usize, max_size: usize) -> (r: bool)
    ensures
        r == (size <= max_size),
{
    size <= max_size
}

/// The part of a filename after its final `.`; the whole name when it has
/// none; empty when it ends in `.`.
pub open spec fn extension_of(s: Seq<char>) -> Seq<char>
    decreases s.len(),
{
    if s.len() == 0 {
        s
    } else if s.last() == '.' {
        Seq::empty()
    } else {
        extension_of(s.drop_last()).push(s.last())
    }
}

/// Whether the filename's extension, lowercased, is one of the allowed
/// extensions.
#[verifier::loop_isolation(false)]
pub fn validate_file_extension(filename: &str, allowed_extensions: &[&str]) -> (r: bool)
    ensures
        r == exists|i: int|
            0 <= i < allowed_extensions@.len() && (#[trigger] allowed_extensions@[i])@ == lower_of(
                extension_of(filename@),
            ),
{
    let n = filename.unicode_len();
    let mut start: usize = n;
    proof {
        assert(filename@.take(n as int) =~= filename@);
        assert(filename@.subrange(n as int, n as int) =~= Seq::<char>::empty());
        assert(extension_of(filename@) + Seq::<char>::empty() =~= extension_of(filename@));
    }
    while start > 0 && filename.get_char(start - 1) != '.'
        invariant
            start <= n,
            extension_of(filename@) == extension_of(filename@.take(start as int))
                + filename@.subrange(start as int, n as int),
        decreases start,
    {
        proof {
            assert(filename@.take(start as int).last() == filename@[start - 1]);
            assert(filename@.take(start as int).drop_last() =~= filename@.take(start - 1));
            assert(extension_of(filename@.take(start as int)) + filename@.subrange(
                start as int,
                n as int,
            ) =~= extension_of(filename@.take(start - 1)) + filename@.subrange(
                start - 1,
                n as int,
            ));
        }
        start = start - 1;
    }
    let ext = filename.substring_char(start, n);
    proof {
        if start > 0 {
            assert(filename@.take(start as int).last() == filename@[start - 1]);
            assert(extension_of(filename@.take(start as int)) == Seq::<char>::empty());
        } else {
            assert(filename@.take(0) =~= Seq::<char>::empty());
        }
        assert(extension_of(filename@) =~= filename@.subrange(start as int, n as int));
    }
    let lowered = to_lowercase(ext);
    let m = allowed_extensions.len();
    let mut i: usize = 0;
    while i < m
        invariant
            i <= m,
            forall|j: int|
                0 <= j < i ==> (#[trigger] allowed_extensions@[j])@ != lower_of(
                    extension_of(filename@),
                ),
        decreases m - i,
    {
        if str_eq(allowed_extensions[i], lowered.as_str()) {
            return true;
        }
        i = i + 1;
    }
    false
}

/// Whether `url` parses as a URL; a fixed property of the text.
pub uninterp spec fn url_ok(s: Seq<char>) -> bool;

/// Relies on url::Url::parse: whether parsing succeeds depends on the
/// input text alone.
#[verifier::external_body]
pub fn validate_url(url: &str) -> (r: bool)
    ensures
        r == url_ok(url@),
{
    url::Url::parse(url).is_ok()
}

/// Whether the string holds nothing but white space.
#[verifier::loop_isolation(false)]
pub fn is_empty_or_whitespace(s: &str) -> (r: bool)
    ensures
        r == forall|i: int| 0 <= i < s@.len() ==> is_space(#[trigger] s@[i]),
{
    let n = s.unicode_len();
    let mut i: usize = 0;
    while i < n
        invariant
            i <= n,
            forall|j: int| 0 <= j < i ==> is_space(#[trigger] s@[j]),
        decreases n - i,
    {
        if !char_is_whitespace(s.get_char(i)) {
            return false;
        }
        i = i + 1;
    }
    true
}

/// Whether the string's length in bytes lies within the given bounds.
pub fn validate_string_length(s: &str, min_len: usize, max_len: usize) -> (r: bool)
    ensures
        r == (min_len <= s.spec_bytes().len() as usize <= max_len),
{
    let len = s.len();
    min_len <= len && len <= max_len
}

/// The token of a bearer authorization header: what follows "Bearer ".
pub fn extract_bearer_token(authorization: &str) -> (r: Option<&str>)
    ensures
        authorization@.len() >= 7 && authorization@.subrange(0, 7) == "Bearer "@ ==> (
        r matches Some(t) && t@ == authorization@.subrange(7, authorization@.len() as int)),
        !(authorization@.len() >= 7 && authorization@.subrange(0, 7) == "Bearer "@) ==> r is None,
{
    let n = authorization.unicode_len();
    if n < 7 {
        proof {
            reveal_strlit("Bearer ");
            assert("Bearer "@.len() == 7);
        }
        return None;
    }
    let is_bearer = authorization.get_char(0) == 'B' && authorization.get_char(1) == 'e'
        && authorization.get_char(2) == 'a' && authorization.get_char(3) == 'r'
        && authorization.get_char(4) == 'e' && authorization.get_char(5) == 'r'
        && authorization.get_char(6) == ' ';
    proof {
        reveal_strlit("Bearer ");
        assert("Bearer "@.len() == 7);
        if is_bearer {
            assert(authorization@.subrange(0, 7) =~= "Bearer "@);
        } else {
            assert(authorization@.subrange(0, 7) != "Bearer "@) by {
                if authorization@.subrange(0, 7) == "Bearer "@ {
                    assert(authorization@.subrange(0, 7)[0] == 'B');
                    assert(authorization@.subrange(0, 7)[1] == 'e');
                    assert(authorization@.subrange(0, 7)[2] == 'a');
                    assert(authorization@.subrange(0, 7)[3] == 'r');
                    assert(authorization@.subrange(0, 7)[4] == 'e');
                    assert(authorization@.subrange(0, 7)[5] == 'r');
                    assert(authorization@.subrange(0, 7)[6] == ' ');
                }
            }
        }
    }
    if is_bearer {
        Some(authorization.substring_char(7, n))
    } else {
        None
    }
}

} // verus!
