//! HTTP-facing text helpers: identifier validation, filename sanitizing,
//! and parsing of raw HTTP responses.

use crate::text::{
    char_is_whitespace, lower_of, push_char, str_eq, to_lowercase, trim_spaces,
    trimmed_spaces, trim_end_spaces,
};
use vstd::prelude::*;
use vstd::string::{StrSliceExecFns, StringExecFns};

verus! {

/// An ASCII hexadecimal digit, either case.
pub open spec fn is_hex_digit_char(c: char) -> bool {
    ('0' <= c <= '9') || ('a' <= c <= 'f') || ('A' <= c <= 'F')
}

/// A well-formed blob identifier: exactly 16 hexadecimal characters.
pub open spec fn valid_hash_format(s: Seq<char>) -> bool {
    s.len() == 16 && forall|i: int| 0 <= i < s.len() ==> is_hex_digit_char(#[trigger] s[i])
}

fn is_hex_digit(c: char) -> (r: bool)
    ensures
        r == is_hex_digit_char(c),
{
    ('0' <= c && c <= '9') || ('a' <= c && c <= 'f') || ('A' <= c && c <= 'F')
}

/// Whether `hash` is a well-formed blob identifier.
pub fn validate_hash_format(hash: &str) -> (r: bool)
    ensures
        r == valid_hash_format(hash@),
{
    let n = hash.unicode_len();
    if n != 16 {
        return false;
    }
    let mut i: usize = 0;
    while i < n
        invariant
            n == hash@.len(),
            i <= n,
            forall|j: int| 0 <= j < i ==> is_hex_digit_char(#[trigger] hash@[j]),
        decreases n - i,
    {
        if !is_hex_digit(hash.get_char(i)) {
            return false;
        }
        i = i + 1;
    }
    true
}

/// A filename with path separators replaced, character for character.
pub open spec fn sanitized(s: Seq<char>) -> Seq<char> {
    s.map(|_i: int, c: char| if c == '/' || c == '\\' { '_' } else { c })
}

/// Replaces `/` and `\` in a filename with `_`, so the result names no path.
pub fn sanitize_filename(filename: &str) -> (r: String)
    ensures
        r@ == sanitized(filename@),
{
    let n = filename.unicode_len();
    let mut s = String::new();
    let mut i: usize = 0;
    while i < n
        invariant
            n == filename@.len(),
            i <= n,
            s@ =~= sanitized(filename@).take(i as int),
        decreases n - i,
    {
        let c = filename.get_char(i);
        let out = if c == '/' || c == '\\' { '_' } else { c };
        push_char(&mut s, out);
        proof {
            assert(s@ =~= sanitized(filename@).take(i + 1));
        }
        i = i + 1;
    }
    proof {
        assert(s@ =~= sanitized(filename@));
    }
    s
}


/// The position of the first line break in a string, or its length.
pub open spec fn first_newline(s: Seq<char>) -> int
    decreases s.len(),
{
    if s.len() == 0 {
        0
    } else if s[0] == '\n' {
        0
    } else {
        1 + first_newline(s.subrange(1, s.len() as int))
    }
}

/// One line's text: the part before the break, with a carriage return
/// dropped from its end.
pub open spec fn strip_cr(l: Seq<char>) -> Seq<char> {
    if l.len() > 0 && l.last() == '\r' {
        l.drop_last()
    } else {
        l
    }
}

/// The lines of a string, split as `str::lines` splits them: at each line
/// break, dropping a carriage return before the break, with no line after
/// a final break.
pub open spec fn split_lines(s: Seq<char>) -> Seq<Seq<char>>
    decreases s.len(),
{
    if s.len() == 0 {
        Seq::empty()
    } else {
        let i = first_newline(s);
        if 0 <= i < s.len() {
            seq![strip_cr(s.subrange(0, i))] + split_lines(s.subrange(i + 1, s.len() as int))
        } else {
            seq![s]
        }
    }
}

/// The position of the first colon in a line, or its length.
pub open spec fn first_colon(l: Seq<char>) -> int
    decreases l.len(),
{
    if l.len() == 0 {
        0
    } else if l[0] == ':' {
        0
    } else {
        1 + first_colon(l.subrange(1, l.len() as int))
    }
}

/// A status line, opening with the protocol version.
pub open spec fn is_http_line(l: Seq<char>) -> bool {
    l.len() >= 5 && l.subrange(0, 5) == "HTTP/"@
}

/// An association list after setting `k` to `v`: an existing entry for `k`
/// is replaced in place, otherwise the pair is appended.
pub open spec fn assoc_upsert(
    hs: Seq<(Seq<char>, Seq<char>)>,
    k: Seq<char>,
    v: Seq<char>,
) -> Seq<(Seq<char>, Seq<char>)>
    decreases hs.len(),
{
    if hs.len() == 0 {
        seq![(k, v)]
    } else if hs[0].0 == k {
        seq![(k, v)] + hs.subrange(1, hs.len() as int)
    } else {
        seq![hs[0]] + assoc_upsert(hs.subrange(1, hs.len() as int), k, v)
    }
}

/// The header fields and body that the lines of a raw response yield.
/// While in the header section, a blank line switches to the body, a
/// status line is recorded under "status", and a `name: value` line is
/// recorded under its lowercased, trimmed name; body lines are joined back
/// with line breaks.
pub open spec fn parse_lines(
    ls: Seq<Seq<char>>,
    in_headers: bool,
    hdrs: Seq<(Seq<char>, Seq<char>)>,
    body: Seq<char>,
) -> (Seq<(Seq<char>, Seq<char>)>, Seq<char>)
    decreases ls.len(),
{
    if ls.len() == 0 {
        (hdrs, body)
    } else {
        let l = ls[0];
        let rest = ls.subrange(1, ls.len() as int);
        if in_headers {
            if trimmed_spaces(l).len() == 0 {
                parse_lines(rest, false, hdrs, body)
            } else if is_http_line(l) {
                parse_lines(rest, true, assoc_upsert(hdrs, "status"@, l), body)
            } else if first_colon(l) < l.len() {
                let c = first_colon(l);
                parse_lines(
                    rest,
                    true,
                    assoc_upsert(
                        hdrs,
                        lower_of(trimmed_spaces(l.subrange(0, c))),
                        trimmed_spaces(l.subrange(c + 1, l.len() as int)),
                    ),
                    body,
                )
            } else {
                parse_lines(rest, true, hdrs, body)
            }
        } else {
            parse_lines(rest, false, hdrs, body + l + seq!['\n'])
        }
    }
}

/// What `parse_curl_response` returns: the header fields, and the body
/// with its trailing white space removed.
pub open spec fn parse_curl_spec(s: Seq<char>) -> (Seq<(Seq<char>, Seq<char>)>, Seq<char>) {
    let p = parse_lines(split_lines(s), true, Seq::empty(), Seq::empty());
    (p.0, trim_end_spaces(p.1))
}

/// Splits a raw response, as curl prints it with headers included, into
/// its header fields and its body. The status line is kept under the name
/// "status"; other header names are lowercased; a repeated name keeps the
/// last value.
#[verifier::loop_isolation(false)]
pub fn parse_curl_response(output: &str) -> (r: (Vec<(String, String)>, String))
    ensures
        r.0@.len() == parse_curl_spec(output@).0.len(),
        forall|i: int|
            0 <= i < r.0@.len() ==> (#[trigger] r.0@[i].0@, r.0@[i].1@) == parse_curl_spec(
                output@,
            ).0[i],
        r.1@ == parse_curl_spec(output@).1,
{
    let lines = split_into_lines(output);
    let mut headers: Vec<(String, String)> = Vec::new();
    let mut body = String::new();
    let mut in_headers = true;
    let n = lines.len();
    let mut i: usize = 0;
    let ghost all = split_lines(output@);
    proof {
        assert(hdrs_view(headers@) =~= Seq::<(Seq<char>, Seq<char>)>::empty());
        assert(all.subrange(0, all.len() as int) =~= all);
    }
    while i < n
        invariant
            i <= n,
            n == lines@.len(),
            n == all.len(),
            forall|j: int| 0 <= j < n ==> #[trigger] lines@[j]@ == all[j],
            parse_lines(all, true, Seq::empty(), Seq::empty()) == parse_lines(
                all.subrange(i as int, n as int),
                in_headers,
                hdrs_view(headers@),
                body@,
            ),
        decreases n - i,
    {
        let ghost pre_suffix = all.subrange(i as int, n as int);
        proof {
            assert(pre_suffix[0] == all[i as int]);
            assert(pre_suffix.subrange(1, pre_suffix.len() as int) =~= all.subrange(
                i + 1,
                n as int,
            ));
        }
        let ghost hpre = hdrs_view(headers@);
        let ghost bpre = body@;
        let line = &lines[i];
        proof {
            assert(line@ == all[i as int]);
        }
        if in_headers {
            let t = trim_spaces(line.as_str());
            if t.as_str().unicode_len() == 0 {
                in_headers = false;
                proof {
                    assert(trimmed_spaces(pre_suffix[0]).len() == 0);
                    assert(parse_lines(pre_suffix, true, hpre, bpre) == parse_lines(
                        all.subrange(i + 1, n as int),
                        false,
                        hpre,
                        bpre,
                    ));
                }
            } else if starts_with_http(line.as_str()) {
                let key = String::from_str("status");
                let value = line.clone();
                upsert_header(&mut headers, key, value);
                proof {
                    assert(parse_lines(pre_suffix, true, hpre, bpre) == parse_lines(
                        all.subrange(i + 1, n as int),
                        true,
                        assoc_upsert(hpre, "status"@, pre_suffix[0]),
                        bpre,
                    ));
                    assert(hdrs_view(headers@) == assoc_upsert(hpre, "status"@, pre_suffix[0]));
                }
            } else {
                let c = find_colon(line.as_str());
                let len = line.as_str().unicode_len();
                if c < len {
                    let raw_name = line.as_str().substring_char(0, c);
                    let name_trimmed = trim_spaces(raw_name);
                    let name = to_lowercase(name_trimmed.as_str());
                    let raw_value = line.as_str().substring_char(c + 1, len);
                    let value = trim_spaces(raw_value);
                    upsert_header(&mut headers, name, value);
                    proof {
                        let l = pre_suffix[0];
                        let ci = first_colon(l);
                        assert(name@ == lower_of(trimmed_spaces(l.subrange(0, ci))));
                        assert(value@ == trimmed_spaces(l.subrange(ci + 1, l.len() as int)));
                        assert(parse_lines(pre_suffix, true, hpre, bpre) == parse_lines(
                            all.subrange(i + 1, n as int),
                            true,
                            assoc_upsert(
                                hpre,
                                lower_of(trimmed_spaces(l.subrange(0, ci))),
                                trimmed_spaces(l.subrange(ci + 1, l.len() as int)),
                            ),
                            bpre,
                        ));
                    }
                } else {
                    proof {
                        assert(first_colon(pre_suffix[0]) >= pre_suffix[0].len());
                        assert(parse_lines(pre_suffix, true, hpre, bpre) == parse_lines(
                            all.subrange(i + 1, n as int),
                            true,
                            hpre,
                            bpre,
                        ));
                    }
                }
            }
        } else {
            body.append(line.as_str());
            push_char(&mut body, '\n');
            proof {
                assert(body@ =~= bpre + pre_suffix[0] + seq!['\n']);
                assert(parse_lines(pre_suffix, false, hpre, bpre) == parse_lines(
                    all.subrange(i + 1, n as int),
                    false,
                    hpre,
                    bpre + pre_suffix[0] + seq!['\n'],
                ));
            }
        }
        i = i + 1;
    }
    proof {
        assert(all.subrange(n as int, n as int) =~= Seq::<Seq<char>>::empty());
    }
    let body_trimmed = trim_body_end(body.as_str());
    (headers, body_trimmed)
}

spec fn hdrs_view(hs: Seq<(String, String)>) -> Seq<(Seq<char>, Seq<char>)> {
    Seq::new(hs.len(), |i: int| (hs[i].0@, hs[i].1@))
}

/// Whether the line opens with the protocol version.
#[verifier::loop_isolation(false)]
fn starts_with_http(l: &str) -> (r: bool)
    ensures
        r == is_http_line(l@),
{
    let n = l.unicode_len();
    if n < 5 {
        return false;
    }
    let ok = l.get_char(0) == 'H' && l.get_char(1) == 'T' && l.get_char(2) == 'T' && l.get_char(3)
        == 'P' && l.get_char(4) == '/';
    proof {
        reveal_strlit("HTTP/");
        assert("HTTP/"@.len() == 5);
        if ok {
            assert(l@.subrange(0, 5) =~= "HTTP/"@);
        } else {
            assert(l@.subrange(0, 5) != "HTTP/"@) by {
                if l@.subrange(0, 5) == "HTTP/"@ {
                    assert(l@.subrange(0, 5)[0] == 'H');
                    assert(l@.subrange(0, 5)[1] == 'T');
                    assert(l@.subrange(0, 5)[2] == 'T');
                    assert(l@.subrange(0, 5)[3] == 'P');
                    assert(l@.subrange(0, 5)[4] == '/');
                }
            }
        }
    }
    ok
}

/// The position of the first colon, or the length when there is none.
#[verifier::loop_isolation(false)]
fn find_colon(l: &str) -> (r: usize)
    ensures
        r as int == first_colon(l@),
        r <= l@.len(),
{
    let n = l.unicode_len();
    let mut i: usize = 0;
    proof {
        assert(l@.subrange(0, n as int) =~= l@);
    }
    while i < n && l.get_char(i) != ':'
        invariant
            i <= n,
            first_colon(l@) == i + first_colon(l@.subrange(i as int, n as int)),
        decreases n - i,
    {
        proof {
            let u = l@.subrange(i as int, n as int);
            assert(u[0] == l@[i as int]);
            assert(u.subrange(1, u.len() as int) =~= l@.subrange(i + 1, n as int));
        }
        i = i + 1;
    }
    proof {
        let u = l@.subrange(i as int, n as int);
        if i < n {
            assert(u[0] == l@[i as int]);
        }
        assert(first_colon(u) == 0);
    }
    i
}

/// Sets `k` to `v` in the header list, replacing an existing entry.
#[verifier::loop_isolation(false)]
fn upsert_header(headers: &mut Vec<(String, String)>, k: String, v: String)
    ensures
        hdrs_view(final(headers)@) == assoc_upsert(hdrs_view(old(headers)@), k@, v@),
{
    let ghost pre = hdrs_view(headers@);
    let n = headers.len();
    let mut i: usize = 0;
    while i < n
        invariant
            i <= n,
            *headers == *old(headers),
            forall|j: int| 0 <= j < i ==> #[trigger] pre[j].0 != k@,
        decreases n - i,
    {
        if str_eq(headers[i].0.as_str(), k.as_str()) {
            let _ = headers.remove(i);
            headers.insert(i, (k, v));
            proof {
                lemma_assoc_upsert_replace(pre, k@, v@, i as int);
                assert(hdrs_view(headers@) =~~= assoc_upsert(pre, k@, v@));
            }
            return ;
        }
        i = i + 1;
    }
    headers.push((k, v));
    proof {
        lemma_assoc_upsert_append(pre, k@, v@);
        assert(hdrs_view(headers@) =~~= assoc_upsert(pre, k@, v@));
    }
}

/// Where the scan found the key, the upsert replaces that entry.
proof fn lemma_assoc_upsert_replace(
    hs: Seq<(Seq<char>, Seq<char>)>,
    k: Seq<char>,
    v: Seq<char>,
    i: int,
)
    requires
        0 <= i < hs.len(),
        forall|j: int| 0 <= j < i ==> #[trigger] hs[j].0 != k,
        hs[i].0 == k,
    ensures
        assoc_upsert(hs, k, v) =~= hs.subrange(0, i).push((k, v)) + hs.subrange(
            i + 1,
            hs.len() as int,
        ),
    decreases i,
{
    if i == 0 {
        assert(hs.subrange(0, 0).push((k, v)) =~= seq![(k, v)]);
    } else {
        let tail = hs.subrange(1, hs.len() as int);
        lemma_assoc_upsert_replace(tail, k, v, i - 1);
        assert(tail.subrange(0, i - 1) =~= hs.subrange(1, i));
        assert(tail.subrange(i, tail.len() as int) =~= hs.subrange(i + 1, hs.len() as int));
    }
}

/// Where the key is absent, the upsert appends the pair.
proof fn lemma_assoc_upsert_append(hs: Seq<(Seq<char>, Seq<char>)>, k: Seq<char>, v: Seq<char>)
    requires
        forall|j: int| 0 <= j < hs.len() ==> #[trigger] hs[j].0 != k,
    ensures
        assoc_upsert(hs, k, v) =~= hs.push((k, v)),
    decreases hs.len(),
{
    if hs.len() > 0 {
        let tail = hs.subrange(1, hs.len() as int);
        lemma_assoc_upsert_append(tail, k, v);
        assert(hs.push((k, v)).subrange(1, hs.len() as int + 1) =~= tail.push((k, v)));
    }
}

/// Splits a string into its lines.
#[verifier::loop_isolation(false)]
fn split_into_lines(s: &str) -> (r: Vec<String>)
    ensures
        r@.len() == split_lines(s@).len(),
        forall|j: int| 0 <= j < r@.len() ==> #[trigger] r@[j]@ == split_lines(s@)[j],
{
    let n = s.unicode_len();
    let mut lines: Vec<String> = Vec::new();
    let mut p: usize = 0;
    proof {
        assert(s@.subrange(0, n as int) =~= s@);
        assert(lines_view(lines@) =~= Seq::<Seq<char>>::empty());
    }
    while p < n
        invariant
            p <= n,
            split_lines(s@) =~= lines_view(lines@) + split_lines(s@.subrange(p as int, n as int)),
        decreases n - p,
    {
        let ghost u = s@.subrange(p as int, n as int);
        let mut q: usize = p;
        while q < n && s.get_char(q) != '\n'
            invariant
                p <= q <= n,
                forall|j: int| p <= j < q ==> #[trigger] s@[j] != '\n',
                first_newline(s@.subrange(p as int, n as int)) == (q - p) + first_newline(
                    s@.subrange(q as int, n as int),
                ),
            decreases n - q,
        {
            proof {
                let w = s@.subrange(q as int, n as int);
                assert(w[0] == s@[q as int]);
                assert(w.subrange(1, w.len() as int) =~= s@.subrange(q + 1, n as int));
            }
            q = q + 1;
        }
        proof {
            let w = s@.subrange(q as int, n as int);
            if q < n {
                assert(w[0] == s@[q as int]);
            }
            assert(first_newline(w) == 0);
            assert(first_newline(u) == q - p);
        }
        if q == n {
            let line = s.substring_char(p, n);
            lines.push(String::from_str(line));
            proof {
                assert(lines_view(lines@) =~= lines_view(lines@.drop_last()).push(u));
                assert(split_lines(u) =~= seq![u]);
                assert(s@.subrange(n as int, n as int) =~= Seq::<Seq<char>>::empty().flatten());
                assert(split_lines(s@.subrange(n as int, n as int)) =~= Seq::<Seq<char>>::empty());
            }
            p = n;
        } else {
            let line_end: usize = if q > p && s.get_char(q - 1) == '\r' {
                q - 1
            } else {
                q
            };
            let line = s.substring_char(p, line_end);
            lines.push(String::from_str(line));
            proof {
                let raw = s@.subrange(p as int, q as int);
                assert(raw =~= u.subrange(0, (q - p) as int));
                if q > p && s@[q - 1] == '\r' {
                    assert(raw.last() == '\r');
                    assert(strip_cr(raw) =~= s@.subrange(p as int, q - 1));
                } else {
                    if raw.len() > 0 {
                        assert(raw.last() == s@[q - 1]);
                    }
                    assert(strip_cr(raw) =~= raw);
                }
                assert(line@ == strip_cr(raw));
                assert(lines_view(lines@) =~= lines_view(lines@.drop_last()).push(strip_cr(raw)));
                assert(u.subrange((q - p) + 1, u.len() as int) =~= s@.subrange(q + 1, n as int));
                assert(split_lines(u) =~= seq![strip_cr(raw)] + split_lines(
                    s@.subrange(q + 1, n as int),
                ));
            }
            p = q + 1;
        }
    }
    proof {
        assert(split_lines(s@.subrange(n as int, n as int)) =~= Seq::<Seq<char>>::empty());
    }
    lines
}

spec fn lines_view(ls: Seq<String>) -> Seq<Seq<char>> {
    Seq::new(ls.len(), |i: int| ls[i]@)
}

/// Removes trailing white space from the body.
#[verifier::loop_isolation(false)]
fn trim_body_end(s: &str) -> (r: String)
    ensures
        r@ == trim_end_spaces(s@),
{
    let n = s.unicode_len();
    let mut end: usize = n;
    proof {
        assert(s@.subrange(0, n as int) =~= s@);
    }
    while end > 0 && char_is_whitespace(s.get_char(end - 1))
        invariant
            end <= n,
            trim_end_spaces(s@) == trim_end_spaces(s@.subrange(0, end as int)),
        decreases end,
    {
        proof {
            let u = s@.subrange(0, end as int);
            assert(u.last() == s@[end - 1]);
            assert(u.drop_last() =~= s@.subrange(0, end - 1));
        }
        end = end - 1;
    }
    let r = s.substring_char(0, end);
    proof {
        let u = s@.subrange(0, end as int);
        if end > 0 {
            assert(u.last() == s@[end - 1]);
        }
        assert(trim_end_spaces(u) == u);
    }
    String::from_str(r)
}

} // verus!
