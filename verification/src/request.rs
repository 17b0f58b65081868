//! The request parser: turns a received byte stream into a structured
//! request — method, path, lower-cased header map, body — enforcing the
//! 1 MiB size limits.
//!
//! The parser reads the complete byte sequence the peer delivered before
//! closing (the transport reads one fully-buffered request per connection):
//! it finds the `\r\n\r\n` header terminator, splits the header block into
//! lines, takes method and path from the request line, collects `name:
//! value` headers, and takes as body the bytes after the terminator up to
//! the `content-length` — or as many as arrived, a short body being
//! tolerated.

use vstd::prelude::*;
use crate::scan::{
    dec_value, find, first_match, is_digit, is_ws, lemma_first_match_is_match, match_at,
    trim_start_spec,
};
use vstd::slice::slice_subrange;

verus! {

/// A parsed request.
pub struct Request {
    pub method: Vec<u8>,
    pub path: Vec<u8>,
    pub headers: Vec<(Vec<u8>, Vec<u8>)>,
    pub body: Vec<u8>,
}

/// Mathematical image of a `Request`.
pub struct RequestView {
    pub method: Seq<u8>,
    pub path: Seq<u8>,
    pub headers: Seq<(Seq<u8>, Seq<u8>)>,
    pub body: Seq<u8>,
}

impl View for Request {
    type V = RequestView;

    open spec fn view(&self) -> RequestView {
        RequestView {
            method: self.method@,
            path: self.path@,
            headers: Seq::new(self.headers@.len(), |i: int| (self.headers@[i].0@, self.headers@[i].1@)),
            body: self.body@,
        }
    }
}

/// Why a byte stream was rejected.
#[derive(Clone, Copy, Debug, PartialEq, Eq, Structural)]
pub enum ParseError {
    /// The header block passed 1 MiB with no terminator in sight.
    HeadersTooLarge,
    /// The stream ended before the header terminator.
    InvalidRequest,
    /// The request line is missing its method or its path.
    BadRequestLine,
    /// The body called for by `content-length` passes 1 MiB.
    BodyTooLarge,
}

/// The header terminator.
pub open spec fn crlfcrlf() -> Seq<u8> {
    seq![13u8, 10, 13, 10]
}

/// The size limit on the header block and on the body alike.
pub open spec fn size_limit() -> int {
    1048576
}

/// `s` split on `\r\n`; the separator is consumed, empty pieces are kept.
pub open spec fn split_lines(s: Seq<u8>) -> Seq<Seq<u8>>
    decreases s.len(),
    via split_lines_dec
{
    match first_match(s, seq![13u8, 10u8]) {
        Some(i) => seq![s.take(i)] + split_lines(s.skip(i + 2)),
        None => seq![s],
    }
}

#[via_fn]
proof fn split_lines_dec(s: Seq<u8>) {
    lemma_first_match_is_match(s, seq![13u8, 10u8], 0);
}

/// Length of the maximal run of non-whitespace bytes at the front of `s`.
pub open spec fn word_run_len(s: Seq<u8>) -> int
    decreases s.len(),
{
    if s.len() > 0 && !is_ws(s[0]) {
        1 + word_run_len(s.skip(1))
    } else {
        0
    }
}

proof fn lemma_word_run_len(s: Seq<u8>)
    ensures
        0 <= word_run_len(s) <= s.len(),
    decreases s.len(),
{
    if s.len() > 0 && !is_ws(s[0]) {
        lemma_word_run_len(s.skip(1));
    }
}

/// `s` split on runs of whitespace: the non-empty words, in order.
pub open spec fn split_words(s: Seq<u8>) -> Seq<Seq<u8>>
    decreases s.len(),
    via split_words_dec
{
    let t = trim_start_spec(s);
    if t.len() == 0 {
        Seq::empty()
    } else {
        let k = word_run_len(t);
        seq![t.take(k)] + split_words(t.skip(k))
    }
}

#[via_fn]
proof fn split_words_dec(s: Seq<u8>) {
    crate::scan::lemma_trim_len(s);
    crate::scan::lemma_trim_head(s);
    let t = trim_start_spec(s);
    if t.len() > 0 {
        lemma_word_run_len(t);
        lemma_word_run_len(t.skip(1));
        assert(word_run_len(t) >= 1);
    }
}

/// A byte lower-cased: ASCII `A`..`Z` gain 32, all else passes through.
pub open spec fn lower_byte(b: u8) -> u8 {
    if 65 <= b && b <= 90 {
        (b + 32) as u8
    } else {
        b
    }
}

/// `s` lower-cased byte by byte.
pub open spec fn lower_seq(s: Seq<u8>) -> Seq<u8> {
    Seq::new(s.len(), |i: int| lower_byte(s[i]))
}

/// The sequence with its trailing ASCII whitespace removed.
pub open spec fn trim_end_spec(s: Seq<u8>) -> Seq<u8>
    decreases s.len(),
{
    if s.len() > 0 && is_ws(s.last()) {
        trim_end_spec(s.drop_last())
    } else {
        s
    }
}

/// Whitespace trimmed from both ends.
pub open spec fn trim_both(s: Seq<u8>) -> Seq<u8> {
    trim_end_spec(trim_start_spec(s))
}

/// A header line read as `name: value`: the name lower-cased and trimmed,
/// the value trimmed. `None` when the line carries no colon.
pub open spec fn header_entry(line: Seq<u8>) -> Option<(Seq<u8>, Seq<u8>)> {
    match first_match(line, seq![58u8]) {
        Some(c) => Some((lower_seq(trim_both(line.take(c))), trim_both(line.skip(c + 1)))),
        None => None,
    }
}

/// The association list with `k` set to `v`: an existing entry for `k` is
/// overwritten in place, a new one goes at the end.
pub open spec fn assoc_set(hs: Seq<(Seq<u8>, Seq<u8>)>, k: Seq<u8>, v: Seq<u8>) -> Seq<
    (Seq<u8>, Seq<u8>),
>
    decreases hs.len(),
{
    if hs.len() == 0 {
        seq![(k, v)]
    } else if hs[0].0 == k {
        seq![(k, v)] + hs.skip(1)
    } else {
        seq![hs[0]] + assoc_set(hs.skip(1), k, v)
    }
}

/// The value under `k`, if any.
pub open spec fn assoc_get(hs: Seq<(Seq<u8>, Seq<u8>)>, k: Seq<u8>) -> Option<Seq<u8>>
    decreases hs.len(),
{
    if hs.len() == 0 {
        None
    } else if hs[0].0 == k {
        Some(hs[0].1)
    } else {
        assoc_get(hs.skip(1), k)
    }
}

/// Headers gathered from the lines after the request line, stopping at the
/// first empty line; malformed lines (no colon) are silently skipped, a
/// repeated name keeps the last value.
pub open spec fn collect_headers(lines: Seq<Seq<u8>>, acc: Seq<(Seq<u8>, Seq<u8>)>) -> Seq<
    (Seq<u8>, Seq<u8>),
>
    decreases lines.len(),
{
    if lines.len() == 0 {
        acc
    } else if lines[0].len() == 0 {
        acc
    } else {
        collect_headers(
            lines.skip(1),
            match header_entry(lines[0]) {
                Some(e) => assoc_set(acc, e.0, e.1),
                None => acc,
            },
        )
    }
}

/// `content-length` as the header map names it.
pub open spec fn content_length_key() -> Seq<u8> {
    seq![99u8, 111, 110, 116, 101, 110, 116, 45, 108, 101, 110, 103, 116, 104]
}

/// The expected body length: the `content-length` value when it is a pure
/// digit run that fits in `usize`; 0 when the header is absent or
/// unparsable.
pub open spec fn content_length_of(hs: Seq<(Seq<u8>, Seq<u8>)>) -> int {
    match assoc_get(hs, content_length_key()) {
        Some(v) => if v.len() > 0 && (forall|i: int| 0 <= i < v.len() ==> is_digit(v[i]))
            && dec_value(v) <= usize::MAX {
            dec_value(v)
        } else {
            0
        },
        None => 0,
    }
}

/// What parsing a complete byte stream yields, step for step: find the
/// terminator (or fail by size or truncation), read the request line's
/// method and path, gather the headers, then take the body the
/// `content-length` asks for — or as much of it as arrived.
pub open spec fn parse_request_spec(data: Seq<u8>) -> Result<RequestView, ParseError> {
    match first_match(data, crlfcrlf()) {
        None => if data.len() > size_limit() {
            Err(ParseError::HeadersTooLarge)
        } else {
            Err(ParseError::InvalidRequest)
        },
        Some(p) => if p + 4 > size_limit() {
            Err(ParseError::HeadersTooLarge)
        } else {
            let lines = split_lines(data.take(p + 4));
            let words = split_words(lines[0]);
            if words.len() < 2 {
                Err(ParseError::BadRequestLine)
            } else {
                let headers = collect_headers(lines.skip(1), Seq::empty());
                let cl = content_length_of(headers);
                let avail = data.len() - (p + 4);
                let blen = if cl <= avail {
                    cl
                } else {
                    avail
                };
                if blen > size_limit() {
                    Err(ParseError::BodyTooLarge)
                } else {
                    Ok(
                        RequestView {
                            method: words[0],
                            path: words[1],
                            headers,
                            body: data.subrange(p + 4, p + 4 + blen),
                        },
                    )
                }
            }
        },
    }
}

/// The header pairs of an exec association list, viewed.
pub open spec fn pairs_view(hs: Seq<(Vec<u8>, Vec<u8>)>) -> Seq<(Seq<u8>, Seq<u8>)> {
    Seq::new(hs.len(), |i: int| (hs[i].0@, hs[i].1@))
}

fn bytes_of(s: &[u8]) -> (r: Vec<u8>)
    ensures
        r@ == s@,
{
    let mut v: Vec<u8> = Vec::new();
    v.extend_from_slice(s);
    proof {
        assert(v@ =~= s@);
    }
    v
}

fn split_lines_exec(s: &[u8]) -> (r: Vec<Vec<u8>>)
    ensures
        r.deep_view() == split_lines(s@),
        r.len() >= 1,
{
    let mut out: Vec<Vec<u8>> = Vec::new();
    let mut p: usize = 0;
    let crlf: [u8; 2] = [13, 10];
    proof {
        assert(crlf@ =~= seq![13u8, 10u8]);
        assert(s@.skip(0) =~= s@);
        assert(out.deep_view() =~= Seq::<Seq<u8>>::empty());
        assert(out.deep_view() + split_lines(s@) =~= split_lines(s@));
    }
    loop
        invariant
            p <= s.len(),
            crlf@ == seq![13u8, 10u8],
            split_lines(s@) == out.deep_view() + split_lines(s@.skip(p as int)),
        decreases s.len() - p,
    {
        let rest = slice_subrange(s, p, s.len());
        proof {
            assert(rest@ =~= s@.skip(p as int));
        }
        match find(rest, crlf.as_slice()) {
            Some(i) => {
                proof {
                    lemma_first_match_is_match(rest@, seq![13u8, 10u8], 0);
                    assert(i + 2 <= rest@.len());
                }
                assert(p + i + 2 <= s.len());
                let ghost out0 = out.deep_view();
                let line = bytes_of(slice_subrange(s, p, p + i));
                out.push(line);
                proof {
                    assert(line@ =~= rest@.take(i as int));
                    assert(line.deep_view() =~= line@);
                    assert(out.deep_view() =~~= out0.push(rest@.take(i as int)));
                    assert(rest@.skip(i + 2) =~= s@.skip(p + i + 2));
                    assert(out0 + (seq![rest@.take(i as int)] + split_lines(rest@.skip(i + 2)))
                        =~= out.deep_view() + split_lines(s@.skip(p + i + 2)));
                }
                p = p + i + 2;
            },
            None => {
                let ghost out0 = out.deep_view();
                let line = bytes_of(rest);
                out.push(line);
                proof {
                    assert(line.deep_view() =~= rest@);
                    assert(out.deep_view() =~~= out0.push(rest@));
                    assert(out0 + seq![rest@] =~= out.deep_view());
                    assert(split_lines(s@) =~= out.deep_view());
                }
                return out;
            },
        }
    }
}

fn split_words_exec(s: &[u8]) -> (r: Vec<Vec<u8>>)
    ensures
        r.deep_view() == split_words(s@),
{
    let mut out: Vec<Vec<u8>> = Vec::new();
    let mut p: usize = 0;
    proof {
        assert(s@.skip(0) =~= s@);
        assert(out.deep_view() =~= Seq::<Seq<u8>>::empty());
        assert(out.deep_view() + split_words(s@) =~= split_words(s@));
    }
    loop
        invariant
            p <= s.len(),
            split_words(s@) == out.deep_view() + split_words(s@.skip(p as int)),
        decreases s.len() - p,
    {
        let ghost t = trim_start_spec(s@.skip(p as int));
        let q = crate::scan::skip_ws(s, p);
        proof {
            assert(s@.skip(q as int) == t);
        }
        if q >= s.len() {
            proof {
                assert(t.len() == 0);
                assert(out.deep_view() + Seq::<Seq<u8>>::empty() =~= out.deep_view());
            }
            return out;
        }
        let mut e: usize = q;
        while e < s.len() && !crate::scan::byte_is_ws(s[e])
            invariant
                q <= e <= s.len(),
                t == s@.skip(q as int),
                word_run_len(t) == (e - q) + word_run_len(s@.skip(e as int)),
            decreases s.len() - e,
        {
            proof {
                assert(s@.skip(e as int)[0] == s@[e as int]);
                assert(s@.skip(e as int).skip(1) =~= s@.skip(e + 1));
            }
            e += 1;
        }
        proof {
            if e < s.len() {
                assert(s@.skip(e as int)[0] == s@[e as int]);
            }
            assert(word_run_len(s@.skip(e as int)) == 0);
            assert(word_run_len(t) == e - q);
        }
        let ghost out0 = out.deep_view();
        let w = bytes_of(slice_subrange(s, q, e));
        out.push(w);
        proof {
            assert(w@ =~= t.take((e - q) as int));
            assert(w.deep_view() =~= w@);
            assert(out.deep_view() =~~= out0.push(t.take((e - q) as int)));
            assert(t.skip((e - q) as int) =~= s@.skip(e as int));
            assert(out0 + (seq![t.take((e - q) as int)] + split_words(t.skip((e - q) as int)))
                =~= out.deep_view() + split_words(s@.skip(e as int)));
        }
        p = e;
        proof {
            assert(p > q || p == q);
        }
    }
}

fn trim_both_exec(s: &[u8]) -> (r: Vec<u8>)
    ensures
        r@ == trim_both(s@),
{
    let lo = crate::scan::skip_ws(s, 0);
    proof {
        assert(s@.skip(0) =~= s@);
    }
    let ghost t = trim_start_spec(s@);
    let mut hi: usize = s.len();
    proof {
        assert(s@.skip(lo as int) == t);
        assert(t =~= s@.subrange(lo as int, s@.len() as int));
        assert(trim_end_spec(t) == trim_end_spec(s@.subrange(lo as int, hi as int)));
    }
    while hi > lo && crate::scan::byte_is_ws(s[hi - 1])
        invariant
            lo <= hi <= s.len(),
            trim_end_spec(t) == trim_end_spec(s@.subrange(lo as int, hi as int)),
        decreases hi,
    {
        proof {
            let cur = s@.subrange(lo as int, hi as int);
            assert(cur.last() == s@[hi - 1]);
            assert(cur.drop_last() =~= s@.subrange(lo as int, hi - 1));
        }
        hi -= 1;
    }
    proof {
        let cur = s@.subrange(lo as int, hi as int);
        if hi > lo {
            assert(cur.last() == s@[hi - 1]);
            assert(!is_ws(cur.last()));
        }
        assert(trim_end_spec(cur) == cur);
    }
    let r = bytes_of(slice_subrange(s, lo, hi));
    r
}

fn lower_vec(s: &[u8]) -> (r: Vec<u8>)
    ensures
        r@ == lower_seq(s@),
{
    let mut out: Vec<u8> = Vec::new();
    let mut i: usize = 0;
    while i < s.len()
        invariant
            i <= s.len(),
            out@.len() == i,
            forall|k: int| 0 <= k < i ==> out@[k] == lower_byte(s@[k]),
        decreases s.len() - i,
    {
        let b = s[i];
        if 65 <= b && b <= 90 {
            out.push(b + 32);
        } else {
            out.push(b);
        }
        i += 1;
    }
    proof {
        assert(out@ =~= lower_seq(s@));
    }
    out
}

fn header_entry_exec(line: &[u8]) -> (r: Option<(Vec<u8>, Vec<u8>)>)
    ensures
        match r {
            Some(e) => header_entry(line@) == Some((e.0@, e.1@)),
            None => header_entry(line@) is None,
        },
{
    let colon: [u8; 1] = [58];
    proof {
        assert(colon@ =~= seq![58u8]);
    }
    match find(line, colon.as_slice()) {
        None => None,
        Some(c) => {
            proof {
                lemma_first_match_is_match(line@, seq![58u8], 0);
                assert(c + 1 <= line@.len());
            }
            assert(c + 1 <= line.len());
            let name_t = trim_both_exec(slice_subrange(line, 0, c));
            let name = lower_vec(name_t.as_slice());
            let val = trim_both_exec(slice_subrange(line, c + 1, line.len()));
            proof {
                assert(line@.subrange(0, c as int) =~= line@.take(c as int));
                assert(line@.subrange(c + 1, line@.len() as int) =~= line@.skip(c + 1));
            }
            Some((name, val))
        },
    }
}

/// `assoc_set` lands at the first index carrying the key.
proof fn lemma_assoc_set_found(hs: Seq<(Seq<u8>, Seq<u8>)>, k: Seq<u8>, v: Seq<u8>, i: int)
    requires
        0 <= i < hs.len(),
        hs[i].0 == k,
        forall|j: int| 0 <= j < i ==> hs[j].0 != k,
    ensures
        assoc_set(hs, k, v) == hs.update(i, (k, v)),
    decreases hs.len(),
{
    if i == 0 {
        assert(assoc_set(hs, k, v) =~= hs.update(0, (k, v)));
    } else {
        assert(hs.skip(1)[i - 1].0 == k);
        assert(forall|j: int| 0 <= j < i - 1 ==> hs.skip(1)[j] == hs[j + 1]);
        lemma_assoc_set_found(hs.skip(1), k, v, i - 1);
        assert(assoc_set(hs, k, v) =~= hs.update(i, (k, v)));
    }
}

/// `assoc_set` of an absent key appends.
proof fn lemma_assoc_set_absent(hs: Seq<(Seq<u8>, Seq<u8>)>, k: Seq<u8>, v: Seq<u8>)
    requires
        forall|j: int| 0 <= j < hs.len() ==> hs[j].0 != k,
    ensures
        assoc_set(hs, k, v) == hs.push((k, v)),
    decreases hs.len(),
{
    if hs.len() == 0 {
        assert(assoc_set(hs, k, v) =~= hs.push((k, v)));
    } else {
        assert(forall|j: int| 0 <= j < hs.skip(1).len() ==> hs.skip(1)[j] == hs[j + 1]);
        lemma_assoc_set_absent(hs.skip(1), k, v);
        assert(assoc_set(hs, k, v) =~= hs.push((k, v)));
    }
}

fn assoc_set_exec(hs: &mut Vec<(Vec<u8>, Vec<u8>)>, k: Vec<u8>, v: Vec<u8>)
    ensures
        pairs_view(final(hs)@) == assoc_set(pairs_view(old(hs)@), k@, v@),
{
    let ghost hv = pairs_view(hs@);
    let mut i: usize = 0;
    while i < hs.len()
        invariant
            i <= hs.len(),
            hv == pairs_view(hs@),
            hv == pairs_view(old(hs)@),
            hv.len() == hs.len(),
            forall|j: int| 0 <= j < i ==> hv[j].0 != k@,
        decreases hs.len() - i,
    {
        let hit = crate::store::bytes_eq(hs[i].0.as_slice(), k.as_slice());
        if hit {
            proof {
                assert(hv[i as int].0 == k@);
                lemma_assoc_set_found(hv, k@, v@, i as int);
            }
            hs[i] = (k, v);
            proof {
                assert(pairs_view(hs@) =~~= hv.update(i as int, (k@, v@)));
                assert(pairs_view(hs@) == assoc_set(hv, k@, v@));
            }
            return ;
        }
        proof {
            assert(hv[i as int].0 != k@);
        }
        i += 1;
    }
    proof {
        lemma_assoc_set_absent(hv, k@, v@);
    }
    hs.push((k, v));
    proof {
        assert(pairs_view(hs@) =~= hv.push((k@, v@)));
    }
}

fn assoc_get_exec<'a>(hs: &'a Vec<(Vec<u8>, Vec<u8>)>, k: &[u8]) -> (r: Option<&'a Vec<u8>>)
    ensures
        match r {
            Some(v) => assoc_get(pairs_view(hs@), k@) == Some(v@),
            None => assoc_get(pairs_view(hs@), k@) is None,
        },
{
    let ghost hv = pairs_view(hs@);
    let mut i: usize = 0;
    proof {
        assert(hv.skip(0) =~= hv);
    }
    while i < hs.len()
        invariant
            i <= hs.len(),
            hv == pairs_view(hs@),
            hv.len() == hs.len(),
            assoc_get(hv, k@) == assoc_get(hv.skip(i as int), k@),
        decreases hs.len() - i,
    {
        proof {
            assert(hv.skip(i as int)[0] == hv[i as int]);
            assert(hv.skip(i as int).skip(1) =~= hv.skip(i + 1));
        }
        let hit = crate::store::bytes_eq(hs[i].0.as_slice(), k);
        if hit {
            proof {
                assert(hv[i as int].0 == k@);
            }
            return Some(&hs[i].1);
        }
        proof {
            assert(hv[i as int].0 != k@);
        }
        i += 1;
    }
    proof {
        assert(hv.skip(i as int).len() == 0);
    }
    None
}

fn content_length_exec(hs: &Vec<(Vec<u8>, Vec<u8>)>) -> (r: usize)
    ensures
        r == content_length_of(pairs_view(hs@)),
{
    let key: [u8; 14] = [99, 111, 110, 116, 101, 110, 116, 45, 108, 101, 110, 103, 116, 104];
    proof {
        assert(key@ =~= content_length_key());
    }
    match assoc_get_exec(hs, key.as_slice()) {
        None => 0,
        Some(v) => {
            let mut i: usize = 0;
            while i < v.len()
                invariant
                    i <= v.len(),
                    assoc_get(pairs_view(hs@), content_length_key()) == Some(v@),
                    forall|k: int| 0 <= k < i ==> is_digit(v@[k]),
                decreases v.len() - i,
            {
                if v[i] < 48 || v[i] > 57 {
                    proof {
                        assert(!(forall|k: int| 0 <= k < v@.len() ==> is_digit(v@[k]))) by {
                            assert(!is_digit(v@[i as int]));
                        }
                    }
                    return 0;
                }
                i += 1;
            }
            if v.len() == 0 {
                return 0;
            }
            match crate::scan::parse_u128_digits(v.as_slice()) {
                Some(n) => if n <= usize::MAX as u128 {
                    n as usize
                } else {
                    0
                },
                None => 0,
            }
        },
    }
}

impl Request {
    /// The expected body length this request's headers call for, per
    /// `content_length_of`.
    pub fn content_length(&self) -> (r: usize)
        ensures
            r == content_length_of(self@.headers),
    {
        proof {
            assert(pairs_view(self.headers@) =~= self@.headers);
        }
        content_length_exec(&self.headers)
    }
}

/// Parses a complete received byte stream into a request, per
/// `parse_request_spec`.
pub fn parse_http_request(data: &[u8]) -> (r: Result<Request, ParseError>)
    ensures
        match r {
            Ok(req) => parse_request_spec(data@) == Ok::<RequestView, ParseError>(req@),
            Err(e) => parse_request_spec(data@) == Err::<RequestView, ParseError>(e),
        },
{
    let term: [u8; 4] = [13, 10, 13, 10];
    proof {
        assert(term@ =~= crlfcrlf());
    }
    let p = match find(data, term.as_slice()) {
        None => {
            if data.len() > 1048576 {
                return Err(ParseError::HeadersTooLarge);
            } else {
                return Err(ParseError::InvalidRequest);
            }
        },
        Some(p) => p,
    };
    proof {
        lemma_first_match_is_match(data@, crlfcrlf(), 0);
        assert(match_at(data@, crlfcrlf(), p as int));
    }
    assert(p + 4 <= data.len());
    if p + 4 > 1048576 {
        return Err(ParseError::HeadersTooLarge);
    }
    let head = slice_subrange(data, 0, p + 4);
    proof {
        assert(head@ =~= data@.take(p + 4));
    }
    let lines = split_lines_exec(head);
    let ghost lv = split_lines(data@.take(p + 4));
    proof {
        assert(lines@[0]@ == lv[0]);
    }
    let words = split_words_exec(lines[0].as_slice());
    if words.len() < 2 {
        proof {
            assert(split_words(lv[0]).len() < 2);
        }
        return Err(ParseError::BadRequestLine);
    }
    let mut hs: Vec<(Vec<u8>, Vec<u8>)> = Vec::new();
    let mut i: usize = 1;
    proof {
        assert(pairs_view(hs@) =~= Seq::<(Seq<u8>, Seq<u8>)>::empty());
    }
    while i < lines.len() && lines[i].len() > 0
        invariant
            1 <= i <= lines.len(),
            lines.deep_view() == lv,
            lv.len() == lines.len(),
            collect_headers(lv.skip(1), Seq::empty()) == collect_headers(
                lv.skip(i as int),
                pairs_view(hs@),
            ),
        decreases lines.len() - i,
    {
        proof {
            assert(lv.skip(i as int)[0] == lv[i as int]);
            assert(lv[i as int] == lines@[i as int]@);
            assert(lv.skip(i as int).skip(1) =~= lv.skip(i + 1));
        }
        match header_entry_exec(lines[i].as_slice()) {
            Some(e) => {
                assoc_set_exec(&mut hs, e.0, e.1);
            },
            None => {},
        }
        i += 1;
    }
    proof {
        if i < lines.len() {
            assert(lv.skip(i as int)[0] == lv[i as int]);
            assert(lv[i as int].len() == 0);
        } else {
            assert(lv.skip(i as int).len() == 0);
        }
        assert(collect_headers(lv.skip(i as int), pairs_view(hs@)) == pairs_view(hs@));
    }
    let cl = content_length_exec(&hs);
    let avail = data.len() - (p + 4);
    let blen = if cl <= avail {
        cl
    } else {
        avail
    };
    if blen > 1048576 {
        return Err(ParseError::BodyTooLarge);
    }
    let body = bytes_of(slice_subrange(data, p + 4, p + 4 + blen));
    let method = bytes_of(words[0].as_slice());
    let path = bytes_of(words[1].as_slice());
    let req = Request { method, path, headers: hs, body };
    proof {
        assert(req@.method == split_words(lv[0])[0]);
        assert(req@.path == split_words(lv[0])[1]);
        assert(req@.headers =~= pairs_view(hs@));
        assert(req@.body =~= data@.subrange(p + 4, p + 4 + blen));
        assert(parse_request_spec(data@) == Ok::<RequestView, ParseError>(req@));
    }
    Ok(req)
}

} // verus!
