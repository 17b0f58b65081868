//! Byte-level text scanner.
//!
//! Locates and extracts syntactic units from a raw text buffer without a
//! general-purpose parser: top-level brace-delimited objects, and individual
//! field values (quoted string, boolean, string array, unsigned integer)
//! found by a plain substring search for the quoted key.

use vstd::prelude::*;
use vstd::slice::slice_subrange;

verus! {

/// True when `needle` occurs in `hay` starting at index `i`.
pub open spec fn match_at(hay: Seq<u8>, needle: Seq<u8>, i: int) -> bool {
    0 <= i && i + needle.len() <= hay.len() && hay.subrange(i, i + needle.len()) == needle
}

/// Index of the first occurrence of `needle` in `hay` at or after `from`.
pub open spec fn first_match_from(hay: Seq<u8>, needle: Seq<u8>, from: int) -> Option<int>
    decreases hay.len() - from,
{
    if from < 0 || needle.len() == 0 || from + needle.len() > hay.len() {
        None
    } else if match_at(hay, needle, from) {
        Some(from)
    } else {
        first_match_from(hay, needle, from + 1)
    }
}

/// Index of the first occurrence of `needle` in `hay`, if any.
pub open spec fn first_match(hay: Seq<u8>, needle: Seq<u8>) -> Option<int> {
    first_match_from(hay, needle, 0)
}

/// Byte-wise comparison of `needle` against `hay` at offset `i`.
fn match_at_idx(hay: &[u8], needle: &[u8], i: usize) -> (r: bool)
    requires
        i + needle.len() <= hay.len(),
    ensures
        r == match_at(hay@, needle@, i as int),
{
    let mut j: usize = 0;
    while j < needle.len()
        invariant
            i + needle.len() <= hay.len(),
            j <= needle.len(),
            forall|k: int| 0 <= k < j ==> hay@[i + k] == needle@[k],
        decreases needle.len() - j,
    {
        if hay[i + j] != needle[j] {
            proof {
                assert(hay@.subrange(i as int, i + needle@.len())[j as int] != needle@[j as int]);
            }
            return false;
        }
        j += 1;
    }
    proof {
        assert(hay@.subrange(i as int, i + needle@.len()) =~= needle@);
    }
    true
}

/// First occurrence of `needle` in `hay`, scanning left to right.
pub fn find(hay: &[u8], needle: &[u8]) -> (r: Option<usize>)
    requires
        needle.len() >= 1,
    ensures
        match r {
            Some(i) => first_match(hay@, needle@) == Some(i as int),
            None => first_match(hay@, needle@) is None,
        },
{
    if needle.len() > hay.len() {
        return None;
    }
    let last = hay.len() - needle.len();
    let mut i: usize = 0;
    while i <= last
        invariant
            needle.len() <= hay.len(),
            needle.len() >= 1,
            last == hay.len() - needle.len(),
            i <= last + 1,
            first_match(hay@, needle@) == first_match_from(hay@, needle@, i as int),
        decreases last + 1 - i,
    {
        if match_at_idx(hay, needle, i) {
            return Some(i);
        }
        i += 1;
    }
    None
}

/// Every occurrence reported by `first_match_from` really is a match at or
/// after the starting point.
pub proof fn lemma_first_match_is_match(hay: Seq<u8>, needle: Seq<u8>, from: int)
    ensures
        match first_match_from(hay, needle, from) {
            Some(i) => match_at(hay, needle, i) && from <= i,
            None => true,
        },
    decreases hay.len() - from,
{
    if from < 0 || needle.len() == 0 || from + needle.len() > hay.len() {
    } else if match_at(hay, needle, from) {
    } else {
        lemma_first_match_is_match(hay, needle, from + 1);
    }
}

/// Where a match stands and none stands earlier, that is the first match.
pub proof fn lemma_first_match_exact(hay: Seq<u8>, needle: Seq<u8>, from: int, t: int)
    requires
        0 <= from <= t,
        needle.len() >= 1,
        match_at(hay, needle, t),
        forall|i: int| from <= i < t ==> !match_at(hay, needle, i),
    ensures
        first_match_from(hay, needle, from) == Some(t),
    decreases t - from,
{
    if from < t {
        lemma_first_match_exact(hay, needle, from + 1, t);
    }
}

/// ASCII whitespace, as the scanner skips it.
pub open spec fn is_ws(b: u8) -> bool {
    b == 32 || (9 <= b && b <= 13)
}

/// The sequence with its leading ASCII whitespace removed.
pub open spec fn trim_start_spec(s: Seq<u8>) -> Seq<u8>
    decreases s.len(),
{
    if s.len() > 0 && is_ws(s[0]) {
        trim_start_spec(s.skip(1))
    } else {
        s
    }
}

pub(crate) fn byte_is_ws(b: u8) -> (r: bool)
    ensures
        r == is_ws(b),
{
    b == 32 || (9 <= b && b <= 13)
}

/// Index of the first non-whitespace byte of `s` at or after `from`.
pub(crate) fn skip_ws(s: &[u8], from: usize) -> (r: usize)
    requires
        from <= s.len(),
    ensures
        from <= r <= s.len(),
        s@.skip(r as int) == trim_start_spec(s@.skip(from as int)),
{
    let mut i = from;
    while i < s.len() && byte_is_ws(s[i])
        invariant
            from <= i <= s.len(),
            trim_start_spec(s@.skip(from as int)) == trim_start_spec(s@.skip(i as int)),
        decreases s.len() - i,
    {
        proof {
            assert(s@.skip(i as int).skip(1) =~= s@.skip(i + 1));
        }
        i += 1;
    }
    i
}

/// The quoted form of a key, as it is searched for in the text.
pub open spec fn needle_of(key: Seq<u8>) -> Seq<u8> {
    seq![34u8] + key + seq![34u8]
}

/// The remainder of `body` just past the first `"key"`, the following colon
/// and any whitespace: the place where that key's value begins. `None` when
/// the quoted key or the colon is absent.
pub open spec fn value_start(body: Seq<u8>, key: Seq<u8>) -> Option<Seq<u8>> {
    match first_match(body, needle_of(key)) {
        Some(i) => {
            let after_key = body.skip(i + needle_of(key).len());
            match first_match(after_key, seq![58u8]) {
                Some(c) => Some(trim_start_spec(after_key.skip(c + 1))),
                None => None,
            }
        },
        None => None,
    }
}

fn make_needle(key: &[u8]) -> (r: Vec<u8>)
    ensures
        r@ == needle_of(key@),
{
    let mut v: Vec<u8> = Vec::new();
    v.push(34);
    v.extend_from_slice(key);
    v.push(34);
    proof {
        assert(v@ =~= needle_of(key@));
    }
    v
}

/// Locates the start of `key`'s value in `body`, as `value_start` describes.
pub(crate) fn value_start_exec<'a>(body: &'a [u8], key: &[u8]) -> (r: Option<&'a [u8]>)
    ensures
        match r {
            Some(s) => value_start(body@, key@) == Some(s@),
            None => value_start(body@, key@) is None,
        },
{
    let needle = make_needle(key);
    match find(body, needle.as_slice()) {
        None => None,
        Some(i) => {
            proof {
                lemma_first_match_is_match(body@, needle@, 0);
                assert(match_at(body@, needle@, i as int));
                assert(i + needle@.len() <= body@.len());
            }
            assert(i + needle.len() <= body.len());
            let after = slice_subrange(body, i + needle.len(), body.len());
            let colon: [u8; 1] = [58];
            proof {
                assert(colon@ =~= seq![58u8]);
            }
            match find(after, colon.as_slice()) {
                None => None,
                Some(c) => {
                    proof {
                        lemma_first_match_is_match(after@, seq![58u8], 0);
                    }
                    let p = skip_ws(after, c + 1);
                    proof {
                        assert(after@.skip(c + 1) =~= body@.skip(
                            i + needle_of(key@).len(),
                        ).skip(c + 1));
                    }
                    Some(slice_subrange(after, p, after.len()))
                },
            }
        },
    }
}

/// What an escape sequence `\b` stands for: `n`, `r`, `t` become the control
/// byte; any other byte (including `"` and `\`) passes through as itself.
pub open spec fn unescape_byte(b: u8) -> u8 {
    if b == 110 {
        10
    } else if b == 114 {
        13
    } else if b == 116 {
        9
    } else {
        b
    }
}

/// Outcome of scanning a quoted string's content, starting just past its
/// opening quote: the decoded bytes and how many input bytes were consumed
/// (closing quote included); or the input ran out before a closing quote; or
/// it ended in a dangling backslash.
pub enum ItemScan {
    Closed(Seq<u8>, int),
    RanOff,
    Fail,
}

/// Scans a quoted string's content as the getters do: a backslash escapes the
/// following byte, an unescaped quote closes the string.
pub open spec fn scan_item(s: Seq<u8>) -> ItemScan
    decreases s.len(),
{
    if s.len() == 0 {
        ItemScan::RanOff
    } else if s[0] == 34 {
        ItemScan::Closed(Seq::empty(), 1)
    } else if s[0] == 92 {
        if s.len() == 1 {
            ItemScan::Fail
        } else {
            match scan_item(s.skip(2)) {
                ItemScan::Closed(v, k) => ItemScan::Closed(seq![unescape_byte(s[1])] + v, k + 2),
                ItemScan::RanOff => ItemScan::RanOff,
                ItemScan::Fail => ItemScan::Fail,
            }
        }
    } else {
        match scan_item(s.skip(1)) {
            ItemScan::Closed(v, k) => ItemScan::Closed(seq![s[0]] + v, k + 1),
            ItemScan::RanOff => ItemScan::RanOff,
            ItemScan::Fail => ItemScan::Fail,
        }
    }
}

enum ScannedItem {
    Closed(Vec<u8>, usize),
    RanOff,
    Fail,
}

fn unescape_byte_exec(b: u8) -> (r: u8)
    ensures
        r == unescape_byte(b),
{
    if b == 110 {
        10
    } else if b == 114 {
        13
    } else if b == 116 {
        9
    } else {
        b
    }
}

fn scan_item_exec(s: &[u8]) -> (r: ScannedItem)
    ensures
        match r {
            ScannedItem::Closed(v, k) => scan_item(s@) == ItemScan::Closed(v@, k as int) && k
                <= s.len(),
            ScannedItem::RanOff => scan_item(s@) == ItemScan::RanOff,
            ScannedItem::Fail => scan_item(s@) == ItemScan::Fail,
        },
{
    let mut out: Vec<u8> = Vec::new();
    let mut i: usize = 0;
    proof {
        assert(s@.skip(0) =~= s@);
        assert(forall|v: Seq<u8>| (Seq::<u8>::empty() + v) =~= v);
    }
    while i < s.len()
        invariant
            i <= s.len(),
            scan_item(s@) == (match scan_item(s@.skip(i as int)) {
                ItemScan::Closed(v, k) => ItemScan::Closed(out@ + v, i + k),
                ItemScan::RanOff => ItemScan::RanOff,
                ItemScan::Fail => ItemScan::Fail,
            }),
        decreases s.len() - i,
    {
        let b = s[i];
        proof {
            assert(s@.skip(i as int)[0] == b);
        }
        if b == 34 {
            proof {
                assert(out@ + Seq::<u8>::empty() =~= out@);
            }
            return ScannedItem::Closed(out, i + 1);
        } else if b == 92 {
            if i + 1 >= s.len() {
                proof {
                    assert(s@.skip(i as int).len() == 1);
                }
                return ScannedItem::Fail;
            }
            let e = unescape_byte_exec(s[i + 1]);
            let ghost out0 = out@;
            out.push(e);
            proof {
                assert(s@.skip(i as int).skip(2) =~= s@.skip(i + 2));
                assert(s@.skip(i as int)[1] == s@[i + 1]);
                assert(forall|v: Seq<u8>| (out0 + (seq![e] + v)) =~= (out0.push(e) + v));
            }
            i += 2;
        } else {
            let ghost out0 = out@;
            out.push(b);
            proof {
                assert(s@.skip(i as int).skip(1) =~= s@.skip(i + 1));
                assert(forall|v: Seq<u8>| (out0 + (seq![b] + v)) =~= (out0.push(b) + v));
            }
            i += 1;
        }
    }
    proof {
        assert(s@.skip(i as int).len() == 0);
    }
    ScannedItem::RanOff
}

/// The string value of `key` in `body`: found by substring search for the
/// quoted key, then the next colon, then a double-quoted string honouring
/// backslash escapes. `None` when the key is absent or the value is not a
/// quoted string.
pub open spec fn json_string_value(body: Seq<u8>, key: Seq<u8>) -> Option<Seq<u8>> {
    match value_start(body, key) {
        Some(s) => if s.len() == 0 || s[0] != 34 {
            None
        } else {
            match scan_item(s.skip(1)) {
                ItemScan::Closed(v, _) => Some(v),
                _ => None,
            }
        },
        None => None,
    }
}

/// Extracts the string value of `key` from `body`, per `json_string_value`.
pub fn json_get_string(body: &[u8], key: &[u8]) -> (r: Option<Vec<u8>>)
    ensures
        match r {
            Some(v) => json_string_value(body@, key@) == Some(v@),
            None => json_string_value(body@, key@) is None,
        },
{
    match value_start_exec(body, key) {
        None => None,
        Some(s) => {
            if s.len() == 0 {
                return None;
            }
            if s[0] != 34 {
                return None;
            }
            match scan_item_exec(slice_subrange(s, 1, s.len())) {
                ScannedItem::Closed(v, _) => Some(v),
                _ => None,
            }
        },
    }
}

/// `p` is a prefix of `s`.
pub open spec fn starts_with(s: Seq<u8>, p: Seq<u8>) -> bool {
    p.len() <= s.len() && s.take(p.len() as int) == p
}

fn starts_with_exec(s: &[u8], p: &[u8]) -> (r: bool)
    ensures
        r == starts_with(s@, p@),
{
    if p.len() > s.len() {
        return false;
    }
    let mut j: usize = 0;
    while j < p.len()
        invariant
            p.len() <= s.len(),
            j <= p.len(),
            forall|k: int| 0 <= k < j ==> s@[k] == p@[k],
        decreases p.len() - j,
    {
        if s[j] != p[j] {
            proof {
                assert(s@.take(p@.len() as int)[j as int] != p@[j as int]);
            }
            return false;
        }
        j += 1;
    }
    proof {
        assert(s@.take(p@.len() as int) =~= p@);
    }
    true
}

/// The boolean value of `key` in `body`: the literal `true` or `false`
/// immediately after the colon. `None` when the key is absent or neither
/// literal follows.
pub open spec fn json_bool_value(body: Seq<u8>, key: Seq<u8>) -> Option<bool> {
    match value_start(body, key) {
        Some(s) => if starts_with(s, seq![116u8, 114, 117, 101]) {
            Some(true)
        } else if starts_with(s, seq![102u8, 97, 108, 115, 101]) {
            Some(false)
        } else {
            None
        },
        None => None,
    }
}

/// Extracts the boolean value of `key` from `body`, per `json_bool_value`.
pub fn json_get_bool(body: &[u8], key: &[u8]) -> (r: Option<bool>)
    ensures
        r == json_bool_value(body@, key@),
{
    match value_start_exec(body, key) {
        None => None,
        Some(s) => {
            let t: [u8; 4] = [116, 114, 117, 101];
            let f: [u8; 5] = [102, 97, 108, 115, 101];
            proof {
                assert(t@ =~= seq![116u8, 114, 117, 101]);
                assert(f@ =~= seq![102u8, 97, 108, 115, 101]);
            }
            if starts_with_exec(s, t.as_slice()) {
                Some(true)
            } else if starts_with_exec(s, f.as_slice()) {
                Some(false)
            } else {
                None
            }
        },
    }
}

/// An ASCII decimal digit.
pub open spec fn is_digit(b: u8) -> bool {
    48 <= b && b <= 57
}

/// Length of the maximal run of digits at the front of `s`.
pub open spec fn digit_run_len(s: Seq<u8>) -> int
    decreases s.len(),
{
    if s.len() > 0 && is_digit(s[0]) {
        1 + digit_run_len(s.skip(1))
    } else {
        0
    }
}

pub proof fn lemma_digit_run_len(s: Seq<u8>)
    ensures
        0 <= digit_run_len(s) <= s.len(),
        forall|k: int| 0 <= k < digit_run_len(s) ==> is_digit(s[k]),
    decreases s.len(),
{
    if s.len() > 0 && is_digit(s[0]) {
        lemma_digit_run_len(s.skip(1));
        assert forall|k: int| 0 <= k < digit_run_len(s) implies is_digit(s[k]) by {
            if k > 0 {
                assert(s.skip(1)[k - 1] == s[k]);
            }
        }
    }
}

/// Numeric value of a digit string, most significant digit first.
pub open spec fn dec_value(s: Seq<u8>) -> int
    decreases s.len(),
{
    if s.len() == 0 {
        0
    } else {
        dec_value(s.take(s.len() - 1)) * 10 + (s[s.len() - 1] - 48)
    }
}

/// The digit run standing as `key`'s value in `body`: the maximal run of
/// ASCII digits immediately after the colon. `None` when the key is absent or
/// no digit is present.
pub open spec fn json_unsigned_run(body: Seq<u8>, key: Seq<u8>) -> Option<Seq<u8>> {
    match value_start(body, key) {
        Some(s) => {
            let k = digit_run_len(s);
            if k == 0 {
                None
            } else {
                Some(s.take(k))
            }
        },
        None => None,
    }
}

/// Extracts the raw digit run of `key`'s value, per `json_unsigned_run`.
pub fn json_get_unsigned_str(body: &[u8], key: &[u8]) -> (r: Option<Vec<u8>>)
    ensures
        match r {
            Some(v) => json_unsigned_run(body@, key@) == Some(v@),
            None => json_unsigned_run(body@, key@) is None,
        },
{
    match value_start_exec(body, key) {
        None => None,
        Some(s) => {
            let mut e: usize = 0;
            proof {
                assert(s@.skip(0) =~= s@);
            }
            while e < s.len() && 48 <= s[e] && s[e] <= 57
                invariant
                    e <= s.len(),
                    digit_run_len(s@) == e + digit_run_len(s@.skip(e as int)),
                    forall|k: int| 0 <= k < e ==> is_digit(s@[k]),
                decreases s.len() - e,
            {
                proof {
                    assert(s@.skip(e as int)[0] == s@[e as int]);
                    assert(s@.skip(e as int).skip(1) =~= s@.skip(e + 1));
                }
                e += 1;
            }
            proof {
                if e < s.len() {
                    assert(s@.skip(e as int)[0] == s@[e as int]);
                }
                assert(digit_run_len(s@.skip(e as int)) == 0);
            }
            if e == 0 {
                None
            } else {
                let d = slice_to_vec_u8(slice_subrange(s, 0, e));
                proof {
                    assert(d@ =~= s@.take(e as int));
                }
                Some(d)
            }
        },
    }
}

fn slice_to_vec_u8(s: &[u8]) -> (r: Vec<u8>)
    ensures
        r@ == s@,
{
    let mut v: Vec<u8> = Vec::new();
    v.extend_from_slice(s);
    proof {
        assert(v@ =~= s@);
    }
    v
}

pub proof fn lemma_dec_value_bounds(s: Seq<u8>)
    requires
        forall|k: int| 0 <= k < s.len() ==> is_digit(s[k]),
    ensures
        0 <= dec_value(s),
        forall|j: int|
            0 <= j <= s.len() ==> #[trigger] dec_value(s.take(j)) <= dec_value(s),
    decreases s.len(),
{
    if s.len() == 0 {
        assert(s.take(0) =~= s);
    } else {
        let pre = s.take(s.len() - 1);
        assert(forall|k: int| 0 <= k < pre.len() ==> pre[k] == s[k]);
        lemma_dec_value_bounds(pre);
        assert(is_digit(s[s.len() - 1]));
        assert(dec_value(s) >= dec_value(pre));
        assert forall|j: int| 0 <= j <= s.len() implies #[trigger] dec_value(s.take(j))
            <= dec_value(s) by {
            if j < s.len() {
                assert(pre.take(j) =~= s.take(j));
            } else {
                assert(s.take(j) =~= s);
            }
        }
    }
}

/// The unsigned value of `key` in `body`, if its digit run fits in `u64`.
pub open spec fn json_u64_value(body: Seq<u8>, key: Seq<u8>) -> Option<u64> {
    match json_unsigned_run(body, key) {
        Some(d) => if dec_value(d) <= u64::MAX {
            Some(dec_value(d) as u64)
        } else {
            None
        },
        None => None,
    }
}

/// The unsigned value of `key` in `body`, if its digit run fits in `u128`.
pub open spec fn json_u128_value(body: Seq<u8>, key: Seq<u8>) -> Option<u128> {
    match json_unsigned_run(body, key) {
        Some(d) => if dec_value(d) <= u128::MAX {
            Some(dec_value(d) as u128)
        } else {
            None
        },
        None => None,
    }
}

/// Decimal value of a digit string as `u128`, or `None` on overflow.
pub(crate) fn parse_u128_digits(d: &[u8]) -> (r: Option<u128>)
    requires
        forall|k: int| 0 <= k < d@.len() ==> is_digit(d@[k]),
    ensures
        match r {
            Some(v) => dec_value(d@) == v,
            None => dec_value(d@) > u128::MAX,
        },
{
    let mut acc: u128 = 0;
    let mut i: usize = 0;
    proof {
        assert(d@.take(0) =~= Seq::<u8>::empty());
    }
    while i < d.len()
        invariant
            i <= d.len(),
            forall|k: int| 0 <= k < d@.len() ==> is_digit(d@[k]),
            acc == dec_value(d@.take(i as int)),
        decreases d.len() - i,
    {
        let g = d[i];
        proof {
            assert(d@.take(i + 1).take(i as int) =~= d@.take(i as int));
            assert(d@.take(i + 1)[i as int] == g);
        }
        if acc > u128::MAX / 10 || (acc == u128::MAX / 10 && g - 48 > 5) {
            proof {
                assert(dec_value(d@.take(i + 1)) > u128::MAX);
                lemma_dec_value_bounds(d@);
                assert(d@.take(d@.len() as int) =~= d@);
            }
            return None;
        }
        acc = acc * 10 + (g - 48) as u128;
        i += 1;
    }
    proof {
        assert(d@.take(i as int) =~= d@);
    }
    Some(acc)
}

/// Extracts the `u64` value of `key` from `body`, per `json_u64_value`.
pub fn json_get_u64(body: &[u8], key: &[u8]) -> (r: Option<u64>)
    ensures
        r == json_u64_value(body@, key@),
{
    match json_get_unsigned_str(body, key) {
        None => None,
        Some(d) => {
            proof {
                lemma_run_digits(body@, key@, d@);
            }
            match parse_u128_digits(d.as_slice()) {
                Some(v) => if v <= 0xffff_ffff_ffff_ffff {
                    Some(v as u64)
                } else {
                    None
                },
                None => None,
            }
        },
    }
}

/// Extracts the `u128` value of `key` from `body`, per `json_u128_value`.
pub fn json_get_u128(body: &[u8], key: &[u8]) -> (r: Option<u128>)
    ensures
        r == json_u128_value(body@, key@),
{
    match json_get_unsigned_str(body, key) {
        None => None,
        Some(d) => {
            proof {
                lemma_run_digits(body@, key@, d@);
            }
            parse_u128_digits(d.as_slice())
        },
    }
}

/// A digit run reported by `json_unsigned_run` holds only digits.
proof fn lemma_run_digits(body: Seq<u8>, key: Seq<u8>, d: Seq<u8>)
    requires
        json_unsigned_run(body, key) == Some(d),
    ensures
        forall|k: int| 0 <= k < d.len() ==> is_digit(d[k]),
{
    let s = value_start(body, key)->Some_0;
    lemma_digit_run_len(s);
    assert(d =~= s.take(digit_run_len(s)));
}

/// How one byte is escaped for embedding in generated text: `"`, `\`, and the
/// three control bytes get a backslash form; everything else passes through.
pub open spec fn escape_byte(b: u8) -> Seq<u8> {
    if b == 34 {
        seq![92u8, 34]
    } else if b == 92 {
        seq![92u8, 92]
    } else if b == 10 {
        seq![92u8, 110]
    } else if b == 13 {
        seq![92u8, 114]
    } else if b == 9 {
        seq![92u8, 116]
    } else {
        seq![b]
    }
}

/// `s` with every byte escaped per `escape_byte`.
pub open spec fn escape_seq(s: Seq<u8>) -> Seq<u8>
    decreases s.len(),
{
    if s.len() == 0 {
        Seq::empty()
    } else {
        escape_byte(s[0]) + escape_seq(s.skip(1))
    }
}

/// Escapes `s` for safe embedding in a generated text payload.
pub fn json_escape(s: &[u8]) -> (r: Vec<u8>)
    ensures
        r@ == escape_seq(s@),
{
    let mut out: Vec<u8> = Vec::new();
    let mut i: usize = 0;
    proof {
        assert(s@.skip(0) =~= s@);
    }
    while i < s.len()
        invariant
            i <= s.len(),
            escape_seq(s@) == out@ + escape_seq(s@.skip(i as int)),
        decreases s.len() - i,
    {
        let b = s[i];
        let ghost out0 = out@;
        if b == 34 {
            out.push(92);
            out.push(34);
        } else if b == 92 {
            out.push(92);
            out.push(92);
        } else if b == 10 {
            out.push(92);
            out.push(110);
        } else if b == 13 {
            out.push(92);
            out.push(114);
        } else if b == 9 {
            out.push(92);
            out.push(116);
        } else {
            out.push(b);
        }
        proof {
            assert(s@.skip(i as int)[0] == b);
            assert(s@.skip(i as int).skip(1) =~= s@.skip(i + 1));
            assert(out@ =~= out0 + escape_byte(b));
            assert((out0 + escape_byte(b)) + escape_seq(s@.skip(i + 1)) =~= out0 + (escape_byte(b)
                + escape_seq(s@.skip(i + 1))));
        }
        i += 1;
    }
    proof {
        assert(escape_seq(s@) =~= out@);
    }
    out
}

/// Trimming never lengthens a sequence.
pub proof fn lemma_trim_len(s: Seq<u8>)
    ensures
        trim_start_spec(s).len() <= s.len(),
    decreases s.len(),
{
    if s.len() > 0 && is_ws(s[0]) {
        lemma_trim_len(s.skip(1));
    }
}

/// A closed string scan consumes at least its closing quote and at most the
/// whole input.
pub proof fn lemma_scan_item_len(s: Seq<u8>)
    ensures
        match scan_item(s) {
            ItemScan::Closed(_, k) => 1 <= k <= s.len(),
            _ => true,
        },
    decreases s.len(),
{
    if s.len() == 0 {
    } else if s[0] == 34 {
    } else if s[0] == 92 {
        if s.len() > 1 {
            lemma_scan_item_len(s.skip(2));
        }
    } else {
        lemma_scan_item_len(s.skip(1));
    }
}

/// One pass of the array-value loop: `s` is the text after the opening `[`
/// (or after a separating comma), `acc` the elements gathered so far.
/// Mirrors the getter: trim; `]` ends the array; a quote begins an element;
/// after a closed element a comma continues and `]` ends; an element whose
/// closing quote never comes leaves the cursor where the element began and
/// gathers nothing; anything else fails the whole parse.
pub open spec fn scan_items_loop(s: Seq<u8>, acc: Seq<Seq<u8>>) -> Option<Seq<Seq<u8>>>
    decreases s.len(),
    via scan_items_loop_dec
{
    let t = trim_start_spec(s);
    if t.len() == 0 {
        None
    } else if t[0] == 93 {
        Some(acc)
    } else if t[0] != 34 {
        None
    } else {
        match scan_item(t.skip(1)) {
            ItemScan::Fail => None,
            ItemScan::Closed(v, k) => {
                let u = trim_start_spec(t.skip(1 + k));
                if u.len() > 0 && u[0] == 44 {
                    scan_items_loop(u.skip(1), acc.push(v))
                } else if u.len() > 0 && u[0] == 93 {
                    Some(acc.push(v))
                } else {
                    None
                }
            },
            ItemScan::RanOff => {
                let u = trim_start_spec(t.skip(1));
                if u.len() > 0 && u[0] == 44 {
                    scan_items_loop(u.skip(1), acc)
                } else if u.len() > 0 && u[0] == 93 {
                    Some(acc)
                } else {
                    None
                }
            },
        }
    }
}

#[via_fn]
proof fn scan_items_loop_dec(s: Seq<u8>, acc: Seq<Seq<u8>>) {
    lemma_trim_len(s);
    let t = trim_start_spec(s);
    if t.len() > 0 && t[0] != 93 && t[0] == 34 {
        lemma_scan_item_len(t.skip(1));
        match scan_item(t.skip(1)) {
            ItemScan::Closed(v, k) => {
                lemma_trim_len(t.skip(1 + k));
            },
            ItemScan::RanOff => {
                lemma_trim_len(t.skip(1));
            },
            ItemScan::Fail => {},
        }
    }
}

/// The string-array value of `key` in `body`: a `[` after the colon, then
/// quoted strings separated by commas, ended by `]`. `None` when the key is
/// absent, no `[` follows, or an element is malformed.
pub open spec fn json_string_array_value(body: Seq<u8>, key: Seq<u8>) -> Option<Seq<Seq<u8>>> {
    match value_start(body, key) {
        Some(s) => if s.len() == 0 || s[0] != 91 {
            None
        } else {
            scan_items_loop(s.skip(1), Seq::empty())
        },
        None => None,
    }
}

/// Extracts the string-array value of `key`, per `json_string_array_value`.
pub fn json_get_string_array(body: &[u8], key: &[u8]) -> (r: Option<Vec<Vec<u8>>>)
    ensures
        match r {
            Some(v) => json_string_array_value(body@, key@) == Some(v.deep_view()),
            None => json_string_array_value(body@, key@) is None,
        },
{
    match value_start_exec(body, key) {
        None => None,
        Some(s) => {
            if s.len() == 0 {
                return None;
            }
            if s[0] != 91 {
                return None;
            }
            let inner = slice_subrange(s, 1, s.len());
            proof {
                assert(inner@ =~= s@.skip(1));
            }
            scan_items_exec(inner)
        },
    }
}

fn scan_items_exec(s: &[u8]) -> (r: Option<Vec<Vec<u8>>>)
    ensures
        match r {
            Some(v) => scan_items_loop(s@, Seq::empty()) == Some(v.deep_view()),
            None => scan_items_loop(s@, Seq::empty()) is None,
        },
{
    let mut out: Vec<Vec<u8>> = Vec::new();
    let mut p: usize = 0;
    proof {
        assert(s@.skip(0) =~= s@);
        assert(out.deep_view() =~= Seq::<Seq<u8>>::empty());
    }
    loop
        invariant
            p <= s.len(),
            scan_items_loop(s@, Seq::empty()) == scan_items_loop(
                s@.skip(p as int),
                out.deep_view(),
            ),
        decreases s.len() - p,
    {
        let ghost rest = s@.skip(p as int);
        let ghost t = trim_start_spec(rest);
        let q = skip_ws(s, p);
        proof {
            assert(s@.skip(q as int) == t);
        }
        if q >= s.len() {
            proof {
                assert(t.len() == 0);
            }
            return None;
        }
        let b = s[q];
        proof {
            assert(t[0] == b);
        }
        if b == 93 {
            return Some(out);
        }
        if b != 34 {
            return None;
        }
        let elem = slice_subrange(s, q + 1, s.len());
        proof {
            assert(elem@ =~= t.skip(1));
        }
        proof {
            lemma_trim_first(rest);
        }
        match scan_items_step(s, q, elem, &mut out) {
            StepOutcome::Fail => {
                return None;
            },
            StepOutcome::Finish => {
                return Some(out);
            },
            StepOutcome::Continue(p2) => {
                proof {
                    assert(p2 > p);
                }
                p = p2;
            },
        }
    }
}

enum StepOutcome {
    Fail,
    Finish,
    Continue(usize),
}

/// One element step of the array scan: handles the element that begins at
/// `q` (its opening quote) and either finishes the whole parse or reports
/// where the next element begins.
fn scan_items_step(s: &[u8], q: usize, elem: &[u8], out: &mut Vec<Vec<u8>>) -> (r: StepOutcome)
    requires
        q < s.len(),
        elem@ == trim_start_spec(s@.skip(q as int)).skip(1),
        trim_start_spec(s@.skip(q as int)) == s@.skip(q as int),
        s@[q as int] == 34,
    ensures
        match r {
            StepOutcome::Fail => step_spec(s@, q as int, old(out).deep_view()) is None,
            StepOutcome::Finish => step_spec(s@, q as int, old(out).deep_view()) == Some(
                final(out).deep_view(),
            ),
            StepOutcome::Continue(p2) => q < p2 <= s.len() && step_spec(
                s@,
                q as int,
                old(out).deep_view(),
            ) == scan_items_loop(s@.skip(p2 as int), final(out).deep_view()),
        },
{
    let ghost t = s@.skip(q as int);
    match scan_item_exec(elem) {
        ScannedItem::Fail => StepOutcome::Fail,
        ScannedItem::Closed(v, k) => {
            proof {
                lemma_scan_item_len(t.skip(1));
                assert(t.skip(1).len() == s@.len() - q - 1);
                assert(s@.skip(q + 1 + k) =~= t.skip(1 + k));
            }
            let u = skip_ws(s, q + 1 + k);
            proof {
                assert(s@.skip(u as int) == trim_start_spec(t.skip(1 + k as int)));
            }
            if u >= s.len() {
                return StepOutcome::Fail;
            }
            let c = s[u];
            proof {
                assert(trim_start_spec(t.skip(1 + k as int))[0] == c);
            }
            if c == 44 {
                let ghost out0 = out.deep_view();
                out.push(v);
                proof {
                    assert(v.deep_view() =~= v@);
                    assert(out.deep_view() =~~= out0.push(v@));
                    assert(s@.skip(u + 1) =~= trim_start_spec(t.skip(1 + k as int)).skip(1));
                }
                StepOutcome::Continue(u + 1)
            } else if c == 93 {
                let ghost out0 = out.deep_view();
                out.push(v);
                proof {
                    assert(v.deep_view() =~= v@);
                    assert(out.deep_view() =~~= out0.push(v@));
                }
                StepOutcome::Finish
            } else {
                StepOutcome::Fail
            }
        },
        ScannedItem::RanOff => {
            let u = skip_ws(s, q + 1);
            proof {
                assert(s@.skip(q + 1) =~= t.skip(1));
                assert(s@.skip(u as int) == trim_start_spec(t.skip(1)));
            }
            if u >= s.len() {
                return StepOutcome::Fail;
            }
            let c = s[u];
            proof {
                assert(trim_start_spec(t.skip(1))[0] == c);
            }
            if c == 44 {
                proof {
                    assert(s@.skip(u + 1) =~= trim_start_spec(t.skip(1)).skip(1));
                }
                StepOutcome::Continue(u + 1)
            } else if c == 93 {
                StepOutcome::Finish
            } else {
                StepOutcome::Fail
            }
        },
    }
}

/// What `scan_items_loop` yields from the element starting at `q` onward.
spec fn step_spec(s: Seq<u8>, q: int, acc: Seq<Seq<u8>>) -> Option<Seq<Seq<u8>>> {
    scan_items_loop(s.skip(q), acc)
}

/// A trimmed sequence is empty or starts with a non-whitespace byte.
pub proof fn lemma_trim_head(s: Seq<u8>)
    ensures
        trim_start_spec(s).len() > 0 ==> !is_ws(trim_start_spec(s)[0]),
    decreases s.len(),
{
    if s.len() > 0 && is_ws(s[0]) {
        lemma_trim_head(s.skip(1));
    }
}

/// Trimming is idempotent.
pub proof fn lemma_trim_first(s: Seq<u8>)
    ensures
        trim_start_spec(trim_start_spec(s)) == trim_start_spec(s),
    decreases s.len(),
{
    if s.len() > 0 && is_ws(s[0]) {
        lemma_trim_first(s.skip(1));
    }
}

/// The objects yielded from position `i` of `text` onward, given the
/// scanner's state: whether the cursor stands inside a quoted string, whether
/// the previous byte was an unconsumed backslash, the brace nesting depth,
/// and where the innermost top-level object began.
pub open spec fn extract_from(
    text: Seq<u8>,
    i: int,
    in_string: bool,
    escape: bool,
    depth: int,
    start: Option<int>,
) -> Seq<Seq<u8>>
    decreases text.len() - i,
{
    if i < 0 || i >= text.len() {
        Seq::empty()
    } else {
        let c = text[i];
        if in_string {
            if escape {
                extract_from(text, i + 1, true, false, depth, start)
            } else if c == 92 {
                extract_from(text, i + 1, true, true, depth, start)
            } else if c == 34 {
                extract_from(text, i + 1, false, false, depth, start)
            } else {
                extract_from(text, i + 1, true, false, depth, start)
            }
        } else if c == 34 {
            extract_from(text, i + 1, true, false, depth, start)
        } else if c == 123 {
            if depth == 0 {
                extract_from(text, i + 1, false, false, 1, Some(i))
            } else {
                extract_from(text, i + 1, false, false, depth + 1, start)
            }
        } else if c == 125 {
            if depth == 1 {
                match start {
                    Some(st) => seq![text.subrange(st, i + 1)] + extract_from(
                        text,
                        i + 1,
                        false,
                        false,
                        0,
                        None,
                    ),
                    None => extract_from(text, i + 1, false, false, 0, None),
                }
            } else if depth > 1 {
                extract_from(text, i + 1, false, false, depth - 1, start)
            } else {
                extract_from(text, i + 1, false, false, depth, start)
            }
        } else {
            extract_from(text, i + 1, false, false, depth, start)
        }
    }
}

/// Every complete top-level brace-delimited object of `text`, in order of
/// appearance, with quoted strings (and their backslash escapes) honoured so
/// a brace inside a string does not count. Unbalanced text yields only the
/// objects that did close.
pub open spec fn extract_objects_spec(text: Seq<u8>) -> Seq<Seq<u8>> {
    extract_from(text, 0, false, false, 0, None)
}

/// Extracts the top-level objects of `text`, per `extract_objects_spec`.
pub fn extract_objects(text: &[u8]) -> (r: Vec<Vec<u8>>)
    ensures
        r.deep_view() == extract_objects_spec(text@),
{
    let mut out: Vec<Vec<u8>> = Vec::new();
    let mut i: usize = 0;
    let mut in_string = false;
    let mut escape = false;
    let mut depth: usize = 0;
    let mut start: Option<usize> = None;
    proof {
        assert(out.deep_view() =~= Seq::<Seq<u8>>::empty());
        assert(out.deep_view() + extract_objects_spec(text@) =~= extract_objects_spec(text@));
    }
    while i < text.len()
        invariant
            i <= text.len(),
            depth <= i,
            escape ==> in_string,
            match start {
                Some(st) => st < i && st < text.len(),
                None => true,
            },
            extract_objects_spec(text@) == out.deep_view() + extract_from(
                text@,
                i as int,
                in_string,
                escape,
                depth as int,
                match start {
                    Some(st) => Some(st as int),
                    None => None,
                },
            ),
        decreases text.len() - i,
    {
        let c = text[i];
        if in_string {
            if escape {
                escape = false;
            } else if c == 92 {
                escape = true;
            } else if c == 34 {
                in_string = false;
            }
        } else if c == 34 {
            in_string = true;
        } else if c == 123 {
            if depth == 0 {
                start = Some(i);
            }
            depth = depth + 1;
        } else if c == 125 {
            if depth == 1 {
                match start {
                    Some(st) => {
                        let ghost out0 = out.deep_view();
                        let obj = slice_to_vec_u8(slice_subrange(text, st, i + 1));
                        out.push(obj);
                        proof {
                            assert(obj.deep_view() =~= text@.subrange(st as int, i + 1));
                            assert(out.deep_view() =~~= out0.push(
                                text@.subrange(st as int, i + 1),
                            ));
                            assert(out0 + (seq![text@.subrange(st as int, i + 1)] + extract_from(
                                text@,
                                i + 1,
                                false,
                                false,
                                0,
                                None,
                            )) =~= out.deep_view() + extract_from(
                                text@,
                                i + 1,
                                false,
                                false,
                                0,
                                None,
                            ));
                        }
                        start = None;
                        depth = 0;
                    },
                    None => {
                        depth = 0;
                    },
                }
            } else if depth > 1 {
                depth = depth - 1;
            }
        }
        i += 1;
    }
    out
}

} // verus!
