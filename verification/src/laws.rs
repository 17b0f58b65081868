//! Laws of the service, stated and proved once over the specifications the
//! modules' own contracts use.

use vstd::prelude::*;
use crate::api::{
    api_notes_prefix, notes_routes, note_id_in_path, rv, service_spec, st_no_content, ct_text,
    Endpoint,
};
use crate::models::NoteView;
use crate::persist::{dec_digits, lemma_dec_digits_props};
use crate::request::{
    assoc_get, assoc_set, collect_headers, content_length_key, content_length_of, crlfcrlf,
    header_entry, lower_seq, parse_request_spec, split_lines, split_words, trim_end_spec,
    word_run_len, ParseError, RequestView,
};
use crate::router::{dispatch_spec, first_route, route_matches, Dispatch, Method, RouteView};
use crate::scan::{
    dec_value, escape_byte, escape_seq, first_match, is_digit, is_ws, lemma_first_match_exact,
    match_at, scan_item, starts_with, trim_start_spec, unescape_byte, ItemScan,
};
use crate::store::{
    apply_patch, find_id, fresh_note, lemma_find_id_from, lemma_sort_notes_props, sort_notes,
    PatchView,
};

verus! {

/// The canonical byte stream of a request: request line, one
/// `content-length` header naming exactly the body's length, the blank
/// line, then the body.
pub open spec fn request_stream(method: Seq<u8>, path: Seq<u8>, body: Seq<u8>) -> Seq<u8> {
    method + seq![32u8] + path + seq![13u8, 10u8] + content_length_key() + seq![58u8, 32u8]
        + dec_digits(body.len()) + seq![13u8, 10u8, 13u8, 10u8] + body
}

/// A word followed by nothing or by whitespace runs exactly its own length.
proof fn lemma_word_run_exact(w: Seq<u8>, rest: Seq<u8>)
    requires
        forall|i: int| 0 <= i < w.len() ==> !is_ws(w[i]),
        rest.len() == 0 || is_ws(rest[0]),
    ensures
        word_run_len(w + rest) == w.len(),
    decreases w.len(),
{
    let s = w + rest;
    if w.len() == 0 {
        assert(s =~= rest);
    } else {
        assert(s[0] == w[0]);
        assert(s.skip(1) =~= w.skip(1) + rest);
        assert(forall|i: int| 0 <= i < w.skip(1).len() ==> !is_ws(w.skip(1)[i]));
        lemma_word_run_exact(w.skip(1), rest);
    }
}

/// A request line of two whitespace-free words splits into those words.
proof fn lemma_split_words_pair(m: Seq<u8>, p: Seq<u8>)
    requires
        m.len() > 0,
        p.len() > 0,
        forall|i: int| 0 <= i < m.len() ==> !is_ws(m[i]),
        forall|i: int| 0 <= i < p.len() ==> !is_ws(p[i]),
    ensures
        split_words(m + seq![32u8] + p) == seq![m, p],
{
    let line = m + seq![32u8] + p;
    assert(line[0] == m[0]);
    assert(trim_start_spec(line) == line);
    assert(line =~= m + (seq![32u8] + p));
    lemma_word_run_exact(m, seq![32u8] + p);
    assert(word_run_len(line) == m.len());
    assert(line.take(m.len() as int) =~= m);
    let rest = line.skip(m.len() as int);
    assert(rest =~= seq![32u8] + p);
    assert(split_words(line) == seq![line.take(m.len() as int)] + split_words(rest));
    // the tail: one space, then the second word
    assert(is_ws(rest[0]));
    assert(rest.skip(1) =~= p);
    assert(trim_start_spec(rest) == trim_start_spec(p));
    assert(trim_start_spec(p) == p);
    assert(p =~= p + Seq::<u8>::empty());
    lemma_word_run_exact(p, Seq::empty());
    assert(word_run_len(p) == p.len());
    assert(p.take(p.len() as int) =~= p);
    let rest2 = p.skip(p.len() as int);
    assert(rest2.len() == 0);
    assert(trim_start_spec(rest2) == rest2);
    assert(split_words(rest2) =~= Seq::<Seq<u8>>::empty());
    assert(split_words(rest) == seq![p] + split_words(rest2));
    assert(split_words(line) =~= seq![m, p]);
}

/// Every byte of the `content-length` key is a plain lower-case letter or
/// hyphen: no carriage return, no colon, no whitespace, nothing to
/// lower-case.
proof fn lemma_clkey_bytes()
    ensures
        forall|i: int|
            0 <= i < content_length_key().len() ==> {
                let b = #[trigger] content_length_key()[i];
                b != 13 && b != 58 && !is_ws(b) && !(65 <= b <= 90)
            },
{
    let k = content_length_key();
    assert forall|i: int| 0 <= i < k.len() implies {
        let b = #[trigger] k[i];
        b != 13 && b != 58 && !is_ws(b) && !(65 <= b <= 90)
    } by {
        if i == 0 {
            assert(k[0] == 99);
        } else if i == 1 {
            assert(k[1] == 111);
        } else if i == 2 {
            assert(k[2] == 110);
        } else if i == 3 {
            assert(k[3] == 116);
        } else if i == 4 {
            assert(k[4] == 101);
        } else if i == 5 {
            assert(k[5] == 110);
        } else if i == 6 {
            assert(k[6] == 116);
        } else if i == 7 {
            assert(k[7] == 45);
        } else if i == 8 {
            assert(k[8] == 108);
        } else if i == 9 {
            assert(k[9] == 101);
        } else if i == 10 {
            assert(k[10] == 110);
        } else if i == 11 {
            assert(k[11] == 103);
        } else if i == 12 {
            assert(k[12] == 116);
        } else {
            assert(k[13] == 104);
        }
    }
}

/// The header line `content-length: N` reads back as that header.
proof fn lemma_clline_entry(dd: Seq<u8>)
    requires
        dd.len() > 0,
        forall|i: int| 0 <= i < dd.len() ==> is_digit(dd[i]),
    ensures
        header_entry(content_length_key() + seq![58u8, 32u8] + dd) == Some(
            (content_length_key(), dd),
        ),
{
    let k = content_length_key();
    let line = k + seq![58u8, 32u8] + dd;
    lemma_clkey_bytes();
    assert(line =~= k + (seq![58u8, 32u8] + dd));
    assert(match_at(line, seq![58u8], k.len() as int)) by {
        assert(line[k.len() as int] == 58);
        assert(line.subrange(k.len() as int, k.len() as int + 1) =~= seq![58u8]);
    }
    assert forall|i: int| 0 <= i < k.len() implies !match_at(line, seq![58u8], i) by {
        assert(line[i] == k[i]);
        if match_at(line, seq![58u8], i) {
            assert(line.subrange(i, i + 1)[0] == line[i]);
        }
    }
    lemma_first_match_exact(line, seq![58u8], 0, k.len() as int);
    assert(line.take(k.len() as int) =~= k);
    // the name needs no trimming and no lower-casing
    assert(trim_start_spec(k) == k);
    assert(trim_end_spec(k) == k);
    assert(lower_seq(k) =~= k);
    // the value sheds its one leading space
    let after = line.skip(k.len() as int + 1);
    assert(after =~= seq![32u8] + dd);
    assert(after.skip(1) =~= dd);
    assert(trim_start_spec(after) == trim_start_spec(dd));
    assert(trim_start_spec(dd) == dd);
    assert(trim_end_spec(dd) == dd);
}

/// The request parser recovers the exact method, path, and body bytes that
/// were sent, from any canonical stream whose `content-length` is correct.
#[verifier::rlimit(100)]
pub proof fn lemma_parse_recovers_request(method: Seq<u8>, path: Seq<u8>, body: Seq<u8>)
    requires
        method.len() > 0,
        path.len() > 0,
        forall|i: int| 0 <= i < method.len() ==> !is_ws(method[i]),
        forall|i: int| 0 <= i < path.len() ==> !is_ws(path[i]),
        body.len() <= 1048576,
        method.len() + path.len() + dec_digits(body.len()).len() + 23 <= 1048576,
    ensures
        parse_request_spec(request_stream(method, path, body)) == Ok::<RequestView, ParseError>(
            RequestView {
                method,
                path,
                headers: seq![(content_length_key(), dec_digits(body.len()))],
                body,
            },
        ),
{
    let k = content_length_key();
    let dd = dec_digits(body.len());
    lemma_dec_digits_props(body.len());
    lemma_clkey_bytes();
    let reqline = method + seq![32u8] + path;
    let clline = k + seq![58u8, 32u8] + dd;
    let head = reqline + seq![13u8, 10u8] + clline + seq![13u8, 10u8, 13u8, 10u8];
    let data = request_stream(method, path, body);
    assert(data =~= head + body);
    let a = reqline.len() as int;
    let t = head.len() - 4;
    // the terminator stands at the end of the head and nowhere earlier
    assert(match_at(data, crlfcrlf(), t)) by {
        assert(data.subrange(t, t + 4) =~= seq![13u8, 10u8, 13u8, 10u8]);
    }
    assert forall|i: int| 0 <= i < t implies !match_at(data, crlfcrlf(), i) by {
        if i < a {
            assert(data[i] == reqline[i]);
            if i < method.len() {
                assert(reqline[i] == method[i]);
            } else if i == method.len() {
                assert(reqline[i] == 32);
            } else {
                assert(reqline[i] == path[i - method.len() - 1]);
            }
            assert(data[i] != 13);
        } else if i == a {
            assert(data[a + 2] == clline[0]);
            assert(data[a + 2] == 99);
        } else if i == a + 1 {
            assert(data[i] == 10);
        } else {
            assert(data[i] == clline[i - (a + 2)]);
            if i - (a + 2) < k.len() {
                assert(clline[i - (a + 2)] == k[i - (a + 2)]);
            } else if i - (a + 2) == k.len() {
                assert(clline[i - (a + 2)] == 58);
            } else if i - (a + 2) == k.len() + 1 {
                assert(clline[i - (a + 2)] == 32);
            } else {
                assert(clline[i - (a + 2)] == dd[i - (a + 2) - k.len() - 2]);
                assert(is_digit(data[i]));
            }
        }
        if match_at(data, crlfcrlf(), i) {
            assert(data.subrange(i, i + 4)[0] == data[i]);
            assert(data.subrange(i, i + 4)[2] == data[i + 2]);
        }
    }
    lemma_first_match_exact(data, crlfcrlf(), 0, t);
    assert(t + 4 <= 1048576);
    // the head splits into the request line, the header line, and two blanks
    assert(data.take(t + 4) =~= head);
    assert(match_at(head, seq![13u8, 10u8], a)) by {
        assert(head.subrange(a, a + 2) =~= seq![13u8, 10u8]);
    }
    assert forall|i: int| 0 <= i < a implies !match_at(head, seq![13u8, 10u8], i) by {
        assert(head[i] == reqline[i]);
        if i < method.len() {
            assert(reqline[i] == method[i]);
        } else if i == method.len() {
            assert(reqline[i] == 32);
        } else {
            assert(reqline[i] == path[i - method.len() - 1]);
        }
        assert(head[i] != 13);
        if match_at(head, seq![13u8, 10u8], i) {
            assert(head.subrange(i, i + 2)[0] == head[i]);
        }
    }
    lemma_first_match_exact(head, seq![13u8, 10u8], 0, a);
    assert(head.take(a) =~= reqline);
    let rest1 = head.skip(a + 2);
    assert(rest1 =~= clline + seq![13u8, 10u8, 13u8, 10u8]);
    let c = clline.len() as int;
    assert(match_at(rest1, seq![13u8, 10u8], c)) by {
        assert(rest1.subrange(c, c + 2) =~= seq![13u8, 10u8]);
    }
    assert forall|i: int| 0 <= i < c implies !match_at(rest1, seq![13u8, 10u8], i) by {
        assert(rest1[i] == clline[i]);
        if i < k.len() {
            assert(clline[i] == k[i]);
        } else if i == k.len() {
            assert(clline[i] == 58);
        } else if i == k.len() + 1 {
            assert(clline[i] == 32);
        } else {
            assert(clline[i] == dd[i - k.len() - 2]);
            assert(is_digit(clline[i]));
        }
        if match_at(rest1, seq![13u8, 10u8], i) {
            assert(rest1.subrange(i, i + 2)[0] == rest1[i]);
        }
    }
    lemma_first_match_exact(rest1, seq![13u8, 10u8], 0, c);
    assert(rest1.take(c) =~= clline);
    let rest2 = rest1.skip(c + 2);
    assert(rest2 =~= seq![13u8, 10u8]);
    assert(match_at(rest2, seq![13u8, 10u8], 0)) by {
        assert(rest2.subrange(0, 2) =~= seq![13u8, 10u8]);
    }
    lemma_first_match_exact(rest2, seq![13u8, 10u8], 0, 0);
    assert(rest2.take(0) =~= Seq::<u8>::empty());
    let rest3 = rest2.skip(2);
    assert(rest3 =~= Seq::<u8>::empty());
    assert(first_match(rest3, seq![13u8, 10u8]) is None);
    let lines = split_lines(head);
    assert(lines =~= seq![reqline, clline, Seq::<u8>::empty(), Seq::<u8>::empty()]) by {
        reveal_with_fuel(split_lines, 5);
    }
    // the request line yields the method and the path
    lemma_split_words_pair(method, path);
    assert(lines[0] == reqline);
    assert(split_words(lines[0]) == seq![method, path]);
    // the one header line yields the one header
    lemma_clline_entry(dd);
    let tail_lines = lines.skip(1);
    assert(tail_lines =~= seq![clline, Seq::<u8>::empty(), Seq::<u8>::empty()]);
    let hs = assoc_set(Seq::empty(), k, dd);
    assert(hs =~= seq![(k, dd)]);
    assert(collect_headers(tail_lines, Seq::empty()) == hs) by {
        reveal_with_fuel(collect_headers, 4);
        assert(tail_lines[0] == clline);
        assert(tail_lines.skip(1) =~= seq![Seq::<u8>::empty(), Seq::<u8>::empty()]);
        assert(tail_lines.skip(1)[0].len() == 0);
    }
    // the declared length is believed and matches the body exactly
    assert(assoc_get(hs, k) == Some(dd));
    assert(dec_value(dd) == body.len());
    assert(content_length_of(hs) == body.len());
    let avail = data.len() - (t + 4);
    assert(avail == body.len());
    assert(data.subrange(t + 4, t + 4 + body.len()) =~= body);
}

/// Escaping round-trips through the string scanner: the escaped form of any
/// byte string, closed by a quote, scans back to exactly that string, the
/// cursor resting past the closing quote — whatever follows it.
pub proof fn lemma_escape_scan(s: Seq<u8>, rest: Seq<u8>)
    ensures
        scan_item(escape_seq(s) + seq![34u8] + rest) == ItemScan::Closed(s, escape_seq(s).len() as int + 1),
    decreases s.len(),
{
    let e = escape_seq(s) + seq![34u8] + rest;
    if s.len() == 0 {
        assert(e =~= seq![34u8] + rest);
        assert(e[0] == 34);
        assert(scan_item(e) == ItemScan::Closed(Seq::empty(), 1));
        assert(s =~= Seq::<u8>::empty());
    } else {
        let b = s[0];
        let tail = s.skip(1);
        lemma_escape_scan(tail, rest);
        let et = escape_seq(tail) + seq![34u8] + rest;
        assert(escape_seq(s) == escape_byte(b) + escape_seq(tail));
        if b == 34 || b == 92 || b == 10 || b == 13 || b == 9 {
            // two escape bytes stand for `b`
            let x: u8 = if b == 34 {
                34
            } else if b == 92 {
                92
            } else if b == 10 {
                110
            } else if b == 13 {
                114
            } else {
                116
            };
            assert(escape_byte(b) =~= seq![92u8, x]);
            assert(e =~= seq![92u8, x] + et);
            assert(e[0] == 92);
            assert(e.len() >= 2);
            assert(e[1] == x);
            assert(e.skip(2) =~= et);
            assert(unescape_byte(x) == b);
            assert(scan_item(e) == ItemScan::Closed(seq![b] + tail, et.len() - rest.len() + 2));
            assert(seq![b] + tail =~= s);
            assert(escape_seq(s).len() as int + 1 == et.len() - rest.len() + 2);
        } else {
            assert(escape_byte(b) =~= seq![b]);
            assert(e =~= seq![b] + et);
            assert(e[0] == b);
            assert(e.skip(1) =~= et);
            assert(scan_item(e) == ItemScan::Closed(seq![b] + tail, et.len() - rest.len() + 1));
            assert(seq![b] + tail =~= s);
            assert(escape_seq(s).len() as int + 1 == et.len() - rest.len() + 1);
        }
    }
}

/// A quoted key found first at its own field reads back its string value:
/// wherever `"key":"…"` stands with no earlier occurrence of the quoted
/// key, the getter returns exactly the value that was escaped in.
pub proof fn lemma_string_field_roundtrip(a: Seq<u8>, k: Seq<u8>, v: Seq<u8>, b: Seq<u8>)
    requires
        ({
            let t = a + crate::scan::needle_of(k) + seq![58u8] + crate::persist::quoted(v) + b;
            forall|i: int| 0 <= i < a.len() ==> !match_at(t, crate::scan::needle_of(k), i)
        }),
    ensures
        crate::scan::json_string_value(
            a + crate::scan::needle_of(k) + seq![58u8] + crate::persist::quoted(v) + b,
            k,
        ) == Some(v),
{
    let nd = crate::scan::needle_of(k);
    let t = a + nd + seq![58u8] + crate::persist::quoted(v) + b;
    assert(match_at(t, nd, a.len() as int)) by {
        assert(t.subrange(a.len() as int, a.len() as int + nd.len() as int) =~= nd);
    }
    lemma_first_match_exact(t, nd, 0, a.len() as int);
    let after = t.skip(a.len() as int + nd.len() as int);
    assert(after =~= seq![58u8] + crate::persist::quoted(v) + b);
    assert(match_at(after, seq![58u8], 0)) by {
        assert(after.subrange(0, 1) =~= seq![58u8]);
    }
    lemma_first_match_exact(after, seq![58u8], 0, 0);
    let s = after.skip(1);
    assert(s =~= crate::persist::quoted(v) + b);
    assert(s[0] == 34);
    assert(trim_start_spec(s) == s);
    assert(s.skip(1) =~= escape_seq(v) + seq![34u8] + b);
    lemma_escape_scan(v, b);
}

/// An unsigned key found first at its own field reads back its number:
/// wherever `"key":N` stands, `N` rendered in decimal and followed by a
/// non-digit, with no earlier occurrence of the quoted key, the getter
/// returns exactly `N`.
pub proof fn lemma_unsigned_field_roundtrip(a: Seq<u8>, k: Seq<u8>, n: nat, b: Seq<u8>)
    requires
        b.len() > 0 ==> !is_digit(b[0]),
        ({
            let t = a + crate::scan::needle_of(k) + seq![58u8] + dec_digits(n) + b;
            forall|i: int| 0 <= i < a.len() ==> !match_at(t, crate::scan::needle_of(k), i)
        }),
    ensures
        crate::scan::json_unsigned_run(a + crate::scan::needle_of(k) + seq![58u8] + dec_digits(n) + b, k)
            == Some(dec_digits(n)),
        n <= u128::MAX ==> crate::scan::json_u128_value(
            a + crate::scan::needle_of(k) + seq![58u8] + dec_digits(n) + b,
            k,
        ) == Some(n as u128),
        n <= u64::MAX ==> crate::scan::json_u64_value(
            a + crate::scan::needle_of(k) + seq![58u8] + dec_digits(n) + b,
            k,
        ) == Some(n as u64),
{
    let nd = crate::scan::needle_of(k);
    let dd = dec_digits(n);
    lemma_dec_digits_props(n);
    let t = a + nd + seq![58u8] + dd + b;
    assert(match_at(t, nd, a.len() as int)) by {
        assert(t.subrange(a.len() as int, a.len() as int + nd.len() as int) =~= nd);
    }
    lemma_first_match_exact(t, nd, 0, a.len() as int);
    let after = t.skip(a.len() as int + nd.len() as int);
    assert(after =~= seq![58u8] + dd + b);
    assert(match_at(after, seq![58u8], 0)) by {
        assert(after.subrange(0, 1) =~= seq![58u8]);
    }
    lemma_first_match_exact(after, seq![58u8], 0, 0);
    let s = after.skip(1);
    assert(s =~= dd + b);
    assert(s[0] == dd[0] && is_digit(s[0]));
    assert(trim_start_spec(s) == s);
    lemma_digit_run_concat(dd, b);
    assert(s.take(dd.len() as int) =~= dd);
}

/// A run of digits followed by nothing or a non-digit runs its own length.
proof fn lemma_digit_run_concat(dd: Seq<u8>, b: Seq<u8>)
    requires
        forall|i: int| 0 <= i < dd.len() ==> is_digit(dd[i]),
        b.len() > 0 ==> !is_digit(b[0]),
    ensures
        crate::scan::digit_run_len(dd + b) == dd.len(),
    decreases dd.len(),
{
    let s = dd + b;
    if dd.len() == 0 {
        assert(s =~= b);
    } else {
        assert(s[0] == dd[0]);
        assert(s.skip(1) =~= dd.skip(1) + b);
        assert(forall|i: int| 0 <= i < dd.skip(1).len() ==> is_digit(dd.skip(1)[i]));
        lemma_digit_run_concat(dd.skip(1), b);
    }
}

/// A boolean key found first at its own field reads back its value.
pub proof fn lemma_bool_field_roundtrip(a: Seq<u8>, k: Seq<u8>, v: bool, b: Seq<u8>)
    requires
        ({
            let t = a + crate::scan::needle_of(k) + seq![58u8] + crate::persist::render_bool(v)
                + b;
            forall|i: int| 0 <= i < a.len() ==> !match_at(t, crate::scan::needle_of(k), i)
        }),
    ensures
        crate::scan::json_bool_value(
            a + crate::scan::needle_of(k) + seq![58u8] + crate::persist::render_bool(v) + b,
            k,
        ) == Some(v),
{
    let nd = crate::scan::needle_of(k);
    let t = a + nd + seq![58u8] + crate::persist::render_bool(v) + b;
    assert(match_at(t, nd, a.len() as int)) by {
        assert(t.subrange(a.len() as int, a.len() as int + nd.len() as int) =~= nd);
    }
    lemma_first_match_exact(t, nd, 0, a.len() as int);
    let after = t.skip(a.len() as int + nd.len() as int);
    assert(after =~= seq![58u8] + crate::persist::render_bool(v) + b);
    assert(match_at(after, seq![58u8], 0)) by {
        assert(after.subrange(0, 1) =~= seq![58u8]);
    }
    lemma_first_match_exact(after, seq![58u8], 0, 0);
    let s = after.skip(1);
    assert(s =~= crate::persist::render_bool(v) + b);
    assert(s[0] == crate::persist::render_bool(v)[0]);
    assert(trim_start_spec(s) == s);
    if v {
        assert(crate::scan::starts_with(s, seq![116u8, 114, 117, 101])) by {
            assert(s.take(4) =~= seq![116u8, 114, 117, 101]);
        }
    } else {
        assert(crate::scan::starts_with(s, seq![102u8, 97, 108, 115, 101])) by {
            assert(s.take(5) =~= seq![102u8, 97, 108, 115, 101]);
        }
        assert(!crate::scan::starts_with(s, seq![116u8, 114, 117, 101])) by {
            if crate::scan::starts_with(s, seq![116u8, 114, 117, 101]) {
                assert(s.take(4)[0] == s[0]);
            }
        }
    }
}

/// The rendered elements of a string array scan back to exactly those
/// elements, whatever bytes they hold: every element was escaped in, and
/// the scanner honours the escapes on the way out.
proof fn lemma_items_scan_roundtrip(items: Seq<Seq<u8>>, acc: Seq<Seq<u8>>, b: Seq<u8>)
    requires
        b.len() == 0 || (!is_ws(b[0]) && b[0] != 34 && b[0] != 93),
    ensures
        crate::scan::scan_items_loop(crate::persist::str_list_inner(items) + seq![93u8] + b, acc)
            == Some(acc + items),
    decreases items.len(),
{
    let s = crate::persist::str_list_inner(items) + seq![93u8] + b;
    if items.len() == 0 {
        assert(s =~= seq![93u8] + b);
        assert(s[0] == 93);
        assert(trim_start_spec(s) == s);
        assert(acc + items =~= acc);
    } else {
        let v = items[0];
        let tail = items.skip(1);
        assert(s[0] == 34) by {
            assert(crate::persist::str_list_inner(items)[0] == 34);
        }
        assert(trim_start_spec(s) == s);
        if items.len() == 1 {
            assert(s =~= crate::persist::quoted(v) + (seq![93u8] + b));
            assert(s.skip(1) =~= escape_seq(v) + seq![34u8] + (seq![93u8] + b));
            lemma_escape_scan(v, seq![93u8] + b);
            let after = s.skip(1 + (escape_seq(v).len() as int + 1));
            assert(after =~= seq![93u8] + b);
            assert(trim_start_spec(after) == after);
            assert(after[0] == 93);
            assert(acc.push(v) =~= acc + items);
        } else {
            let rest_inner = crate::persist::str_list_inner(tail) + seq![93u8] + b;
            assert(s =~= crate::persist::quoted(v) + (seq![44u8] + rest_inner));
            assert(s.skip(1) =~= escape_seq(v) + seq![34u8] + (seq![44u8] + rest_inner));
            lemma_escape_scan(v, seq![44u8] + rest_inner);
            let after = s.skip(1 + (escape_seq(v).len() as int + 1));
            assert(after =~= seq![44u8] + rest_inner);
            assert(trim_start_spec(after) == after);
            assert(after[0] == 44);
            assert(after.skip(1) =~= rest_inner);
            lemma_items_scan_roundtrip(tail, acc.push(v), b);
            assert(acc.push(v) + tail =~= acc + items);
        }
    }
}

/// A string-array key found first at its own field reads back its items.
pub proof fn lemma_array_field_roundtrip(a: Seq<u8>, k: Seq<u8>, items: Seq<Seq<u8>>, b: Seq<u8>)
    requires
        b.len() == 0 || (!is_ws(b[0]) && b[0] != 34 && b[0] != 93),
        ({
            let t = a + crate::scan::needle_of(k) + seq![58u8] + crate::persist::render_str_array(
                items,
            ) + b;
            forall|i: int| 0 <= i < a.len() ==> !match_at(t, crate::scan::needle_of(k), i)
        }),
    ensures
        crate::scan::json_string_array_value(
            a + crate::scan::needle_of(k) + seq![58u8] + crate::persist::render_str_array(items)
                + b,
            k,
        ) == Some(items),
{
    let nd = crate::scan::needle_of(k);
    let arr = crate::persist::render_str_array(items);
    let t = a + nd + seq![58u8] + arr + b;
    assert(match_at(t, nd, a.len() as int)) by {
        assert(t.subrange(a.len() as int, a.len() as int + nd.len() as int) =~= nd);
    }
    lemma_first_match_exact(t, nd, 0, a.len() as int);
    let after = t.skip(a.len() as int + nd.len() as int);
    assert(after =~= seq![58u8] + arr + b);
    assert(match_at(after, seq![58u8], 0)) by {
        assert(after.subrange(0, 1) =~= seq![58u8]);
    }
    lemma_first_match_exact(after, seq![58u8], 0, 0);
    let s = after.skip(1);
    assert(s =~= arr + b);
    assert(s[0] == 91) by {
        assert(arr[0] == 91);
    }
    assert(trim_start_spec(s) == s);
    assert(s.skip(1) =~= crate::persist::str_list_inner(items) + seq![93u8] + b);
    lemma_items_scan_roundtrip(items, Seq::empty(), b);
    assert(Seq::<Seq<u8>>::empty() + items =~= items);
}

/// A header block that passes 1 MiB with no terminator inside the first
/// 1 MiB is rejected as too large, whatever else the stream holds.
pub proof fn lemma_oversized_headers_rejected(data: Seq<u8>)
    requires
        data.len() > 1048576,
        match first_match(data, crlfcrlf()) {
            Some(p) => p + 4 > 1048576,
            None => true,
        },
    ensures
        parse_request_spec(data) == Err::<RequestView, ParseError>(ParseError::HeadersTooLarge),
{
}

/// Immediately after a creation, the listing order contains the new record,
/// and its creation and update stamps coincide.
pub proof fn lemma_create_then_list(
    ns: Seq<NoteView>,
    now: u128,
    pinned: bool,
    tags: Seq<Seq<u8>>,
    content: Seq<u8>,
)
    ensures
        ({
            let n = fresh_note(now, pinned, tags, content);
            &&& sort_notes(ns.push(n)).contains(n)
            &&& n.created_ms == n.updated_ms
        }),
{
    broadcast use vstd::seq_lib::group_to_multiset_ensures;

    let n = fresh_note(now, pinned, tags, content);
    let ns2 = ns.push(n);
    lemma_sort_notes_props(ns2);
    assert(ns2[ns.len() as int] == n);
    assert(ns2.contains(n));
    assert(ns2.to_multiset().count(n) > 0);
    assert(sort_notes(ns2).to_multiset().count(n) > 0);
    assert(sort_notes(ns2).contains(n));
}

/// Every update appends exactly one change entry, whose `after` fields are
/// the record's fields after the update, stamped with the update's time;
/// the entries already recorded stay untouched.
pub proof fn lemma_update_appends_one_change(n: NoteView, p: PatchView, now: u128)
    ensures
        ({
            let n2 = apply_patch(n, p, now);
            &&& n2.changes.len() == n.changes.len() + 1
            &&& n2.changes.take(n.changes.len() as int) == n.changes
            &&& n2.changes.last().pin_after == n2.pinned
            &&& n2.changes.last().tags_after == n2.tags
            &&& n2.changes.last().content_after == n2.content
            &&& n2.changes.last().pin_before == n.pinned
            &&& n2.changes.last().tags_before == n.tags
            &&& n2.changes.last().content_before == n.content
            &&& n2.changes.last().change_date_ms == now
            &&& n2.updated_ms == now
        }),
{
    let n2 = apply_patch(n, p, now);
    assert(n2.changes.take(n.changes.len() as int) =~= n.changes);
}

/// A patch that names only the pin flag records a change whose tag and
/// content deltas are no-ops, and whose printed form is exactly the one pin
/// transition line — provided the flag actually moved.
pub proof fn lemma_pin_only_patch(n: NoteView, pinned: bool, now: u128)
    ensures
        ({
            let n2 = apply_patch(
                n,
                PatchView { content: None, pinned: Some(pinned), tags: None },
                now,
            );
            let c = n2.changes.last();
            &&& c.tags_before == c.tags_after
            &&& c.content_before == c.content_after
            &&& c.pin_before == n.pinned
            &&& c.pin_after == pinned
            &&& (n.pinned != pinned ==> crate::store::render_changes_text(seq![c]) == seq![
                32u8,
                61,
                62,
                32,
            ] + seq![80u8, 105, 110, 32, 99, 104, 97, 110, 103, 101, 100, 32, 102, 114, 111, 109,
                32,
            ] + crate::persist::render_bool(n.pinned) + seq![32u8, 116, 111, 32]
                + crate::persist::render_bool(pinned) + seq![32u8, 97, 116, 32] + dec_digits(
                now as nat,
            ) + seq![10u8])
        }),
{
    let n2 = apply_patch(n, PatchView { content: None, pinned: Some(pinned), tags: None }, now);
    let c = n2.changes.last();
    if n.pinned != pinned {
        assert(crate::store::render_change_lines(c) =~= seq![80u8, 105, 110, 32, 99, 104, 97,
            110, 103, 101, 100, 32, 102, 114, 111, 109, 32] + crate::persist::render_bool(
            n.pinned,
        ) + seq![32u8, 116, 111, 32] + crate::persist::render_bool(pinned) + seq![32u8, 97, 116,
            32] + dec_digits(now as nat) + seq![10u8]);
        assert(seq![c].skip(1) =~= Seq::<crate::models::ChangeView>::empty());
        assert(crate::store::render_changes_text(seq![c].skip(1)) =~= Seq::<u8>::empty());
        assert(crate::store::render_changes_text(seq![c]) =~= seq![32u8, 61, 62, 32]
            + crate::store::render_change_lines(c));
    }
}

/// No record with the deleted identifier survives a deletion.
pub proof fn lemma_no_id_after_filter(ns: Seq<NoteView>, id: u64)
    ensures
        find_id(ns.filter(|n: NoteView| n.id != id), id) is None,
{
    broadcast use vstd::seq_lib::group_filter_ensures;

    let kept = ns.filter(|n: NoteView| n.id != id);
    lemma_find_id_from(kept, id, 0);
    if find_id(kept, id) is Some {
        let i = find_id(kept, id)->Some_0;
        assert(kept[i].id == id);
        ns.lemma_filter_pred(|n: NoteView| n.id != id, i);
        assert(false);
    }
}

/// Routes ruled out up front do not decide the dispatch.
proof fn lemma_first_route_skip<H>(routes: Seq<RouteView<H>>, m: Method, path: Seq<u8>, k: int)
    requires
        0 <= k <= routes.len(),
        forall|j: int|
            0 <= j < k ==> !(routes[j].method == m && route_matches(routes[j].matcher, path)),
    ensures
        first_route(routes, m, path) == first_route(routes.skip(k), m, path),
    decreases k,
{
    if k == 0 {
        assert(routes.skip(0) =~= routes);
    } else {
        lemma_first_route_skip(routes, m, path, k - 1);
        let r2 = routes.skip(k - 1);
        assert(r2[0] == routes[k - 1]);
        assert(r2.skip(1) =~= routes.skip(k));
    }
}

/// A `DELETE` under the record prefix always lands at the delete handler.
pub proof fn lemma_dispatch_delete(method: Seq<u8>, path: Seq<u8>)
    requires
        method == seq![68u8, 69, 76, 69, 84, 69],
        starts_with(path, api_notes_prefix()),
    ensures
        dispatch_spec(notes_routes(), method, path) == Dispatch::Handler(Endpoint::NoteDelete),
{
    let rs = notes_routes();
    assert(method != seq![79u8, 80, 84, 73, 79, 78, 83]);
    assert(rs[5].method == Method::Delete && route_matches(rs[5].matcher, path));
    lemma_first_route_skip(rs, Method::Delete, path, 5);
    assert(rs.skip(5)[0] == rs[5]);
}

/// Repeating a `DELETE` answers "not found", never success: whether the
/// first request removed the record, named a live one it then removed, or
/// found nothing, the second request of the same path finds nothing.
pub proof fn lemma_delete_idempotent(
    ns: Seq<NoteView>,
    req: RequestView,
    now1: u128,
    now2: u128,
)
    requires
        req.method == seq![68u8, 69, 76, 69, 84, 69],
        starts_with(req.path, api_notes_prefix()),
        ({
            let (ns1, r1) = service_spec(ns, req, now1);
            r1.status == 204
        }),
    ensures
        ({
            let (ns1, r1) = service_spec(ns, req, now1);
            let (ns2, r2) = service_spec(ns1, req, now2);
            &&& r2.status == 404
            &&& ns2 == ns1
        }),
{
    lemma_dispatch_delete(req.method, req.path);
    let (ns1, r1) = service_spec(ns, req, now1);
    match note_id_in_path(req.path, api_notes_prefix()) {
        None => {},
        Some(id) => {
            lemma_no_id_after_filter(ns, id);
        },
    }
}

/// Creation keeps the collection well-formed exactly when the derived
/// identifier is not yet live: unique identifiers stay unique, and the new
/// record's stamps coincide.
pub proof fn lemma_create_preserves_wf(
    ns: Seq<NoteView>,
    now: u128,
    pinned: bool,
    tags: Seq<Seq<u8>>,
    content: Seq<u8>,
)
    requires
        crate::store::store_wf(ns),
        find_id(ns, crate::store::note_id_of(now)) is None,
    ensures
        crate::store::store_wf(ns.push(fresh_note(now, pinned, tags, content))),
{
    let n = fresh_note(now, pinned, tags, content);
    let ns2 = ns.push(n);
    lemma_find_id_from(ns, crate::store::note_id_of(now), 0);
    assert(forall|i: int| 0 <= i < ns.len() ==> ns2[i] == ns[i]);
    assert(ns2[ns.len() as int] == n);
}

/// An update at a time no earlier than the record's creation keeps the
/// collection well-formed: the identifier is untouched and the new update
/// stamp is in order.
pub proof fn lemma_update_preserves_wf(ns: Seq<NoteView>, i: int, p: PatchView, now: u128)
    requires
        crate::store::store_wf(ns),
        0 <= i < ns.len(),
        now >= ns[i].created_ms,
    ensures
        crate::store::store_wf(ns.update(i, apply_patch(ns[i], p, now))),
{
    let ns2 = ns.update(i, apply_patch(ns[i], p, now));
    assert(forall|j: int| 0 <= j < ns.len() && j != i ==> ns2[j] == ns[j]);
    assert(ns2[i].id == ns[i].id);
}

/// Deletion keeps the collection well-formed: what remains is a
/// subsequence of what was there.
pub proof fn lemma_delete_preserves_wf(ns: Seq<NoteView>, id: u64)
    requires
        crate::store::store_wf(ns),
    ensures
        crate::store::store_wf(ns.filter(|n: NoteView| n.id != id)),
{
    lemma_filter_wf(ns, |n: NoteView| n.id != id)
}

/// Any filter of a well-formed collection is well-formed.
proof fn lemma_filter_wf(ns: Seq<NoteView>, pred: spec_fn(NoteView) -> bool)
    requires
        crate::store::store_wf(ns),
    ensures
        crate::store::store_wf(ns.filter(pred)),
    decreases ns.len(),
{
    reveal_with_fuel(Seq::<_>::filter, 1);
    if ns.len() > 0 {
        let dl = ns.drop_last();
        assert(forall|j: int| 0 <= j < dl.len() ==> dl[j] == ns[j]);
        assert(crate::store::store_wf(dl));
        lemma_filter_wf(dl, pred);
        let f = dl.filter(pred);
        if pred(ns.last()) {
            assert(ns.filter(pred) == f.push(ns.last()));
            assert forall|a: int, b: int|
                0 <= a < b < f.push(ns.last()).len() implies f.push(ns.last())[a].id != f.push(
                ns.last(),
            )[b].id by {
                broadcast use vstd::seq_lib::group_filter_ensures;

                if b == f.len() {
                    // an element of the filtered prefix came from the prefix
                    assert(f.contains(f[a]));
                    dl.lemma_filter_contains_rev(pred, f[a]);
                    let k = choose|k: int| 0 <= k < dl.len() && dl[k] == f[a];
                    assert(ns[k].id != ns.last().id);
                } else {
                }
            }
            assert forall|a: int|
                0 <= a < f.push(ns.last()).len() implies #[trigger] f.push(
                ns.last(),
            )[a].updated_ms >= f.push(ns.last())[a].created_ms by {
                broadcast use vstd::seq_lib::group_filter_ensures;

                if a < f.len() {
                    assert(f.contains(f[a]));
                    dl.lemma_filter_contains_rev(pred, f[a]);
                    let k = choose|k: int| 0 <= k < dl.len() && dl[k] == f[a];
                    assert(ns[k].updated_ms >= ns[k].created_ms);
                }
            }
        }
    }
}

/// No byte of any persisted-format key is a quote, a colon, or whitespace.
proof fn lemma_note_key_bytes()
    ensures
        forall|j: int|
            0 <= j < crate::persist::key_id().len() ==> {
                let b = #[trigger] crate::persist::key_id()[j];
                b != 34 && b != 58 && !is_ws(b)
            },
        forall|j: int|
            0 <= j < crate::persist::key_created().len() ==> {
                let b = #[trigger] crate::persist::key_created()[j];
                b != 34 && b != 58 && !is_ws(b)
            },
        forall|j: int|
            0 <= j < crate::persist::key_updated().len() ==> {
                let b = #[trigger] crate::persist::key_updated()[j];
                b != 34 && b != 58 && !is_ws(b)
            },
        forall|j: int|
            0 <= j < crate::persist::key_pinned().len() ==> {
                let b = #[trigger] crate::persist::key_pinned()[j];
                b != 34 && b != 58 && !is_ws(b)
            },
        forall|j: int|
            0 <= j < crate::persist::key_tags().len() ==> {
                let b = #[trigger] crate::persist::key_tags()[j];
                b != 34 && b != 58 && !is_ws(b)
            },
        forall|j: int|
            0 <= j < crate::persist::key_content().len() ==> {
                let b = #[trigger] crate::persist::key_content()[j];
                b != 34 && b != 58 && !is_ws(b)
            },
        forall|j: int|
            0 <= j < crate::persist::key_changes().len() ==> {
                let b = #[trigger] crate::persist::key_changes()[j];
                b != 34 && b != 58 && !is_ws(b)
            },
{
}

/// Offset of each field's quoted key in a rendered record whose text
/// fields are empty.
pub open spec fn rn_created_at(n: NoteView) -> int {
    7 + dec_digits(n.id as nat).len() as int
}

pub open spec fn rn_updated_at(n: NoteView) -> int {
    rn_created_at(n) + 14 + dec_digits(n.created_ms as nat).len() as int
}

pub open spec fn rn_pinned_at(n: NoteView) -> int {
    rn_updated_at(n) + 14 + dec_digits(n.updated_ms as nat).len() as int
}

pub open spec fn rn_tags_at(n: NoteView) -> int {
    rn_pinned_at(n) + 10 + crate::persist::render_bool(n.pinned).len() as int
}

pub open spec fn rn_content_at(n: NoteView) -> int {
    rn_tags_at(n) + 10
}

pub open spec fn rn_changes_at(n: NoteView) -> int {
    rn_content_at(n) + 13
}

/// The bytes of a rendered record whose text fields are empty: the
/// structural skeleton, the three digit runs, and the pin literal.
#[verifier::rlimit(100)]
proof fn lemma_rn_layout(n: NoteView)
    requires
        n.tags == Seq::<Seq<u8>>::empty(),
        n.content == Seq::<u8>::empty(),
        n.changes == Seq::<crate::models::ChangeView>::empty(),
    ensures
        ({
            let rn = crate::persist::render_note(n);
            let d1 = dec_digits(n.id as nat);
            let d2 = dec_digits(n.created_ms as nat);
            let d3 = dec_digits(n.updated_ms as nat);
            let bl = crate::persist::render_bool(n.pinned);
            let o2 = rn_created_at(n);
            let o3 = rn_updated_at(n);
            let o4 = rn_pinned_at(n);
            let o5 = rn_tags_at(n);
            let o6 = rn_content_at(n);
            let o7 = rn_changes_at(n);
            &&& rn.len() == o7 + 13
            &&& rn[0] == 123
            &&& rn.subrange(1, 5) == crate::scan::needle_of(crate::persist::key_id())
            &&& rn[5] == 58
            &&& rn.subrange(6, 6 + d1.len() as int) == d1
            &&& rn[6 + d1.len() as int] == 44
            &&& rn.subrange(o2, o2 + 12) == crate::scan::needle_of(crate::persist::key_created())
            &&& rn[o2 + 12] == 58
            &&& rn.subrange(o2 + 13, o2 + 13 + d2.len() as int) == d2
            &&& rn[o2 + 13 + d2.len() as int] == 44
            &&& rn.subrange(o3, o3 + 12) == crate::scan::needle_of(crate::persist::key_updated())
            &&& rn[o3 + 12] == 58
            &&& rn.subrange(o3 + 13, o3 + 13 + d3.len() as int) == d3
            &&& rn[o3 + 13 + d3.len() as int] == 44
            &&& rn.subrange(o4, o4 + 8) == crate::scan::needle_of(crate::persist::key_pinned())
            &&& rn[o4 + 8] == 58
            &&& rn.subrange(o4 + 9, o4 + 9 + bl.len() as int) == bl
            &&& rn[o4 + 9 + bl.len() as int] == 44
            &&& rn.subrange(o5, o5 + 6) == crate::scan::needle_of(crate::persist::key_tags())
            &&& rn[o5 + 6] == 58
            &&& rn[o5 + 7] == 91
            &&& rn[o5 + 8] == 93
            &&& rn[o5 + 9] == 44
            &&& rn.subrange(o6, o6 + 9) == crate::scan::needle_of(crate::persist::key_content())
            &&& rn[o6 + 9] == 58
            &&& rn[o6 + 10] == 34
            &&& rn[o6 + 11] == 34
            &&& rn[o6 + 12] == 44
            &&& rn.subrange(o7, o7 + 9) == crate::scan::needle_of(crate::persist::key_changes())
            &&& rn[o7 + 9] == 58
            &&& rn[o7 + 10] == 91
            &&& rn[o7 + 11] == 93
            &&& rn[o7 + 12] == 125
        }),
{
    reveal(crate::persist::render_note);
    assert(crate::persist::str_list_inner(n.tags) =~= Seq::<u8>::empty());
    assert(crate::persist::render_str_array(n.tags) =~= seq![91u8, 93u8]);
    assert(escape_seq(n.content) =~= Seq::<u8>::empty());
    assert(crate::persist::quoted(n.content) =~= seq![34u8, 34u8]);
    assert(crate::persist::change_list_inner(n.changes) =~= Seq::<u8>::empty());
    let rn = crate::persist::render_note(n);
    let d1 = dec_digits(n.id as nat);
    let d2 = dec_digits(n.created_ms as nat);
    let d3 = dec_digits(n.updated_ms as nat);
    let bl = crate::persist::render_bool(n.pinned);
    let o2 = rn_created_at(n);
    let o3 = rn_updated_at(n);
    let o4 = rn_pinned_at(n);
    let o5 = rn_tags_at(n);
    let o6 = rn_content_at(n);
    let o7 = rn_changes_at(n);
    assert(rn.subrange(1, 5) =~= crate::scan::needle_of(crate::persist::key_id()));
    assert(rn.subrange(6, 6 + d1.len() as int) =~= d1);
    assert(rn.subrange(o2, o2 + 12) =~= crate::scan::needle_of(crate::persist::key_created()));
    assert(rn.subrange(o2 + 13, o2 + 13 + d2.len() as int) =~= d2);
    assert(rn.subrange(o3, o3 + 12) =~= crate::scan::needle_of(crate::persist::key_updated()));
    assert(rn.subrange(o3 + 13, o3 + 13 + d3.len() as int) =~= d3);
    assert(rn.subrange(o4, o4 + 8) =~= crate::scan::needle_of(crate::persist::key_pinned()));
    assert(rn.subrange(o4 + 9, o4 + 9 + bl.len() as int) =~= bl);
    assert(rn.subrange(o5, o5 + 6) =~= crate::scan::needle_of(crate::persist::key_tags()));
    assert(rn.subrange(o6, o6 + 9) =~= crate::scan::needle_of(crate::persist::key_content()));
    assert(rn.subrange(o7, o7 + 9) =~= crate::scan::needle_of(crate::persist::key_changes()));
}

/// Single-byte view of the layout: the byte at each position of the
/// rendered record, segment by segment.
#[verifier::rlimit(100)]
proof fn lemma_rn_bytes(n: NoteView)
    requires
        n.tags == Seq::<Seq<u8>>::empty(),
        n.content == Seq::<u8>::empty(),
        n.changes == Seq::<crate::models::ChangeView>::empty(),
    ensures
        ({
            let rn = crate::persist::render_note(n);
            let d1 = dec_digits(n.id as nat);
            let d2 = dec_digits(n.created_ms as nat);
            let d3 = dec_digits(n.updated_ms as nat);
            let bl = crate::persist::render_bool(n.pinned);
            let o2 = rn_created_at(n);
            let o3 = rn_updated_at(n);
            let o4 = rn_pinned_at(n);
            let o5 = rn_tags_at(n);
            let o6 = rn_content_at(n);
            let o7 = rn_changes_at(n);
            &&& (forall|i: int|
                1 <= i < 5 ==> #[trigger] rn[i] == crate::scan::needle_of(
                    crate::persist::key_id(),
                )[i - 1])
            &&& (forall|i: int| 6 <= i < 6 + d1.len() ==> #[trigger] rn[i] == d1[i - 6])
            &&& (forall|i: int|
                o2 <= i < o2 + 12 ==> #[trigger] rn[i] == crate::scan::needle_of(
                    crate::persist::key_created(),
                )[i - o2])
            &&& (forall|i: int|
                o2 + 13 <= i < o2 + 13 + d2.len() ==> #[trigger] rn[i] == d2[i - o2 - 13])
            &&& (forall|i: int|
                o3 <= i < o3 + 12 ==> #[trigger] rn[i] == crate::scan::needle_of(
                    crate::persist::key_updated(),
                )[i - o3])
            &&& (forall|i: int|
                o3 + 13 <= i < o3 + 13 + d3.len() ==> #[trigger] rn[i] == d3[i - o3 - 13])
            &&& (forall|i: int|
                o4 <= i < o4 + 8 ==> #[trigger] rn[i] == crate::scan::needle_of(
                    crate::persist::key_pinned(),
                )[i - o4])
            &&& (forall|i: int|
                o4 + 9 <= i < o4 + 9 + bl.len() ==> #[trigger] rn[i] == bl[i - o4 - 9])
            &&& (forall|i: int|
                o5 <= i < o5 + 6 ==> #[trigger] rn[i] == crate::scan::needle_of(
                    crate::persist::key_tags(),
                )[i - o5])
            &&& (forall|i: int|
                o6 <= i < o6 + 9 ==> #[trigger] rn[i] == crate::scan::needle_of(
                    crate::persist::key_content(),
                )[i - o6])
            &&& (forall|i: int|
                o7 <= i < o7 + 9 ==> #[trigger] rn[i] == crate::scan::needle_of(
                    crate::persist::key_changes(),
                )[i - o7])
        }),
{
    lemma_rn_layout(n);
    let rn = crate::persist::render_note(n);
    let d1 = dec_digits(n.id as nat);
    let d2 = dec_digits(n.created_ms as nat);
    let d3 = dec_digits(n.updated_ms as nat);
    let bl = crate::persist::render_bool(n.pinned);
    let l1 = d1.len() as int;
    let l2 = d2.len() as int;
    let l3 = d3.len() as int;
    let lb = bl.len() as int;
    let o2 = rn_created_at(n);
    let o3 = rn_updated_at(n);
    let o4 = rn_pinned_at(n);
    let o5 = rn_tags_at(n);
    let o6 = rn_content_at(n);
    let o7 = rn_changes_at(n);
    let ndid = crate::scan::needle_of(crate::persist::key_id());
    let ndcr = crate::scan::needle_of(crate::persist::key_created());
    let ndup = crate::scan::needle_of(crate::persist::key_updated());
    let ndpi = crate::scan::needle_of(crate::persist::key_pinned());
    let ndtg = crate::scan::needle_of(crate::persist::key_tags());
    let ndco = crate::scan::needle_of(crate::persist::key_content());
    let ndch = crate::scan::needle_of(crate::persist::key_changes());
    assert forall|i: int| 1 <= i < 5 implies #[trigger] rn[i] == ndid[i - 1] by {
        assert(rn.subrange(1, 5)[i - 1] == rn[i]);
    }
    assert forall|i: int| 6 <= i < 6 + l1 implies #[trigger] rn[i] == d1[i - 6] by {
        assert(rn.subrange(6, 6 + l1)[i - 6] == rn[i]);
    }
    assert forall|i: int| o2 <= i < o2 + 12 implies #[trigger] rn[i] == ndcr[i - o2] by {
        assert(rn.subrange(o2, o2 + 12)[i - o2] == rn[i]);
    }
    assert forall|i: int| o2 + 13 <= i < o2 + 13 + l2 implies #[trigger] rn[i] == d2[i - o2
        - 13] by {
        assert(rn.subrange(o2 + 13, o2 + 13 + l2)[i - o2 - 13] == rn[i]);
    }
    assert forall|i: int| o3 <= i < o3 + 12 implies #[trigger] rn[i] == ndup[i - o3] by {
        assert(rn.subrange(o3, o3 + 12)[i - o3] == rn[i]);
    }
    assert forall|i: int| o3 + 13 <= i < o3 + 13 + l3 implies #[trigger] rn[i] == d3[i - o3
        - 13] by {
        assert(rn.subrange(o3 + 13, o3 + 13 + l3)[i - o3 - 13] == rn[i]);
    }
    assert forall|i: int| o4 <= i < o4 + 8 implies #[trigger] rn[i] == ndpi[i - o4] by {
        assert(rn.subrange(o4, o4 + 8)[i - o4] == rn[i]);
    }
    assert forall|i: int| o4 + 9 <= i < o4 + 9 + lb implies #[trigger] rn[i] == bl[i - o4 - 9] by {
        assert(rn.subrange(o4 + 9, o4 + 9 + lb)[i - o4 - 9] == rn[i]);
    }
    assert forall|i: int| o5 <= i < o5 + 6 implies #[trigger] rn[i] == ndtg[i - o5] by {
        assert(rn.subrange(o5, o5 + 6)[i - o5] == rn[i]);
    }
    assert forall|i: int| o6 <= i < o6 + 9 implies #[trigger] rn[i] == ndco[i - o6] by {
        assert(rn.subrange(o6, o6 + 9)[i - o6] == rn[i]);
    }
    assert forall|i: int| o7 <= i < o7 + 9 implies #[trigger] rn[i] == ndch[i - o7] by {
        assert(rn.subrange(o7, o7 + 9)[i - o7] == rn[i]);
    }
}

/// Each quoted key occurs nowhere before its own field in a rendered
/// record whose text fields are empty.
pub open spec fn rn_keys_first(n: NoteView) -> bool {
    let rn = crate::persist::render_note(n);
    &&& forall|i: int|
        0 <= i < 1 ==> !match_at(rn, crate::scan::needle_of(crate::persist::key_id()), i)
    &&& forall|i: int|
        0 <= i < rn_created_at(n) ==> !match_at(
            rn,
            crate::scan::needle_of(crate::persist::key_created()),
            i,
        )
    &&& forall|i: int|
        0 <= i < rn_updated_at(n) ==> !match_at(
            rn,
            crate::scan::needle_of(crate::persist::key_updated()),
            i,
        )
    &&& forall|i: int|
        0 <= i < rn_pinned_at(n) ==> !match_at(
            rn,
            crate::scan::needle_of(crate::persist::key_pinned()),
            i,
        )
    &&& forall|i: int|
        0 <= i < rn_tags_at(n) ==> !match_at(
            rn,
            crate::scan::needle_of(crate::persist::key_tags()),
            i,
        )
    &&& forall|i: int|
        0 <= i < rn_content_at(n) ==> !match_at(
            rn,
            crate::scan::needle_of(crate::persist::key_content()),
            i,
        )
    &&& forall|i: int|
        0 <= i < rn_changes_at(n) ==> !match_at(
            rn,
            crate::scan::needle_of(crate::persist::key_changes()),
            i,
        )
}

/// In a rendered record whose text fields are empty, no quoted key stands
/// anywhere before its own field.
#[verifier::rlimit(100)]
proof fn lemma_rn_keys_first(n: NoteView)
    requires
        n.tags == Seq::<Seq<u8>>::empty(),
        n.content == Seq::<u8>::empty(),
        n.changes == Seq::<crate::models::ChangeView>::empty(),
    ensures
        rn_keys_first(n),
{
    lemma_rn_layout(n);
    lemma_rn_bytes(n);
    lemma_note_key_bytes();
    lemma_dec_digits_props(n.id as nat);
    lemma_dec_digits_props(n.created_ms as nat);
    lemma_dec_digits_props(n.updated_ms as nat);
    let rn = crate::persist::render_note(n);
    let d1 = dec_digits(n.id as nat);
    let d2 = dec_digits(n.created_ms as nat);
    let d3 = dec_digits(n.updated_ms as nat);
    let bl = crate::persist::render_bool(n.pinned);
    let l1 = d1.len() as int;
    let l2 = d2.len() as int;
    let l3 = d3.len() as int;
    let lb = bl.len() as int;
    let o2 = rn_created_at(n);
    let o3 = rn_updated_at(n);
    let o4 = rn_pinned_at(n);
    let o5 = rn_tags_at(n);
    let o6 = rn_content_at(n);
    let o7 = rn_changes_at(n);
    let ndid = crate::scan::needle_of(crate::persist::key_id());
    let ndcr = crate::scan::needle_of(crate::persist::key_created());
    let ndup = crate::scan::needle_of(crate::persist::key_updated());
    let ndpi = crate::scan::needle_of(crate::persist::key_pinned());
    let ndtg = crate::scan::needle_of(crate::persist::key_tags());
    let ndco = crate::scan::needle_of(crate::persist::key_content());
    let ndch = crate::scan::needle_of(crate::persist::key_changes());
    assert(forall|j: int| 0 <= j < lb ==> bl[j] != 34);
    let ghost quotes: Set<int> = Set::empty().insert(1).insert(4).insert(o2).insert(o2 + 11)
        .insert(o3).insert(o3 + 11).insert(o4).insert(o4 + 7).insert(o5).insert(o5 + 5).insert(
        o6,
    ).insert(o6 + 8).insert(o6 + 10).insert(o6 + 11).insert(o7).insert(o7 + 8);
    assert forall|i: int| 0 <= i < rn.len() && !quotes.contains(i) implies rn[i] != 34 by {
        if 1 <= i < 5 {
            assert(ndid[i - 1] != 34);
        } else if 6 <= i < 6 + l1 {
            assert(is_digit(d1[i - 6]));
        } else if o2 <= i < o2 + 12 {
            assert(ndcr[i - o2] != 34);
        } else if o2 + 13 <= i < o2 + 13 + l2 {
            assert(is_digit(d2[i - o2 - 13]));
        } else if o3 <= i < o3 + 12 {
            assert(ndup[i - o3] != 34);
        } else if o3 + 13 <= i < o3 + 13 + l3 {
            assert(is_digit(d3[i - o3 - 13]));
        } else if o4 <= i < o4 + 8 {
            assert(ndpi[i - o4] != 34);
        } else if o4 + 9 <= i < o4 + 9 + lb {
            assert(bl[i - o4 - 9] != 34);
        } else if o5 <= i < o5 + 6 {
            assert(ndtg[i - o5] != 34);
        } else if o6 <= i < o6 + 9 {
            assert(ndco[i - o6] != 34);
        } else if o7 <= i < o7 + 9 {
            assert(ndch[i - o7] != 34);
        }
    }
    // no quote before a field begins that key's quoted form
    assert forall|i: int| 0 <= i < 1 implies !match_at(rn, ndid, i) by {
        if match_at(rn, ndid, i) {
            assert(rn.subrange(i, i + ndid.len())[0] == rn[i]);
        }
    }
    assert forall|i: int| 0 <= i < o2 implies !match_at(rn, ndcr, i) by {
        if match_at(rn, ndcr, i) {
            assert(rn.subrange(i, i + ndcr.len())[0] == rn[i]);
            assert(quotes.contains(i));
            assert(rn.subrange(i, i + ndcr.len())[1] == rn[i + 1]);
            assert(ndcr[1] == 99);
        }
    }
    assert forall|i: int| 0 <= i < o3 implies !match_at(rn, ndup, i) by {
        if match_at(rn, ndup, i) {
            assert(rn.subrange(i, i + ndup.len())[0] == rn[i]);
            assert(quotes.contains(i));
            assert(rn.subrange(i, i + ndup.len())[1] == rn[i + 1]);
            assert(ndup[1] == 117);
        }
    }
    assert forall|i: int| 0 <= i < o4 implies !match_at(rn, ndpi, i) by {
        if match_at(rn, ndpi, i) {
            assert(rn.subrange(i, i + ndpi.len())[0] == rn[i]);
            assert(quotes.contains(i));
            assert(rn.subrange(i, i + ndpi.len())[1] == rn[i + 1]);
            assert(ndpi[1] == 112);
        }
    }
    assert forall|i: int| 0 <= i < o5 implies !match_at(rn, ndtg, i) by {
        if match_at(rn, ndtg, i) {
            assert(rn.subrange(i, i + ndtg.len())[0] == rn[i]);
            assert(quotes.contains(i));
            assert(rn.subrange(i, i + ndtg.len())[1] == rn[i + 1]);
            assert(ndtg[1] == 116);
        }
    }
    assert forall|i: int| 0 <= i < o6 implies !match_at(rn, ndco, i) by {
        if match_at(rn, ndco, i) {
            assert(rn.subrange(i, i + ndco.len())[0] == rn[i]);
            assert(quotes.contains(i));
            assert(rn.subrange(i, i + ndco.len())[1] == rn[i + 1]);
            assert(ndco[1] == 99);
            if i == o2 {
                assert(rn.subrange(i, i + ndco.len())[2] == rn[i + 2]);
                assert(ndco[2] == 111);
                assert(ndcr[2] == 114);
            }
        }
    }
    assert forall|i: int| 0 <= i < o7 implies !match_at(rn, ndch, i) by {
        if match_at(rn, ndch, i) {
            assert(rn.subrange(i, i + ndch.len())[0] == rn[i]);
            assert(quotes.contains(i));
            assert(rn.subrange(i, i + ndch.len())[1] == rn[i + 1]);
            assert(ndch[1] == 99);
            if i == o2 {
                assert(rn.subrange(i, i + ndch.len())[2] == rn[i + 2]);
                assert(ndch[2] == 104);
                assert(ndcr[2] == 114);
            }
            if i == o6 {
                assert(rn.subrange(i, i + ndch.len())[2] == rn[i + 2]);
                assert(ndch[2] == 104);
                assert(ndco[2] == 111);
            }
        }
    }
}

/// A record whose text fields are empty round-trips through the persisted
/// format: rendering it and reading the object back yields the record,
/// field for field — for any identifier, any timestamps, either pin state.
/// (Records with non-empty text round-trip only when no text value mimics
/// a later key, the key lookup being a plain substring search; the field
/// codecs' own round trips are stated separately above.)
#[verifier::rlimit(100)]
proof fn lemma_rn_fields_nums(n: NoteView)
    requires
        n.tags == Seq::<Seq<u8>>::empty(),
        n.content == Seq::<u8>::empty(),
        n.changes == Seq::<crate::models::ChangeView>::empty(),
    ensures
        crate::scan::json_u64_value(crate::persist::render_note(n), crate::persist::key_id())
            == Some(n.id),
        crate::scan::json_u128_value(
            crate::persist::render_note(n),
            crate::persist::key_created(),
        ) == Some(n.created_ms),
{
    lemma_rn_keys_first(n);
    lemma_rn_layout(n);
    lemma_rn_bytes(n);
    lemma_dec_digits_props(n.id as nat);
    lemma_dec_digits_props(n.created_ms as nat);
    lemma_dec_digits_props(n.updated_ms as nat);
    let d1 = dec_digits(n.id as nat);
    let d2 = dec_digits(n.created_ms as nat);
    let d3 = dec_digits(n.updated_ms as nat);
    let bl = crate::persist::render_bool(n.pinned);
    let kid = crate::persist::key_id();
    let kcr = crate::persist::key_created();
    let kup = crate::persist::key_updated();
    let kpi = crate::persist::key_pinned();
    let ktg = crate::persist::key_tags();
    let kco = crate::persist::key_content();
    let kch = crate::persist::key_changes();
    let ndid = crate::scan::needle_of(kid);
    let ndcr = crate::scan::needle_of(kcr);
    let ndup = crate::scan::needle_of(kup);
    let ndpi = crate::scan::needle_of(kpi);
    let ndtg = crate::scan::needle_of(ktg);
    let ndco = crate::scan::needle_of(kco);
    let ndch = crate::scan::needle_of(kch);
    let rn = crate::persist::render_note(n);
    let l1 = d1.len() as int;
    let l2 = d2.len() as int;
    let l3 = d3.len() as int;
    let lb = bl.len() as int;
    let o2 = rn_created_at(n);
    let o3 = rn_updated_at(n);
    let o4 = rn_pinned_at(n);
    let o5 = rn_tags_at(n);
    let o6 = rn_content_at(n);
    let o7 = rn_changes_at(n);
    // read each field back through its codec
    let a1 = seq![123u8];
    let b1 = rn.skip(6 + l1);
    assert(rn =~= a1 + ndid + seq![58u8] + d1 + b1);
    assert(b1[0] == 44);
    lemma_unsigned_field_roundtrip(a1, kid, n.id as nat, b1);
    assert(crate::scan::json_u64_value(rn, kid) == Some(n.id));
    let a2 = rn.take(o2);
    let b2 = rn.skip(o2 + 13 + l2);
    assert(rn =~= a2 + ndcr + seq![58u8] + d2 + b2);
    assert(b2[0] == 44);
    lemma_unsigned_field_roundtrip(a2, kcr, n.created_ms as nat, b2);
    assert(crate::scan::json_u128_value(rn, kcr) == Some(n.created_ms));
}

#[verifier::rlimit(100)]
proof fn lemma_rn_fields_nums2(n: NoteView)
    requires
        n.tags == Seq::<Seq<u8>>::empty(),
        n.content == Seq::<u8>::empty(),
        n.changes == Seq::<crate::models::ChangeView>::empty(),
    ensures
        crate::scan::json_u128_value(
            crate::persist::render_note(n),
            crate::persist::key_updated(),
        ) == Some(n.updated_ms),
        crate::scan::json_bool_value(
            crate::persist::render_note(n),
            crate::persist::key_pinned(),
        ) == Some(n.pinned),
{
    lemma_rn_keys_first(n);
    lemma_rn_layout(n);
    lemma_rn_bytes(n);
    lemma_dec_digits_props(n.id as nat);
    lemma_dec_digits_props(n.created_ms as nat);
    lemma_dec_digits_props(n.updated_ms as nat);
    let d1 = dec_digits(n.id as nat);
    let d2 = dec_digits(n.created_ms as nat);
    let d3 = dec_digits(n.updated_ms as nat);
    let bl = crate::persist::render_bool(n.pinned);
    let kup = crate::persist::key_updated();
    let kpi = crate::persist::key_pinned();
    let ndup = crate::scan::needle_of(kup);
    let ndpi = crate::scan::needle_of(kpi);
    let rn = crate::persist::render_note(n);
    let l1 = d1.len() as int;
    let l2 = d2.len() as int;
    let l3 = d3.len() as int;
    let lb = bl.len() as int;
    let o2 = rn_created_at(n);
    let o3 = rn_updated_at(n);
    let o4 = rn_pinned_at(n);
    let o5 = rn_tags_at(n);
    let o6 = rn_content_at(n);
    let o7 = rn_changes_at(n);
    let a3 = rn.take(o3);
    let b3 = rn.skip(o3 + 13 + l3);
    assert(rn =~= a3 + ndup + seq![58u8] + d3 + b3);
    assert(b3[0] == 44);
    lemma_unsigned_field_roundtrip(a3, kup, n.updated_ms as nat, b3);
    assert(crate::scan::json_u128_value(rn, kup) == Some(n.updated_ms));
    let a4 = rn.take(o4);
    let b4 = rn.skip(o4 + 9 + lb);
    assert(rn =~= a4 + ndpi + seq![58u8] + bl + b4);
    lemma_bool_field_roundtrip(a4, kpi, n.pinned, b4);
    assert(crate::scan::json_bool_value(rn, kpi) == Some(n.pinned));
}

#[verifier::rlimit(100)]
proof fn lemma_rn_fields_text(n: NoteView)
    requires
        n.tags == Seq::<Seq<u8>>::empty(),
        n.content == Seq::<u8>::empty(),
        n.changes == Seq::<crate::models::ChangeView>::empty(),
    ensures
        crate::scan::json_string_array_value(
            crate::persist::render_note(n),
            crate::persist::key_tags(),
        ) == Some(n.tags),
        crate::scan::json_string_value(
            crate::persist::render_note(n),
            crate::persist::key_content(),
        ) == Some(n.content),
        crate::persist::parse_note_changes(crate::persist::render_note(n)) == Some(
            Seq::<crate::models::ChangeView>::empty(),
        ),
{
    lemma_rn_keys_first(n);
    lemma_rn_layout(n);
    lemma_rn_bytes(n);
    lemma_dec_digits_props(n.id as nat);
    lemma_dec_digits_props(n.created_ms as nat);
    lemma_dec_digits_props(n.updated_ms as nat);
    let d1 = dec_digits(n.id as nat);
    let d2 = dec_digits(n.created_ms as nat);
    let d3 = dec_digits(n.updated_ms as nat);
    let bl = crate::persist::render_bool(n.pinned);
    let ktg = crate::persist::key_tags();
    let kco = crate::persist::key_content();
    let kch = crate::persist::key_changes();
    let ndtg = crate::scan::needle_of(ktg);
    let ndco = crate::scan::needle_of(kco);
    let ndch = crate::scan::needle_of(kch);
    let rn = crate::persist::render_note(n);
    let l1 = d1.len() as int;
    let l2 = d2.len() as int;
    let l3 = d3.len() as int;
    let lb = bl.len() as int;
    let o2 = rn_created_at(n);
    let o3 = rn_updated_at(n);
    let o4 = rn_pinned_at(n);
    let o5 = rn_tags_at(n);
    let o6 = rn_content_at(n);
    let o7 = rn_changes_at(n);
    let a5 = rn.take(o5);
    let b5 = rn.skip(o5 + 9);
    assert(crate::persist::str_list_inner(n.tags) =~= Seq::<u8>::empty());
    assert(crate::persist::render_str_array(n.tags) =~= seq![91u8, 93u8]);
    assert(rn =~= a5 + ndtg + seq![58u8] + crate::persist::render_str_array(n.tags) + b5);
    assert(b5[0] == 44);
    lemma_array_field_roundtrip(a5, ktg, n.tags, b5);
    assert(crate::scan::json_string_array_value(rn, ktg) == Some(n.tags));
    let a6 = rn.take(o6);
    let b6 = rn.skip(o6 + 12);
    assert(escape_seq(n.content) =~= Seq::<u8>::empty());
    assert(crate::persist::quoted(n.content) =~= seq![34u8, 34u8]);
    assert(rn =~= a6 + ndco + seq![58u8] + crate::persist::quoted(n.content) + b6);
    lemma_string_field_roundtrip(a6, kco, n.content, b6);
    assert(crate::scan::json_string_value(rn, kco) == Some(n.content));
    // the change log reads back empty
    assert(match_at(rn, ndch, o7)) by {
        assert(rn.subrange(o7, o7 + ndch.len()) == ndch);
    }
    lemma_first_match_exact(rn, ndch, 0, o7);
    let after = rn.skip(o7 + ndch.len() as int);
    assert(after =~= seq![58u8, 91u8, 93u8, 125u8]);
    assert(match_at(after, seq![58u8], 0)) by {
        assert(after.subrange(0, 1) =~= seq![58u8]);
    }
    lemma_first_match_exact(after, seq![58u8], 0, 0);
    let region = after.skip(1);
    assert(region =~= seq![91u8, 93u8, 125u8]);
    assert(trim_start_spec(region) == region);
    assert(crate::scan::extract_objects_spec(region) =~= Seq::<Seq<u8>>::empty()) by {
        reveal_with_fuel(crate::scan::extract_from, 5);
    }
    assert(crate::persist::parse_note_changes(rn) == Some(
        Seq::<crate::models::ChangeView>::empty(),
    ));
}

/// A record whose text fields are empty round-trips through the persisted
/// format: rendering it and reading the object back yields the record,
/// field for field — for any identifier, any timestamps, either pin state.
/// (Records with non-empty text round-trip only when no text value mimics
/// a later key, the key lookup being a plain substring search; the field
/// codecs' own round trips are stated separately above.)
pub proof fn lemma_note_roundtrip_empty_text(n: NoteView)
    requires
        n.tags == Seq::<Seq<u8>>::empty(),
        n.content == Seq::<u8>::empty(),
        n.changes == Seq::<crate::models::ChangeView>::empty(),
    ensures
        crate::persist::parse_note_spec(crate::persist::render_note(n)) == Some(n),
{
    lemma_rn_fields_nums(n);
    lemma_rn_fields_nums2(n);
    lemma_rn_fields_text(n);
    assert(crate::persist::parse_note_spec(crate::persist::render_note(n)) == Some(n));
}

/// An `OPTIONS` request is answered 204 No Content with an empty body and
/// an untouched store, whatever its path names.
pub proof fn lemma_preflight_no_content(ns: Seq<NoteView>, req: RequestView, now: u128)
    requires
        req.method == seq![79u8, 80, 84, 73, 79, 78, 83],
    ensures
        service_spec(ns, req, now) == (ns, rv(204, st_no_content(), ct_text(), Seq::<u8>::empty())),
{
}

} // verus!