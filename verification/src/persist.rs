//! The persisted text format: the full collection serialized as a single
//! JSON array, one object per record, and the scanner-based reader that
//! loads it back.

use vstd::prelude::*;
use crate::models::{Change, ChangeView, ContentChange, Note, NoteView, PinChange, TagChange};
use crate::scan::{
    escape_seq, extract_objects, extract_objects_spec, json_bool_value, json_get_bool,
    json_get_string, json_get_string_array, json_get_u128, json_get_u64, json_string_array_value,
    json_string_value, json_u128_value, json_u64_value, needle_of, trim_start_spec,
};
use vstd::slice::slice_subrange;

verus! {

/// Decimal digits of `n`, most significant first, no leading zeros.
pub open spec fn dec_digits(n: nat) -> Seq<u8>
    decreases n,
{
    if n < 10 {
        seq![(48 + n) as u8]
    } else {
        dec_digits(n / 10) + seq![(48 + (n % 10)) as u8]
    }
}

/// A decimal rendering is a non-empty run of digit bytes whose value is
/// the number itself.
pub proof fn lemma_dec_digits_props(n: nat)
    ensures
        dec_digits(n).len() >= 1,
        forall|i: int|
            0 <= i < dec_digits(n).len() ==> crate::scan::is_digit(#[trigger] dec_digits(n)[i]),
        crate::scan::dec_value(dec_digits(n)) == n,
    decreases n,
{
    if n < 10 {
        let d = dec_digits(n);
        assert(d.take(d.len() - 1) =~= Seq::<u8>::empty());
        assert(d[0] == 48 + n);
        assert(crate::scan::dec_value(d) == crate::scan::dec_value(d.take(0)) * 10 + (d[0] - 48));
        assert(crate::scan::dec_value(d.take(0)) == 0);
        assert(crate::scan::dec_value(d) == n);
    } else {
        lemma_dec_digits_props(n / 10);
        let d = dec_digits(n);
        assert(d.take(d.len() - 1) =~= dec_digits(n / 10));
        assert(forall|i: int|
            0 <= i < d.len() ==> crate::scan::is_digit(#[trigger] d[i])) by {
            assert(forall|i: int|
                0 <= i < d.len() - 1 ==> d[i] == dec_digits(n / 10)[i]);
            assert(crate::scan::is_digit(d[d.len() - 1]));
        }
        assert(n == (n / 10) * 10 + n % 10) by {
            vstd::arithmetic::div_mod::lemma_fundamental_div_mod(n as int, 10);
        }
        assert(crate::scan::dec_value(d) == n);
    }
}

/// Renders `n` in decimal.
pub fn fmt_u128(n: u128) -> (r: Vec<u8>)
    ensures
        r@ == dec_digits(n as nat),
    decreases n,
{
    if n < 10 {
        let mut v: Vec<u8> = Vec::new();
        v.push(48 + n as u8);
        proof {
            assert(v@ =~= dec_digits(n as nat));
        }
        v
    } else {
        let mut v = fmt_u128(n / 10);
        v.push(48 + (n % 10) as u8);
        proof {
            assert(v@ =~= dec_digits(n as nat));
        }
        v
    }
}

/// Renders `n` in decimal.
pub fn fmt_u64(n: u64) -> (r: Vec<u8>)
    ensures
        r@ == dec_digits(n as nat),
{
    fmt_u128(n as u128)
}

/// `s` escaped and wrapped in double quotes.
pub open spec fn quoted(s: Seq<u8>) -> Seq<u8> {
    seq![34u8] + escape_seq(s) + seq![34u8]
}

/// A quoted key followed by its colon.
pub open spec fn key_colon(k: Seq<u8>) -> Seq<u8> {
    needle_of(k) + seq![58u8]
}

/// The literal `true` or `false`.
pub open spec fn render_bool(b: bool) -> Seq<u8> {
    if b {
        seq![116u8, 114, 117, 101]
    } else {
        seq![102u8, 97, 108, 115, 101]
    }
}

pub open spec fn key_id() -> Seq<u8> {
    seq![105u8, 100]
}

pub open spec fn key_created() -> Seq<u8> {
    seq![99u8, 114, 101, 97, 116, 101, 100, 95, 109, 115]
}

pub open spec fn key_updated() -> Seq<u8> {
    seq![117u8, 112, 100, 97, 116, 101, 100, 95, 109, 115]
}

pub open spec fn key_pinned() -> Seq<u8> {
    seq![112u8, 105, 110, 110, 101, 100]
}

pub open spec fn key_tags() -> Seq<u8> {
    seq![116u8, 97, 103, 115]
}

pub open spec fn key_content() -> Seq<u8> {
    seq![99u8, 111, 110, 116, 101, 110, 116]
}

pub open spec fn key_changes() -> Seq<u8> {
    seq![99u8, 104, 97, 110, 103, 101, 115]
}

pub open spec fn key_change_date() -> Seq<u8> {
    seq![99u8, 104, 97, 110, 103, 101, 95, 100, 97, 116, 101, 95, 109, 115]
}

pub open spec fn key_pin_before() -> Seq<u8> {
    seq![112u8, 105, 110, 95, 98, 101, 102, 111, 114, 101]
}

pub open spec fn key_pin_after() -> Seq<u8> {
    seq![112u8, 105, 110, 95, 97, 102, 116, 101, 114]
}

pub open spec fn key_tags_before() -> Seq<u8> {
    seq![116u8, 97, 103, 115, 95, 98, 101, 102, 111, 114, 101]
}

pub open spec fn key_tags_after() -> Seq<u8> {
    seq![116u8, 97, 103, 115, 95, 97, 102, 116, 101, 114]
}

pub open spec fn key_content_before() -> Seq<u8> {
    seq![99u8, 111, 110, 116, 101, 110, 116, 95, 98, 101, 102, 111, 114, 101]
}

pub open spec fn key_content_after() -> Seq<u8> {
    seq![99u8, 111, 110, 116, 101, 110, 116, 95, 97, 102, 116, 101, 114]
}

/// The elements of a string array, quoted and comma-separated.
pub open spec fn str_list_inner(items: Seq<Seq<u8>>) -> Seq<u8>
    decreases items.len(),
{
    if items.len() == 0 {
        Seq::empty()
    } else if items.len() == 1 {
        quoted(items[0])
    } else {
        quoted(items[0]) + seq![44u8] + str_list_inner(items.skip(1))
    }
}

/// A rendered string array, brackets included.
pub open spec fn render_str_array(items: Seq<Seq<u8>>) -> Seq<u8> {
    seq![91u8] + str_list_inner(items) + seq![93u8]
}

/// One rendered change entry.
#[verifier::opaque]
pub open spec fn render_change(c: ChangeView) -> Seq<u8> {
    seq![123u8] + key_colon(key_change_date()) + dec_digits(c.change_date_ms as nat) + seq![44u8]
        + key_colon(key_pin_before()) + render_bool(c.pin_before) + seq![44u8] + key_colon(
        key_pin_after(),
    ) + render_bool(c.pin_after) + seq![44u8] + key_colon(key_tags_before()) + render_str_array(
        c.tags_before,
    ) + seq![44u8] + key_colon(key_tags_after()) + render_str_array(c.tags_after) + seq![44u8]
        + key_colon(key_content_before()) + quoted(c.content_before) + seq![44u8] + key_colon(
        key_content_after(),
    ) + quoted(c.content_after) + seq![125u8]
}

/// The entries of a change log, comma-separated.
pub open spec fn change_list_inner(cs: Seq<ChangeView>) -> Seq<u8>
    decreases cs.len(),
{
    if cs.len() == 0 {
        Seq::empty()
    } else if cs.len() == 1 {
        render_change(cs[0])
    } else {
        render_change(cs[0]) + seq![44u8] + change_list_inner(cs.skip(1))
    }
}

/// One rendered record.
#[verifier::opaque]
pub open spec fn render_note(n: NoteView) -> Seq<u8> {
    seq![123u8] + key_colon(key_id()) + dec_digits(n.id as nat) + seq![44u8] + key_colon(
        key_created(),
    ) + dec_digits(n.created_ms as nat) + seq![44u8] + key_colon(key_updated()) + dec_digits(
        n.updated_ms as nat,
    ) + seq![44u8] + key_colon(key_pinned()) + render_bool(n.pinned) + seq![44u8] + key_colon(
        key_tags(),
    ) + render_str_array(n.tags) + seq![44u8] + key_colon(key_content()) + quoted(n.content)
        + seq![44u8] + key_colon(key_changes()) + seq![91u8] + change_list_inner(n.changes)
        + seq![93u8] + seq![125u8]
}

/// The records of a collection, comma-separated.
pub open spec fn note_list_inner(ns: Seq<NoteView>) -> Seq<u8>
    decreases ns.len(),
{
    if ns.len() == 0 {
        Seq::empty()
    } else if ns.len() == 1 {
        render_note(ns[0])
    } else {
        render_note(ns[0]) + seq![44u8] + note_list_inner(ns.skip(1))
    }
}

/// A whole rendered collection: a single JSON array of record objects.
pub open spec fn render_notes(ns: Seq<NoteView>) -> Seq<u8> {
    seq![91u8] + note_list_inner(ns) + seq![93u8]
}

fn append_slice(out: &mut Vec<u8>, s: &[u8])
    ensures
        final(out)@ == old(out)@ + s@,
{
    out.extend_from_slice(s);
    proof {
        assert(out@ =~= old(out)@ + s@);
    }
}

/// Renders one string array, per `render_str_array`.
fn str_array_to_json(items: &Vec<Vec<u8>>) -> (r: Vec<u8>)
    ensures
        r@ == render_str_array(items.deep_view()),
{
    let ghost all = items.deep_view();
    let mut out: Vec<u8> = Vec::new();
    out.push(91);
    let mut i: usize = 0;
    proof {
        assert(all.skip(0) =~= all);
        assert(out@ =~= seq![91u8]);
    }
    while i < items.len()
        invariant
            i <= items.len(),
            all == items.deep_view(),
            all.len() == items.len(),
            seq![91u8] + str_list_inner(all) == out@ + str_list_inner(all.skip(i as int)),
        decreases items.len() - i,
    {
        let ghost out0 = out@;
        let q = crate::scan::json_escape(items[i].as_slice());
        out.push(34);
        append_slice(&mut out, q.as_slice());
        out.push(34);
        if i + 1 < items.len() {
            out.push(44);
        }
        proof {
            assert(all.skip(i as int)[0] == all[i as int]);
            assert(items@[i as int].deep_view() =~= items@[i as int]@);
            assert(all[i as int] == items@[i as int]@);
            assert(all.skip(i as int).skip(1) =~= all.skip(i + 1));
            if i + 1 < items.len() {
                assert(out@ =~= out0 + (quoted(all[i as int]) + seq![44u8]));
                assert(str_list_inner(all.skip(i as int)) == quoted(all[i as int]) + seq![44u8]
                    + str_list_inner(all.skip(i + 1)));
                assert(out0 + str_list_inner(all.skip(i as int)) =~= out@ + str_list_inner(
                    all.skip(i + 1),
                ));
            } else {
                assert(out@ =~= out0 + quoted(all[i as int]));
                assert(all.skip(i as int).len() == 1);
                assert(str_list_inner(all.skip(i + 1)) =~= Seq::<u8>::empty());
                assert(out0 + str_list_inner(all.skip(i as int)) =~= out@ + str_list_inner(
                    all.skip(i + 1),
                ));
            }
        }
        i += 1;
    }
    out.push(93);
    proof {
        assert(all.skip(i as int).len() == 0);
        assert(str_list_inner(all.skip(i as int)) =~= Seq::<u8>::empty());
        assert(out@ =~= render_str_array(all));
    }
    out
}

fn append_key_colon(out: &mut Vec<u8>, k: &[u8])
    ensures
        final(out)@ == old(out)@ + key_colon(k@),
{
    out.push(34);
    out.extend_from_slice(k);
    out.push(34);
    out.push(58);
    proof {
        assert(out@ =~= old(out)@ + key_colon(k@));
    }
}

fn append_quoted(out: &mut Vec<u8>, s: &[u8])
    ensures
        final(out)@ == old(out)@ + quoted(s@),
{
    let q = crate::scan::json_escape(s);
    out.push(34);
    out.extend_from_slice(q.as_slice());
    out.push(34);
    proof {
        assert(out@ =~= old(out)@ + quoted(s@));
    }
}

fn append_bool(out: &mut Vec<u8>, b: bool)
    ensures
        final(out)@ == old(out)@ + render_bool(b),
{
    if b {
        let t: [u8; 4] = [116, 114, 117, 101];
        out.extend_from_slice(t.as_slice());
    } else {
        let f: [u8; 5] = [102, 97, 108, 115, 101];
        out.extend_from_slice(f.as_slice());
    }
    proof {
        assert(out@ =~= old(out)@ + render_bool(b));
    }
}

/// Renders one change entry, per `render_change`.
#[verifier::rlimit(60)]
pub fn change_to_json(c: &Change) -> (r: Vec<u8>)
    ensures
        r@ == render_change(c@),
{
    proof {
        reveal(render_change);
    }
    let mut out: Vec<u8> = Vec::new();
    out.push(123);
    let k0: [u8; 14] = [99, 104, 97, 110, 103, 101, 95, 100, 97, 116, 101, 95, 109, 115];
    proof {
        assert(k0@ =~= key_change_date());
    }
    append_key_colon(&mut out, k0.as_slice());
    let d = fmt_u128(c.change_date_ms);
    append_slice(&mut out, d.as_slice());
    out.push(44);
    let k1: [u8; 10] = [112, 105, 110, 95, 98, 101, 102, 111, 114, 101];
    proof {
        assert(k1@ =~= key_pin_before());
    }
    append_key_colon(&mut out, k1.as_slice());
    append_bool(&mut out, c.pin_change.before);
    out.push(44);
    let k2: [u8; 9] = [112, 105, 110, 95, 97, 102, 116, 101, 114];
    proof {
        assert(k2@ =~= key_pin_after());
    }
    append_key_colon(&mut out, k2.as_slice());
    append_bool(&mut out, c.pin_change.after);
    out.push(44);
    let k3: [u8; 11] = [116, 97, 103, 115, 95, 98, 101, 102, 111, 114, 101];
    proof {
        assert(k3@ =~= key_tags_before());
    }
    append_key_colon(&mut out, k3.as_slice());
    let tb = str_array_to_json(&c.tag_change.before);
    append_slice(&mut out, tb.as_slice());
    out.push(44);
    let k4: [u8; 10] = [116, 97, 103, 115, 95, 97, 102, 116, 101, 114];
    proof {
        assert(k4@ =~= key_tags_after());
    }
    append_key_colon(&mut out, k4.as_slice());
    let ta = str_array_to_json(&c.tag_change.after);
    append_slice(&mut out, ta.as_slice());
    out.push(44);
    let k5: [u8; 14] = [99, 111, 110, 116, 101, 110, 116, 95, 98, 101, 102, 111, 114, 101];
    proof {
        assert(k5@ =~= key_content_before());
    }
    append_key_colon(&mut out, k5.as_slice());
    append_quoted(&mut out, c.content_change.before.as_slice());
    out.push(44);
    let k6: [u8; 13] = [99, 111, 110, 116, 101, 110, 116, 95, 97, 102, 116, 101, 114];
    proof {
        assert(k6@ =~= key_content_after());
    }
    append_key_colon(&mut out, k6.as_slice());
    append_quoted(&mut out, c.content_change.after.as_slice());
    out.push(125);
    proof {
        assert(out@ =~= render_change(c@));
    }
    out
}

/// Renders a change log's entries, comma-separated, per `change_list_inner`.
fn change_list_to_json(cs: &Vec<Change>) -> (r: Vec<u8>)
    ensures
        r@ == change_list_inner(cs.deep_view()),
{
    let ghost all = cs.deep_view();
    let mut out: Vec<u8> = Vec::new();
    let mut i: usize = 0;
    proof {
        assert(all.skip(0) =~= all);
        assert(out@ =~= Seq::<u8>::empty());
    }
    while i < cs.len()
        invariant
            i <= cs.len(),
            all == cs.deep_view(),
            all.len() == cs.len(),
            change_list_inner(all) == out@ + change_list_inner(all.skip(i as int)),
        decreases cs.len() - i,
    {
        let ghost out0 = out@;
        let rc = change_to_json(&cs[i]);
        append_slice(&mut out, rc.as_slice());
        if i + 1 < cs.len() {
            out.push(44);
        }
        proof {
            assert(all.skip(i as int)[0] == all[i as int]);
            assert(all[i as int] == cs@[i as int]@);
            assert(all.skip(i as int).skip(1) =~= all.skip(i + 1));
            if i + 1 < cs.len() {
                assert(out@ =~= out0 + (render_change(all[i as int]) + seq![44u8]));
                assert(out0 + change_list_inner(all.skip(i as int)) =~= out@ + change_list_inner(
                    all.skip(i + 1),
                ));
            } else {
                assert(all.skip(i as int).len() == 1);
                assert(change_list_inner(all.skip(i + 1)) =~= Seq::<u8>::empty());
                assert(out0 + change_list_inner(all.skip(i as int)) =~= out@ + change_list_inner(
                    all.skip(i + 1),
                ));
            }
        }
        i += 1;
    }
    proof {
        assert(all.skip(i as int).len() == 0);
        assert(change_list_inner(all.skip(i as int)) =~= Seq::<u8>::empty());
        assert(change_list_inner(all) =~= out@);
    }
    out
}

/// Renders one record, per `render_note`.
#[verifier::rlimit(60)]
pub fn note_to_json(n: &Note) -> (r: Vec<u8>)
    ensures
        r@ == render_note(n@),
{
    proof {
        reveal(render_note);
    }
    let mut out: Vec<u8> = Vec::new();
    out.push(123);
    let k0: [u8; 2] = [105, 100];
    proof {
        assert(k0@ =~= key_id());
    }
    append_key_colon(&mut out, k0.as_slice());
    let d0 = fmt_u64(n.id);
    append_slice(&mut out, d0.as_slice());
    out.push(44);
    let k1: [u8; 10] = [99, 114, 101, 97, 116, 101, 100, 95, 109, 115];
    proof {
        assert(k1@ =~= key_created());
    }
    append_key_colon(&mut out, k1.as_slice());
    let d1 = fmt_u128(n.created_ms);
    append_slice(&mut out, d1.as_slice());
    out.push(44);
    let k2: [u8; 10] = [117, 112, 100, 97, 116, 101, 100, 95, 109, 115];
    proof {
        assert(k2@ =~= key_updated());
    }
    append_key_colon(&mut out, k2.as_slice());
    let d2 = fmt_u128(n.updated_ms);
    append_slice(&mut out, d2.as_slice());
    out.push(44);
    let k3: [u8; 6] = [112, 105, 110, 110, 101, 100];
    proof {
        assert(k3@ =~= key_pinned());
    }
    append_key_colon(&mut out, k3.as_slice());
    append_bool(&mut out, n.pinned);
    out.push(44);
    let k4: [u8; 4] = [116, 97, 103, 115];
    proof {
        assert(k4@ =~= key_tags());
    }
    append_key_colon(&mut out, k4.as_slice());
    let tj = str_array_to_json(&n.tags);
    append_slice(&mut out, tj.as_slice());
    out.push(44);
    let k5: [u8; 7] = [99, 111, 110, 116, 101, 110, 116];
    proof {
        assert(k5@ =~= key_content());
    }
    append_key_colon(&mut out, k5.as_slice());
    append_quoted(&mut out, n.content.as_slice());
    out.push(44);
    let k6: [u8; 7] = [99, 104, 97, 110, 103, 101, 115];
    proof {
        assert(k6@ =~= key_changes());
    }
    append_key_colon(&mut out, k6.as_slice());
    out.push(91);
    let cj = change_list_to_json(&n.changes);
    append_slice(&mut out, cj.as_slice());
    out.push(93);
    out.push(125);
    proof {
        assert(out@ =~= render_note(n@));
    }
    out
}

fn append_note_json(out: &mut Vec<u8>, n: &Note, comma: bool)
    ensures
        final(out)@ == old(out)@ + render_note(n@) + (if comma {
            seq![44u8]
        } else {
            Seq::<u8>::empty()
        }),
{
    let rn = note_to_json(n);
    append_slice(out, rn.as_slice());
    if comma {
        out.push(44);
    }
    proof {
        assert(out@ =~= old(out)@ + render_note(n@) + (if comma {
            seq![44u8]
        } else {
            Seq::<u8>::empty()
        }));
    }
}

/// Renders the whole collection, per `render_notes`.
pub fn notes_to_json(ns: &Vec<Note>) -> (r: Vec<u8>)
    ensures
        r@ == render_notes(ns.deep_view()),
{
    let ghost all = ns.deep_view();
    let mut out: Vec<u8> = Vec::new();
    out.push(91);
    let mut i: usize = 0;
    proof {
        assert(all.skip(0) =~= all);
        assert(out@ =~= seq![91u8]);
    }
    while i < ns.len()
        invariant
            i <= ns.len(),
            all == ns.deep_view(),
            all.len() == ns.len(),
            seq![91u8] + note_list_inner(all) == out@ + note_list_inner(all.skip(i as int)),
        decreases ns.len() - i,
    {
        let ghost out0 = out@;
        let comma = i + 1 < ns.len();
        append_note_json(&mut out, &ns[i], comma);
        proof {
            assert(all.skip(i as int)[0] == all[i as int]);
            assert(all[i as int] == ns@[i as int]@);
            assert(all.skip(i as int).skip(1) =~= all.skip(i + 1));
            if comma {
                assert(out@ =~= out0 + (render_note(all[i as int]) + seq![44u8]));
                assert(out0 + note_list_inner(all.skip(i as int)) =~= out@ + note_list_inner(
                    all.skip(i + 1),
                ));
            } else {
                assert(out@ =~= out0 + render_note(all[i as int]));
                assert(all.skip(i as int).len() == 1);
                assert(note_list_inner(all.skip(i + 1)) =~= Seq::<u8>::empty());
                assert(out0 + note_list_inner(all.skip(i as int)) =~= out@ + note_list_inner(
                    all.skip(i + 1),
                ));
            }
        }
        i += 1;
    }
    out.push(93);
    proof {
        assert(all.skip(i as int).len() == 0);
        assert(note_list_inner(all.skip(i as int)) =~= Seq::<u8>::empty());
        assert(out@ =~= render_notes(all));
    }
    out
}

/// One change entry read back from its rendered object: the date is
/// required, every other field falls back to its empty default.
pub open spec fn parse_change_spec(body: Seq<u8>) -> Option<ChangeView> {
    match json_u128_value(body, key_change_date()) {
        None => None,
        Some(t) => Some(
            ChangeView {
                change_date_ms: t,
                pin_before: match json_bool_value(body, key_pin_before()) {
                    Some(b) => b,
                    None => false,
                },
                pin_after: match json_bool_value(body, key_pin_after()) {
                    Some(b) => b,
                    None => false,
                },
                tags_before: match json_string_array_value(body, key_tags_before()) {
                    Some(t) => t,
                    None => Seq::empty(),
                },
                tags_after: match json_string_array_value(body, key_tags_after()) {
                    Some(t) => t,
                    None => Seq::empty(),
                },
                content_before: match json_string_value(body, key_content_before()) {
                    Some(s) => s,
                    None => Seq::empty(),
                },
                content_after: match json_string_value(body, key_content_after()) {
                    Some(s) => s,
                    None => Seq::empty(),
                },
            },
        ),
    }
}

/// Reads one change entry, per `parse_change_spec`.
pub fn parse_change(body: &[u8]) -> (r: Option<Change>)
    ensures
        match r {
            Some(c) => parse_change_spec(body@) == Some(c@),
            None => parse_change_spec(body@) is None,
        },
{
    let kd: [u8; 14] = [99, 104, 97, 110, 103, 101, 95, 100, 97, 116, 101, 95, 109, 115];
    let kpb: [u8; 10] = [112, 105, 110, 95, 98, 101, 102, 111, 114, 101];
    let kpa: [u8; 9] = [112, 105, 110, 95, 97, 102, 116, 101, 114];
    let ktb: [u8; 11] = [116, 97, 103, 115, 95, 98, 101, 102, 111, 114, 101];
    let kta: [u8; 10] = [116, 97, 103, 115, 95, 97, 102, 116, 101, 114];
    let kcb: [u8; 14] = [99, 111, 110, 116, 101, 110, 116, 95, 98, 101, 102, 111, 114, 101];
    let kca: [u8; 13] = [99, 111, 110, 116, 101, 110, 116, 95, 97, 102, 116, 101, 114];
    proof {
        assert(kd@ =~= key_change_date());
        assert(kpb@ =~= key_pin_before());
        assert(kpa@ =~= key_pin_after());
        assert(ktb@ =~= key_tags_before());
        assert(kta@ =~= key_tags_after());
        assert(kcb@ =~= key_content_before());
        assert(kca@ =~= key_content_after());
    }
    let t = match json_get_u128(body, kd.as_slice()) {
        Some(t) => t,
        None => {
            return None;
        },
    };
    let pin_before = match json_get_bool(body, kpb.as_slice()) {
        Some(b) => b,
        None => false,
    };
    let pin_after = match json_get_bool(body, kpa.as_slice()) {
        Some(b) => b,
        None => false,
    };
    let tags_before = match json_get_string_array(body, ktb.as_slice()) {
        Some(t) => t,
        None => Vec::new(),
    };
    let tags_after = match json_get_string_array(body, kta.as_slice()) {
        Some(t) => t,
        None => Vec::new(),
    };
    let content_before = match json_get_string(body, kcb.as_slice()) {
        Some(s) => s,
        None => Vec::new(),
    };
    let content_after = match json_get_string(body, kca.as_slice()) {
        Some(s) => s,
        None => Vec::new(),
    };
    let c = Change {
        change_date_ms: t,
        pin_change: PinChange { before: pin_before, after: pin_after },
        tag_change: TagChange { before: tags_before, after: tags_after },
        content_change: ContentChange { before: content_before, after: content_after },
    };
    proof {
        if tags_before@.len() == 0 {
            assert(tags_before.deep_view() =~= Seq::<Seq<u8>>::empty());
        }
        if tags_after@.len() == 0 {
            assert(tags_after.deep_view() =~= Seq::<Seq<u8>>::empty());
        }
        assert(parse_change_spec(body@) == Some(c@));
    }
    Some(c)
}

/// A sequence of change objects read in order; any malformed entry fails the
/// whole list.
pub open spec fn parse_changes_spec(objs: Seq<Seq<u8>>) -> Option<Seq<ChangeView>>
    decreases objs.len(),
{
    if objs.len() == 0 {
        Some(Seq::empty())
    } else {
        match parse_change_spec(objs[0]) {
            None => None,
            Some(c) => match parse_changes_spec(objs.skip(1)) {
                None => None,
                Some(rest) => Some(seq![c] + rest),
            },
        }
    }
}

/// The change log carried by a rendered record: the objects of the region
/// after the `changes` key; an absent key means an empty log.
pub open spec fn parse_note_changes(body: Seq<u8>) -> Option<Seq<ChangeView>> {
    match crate::scan::value_start(body, key_changes()) {
        Some(s) => parse_changes_spec(extract_objects_spec(s)),
        None => Some(Seq::empty()),
    }
}

fn parse_changes(objs: &Vec<Vec<u8>>) -> (r: Option<Vec<Change>>)
    ensures
        match r {
            Some(v) => parse_changes_spec(objs.deep_view()) == Some(v.deep_view()),
            None => parse_changes_spec(objs.deep_view()) is None,
        },
{
    let ghost all = objs.deep_view();
    let mut out: Vec<Change> = Vec::new();
    let mut i: usize = 0;
    proof {
        assert(all.skip(0) =~= all);
        assert(out.deep_view() =~= Seq::<ChangeView>::empty());
    }
    while i < objs.len()
        invariant
            i <= objs.len(),
            all == objs.deep_view(),
            all.len() == objs.len(),
            parse_changes_spec(all) == (match parse_changes_spec(all.skip(i as int)) {
                Some(rest) => Some(out.deep_view() + rest),
                None => None,
            }),
        decreases objs.len() - i,
    {
        proof {
            assert(all.skip(i as int)[0] == all[i as int]);
            assert(all[i as int] =~= objs@[i as int]@);
            assert(all.skip(i as int).skip(1) =~= all.skip(i + 1));
        }
        match parse_change(objs[i].as_slice()) {
            None => {
                return None;
            },
            Some(c) => {
                let ghost out0 = out.deep_view();
                out.push(c);
                proof {
                    assert(out.deep_view() =~= out0.push(c@));
                    assert(forall|rest: Seq<ChangeView>|
                        (out0 + (seq![c@] + rest)) =~= (out0.push(c@) + rest));
                }
            },
        }
        i += 1;
    }
    proof {
        assert(all.skip(i as int).len() == 0);
        assert(parse_changes_spec(all.skip(i as int)) == Some(Seq::<ChangeView>::empty()));
        assert(out.deep_view() + Seq::<ChangeView>::empty() =~= out.deep_view());
    }
    Some(out)
}

/// One record read back from its rendered object: identifier and both
/// timestamps are required; pin, tags and content fall back to their empty
/// defaults; a malformed change log fails the record.
pub open spec fn parse_note_spec(body: Seq<u8>) -> Option<NoteView> {
    match json_u64_value(body, key_id()) {
        None => None,
        Some(id) => match json_u128_value(body, key_created()) {
            None => None,
            Some(created_ms) => match json_u128_value(body, key_updated()) {
                None => None,
                Some(updated_ms) => match parse_note_changes(body) {
                    None => None,
                    Some(changes) => Some(
                        NoteView {
                            id,
                            created_ms,
                            updated_ms,
                            pinned: match json_bool_value(body, key_pinned()) {
                                Some(b) => b,
                                None => false,
                            },
                            tags: match json_string_array_value(body, key_tags()) {
                                Some(t) => t,
                                None => Seq::empty(),
                            },
                            content: match json_string_value(body, key_content()) {
                                Some(s) => s,
                                None => Seq::empty(),
                            },
                            changes,
                        },
                    ),
                },
            },
        },
    }
}

/// Reads one record, per `parse_note_spec`.
pub fn parse_note(body: &[u8]) -> (r: Option<Note>)
    ensures
        match r {
            Some(n) => parse_note_spec(body@) == Some(n@),
            None => parse_note_spec(body@) is None,
        },
{
    let kid: [u8; 2] = [105, 100];
    let kcr: [u8; 10] = [99, 114, 101, 97, 116, 101, 100, 95, 109, 115];
    let kup: [u8; 10] = [117, 112, 100, 97, 116, 101, 100, 95, 109, 115];
    let kpi: [u8; 6] = [112, 105, 110, 110, 101, 100];
    let ktg: [u8; 4] = [116, 97, 103, 115];
    let kco: [u8; 7] = [99, 111, 110, 116, 101, 110, 116];
    let kch: [u8; 7] = [99, 104, 97, 110, 103, 101, 115];
    proof {
        assert(kid@ =~= key_id());
        assert(kcr@ =~= key_created());
        assert(kup@ =~= key_updated());
        assert(kpi@ =~= key_pinned());
        assert(ktg@ =~= key_tags());
        assert(kco@ =~= key_content());
        assert(kch@ =~= key_changes());
    }
    let id = match json_get_u64(body, kid.as_slice()) {
        Some(v) => v,
        None => {
            return None;
        },
    };
    let created_ms = match json_get_u128(body, kcr.as_slice()) {
        Some(v) => v,
        None => {
            return None;
        },
    };
    let updated_ms = match json_get_u128(body, kup.as_slice()) {
        Some(v) => v,
        None => {
            return None;
        },
    };
    let changes = match crate::scan::value_start_exec(body, kch.as_slice()) {
        Some(region) => {
            let objs = extract_objects(region);
            match parse_changes(&objs) {
                Some(v) => v,
                None => {
                    return None;
                },
            }
        },
        None => Vec::new(),
    };
    let pinned = match json_get_bool(body, kpi.as_slice()) {
        Some(b) => b,
        None => false,
    };
    let tags = match json_get_string_array(body, ktg.as_slice()) {
        Some(t) => t,
        None => Vec::new(),
    };
    let content = match json_get_string(body, kco.as_slice()) {
        Some(s) => s,
        None => Vec::new(),
    };
    let n = Note { id, created_ms, updated_ms, pinned, tags, content, changes };
    proof {
        if tags@.len() == 0 {
            assert(tags.deep_view() =~= Seq::<Seq<u8>>::empty());
        }
        if changes@.len() == 0 {
            assert(changes.deep_view() =~= Seq::<ChangeView>::empty());
        }
        assert(parse_note_spec(body@) == Some(n@));
    }
    Some(n)
}

/// A sequence of record objects read in order; any malformed record fails
/// the whole collection.
pub open spec fn parse_notes_spec(objs: Seq<Seq<u8>>) -> Option<Seq<NoteView>>
    decreases objs.len(),
{
    if objs.len() == 0 {
        Some(Seq::empty())
    } else {
        match parse_note_spec(objs[0]) {
            None => None,
            Some(n) => match parse_notes_spec(objs.skip(1)) {
                None => None,
                Some(rest) => Some(seq![n] + rest),
            },
        }
    }
}

/// The collection read back from persisted text: blank text is an empty
/// collection; otherwise every complete top-level object must parse as a
/// record.
pub open spec fn load_notes_spec(text: Seq<u8>) -> Option<Seq<NoteView>> {
    if trim_start_spec(text).len() == 0 {
        Some(Seq::empty())
    } else {
        parse_notes_spec(extract_objects_spec(text))
    }
}

/// Reads a persisted collection, per `load_notes_spec`.
pub fn load_notes(text: &[u8]) -> (r: Option<Vec<Note>>)
    ensures
        match r {
            Some(v) => load_notes_spec(text@) == Some(v.deep_view()),
            None => load_notes_spec(text@) is None,
        },
{
    let w = crate::scan::skip_ws(text, 0);
    proof {
        assert(text@.skip(0) =~= text@);
    }
    if w >= text.len() {
        let v: Vec<Note> = Vec::new();
        proof {
            assert(trim_start_spec(text@).len() == 0);
            assert(v.deep_view() =~= Seq::<NoteView>::empty());
        }
        return Some(v);
    }
    proof {
        assert(trim_start_spec(text@).len() > 0);
    }
    let objs = extract_objects(text);
    let ghost all = objs.deep_view();
    let mut out: Vec<Note> = Vec::new();
    let mut i: usize = 0;
    proof {
        assert(all.skip(0) =~= all);
        assert(out.deep_view() =~= Seq::<NoteView>::empty());
    }
    while i < objs.len()
        invariant
            all == objs.deep_view(),
            all == extract_objects_spec(text@),
            trim_start_spec(text@).len() > 0,
            i <= objs.len(),
            all.len() == objs.len(),
            parse_notes_spec(all) == (match parse_notes_spec(all.skip(i as int)) {
                Some(rest) => Some(out.deep_view() + rest),
                None => None,
            }),
        decreases objs.len() - i,
    {
        proof {
            assert(all.skip(i as int)[0] == all[i as int]);
            assert(all[i as int] =~= objs@[i as int]@);
            assert(all.skip(i as int).skip(1) =~= all.skip(i + 1));
        }
        match parse_note(objs[i].as_slice()) {
            None => {
                return None;
            },
            Some(n) => {
                let ghost out0 = out.deep_view();
                out.push(n);
                proof {
                    assert(out.deep_view() =~= out0.push(n@));
                    assert(forall|rest: Seq<NoteView>|
                        (out0 + (seq![n@] + rest)) =~= (out0.push(n@) + rest));
                }
            },
        }
        i += 1;
    }
    proof {
        assert(all.skip(i as int).len() == 0);
        assert(parse_notes_spec(all.skip(i as int)) == Some(Seq::<NoteView>::empty()));
        assert(out.deep_view() + Seq::<NoteView>::empty() =~= out.deep_view());
    }
    Some(out)
}

/// Relative path of the persisted collection file.
pub fn notes_path() -> (r: &'static str)
    ensures
        r@ == "data/note.json"@,
{
    "data/note.json"
}

} // verus!
