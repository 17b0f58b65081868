//! The service itself: the fixed route table of the record-keeping
//! service, and the handlers that read or mutate the store and produce
//! responses.
//!
//! `handle_request` is a pure function of the store's state, the parsed
//! request, and the current time: the caller performs the transport reads
//! and writes, guards the store, and — whenever `store_changed` is reported
//! — rewrites the persisted collection before sending the response.

use vstd::prelude::*;
use crate::models::NoteView;
use crate::persist::{key_content, key_pinned, key_tags, render_note, render_notes};
use crate::request::{Request, RequestView};
use crate::response::{Response, ResponseView};
use crate::router::{
    dispatch_spec, Dispatch, Method, RouteMatchView, Router, RouteView,
};
use crate::scan::{json_bool_value, json_string_array_value, json_string_value, starts_with,
    dec_value, is_digit};
use crate::store::{
    apply_patch, find_id, fresh_note, render_changes_text, sort_notes, NotePatch, PatchView,
    Store,
};

verus! {

/// The handlers of the service, as route tags.
#[derive(Clone, Copy, Debug, PartialEq, Eq, Structural)]
pub enum Endpoint {
    Health,
    NotesList,
    NotesCreate,
    NoteGet,
    NotePatch,
    NoteDelete,
    NoteChanges,
}

/// `/health`.
pub open spec fn health_path() -> Seq<u8> {
    seq![47u8, 104, 101, 97, 108, 116, 104]
}

/// `/api/notes`.
pub open spec fn api_notes_path() -> Seq<u8> {
    seq![47u8, 97, 112, 105, 47, 110, 111, 116, 101, 115]
}

/// `/api/notes/`.
pub open spec fn api_notes_prefix() -> Seq<u8> {
    seq![47u8, 97, 112, 105, 47, 110, 111, 116, 101, 115, 47]
}

/// `/api/notes-changes/`.
pub open spec fn api_notes_changes_prefix() -> Seq<u8> {
    seq![47u8, 97, 112, 105, 47, 110, 111, 116, 101, 115, 45, 99, 104, 97, 110, 103, 101, 115, 47]
}

/// The service's route table, in registration order.
pub open spec fn notes_routes() -> Seq<RouteView<Endpoint>> {
    seq![
        RouteView {
            method: Method::Get,
            matcher: RouteMatchView::Exact(health_path()),
            handler: Endpoint::Health,
        },
        RouteView {
            method: Method::Get,
            matcher: RouteMatchView::Exact(api_notes_path()),
            handler: Endpoint::NotesList,
        },
        RouteView {
            method: Method::Post,
            matcher: RouteMatchView::Exact(api_notes_path()),
            handler: Endpoint::NotesCreate,
        },
        RouteView {
            method: Method::Get,
            matcher: RouteMatchView::Prefix(api_notes_prefix()),
            handler: Endpoint::NoteGet,
        },
        RouteView {
            method: Method::Patch,
            matcher: RouteMatchView::Prefix(api_notes_prefix()),
            handler: Endpoint::NotePatch,
        },
        RouteView {
            method: Method::Delete,
            matcher: RouteMatchView::Prefix(api_notes_prefix()),
            handler: Endpoint::NoteDelete,
        },
        RouteView {
            method: Method::Get,
            matcher: RouteMatchView::Prefix(api_notes_changes_prefix()),
            handler: Endpoint::NoteChanges,
        },
    ]
}

/// Builds the service's router, per `notes_routes`.
pub fn notes_router() -> (r: Router<Endpoint>)
    ensures
        r@ == notes_routes(),
{
    let mut r: Router<Endpoint> = Router::new();
    let health: [u8; 7] = [47, 104, 101, 97, 108, 116, 104];
    let notes: [u8; 10] = [47, 97, 112, 105, 47, 110, 111, 116, 101, 115];
    let notes2: [u8; 10] = [47, 97, 112, 105, 47, 110, 111, 116, 101, 115];
    let notes_p1: [u8; 11] = [47, 97, 112, 105, 47, 110, 111, 116, 101, 115, 47];
    let notes_p2: [u8; 11] = [47, 97, 112, 105, 47, 110, 111, 116, 101, 115, 47];
    let notes_p3: [u8; 11] = [47, 97, 112, 105, 47, 110, 111, 116, 101, 115, 47];
    let changes_p: [u8; 19] = [47, 97, 112, 105, 47, 110, 111, 116, 101, 115, 45, 99, 104, 97,
        110, 103, 101, 115, 47];
    proof {
        assert(health@ =~= health_path());
        assert(notes@ =~= api_notes_path());
        assert(notes2@ =~= api_notes_path());
        assert(notes_p1@ =~= api_notes_prefix());
        assert(notes_p2@ =~= api_notes_prefix());
        assert(notes_p3@ =~= api_notes_prefix());
        assert(changes_p@ =~= api_notes_changes_prefix());
    }
    r.add_route(Method::Get, slice_vec(health.as_slice()), Endpoint::Health);
    r.add_route(Method::Get, slice_vec(notes.as_slice()), Endpoint::NotesList);
    r.add_route(Method::Post, slice_vec(notes2.as_slice()), Endpoint::NotesCreate);
    r.add_prefix_route(Method::Get, slice_vec(notes_p1.as_slice()), Endpoint::NoteGet);
    r.add_prefix_route(Method::Patch, slice_vec(notes_p2.as_slice()), Endpoint::NotePatch);
    r.add_prefix_route(Method::Delete, slice_vec(notes_p3.as_slice()), Endpoint::NoteDelete);
    r.add_prefix_route(Method::Get, slice_vec(changes_p.as_slice()), Endpoint::NoteChanges);
    proof {
        assert(r@ =~= notes_routes());
    }
    r
}

fn slice_vec(s: &[u8]) -> (r: Vec<u8>)
    ensures
        r@ == s@,
{
    let mut v: Vec<u8> = Vec::new();
    v.extend_from_slice(s);
    proof {
        assert(v@ =~= s@);
    }
    v
}

/// A response value, in one line.
pub open spec fn rv(status: u16, text: Seq<u8>, ct: Seq<u8>, body: Seq<u8>) -> ResponseView {
    ResponseView { status, status_text: text, content_type: ct, body }
}

/// `text/plain`.
pub open spec fn ct_text() -> Seq<u8> {
    seq![116u8, 101, 120, 116, 47, 112, 108, 97, 105, 110]
}

/// `application/json`.
pub open spec fn ct_json() -> Seq<u8> {
    seq![97u8, 112, 112, 108, 105, 99, 97, 116, 105, 111, 110, 47, 106, 115, 111, 110]
}

/// `{"error":"not found"}`.
pub open spec fn err_not_found() -> Seq<u8> {
    seq![123u8, 34, 101, 114, 114, 111, 114, 34, 58, 34, 110, 111, 116, 32, 102, 111, 117, 110,
        100, 34, 125]
}

/// `{"error":"method not allowed"}`.
pub open spec fn err_method_not_allowed() -> Seq<u8> {
    seq![123u8, 34, 101, 114, 114, 111, 114, 34, 58, 34, 109, 101, 116, 104, 111, 100, 32, 110,
        111, 116, 32, 97, 108, 108, 111, 119, 101, 100, 34, 125]
}

/// `OK`.
pub open spec fn st_ok() -> Seq<u8> {
    seq![79u8, 75]
}

/// `No Content`.
pub open spec fn st_no_content() -> Seq<u8> {
    seq![78u8, 111, 32, 67, 111, 110, 116, 101, 110, 116]
}

/// `Method Not Allowed`.
pub open spec fn st_method_not_allowed() -> Seq<u8> {
    seq![77u8, 101, 116, 104, 111, 100, 32, 78, 111, 116, 32, 65, 108, 108, 111, 119, 101, 100]
}

/// `Not Found`.
pub open spec fn st_not_found() -> Seq<u8> {
    seq![78u8, 111, 116, 32, 70, 111, 117, 110, 100]
}

/// `Created`.
pub open spec fn st_created() -> Seq<u8> {
    seq![67u8, 114, 101, 97, 116, 101, 100]
}

/// `ok`.
pub open spec fn body_ok() -> Seq<u8> {
    seq![111u8, 107]
}

/// `invalid note id`.
pub open spec fn body_invalid_id() -> Seq<u8> {
    seq![105u8, 110, 118, 97, 108, 105, 100, 32, 110, 111, 116, 101, 32, 105, 100]
}

/// `note not found`.
pub open spec fn body_note_not_found() -> Seq<u8> {
    seq![110u8, 111, 116, 101, 32, 110, 111, 116, 32, 102, 111, 117, 110, 100]
}

/// The identifier standing after `prefix` in `path`: the whole remainder
/// must be a non-empty digit run whose value fits in `u64`.
pub open spec fn note_id_in_path(path: Seq<u8>, prefix: Seq<u8>) -> Option<u64> {
    if !starts_with(path, prefix) {
        None
    } else {
        let ds = path.skip(prefix.len() as int);
        if ds.len() > 0 && (forall|i: int| 0 <= i < ds.len() ==> is_digit(ds[i])) && dec_value(ds)
            <= u64::MAX {
            Some(dec_value(ds) as u64)
        } else {
            None
        }
    }
}

/// The record a creation reads out of a request body: absent or malformed
/// fields fall back to empty content, unpinned, no tags.
pub open spec fn create_note_of(body: Seq<u8>, now: u128) -> NoteView {
    fresh_note(
        now,
        match json_bool_value(body, key_pinned()) {
            Some(b) => b,
            None => false,
        },
        match json_string_array_value(body, key_tags()) {
            Some(t) => t,
            None => Seq::empty(),
        },
        match json_string_value(body, key_content()) {
            Some(c) => c,
            None => Seq::empty(),
        },
    )
}

/// The patch a request body carries: each field present exactly when its
/// key holds a well-formed value.
pub open spec fn patch_of(body: Seq<u8>) -> PatchView {
    PatchView {
        content: json_string_value(body, key_content()),
        pinned: json_bool_value(body, key_pinned()),
        tags: json_string_array_value(body, key_tags()),
    }
}

/// What the service does with a dispatched request: the new store contents
/// and the response.
pub open spec fn service_spec(ns: Seq<NoteView>, req: RequestView, now: u128) -> (
    Seq<NoteView>,
    ResponseView,
) {
    match dispatch_spec(notes_routes(), req.method, req.path) {
        Dispatch::Preflight => (ns, rv(204, st_no_content(), ct_text(), Seq::empty())),
        Dispatch::MethodNotAllowed => (
            ns,
            rv(405, st_method_not_allowed(), ct_json(), err_method_not_allowed()),
        ),
        Dispatch::NotFound => (ns, rv(404, st_not_found(), ct_json(), err_not_found())),
        Dispatch::Handler(ep) => match ep {
            Endpoint::Health => (ns, rv(200, st_ok(), ct_text(), body_ok())),
            Endpoint::NotesList => (
                ns,
                rv(200, st_ok(), ct_json(), render_notes(sort_notes(ns))),
            ),
            Endpoint::NotesCreate => (
                ns.push(create_note_of(req.body, now)),
                rv(201, st_created(), ct_json(), render_note(create_note_of(req.body, now))),
            ),
            Endpoint::NoteGet => match note_id_in_path(req.path, api_notes_prefix()) {
                None => (ns, rv(404, st_not_found(), ct_json(), err_not_found())),
                Some(id) => match find_id(ns, id) {
                    None => (ns, rv(404, st_not_found(), ct_json(), err_not_found())),
                    Some(i) => (ns, rv(200, st_ok(), ct_json(), render_note(ns[i]))),
                },
            },
            Endpoint::NotePatch => match note_id_in_path(req.path, api_notes_prefix()) {
                None => (ns, rv(404, st_not_found(), ct_json(), err_not_found())),
                Some(id) => match find_id(ns, id) {
                    None => (ns, rv(404, st_not_found(), ct_json(), err_not_found())),
                    Some(i) => (
                        ns.update(i, apply_patch(ns[i], patch_of(req.body), now)),
                        rv(
                            200,
                            st_ok(),
                            ct_json(),
                            render_note(apply_patch(ns[i], patch_of(req.body), now)),
                        ),
                    ),
                },
            },
            Endpoint::NoteDelete => match note_id_in_path(req.path, api_notes_prefix()) {
                None => (ns, rv(404, st_not_found(), ct_json(), err_not_found())),
                Some(id) => if find_id(ns, id) is Some {
                    (
                        ns.filter(|n: NoteView| n.id != id),
                        rv(204, st_no_content(), ct_text(), Seq::empty()),
                    )
                } else {
                    (ns, rv(404, st_not_found(), ct_json(), err_not_found()))
                },
            },
            Endpoint::NoteChanges => match note_id_in_path(
                req.path,
                api_notes_changes_prefix(),
            ) {
                None => (ns, rv(404, st_not_found(), ct_text(), body_invalid_id())),
                Some(id) => match find_id(ns, id) {
                    None => (ns, rv(404, st_not_found(), ct_text(), body_note_not_found())),
                    Some(i) => (
                        ns,
                        rv(200, st_ok(), ct_text(), render_changes_text(ns[i].changes)),
                    ),
                },
            },
        },
    }
}

/// Whether serving the request mutates the store — exactly when a creation
/// happens, or a patch or deletion finds its record.
pub open spec fn service_changed(ns: Seq<NoteView>, req: RequestView, now: u128) -> bool {
    match dispatch_spec(notes_routes(), req.method, req.path) {
        Dispatch::Handler(ep) => match ep {
            Endpoint::NotesCreate => true,
            Endpoint::NotePatch => match note_id_in_path(req.path, api_notes_prefix()) {
                Some(id) => find_id(ns, id) is Some,
                None => false,
            },
            Endpoint::NoteDelete => match note_id_in_path(req.path, api_notes_prefix()) {
                Some(id) => find_id(ns, id) is Some,
                None => false,
            },
            _ => false,
        },
        _ => false,
    }
}

fn parse_id_after(path: &[u8], prefix: &[u8]) -> (r: Option<u64>)
    ensures
        r == note_id_in_path(path@, prefix@),
{
    if prefix.len() > path.len() {
        return None;
    }
    let head = vstd::slice::slice_subrange(path, 0, prefix.len());
    proof {
        assert(head@ =~= path@.take(prefix@.len() as int));
    }
    if !crate::store::bytes_eq(head, prefix) {
        return None;
    }
    let ds = vstd::slice::slice_subrange(path, prefix.len(), path.len());
    proof {
        assert(ds@ =~= path@.skip(prefix@.len() as int));
    }
    if ds.len() == 0 {
        return None;
    }
    let mut i: usize = 0;
    while i < ds.len()
        invariant
            i <= ds.len(),
            ds@ == path@.skip(prefix@.len() as int),
            starts_with(path@, prefix@),
            ds@.len() > 0,
            forall|k: int| 0 <= k < i ==> is_digit(ds@[k]),
        decreases ds.len() - i,
    {
        if ds[i] < 48 || ds[i] > 57 {
            proof {
                assert(!(forall|k: int| 0 <= k < ds@.len() ==> is_digit(ds@[k]))) by {
                    assert(!is_digit(ds@[i as int]));
                }
            }
            return None;
        }
        i += 1;
    }
    match crate::scan::parse_u128_digits(ds) {
        Some(n) => if n <= 0xffff_ffff_ffff_ffffu128 {
            Some(n as u64)
        } else {
            None
        },
        None => None,
    }
}

/// Reads the record identifier out of `/api/notes/{id}`, per
/// `note_id_in_path`.
pub fn parse_note_id(path: &[u8]) -> (r: Option<u64>)
    ensures
        r == note_id_in_path(path@, api_notes_prefix()),
{
    let prefix: [u8; 11] = [47, 97, 112, 105, 47, 110, 111, 116, 101, 115, 47];
    proof {
        assert(prefix@ =~= api_notes_prefix());
    }
    parse_id_after(path, prefix.as_slice())
}

/// Reads the record identifier out of `/api/notes-changes/{id}`, per
/// `note_id_in_path`.
pub fn parse_note_changes_id(path: &[u8]) -> (r: Option<u64>)
    ensures
        r == note_id_in_path(path@, api_notes_changes_prefix()),
{
    let prefix: [u8; 19] = [47, 97, 112, 105, 47, 110, 111, 116, 101, 115, 45, 99, 104, 97, 110,
        103, 101, 115, 47];
    proof {
        assert(prefix@ =~= api_notes_changes_prefix());
    }
    parse_id_after(path, prefix.as_slice())
}

fn mk_response(status: u16, text: &[u8], ct: &[u8], body: Vec<u8>) -> (r: Response)
    ensures
        r@ == rv(status, text@, ct@, body@),
{
    Response {
        status,
        status_text: slice_vec(text),
        content_type: slice_vec(ct),
        body,
    }
}

fn not_found_json() -> (r: Response)
    ensures
        r@ == rv(404, st_not_found(), ct_json(), err_not_found()),
{
    let text: [u8; 9] = [78, 111, 116, 32, 70, 111, 117, 110, 100];
    let ct: [u8; 16] = [97, 112, 112, 108, 105, 99, 97, 116, 105, 111, 110, 47, 106, 115, 111,
        110];
    let body: [u8; 21] = [123, 34, 101, 114, 114, 111, 114, 34, 58, 34, 110, 111, 116, 32, 102,
        111, 117, 110, 100, 34, 125];
    proof {
        assert(text@ =~= st_not_found());
        assert(ct@ =~= ct_json());
        assert(body@ =~= err_not_found());
    }
    mk_response(404, text.as_slice(), ct.as_slice(), slice_vec(body.as_slice()))
}

/// What serving a request does. The caller holds the store's lock around
/// this call, and, whenever `store_changed` comes back true, writes the
/// rendered collection to durable storage before sending the response.
pub struct Handled {
    pub response: Response,
    pub store_changed: bool,
}

/// Serves one parsed request against the store at time `now`, per
/// `service_spec`; reports whether the store changed, per `service_changed`.
pub fn handle_request(store: &mut Store, req: &Request, now: u128) -> (r: Handled)
    ensures
        final(store)@ == service_spec(old(store)@, req@, now).0,
        r.response@ == service_spec(old(store)@, req@, now).1,
        r.store_changed == service_changed(old(store)@, req@, now),
{
    let router = notes_router();
    let d = router.handle(req.method.as_slice(), req.path.as_slice());
    match d {
        Dispatch::Preflight => {
            let text: [u8; 10] = [78, 111, 32, 67, 111, 110, 116, 101, 110, 116];
            let ct: [u8; 10] = [116, 101, 120, 116, 47, 112, 108, 97, 105, 110];
            let empty_body: Vec<u8> = Vec::new();
            proof {
                assert(text@ =~= st_no_content());
                assert(ct@ =~= ct_text());
                assert(empty_body@ =~= Seq::<u8>::empty());
            }
            Handled {
                response: mk_response(204, text.as_slice(), ct.as_slice(), empty_body),
                store_changed: false,
            }
        },
        Dispatch::MethodNotAllowed => {
            let text: [u8; 18] = [77, 101, 116, 104, 111, 100, 32, 78, 111, 116, 32, 65, 108, 108,
                111, 119, 101, 100];
            let ct: [u8; 16] = [97, 112, 112, 108, 105, 99, 97, 116, 105, 111, 110, 47, 106, 115,
                111, 110];
            let body: [u8; 30] = [123, 34, 101, 114, 114, 111, 114, 34, 58, 34, 109, 101, 116,
                104, 111, 100, 32, 110, 111, 116, 32, 97, 108, 108, 111, 119, 101, 100, 34, 125];
            proof {
                assert(text@ =~= st_method_not_allowed());
                assert(ct@ =~= ct_json());
                assert(body@ =~= err_method_not_allowed());
            }
            Handled {
                response: mk_response(
                    405,
                    text.as_slice(),
                    ct.as_slice(),
                    slice_vec(body.as_slice()),
                ),
                store_changed: false,
            }
        },
        Dispatch::NotFound => Handled { response: not_found_json(), store_changed: false },
        Dispatch::Handler(ep) => match ep {
            Endpoint::Health => {
                let text: [u8; 2] = [79, 75];
                let ct: [u8; 10] = [116, 101, 120, 116, 47, 112, 108, 97, 105, 110];
                let body: [u8; 2] = [111, 107];
                proof {
                    assert(text@ =~= st_ok());
                    assert(ct@ =~= ct_text());
                    assert(body@ =~= body_ok());
                }
                Handled {
                    response: mk_response(
                        200,
                        text.as_slice(),
                        ct.as_slice(),
                        slice_vec(body.as_slice()),
                    ),
                    store_changed: false,
                }
            },
            Endpoint::NotesList => {
                let sorted = store.list_sorted();
                let body = crate::persist::notes_to_json(&sorted);
                let text: [u8; 2] = [79, 75];
                let ct: [u8; 16] = [97, 112, 112, 108, 105, 99, 97, 116, 105, 111, 110, 47, 106,
                    115, 111, 110];
                proof {
                    assert(text@ =~= st_ok());
                    assert(ct@ =~= ct_json());
                }
                Handled {
                    response: mk_response(200, text.as_slice(), ct.as_slice(), body),
                    store_changed: false,
                }
            },
            Endpoint::NotesCreate => {
                let kpi: [u8; 6] = [112, 105, 110, 110, 101, 100];
                let ktg: [u8; 4] = [116, 97, 103, 115];
                let kco: [u8; 7] = [99, 111, 110, 116, 101, 110, 116];
                proof {
                    assert(kpi@ =~= key_pinned());
                    assert(ktg@ =~= key_tags());
                    assert(kco@ =~= key_content());
                }
                let pinned = match crate::scan::json_get_bool(req.body.as_slice(), kpi.as_slice()) {
                    Some(b) => b,
                    None => false,
                };
                let tags = match crate::scan::json_get_string_array(
                    req.body.as_slice(),
                    ktg.as_slice(),
                ) {
                    Some(t) => t,
                    None => Vec::new(),
                };
                let content = match crate::scan::json_get_string(
                    req.body.as_slice(),
                    kco.as_slice(),
                ) {
                    Some(c) => c,
                    None => Vec::new(),
                };
                proof {
                    if tags@.len() == 0 {
                        assert(tags.deep_view() =~= Seq::<Seq<u8>>::empty());
                    }
                    assert(fresh_note(now, pinned, tags.deep_view(), content@)
                        == create_note_of(req@.body, now));
                }
                store.create(now, pinned, tags, content);
                let idx = store.notes.len() - 1;
                proof {
                    assert(store@[idx as int] == create_note_of(req@.body, now));
                    assert(store.notes@[idx as int]@ == create_note_of(req@.body, now));
                }
                let body = crate::persist::note_to_json(&store.notes[idx]);
                let text: [u8; 7] = [67, 114, 101, 97, 116, 101, 100];
                let ct: [u8; 16] = [97, 112, 112, 108, 105, 99, 97, 116, 105, 111, 110, 47, 106,
                    115, 111, 110];
                proof {
                    assert(text@ =~= st_created());
                    assert(ct@ =~= ct_json());
                }
                Handled {
                    response: mk_response(201, text.as_slice(), ct.as_slice(), body),
                    store_changed: true,
                }
            },
            Endpoint::NoteGet => match parse_note_id(req.path.as_slice()) {
                None => Handled { response: not_found_json(), store_changed: false },
                Some(id) => match store.get(id) {
                    None => Handled { response: not_found_json(), store_changed: false },
                    Some(n) => {
                        let body = crate::persist::note_to_json(n);
                        let text: [u8; 2] = [79, 75];
                        let ct: [u8; 16] = [97, 112, 112, 108, 105, 99, 97, 116, 105, 111, 110,
                            47, 106, 115, 111, 110];
                        proof {
                            assert(text@ =~= st_ok());
                            assert(ct@ =~= ct_json());
                        }
                        Handled {
                            response: mk_response(200, text.as_slice(), ct.as_slice(), body),
                            store_changed: false,
                        }
                    },
                },
            },
            Endpoint::NotePatch => match parse_note_id(req.path.as_slice()) {
                None => Handled { response: not_found_json(), store_changed: false },
                Some(id) => match store.find_index(id) {
                    None => Handled { response: not_found_json(), store_changed: false },
                    Some(i) => {
                        let kpi: [u8; 6] = [112, 105, 110, 110, 101, 100];
                        let ktg: [u8; 4] = [116, 97, 103, 115];
                        let kco: [u8; 7] = [99, 111, 110, 116, 101, 110, 116];
                        proof {
                            assert(kpi@ =~= key_pinned());
                            assert(ktg@ =~= key_tags());
                            assert(kco@ =~= key_content());
                        }
                        let patch = NotePatch {
                            content: crate::scan::json_get_string(
                                req.body.as_slice(),
                                kco.as_slice(),
                            ),
                            pinned: crate::scan::json_get_bool(
                                req.body.as_slice(),
                                kpi.as_slice(),
                            ),
                            tags: crate::scan::json_get_string_array(
                                req.body.as_slice(),
                                ktg.as_slice(),
                            ),
                        };
                        proof {
                            assert(patch@ == patch_of(req@.body));
                        }
                        store.update(id, patch, now);
                        proof {
                            crate::store::lemma_find_id_from(old(store)@, id, 0);
                            assert(store@[i as int] == apply_patch(
                                old(store)@[i as int],
                                patch_of(req@.body),
                                now,
                            ));
                            assert(store.notes@[i as int]@ == apply_patch(
                                old(store)@[i as int],
                                patch_of(req@.body),
                                now,
                            ));
                        }
                        let body = crate::persist::note_to_json(&store.notes[i]);
                        let text: [u8; 2] = [79, 75];
                        let ct: [u8; 16] = [97, 112, 112, 108, 105, 99, 97, 116, 105, 111, 110,
                            47, 106, 115, 111, 110];
                        proof {
                            assert(text@ =~= st_ok());
                            assert(ct@ =~= ct_json());
                        }
                        Handled {
                            response: mk_response(200, text.as_slice(), ct.as_slice(), body),
                            store_changed: true,
                        }
                    },
                },
            },
            Endpoint::NoteDelete => match parse_note_id(req.path.as_slice()) {
                None => Handled { response: not_found_json(), store_changed: false },
                Some(id) => {
                    let removed = store.delete(id);
                    if removed {
                        let text: [u8; 10] = [78, 111, 32, 67, 111, 110, 116, 101, 110, 116];
                        let ct: [u8; 10] = [116, 101, 120, 116, 47, 112, 108, 97, 105, 110];
                        let empty_body: Vec<u8> = Vec::new();
                        proof {
                            assert(text@ =~= st_no_content());
                            assert(ct@ =~= ct_text());
                            assert(empty_body@ =~= Seq::<u8>::empty());
                        }
                        Handled {
                            response: mk_response(204, text.as_slice(), ct.as_slice(), empty_body),
                            store_changed: true,
                        }
                    } else {
                        proof {
                            assert(old(store)@.filter(|n: NoteView| n.id != id) =~= old(store)@)
                                by {
                                crate::store::lemma_find_id_from(old(store)@, id, 0);
                                crate::store::lemma_filter_keeps_all(
                                    old(store)@,
                                    |n: NoteView| n.id != id,
                                );
                            }
                        }
                        Handled { response: not_found_json(), store_changed: false }
                    }
                },
            },
            Endpoint::NoteChanges => match parse_note_changes_id(req.path.as_slice()) {
                None => {
                    let text: [u8; 9] = [78, 111, 116, 32, 70, 111, 117, 110, 100];
                    let ct: [u8; 10] = [116, 101, 120, 116, 47, 112, 108, 97, 105, 110];
                    let body: [u8; 15] = [105, 110, 118, 97, 108, 105, 100, 32, 110, 111, 116,
                        101, 32, 105, 100];
                    proof {
                        assert(text@ =~= st_not_found());
                        assert(ct@ =~= ct_text());
                        assert(body@ =~= body_invalid_id());
                    }
                    Handled {
                        response: mk_response(
                            404,
                            text.as_slice(),
                            ct.as_slice(),
                            slice_vec(body.as_slice()),
                        ),
                        store_changed: false,
                    }
                },
                Some(id) => match store.get(id) {
                    None => {
                        let text: [u8; 9] = [78, 111, 116, 32, 70, 111, 117, 110, 100];
                        let ct: [u8; 10] = [116, 101, 120, 116, 47, 112, 108, 97, 105, 110];
                        let body: [u8; 14] = [110, 111, 116, 101, 32, 110, 111, 116, 32, 102, 111,
                            117, 110, 100];
                        proof {
                            assert(text@ =~= st_not_found());
                            assert(ct@ =~= ct_text());
                            assert(body@ =~= body_note_not_found());
                        }
                        Handled {
                            response: mk_response(
                                404,
                                text.as_slice(),
                                ct.as_slice(),
                                slice_vec(body.as_slice()),
                            ),
                            store_changed: false,
                        }
                    },
                    Some(n) => {
                        let body = crate::store::render_changes(n);
                        let text: [u8; 2] = [79, 75];
                        let ct: [u8; 10] = [116, 101, 120, 116, 47, 112, 108, 97, 105, 110];
                        proof {
                            assert(text@ =~= st_ok());
                            assert(ct@ =~= ct_text());
                        }
                        Handled {
                            response: mk_response(200, text.as_slice(), ct.as_slice(), body),
                            store_changed: false,
                        }
                    },
                },
            },
        },
    }
}

} // verus!
