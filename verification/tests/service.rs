//! The record store and the service endpoints, driven end to end.

use notekeep::api::{handle_request, parse_note_changes_id, parse_note_id};
use notekeep::models::Note;
use notekeep::persist::{load_notes, notes_path, notes_to_json};
use notekeep::request::Request;
use notekeep::store::{make_note_id, NotePatch, Store};

fn req(method: &[u8], path: &[u8], body: &[u8]) -> Request {
    Request {
        method: method.to_vec(),
        path: path.to_vec(),
        headers: Vec::new(),
        body: body.to_vec(),
    }
}

fn notes_equal(a: &Note, b: &Note) -> bool {
    a.id == b.id && a.created_ms == b.created_ms && a.updated_ms == b.updated_ms && a.pinned
        == b.pinned && a.tags == b.tags && a.content == b.content && a.changes.len()
        == b.changes.len() && a.changes.iter().zip(b.changes.iter()).all(
        |(x, y)| {
            x.change_date_ms == y.change_date_ms && x.pin_change.before == y.pin_change.before
                && x.pin_change.after == y.pin_change.after && x.tag_change.before
                == y.tag_change.before && x.tag_change.after == y.tag_change.after
                && x.content_change.before == y.content_change.before && x.content_change.after
                == y.content_change.after
        },
    )
}

#[test]
fn create_returns_created_record() {
    let mut store = Store::new();
    let body = br#"{"content":"hello","pinned":false,"tags":["a","b"]}"#;
    let h = handle_request(&mut store, &req(b"POST", b"/api/notes", body), 12345);
    assert_eq!(h.response.status, 201);
    assert!(h.store_changed);
    let text = String::from_utf8_lossy(&h.response.body).into_owned();
    assert!(text.contains("\"content\":\"hello\""));
    assert!(text.contains("\"pinned\":false"));
    assert!(text.contains("\"tags\":[\"a\",\"b\"]"));
    assert!(text.contains("\"changes\":[]"));
    let id = store.notes[0].id;
    assert!(id != 0);
    assert!(text.contains(&format!("\"id\":{}", id)));
    assert_eq!(store.notes[0].created_ms, store.notes[0].updated_ms);
}

#[test]
fn pinned_record_lists_first() {
    let mut store = Store::new();
    store.create(100, true, Vec::new(), b"pinned one".to_vec());
    store.create(200, false, Vec::new(), b"fresher one".to_vec());
    let listed = store.list_sorted();
    assert_eq!(listed.len(), 2);
    assert!(listed[0].pinned);
    assert_eq!(listed[0].updated_ms, 100);
    assert_eq!(listed[1].updated_ms, 200);
}

#[test]
fn list_endpoint_orders_by_update_within_pin_state() {
    let mut store = Store::new();
    store.create(10, false, Vec::new(), b"older".to_vec());
    store.create(20, false, Vec::new(), b"newer".to_vec());
    let h = handle_request(&mut store, &req(b"GET", b"/api/notes", b""), 30);
    assert_eq!(h.response.status, 200);
    assert!(!h.store_changed);
    let text = String::from_utf8_lossy(&h.response.body).into_owned();
    let newer = text.find("newer").unwrap();
    let older = text.find("older").unwrap();
    assert!(newer < older);
}

#[test]
fn patch_changes_only_named_fields() {
    let mut store = Store::new();
    let id = store.create(50, true, vec![b"t".to_vec()], b"keep me".to_vec());
    let ok = store.update(
        id,
        NotePatch { content: None, pinned: Some(false), tags: None },
        60,
    );
    assert!(ok);
    let n = store.get(id).expect("live record");
    assert!(!n.pinned);
    assert_eq!(n.content, b"keep me".to_vec());
    assert_eq!(n.tags, vec![b"t".to_vec()]);
    assert_eq!(n.updated_ms, 60);
    assert_eq!(n.changes.len(), 1);
    let c = &n.changes[0];
    assert_eq!(c.change_date_ms, 60);
    assert!(c.pin_change.before && !c.pin_change.after);
    assert_eq!(c.tag_change.before, c.tag_change.after);
    assert_eq!(c.content_change.before, c.content_change.after);
}

#[test]
fn change_log_renders_only_the_pin_transition() {
    let mut store = Store::new();
    let id = store.create(50, true, vec![b"t".to_vec()], b"keep me".to_vec());
    let patch_body = br#"{"pinned":false}"#;
    let path = format!("/api/notes/{}", id).into_bytes();
    let h = handle_request(&mut store, &req(b"PATCH", &path, patch_body), 60);
    assert_eq!(h.response.status, 200);
    assert!(h.store_changed);
    let cpath = format!("/api/notes-changes/{}", id).into_bytes();
    let h2 = handle_request(&mut store, &req(b"GET", &cpath, b""), 70);
    assert_eq!(h2.response.status, 200);
    let text = String::from_utf8_lossy(&h2.response.body).into_owned();
    assert!(text.contains(" => Pin changed from true to false at 60\n"));
    assert!(!text.contains("Tags changed"));
    assert!(!text.contains("Content changed"));
}

#[test]
fn update_appends_exactly_one_change_per_patch() {
    let mut store = Store::new();
    let id = store.create(1, false, Vec::new(), b"v0".to_vec());
    store.update(id, NotePatch { content: Some(b"v1".to_vec()), pinned: None, tags: None }, 2);
    store.update(id, NotePatch { content: Some(b"v2".to_vec()), pinned: None, tags: None }, 3);
    let n = store.get(id).expect("live record");
    assert_eq!(n.changes.len(), 2);
    assert_eq!(n.changes[1].content_change.before, b"v1".to_vec());
    assert_eq!(n.changes[1].content_change.after, b"v2".to_vec());
    assert_eq!(n.content, b"v2".to_vec());
}

#[test]
fn delete_is_not_found_after_delete() {
    let mut store = Store::new();
    let id = store.create(7, false, Vec::new(), b"gone soon".to_vec());
    let path = format!("/api/notes/{}", id).into_bytes();
    let h1 = handle_request(&mut store, &req(b"DELETE", &path, b""), 8);
    assert_eq!(h1.response.status, 204);
    assert!(h1.store_changed);
    let h2 = handle_request(&mut store, &req(b"DELETE", &path, b""), 9);
    assert_eq!(h2.response.status, 404);
    assert!(!h2.store_changed);
    let text = String::from_utf8_lossy(&h2.response.body).into_owned();
    assert_eq!(text, "{\"error\":\"not found\"}");
}

#[test]
fn options_is_no_content_on_any_path() {
    let mut store = Store::new();
    let h = handle_request(&mut store, &req(b"OPTIONS", b"/anything", b""), 1);
    assert_eq!(h.response.status, 204);
    assert_eq!(h.response.body.len(), 0);
    assert!(!h.store_changed);
    let h2 = handle_request(&mut store, &req(b"OPTIONS", b"/api/notes/999", b""), 2);
    assert_eq!(h2.response.status, 204);
}

#[test]
fn health_and_fallbacks() {
    let mut store = Store::new();
    let h = handle_request(&mut store, &req(b"GET", b"/health", b""), 1);
    assert_eq!(h.response.status, 200);
    assert_eq!(h.response.body, b"ok".to_vec());
    let h2 = handle_request(&mut store, &req(b"GET", b"/nowhere", b""), 2);
    assert_eq!(h2.response.status, 404);
    let h3 = handle_request(&mut store, &req(b"PUT", b"/api/notes", b""), 3);
    assert_eq!(h3.response.status, 405);
    assert_eq!(
        String::from_utf8_lossy(&h3.response.body),
        "{\"error\":\"method not allowed\"}"
    );
}

#[test]
fn get_by_id_and_missing_id() {
    let mut store = Store::new();
    let id = store.create(5, false, Vec::new(), b"look me up".to_vec());
    let path = format!("/api/notes/{}", id).into_bytes();
    let h = handle_request(&mut store, &req(b"GET", &path, b""), 6);
    assert_eq!(h.response.status, 200);
    assert!(String::from_utf8_lossy(&h.response.body).contains("look me up"));
    let h2 = handle_request(&mut store, &req(b"GET", b"/api/notes/0", b""), 7);
    assert_eq!(h2.response.status, 404);
    let h3 = handle_request(&mut store, &req(b"GET", b"/api/notes/abc", b""), 8);
    assert_eq!(h3.response.status, 404);
}

#[test]
fn changes_endpoint_error_bodies() {
    let mut store = Store::new();
    let h = handle_request(&mut store, &req(b"GET", b"/api/notes-changes/", b""), 1);
    assert_eq!(h.response.status, 404);
    assert_eq!(String::from_utf8_lossy(&h.response.body), "invalid note id");
    let h2 = handle_request(&mut store, &req(b"GET", b"/api/notes-changes/12", b""), 2);
    assert_eq!(h2.response.status, 404);
    assert_eq!(String::from_utf8_lossy(&h2.response.body), "note not found");
}

#[test]
fn note_id_parsing() {
    assert_eq!(parse_note_id(b"/api/notes/42"), Some(42));
    assert_eq!(parse_note_id(b"/api/notes/"), None);
    assert_eq!(parse_note_id(b"/api/notes/12x"), None);
    assert_eq!(parse_note_id(b"/api/notes/18446744073709551616"), None);
    assert_eq!(parse_note_changes_id(b"/api/notes-changes/9"), Some(9));
    assert_eq!(parse_note_changes_id(b"/api/notes-changes/"), None);
}

#[test]
fn id_is_a_fixed_function_of_the_timestamp() {
    let a = make_note_id(12345);
    let b = make_note_id(12345);
    assert_eq!(a, b);
    assert_eq!(a, 12345u64 ^ 12345u64.wrapping_mul(2654435761));
}

#[test]
fn persisted_round_trip_keeps_all_fields_and_order() {
    let mut store = Store::new();
    store.create(100, true, vec![b"alpha".to_vec(), b"beta".to_vec()], b"first note".to_vec());
    let id2 = store.create(200, false, Vec::new(), b"second note".to_vec());
    store.update(
        id2,
        NotePatch {
            content: Some(b"second, edited".to_vec()),
            pinned: Some(true),
            tags: Some(vec![b"gamma".to_vec()]),
        },
        300,
    );
    let bytes = notes_to_json(&store.notes);
    let reloaded = load_notes(&bytes).expect("reload");
    assert_eq!(reloaded.len(), store.notes.len());
    for (a, b) in reloaded.iter().zip(store.notes.iter()) {
        assert!(notes_equal(a, b));
    }
}

#[test]
fn blank_or_missing_file_is_an_empty_collection() {
    assert_eq!(load_notes(b"").expect("empty").len(), 0);
    assert_eq!(load_notes(b"  \r\n\t ").expect("blank").len(), 0);
    assert_eq!(load_notes(b"[]").expect("empty array").len(), 0);
    assert!(load_notes(b"[{\"id\":1}]").is_none());
    assert_eq!(notes_path(), "data/note.json");
}

#[test]
fn empty_store_lists_as_empty_array() {
    let mut store = Store::new();
    let h = handle_request(&mut store, &req(b"GET", b"/api/notes", b""), 1);
    assert_eq!(h.response.status, 200);
    assert_eq!(String::from_utf8_lossy(&h.response.body), "[]");
    assert_eq!(String::from_utf8_lossy(&notes_to_json(&store.notes)), "[]");
}

#[test]
fn round_trip_keeps_escaped_text() {
    let mut store = Store::new();
    store.create(
        1,
        false,
        vec![b"quote \" and slash \\".to_vec()],
        b"line one\nline two\ttabbed\r".to_vec(),
    );
    let bytes = notes_to_json(&store.notes);
    let reloaded = load_notes(&bytes).expect("reload");
    assert_eq!(reloaded.len(), 1);
    assert!(notes_equal(&reloaded[0], &store.notes[0]));
}
