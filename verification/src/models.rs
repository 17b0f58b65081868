//! The stored record and its change history.
//!
//! A record ("note") carries a unique identifier, millisecond timestamps,
//! a pin flag, ordered tags, free-form content, and an append-only log of
//! changes: one entry per mutating update, each capturing before and after
//! for pin, tags and content whether or not the sub-field moved.

use vstd::prelude::*;

verus! {

/// Before/after of the pin flag across one update.
pub struct PinChange {
    pub before: bool,
    pub after: bool,
}

/// Before/after of the tag list across one update.
pub struct TagChange {
    pub before: Vec<Vec<u8>>,
    pub after: Vec<Vec<u8>>,
}

/// Before/after of the content across one update.
pub struct ContentChange {
    pub before: Vec<u8>,
    pub after: Vec<u8>,
}

/// One recorded transition of a record's mutable fields.
pub struct Change {
    pub change_date_ms: u128,
    pub pin_change: PinChange,
    pub tag_change: TagChange,
    pub content_change: ContentChange,
}

/// The persisted unit of content.
pub struct Note {
    pub id: u64,
    pub created_ms: u128,
    pub updated_ms: u128,
    pub pinned: bool,
    pub tags: Vec<Vec<u8>>,
    pub content: Vec<u8>,
    pub changes: Vec<Change>,
}

/// Mathematical image of a `Change`.
pub struct ChangeView {
    pub change_date_ms: u128,
    pub pin_before: bool,
    pub pin_after: bool,
    pub tags_before: Seq<Seq<u8>>,
    pub tags_after: Seq<Seq<u8>>,
    pub content_before: Seq<u8>,
    pub content_after: Seq<u8>,
}

/// Mathematical image of a `Note`.
pub struct NoteView {
    pub id: u64,
    pub created_ms: u128,
    pub updated_ms: u128,
    pub pinned: bool,
    pub tags: Seq<Seq<u8>>,
    pub content: Seq<u8>,
    pub changes: Seq<ChangeView>,
}

impl View for Change {
    type V = ChangeView;

    open spec fn view(&self) -> ChangeView {
        ChangeView {
            change_date_ms: self.change_date_ms,
            pin_before: self.pin_change.before,
            pin_after: self.pin_change.after,
            tags_before: self.tag_change.before.deep_view(),
            tags_after: self.tag_change.after.deep_view(),
            content_before: self.content_change.before@,
            content_after: self.content_change.after@,
        }
    }
}

impl DeepView for Change {
    type V = ChangeView;

    open spec fn deep_view(&self) -> ChangeView {
        self.view()
    }
}

impl View for Note {
    type V = NoteView;

    open spec fn view(&self) -> NoteView {
        NoteView {
            id: self.id,
            created_ms: self.created_ms,
            updated_ms: self.updated_ms,
            pinned: self.pinned,
            tags: self.tags.deep_view(),
            content: self.content@,
            changes: self.changes.deep_view(),
        }
    }
}

impl DeepView for Note {
    type V = NoteView;

    open spec fn deep_view(&self) -> NoteView {
        self.view()
    }
}

/// A record never carries an update older than its creation.
pub open spec fn note_wf(n: NoteView) -> bool {
    n.updated_ms >= n.created_ms
}

/// Byte-for-byte copy of a byte vector.
pub fn copy_bytes(v: &Vec<u8>) -> (r: Vec<u8>)
    ensures
        r@ == v@,
{
    let mut r: Vec<u8> = Vec::new();
    r.extend_from_slice(v.as_slice());
    proof {
        assert(r@ =~= v@);
    }
    r
}

/// Element-wise copy of a tag list.
pub fn copy_tags(v: &Vec<Vec<u8>>) -> (r: Vec<Vec<u8>>)
    ensures
        r.deep_view() == v.deep_view(),
{
    let mut r: Vec<Vec<u8>> = Vec::new();
    let mut i: usize = 0;
    while i < v.len()
        invariant
            i <= v.len(),
            r@.len() == i,
            forall|k: int| 0 <= k < i ==> #[trigger] r@[k]@ == v@[k]@,
        decreases v.len() - i,
    {
        r.push(copy_bytes(&v[i]));
        i += 1;
    }
    proof {
        assert(r.deep_view() =~~= v.deep_view());
    }
    r
}

/// Field-wise copy of a change entry.
pub fn copy_change(c: &Change) -> (r: Change)
    ensures
        r@ == c@,
{
    let r = Change {
        change_date_ms: c.change_date_ms,
        pin_change: PinChange { before: c.pin_change.before, after: c.pin_change.after },
        tag_change: TagChange {
            before: copy_tags(&c.tag_change.before),
            after: copy_tags(&c.tag_change.after),
        },
        content_change: ContentChange {
            before: copy_bytes(&c.content_change.before),
            after: copy_bytes(&c.content_change.after),
        },
    };
    r
}

/// Element-wise copy of a change log.
pub fn copy_changes(v: &Vec<Change>) -> (r: Vec<Change>)
    ensures
        r.deep_view() == v.deep_view(),
{
    let mut r: Vec<Change> = Vec::new();
    let mut i: usize = 0;
    while i < v.len()
        invariant
            i <= v.len(),
            r@.len() == i,
            forall|k: int| 0 <= k < i ==> #[trigger] r@[k]@ == v@[k]@,
        decreases v.len() - i,
    {
        r.push(copy_change(&v[i]));
        i += 1;
    }
    proof {
        assert(r.deep_view() =~~= v.deep_view());
    }
    r
}

/// Field-wise copy of a record.
pub fn copy_note(n: &Note) -> (r: Note)
    ensures
        r@ == n@,
{
    Note {
        id: n.id,
        created_ms: n.created_ms,
        updated_ms: n.updated_ms,
        pinned: n.pinned,
        tags: copy_tags(&n.tags),
        content: copy_bytes(&n.content),
        changes: copy_changes(&n.changes),
    }
}

} // verus!
