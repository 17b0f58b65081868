//! The in-memory record collection: an ordered store exposing
//! create/read/list/update/delete with change-history capture.
//!
//! The store is the only shared mutable state of the service; the caller
//! guards a `Store` with its own mutual exclusion and performs the
//! persistence write (the rendered collection bytes) after every mutation.

use vstd::prelude::*;
use crate::models::{
    Change, ChangeView, ContentChange, Note, NoteView, PinChange, TagChange, copy_bytes,
    copy_note, copy_tags,
};

verus! {

/// Identifier derived from the creation timestamp by a fixed bit-mixing
/// step: the low 64 bits of `t`, xor-ed with their wrapping product with a
/// Knuth multiplicative-hash constant. A deterministic function of the
/// timestamp: two creations in the same millisecond collide.
pub open spec fn note_id_of(t: u128) -> u64 {
    (t as u64) ^ (((t as u64) as u128 * 2654435761) as u64)
}

/// Computes `note_id_of`.
pub fn make_note_id(t: u128) -> (r: u64)
    ensures
        r == note_id_of(t),
{
    let low = #[verifier::truncate] (t as u64);
    let prod = (low as u128) * 2654435761u128;
    let mixed = #[verifier::truncate] (prod as u64);
    low ^ mixed
}

/// Index of the first record with identifier `id` at or after `from`.
pub open spec fn find_id_from(ns: Seq<NoteView>, id: u64, from: int) -> Option<int>
    decreases ns.len() - from,
{
    if from < 0 || from >= ns.len() {
        None
    } else if ns[from].id == id {
        Some(from)
    } else {
        find_id_from(ns, id, from + 1)
    }
}

/// Index of the first record with identifier `id`, if any.
pub open spec fn find_id(ns: Seq<NoteView>, id: u64) -> Option<int> {
    find_id_from(ns, id, 0)
}

/// A found index is in range, carries `id`, and nothing before it does; a
/// miss means no record at or after the starting point carries `id`.
pub proof fn lemma_find_id_from(ns: Seq<NoteView>, id: u64, from: int)
    requires
        0 <= from,
    ensures
        match find_id_from(ns, id, from) {
            Some(i) => from <= i < ns.len() && ns[i].id == id && forall|j: int|
                from <= j < i ==> ns[j].id != id,
            None => forall|j: int| from <= j < ns.len() ==> ns[j].id != id,
        },
    decreases ns.len() - from,
{
    if from < ns.len() && ns[from].id != id {
        lemma_find_id_from(ns, id, from + 1);
    }
}

/// No two live records share an identifier.
pub open spec fn ids_unique(ns: Seq<NoteView>) -> bool {
    forall|i: int, j: int| 0 <= i < j < ns.len() ==> ns[i].id != ns[j].id
}

/// Well-formed collection: unique identifiers, and every record's
/// `updated_ms` at or after its `created_ms`.
pub open spec fn store_wf(ns: Seq<NoteView>) -> bool {
    ids_unique(ns) && forall|i: int|
        0 <= i < ns.len() ==> #[trigger] ns[i].updated_ms >= ns[i].created_ms
}

/// The record a creation inserts: both timestamps at `now`, no history.
pub open spec fn fresh_note(
    now: u128,
    pinned: bool,
    tags: Seq<Seq<u8>>,
    content: Seq<u8>,
) -> NoteView {
    NoteView {
        id: note_id_of(now),
        created_ms: now,
        updated_ms: now,
        pinned,
        tags,
        content,
        changes: Seq::empty(),
    }
}

/// A partial update: only the fields present are overwritten.
pub struct NotePatch {
    pub content: Option<Vec<u8>>,
    pub pinned: Option<bool>,
    pub tags: Option<Vec<Vec<u8>>>,
}

/// Mathematical image of a `NotePatch`.
pub struct PatchView {
    pub content: Option<Seq<u8>>,
    pub pinned: Option<bool>,
    pub tags: Option<Seq<Seq<u8>>>,
}

impl View for NotePatch {
    type V = PatchView;

    open spec fn view(&self) -> PatchView {
        PatchView {
            content: match self.content {
                Some(ref c) => Some(c@),
                None => None,
            },
            pinned: self.pinned,
            tags: match self.tags {
                Some(ref t) => Some(t.deep_view()),
                None => None,
            },
        }
    }
}

/// The record after one update at `now`: patched fields overwritten,
/// `updated_ms` rewritten, and exactly one change entry appended capturing
/// before and after for pin, tags and content — whether or not each
/// sub-field actually moved.
pub open spec fn apply_patch(n: NoteView, p: PatchView, now: u128) -> NoteView {
    let new_content = match p.content {
        Some(c) => c,
        None => n.content,
    };
    let new_pinned = match p.pinned {
        Some(b) => b,
        None => n.pinned,
    };
    let new_tags = match p.tags {
        Some(t) => t,
        None => n.tags,
    };
    NoteView {
        id: n.id,
        created_ms: n.created_ms,
        updated_ms: now,
        pinned: new_pinned,
        tags: new_tags,
        content: new_content,
        changes: n.changes.push(
            ChangeView {
                change_date_ms: now,
                pin_before: n.pinned,
                pin_after: new_pinned,
                tags_before: n.tags,
                tags_after: new_tags,
                content_before: n.content,
                content_after: new_content,
            },
        ),
    }
}

/// The in-memory, ordered record collection.
pub struct Store {
    pub notes: Vec<Note>,
}

impl View for Store {
    type V = Seq<NoteView>;

    open spec fn view(&self) -> Seq<NoteView> {
        self.notes.deep_view()
    }
}

impl Store {
    /// An empty collection.
    pub fn new() -> (s: Store)
        ensures
            s@ == Seq::<NoteView>::empty(),
    {
        let s = Store { notes: Vec::new() };
        proof {
            assert(s@ =~= Seq::<NoteView>::empty());
        }
        s
    }

    /// A collection over the given records, in their order.
    pub fn from_notes(notes: Vec<Note>) -> (s: Store)
        ensures
            s@ == notes.deep_view(),
    {
        Store { notes }
    }

    /// How many records are live.
    pub fn len(&self) -> (r: usize)
        ensures
            r == self@.len(),
    {
        self.notes.len()
    }

    /// Index of the first record with identifier `id`, per `find_id`.
    pub fn find_index(&self, id: u64) -> (r: Option<usize>)
        ensures
            match r {
                Some(i) => find_id(self@, id) == Some(i as int),
                None => find_id(self@, id) is None,
            },
    {
        let mut i: usize = 0;
        while i < self.notes.len()
            invariant
                i <= self.notes.len(),
                self@.len() == self.notes.len(),
                find_id(self@, id) == find_id_from(self@, id, i as int),
            decreases self.notes.len() - i,
        {
            if self.notes[i].id == id {
                proof {
                    assert(self@[i as int].id == id);
                }
                return Some(i);
            }
            proof {
                assert(self@[i as int].id != id);
            }
            i += 1;
        }
        None
    }

    /// Creates a record from the given fields at time `now`, appends it and
    /// returns its identifier. The identifier is a function of `now` alone;
    /// uniqueness holds exactly when `note_id_of(now)` is not yet live.
    pub fn create(&mut self, now: u128, pinned: bool, tags: Vec<Vec<u8>>, content: Vec<u8>) -> (id:
        u64)
        ensures
            id == note_id_of(now),
            final(self)@ == old(self)@.push(fresh_note(now, pinned, tags.deep_view(), content@)),
    {
        let id = make_note_id(now);
        let note = Note {
            id,
            created_ms: now,
            updated_ms: now,
            pinned,
            tags,
            content,
            changes: Vec::new(),
        };
        proof {
            assert(note@.changes =~= Seq::<ChangeView>::empty());
        }
        self.notes.push(note);
        proof {
            assert(self@ =~= old(self)@.push(
                fresh_note(now, pinned, note.tags.deep_view(), note.content@),
            ));
        }
        id
    }

    /// The first record with identifier `id`, if any.
    pub fn get(&self, id: u64) -> (r: Option<&Note>)
        ensures
            match r {
                Some(n) => {
                    &&& find_id(self@, id) is Some
                    &&& n@ == self@[find_id(self@, id)->Some_0]
                    &&& n@.id == id
                },
                None => find_id(self@, id) is None,
            },
    {
        match self.find_index(id) {
            Some(i) => {
                proof {
                    lemma_find_id_from(self@, id, 0);
                }
                Some(&self.notes[i])
            },
            None => None,
        }
    }

    /// Applies `patch` to the first record with identifier `id` at time
    /// `now`, appending one change entry, per `apply_patch`; reports whether
    /// a record was found. Every other record, and the order, is untouched.
    pub fn update(&mut self, id: u64, patch: NotePatch, now: u128) -> (r: bool)
        ensures
            match find_id(old(self)@, id) {
                Some(i) => r && final(self)@ == old(self)@.update(
                    i,
                    apply_patch(old(self)@[i], patch@, now),
                ),
                None => !r && final(self)@ == old(self)@,
            },
    {
        let idx = match self.find_index(id) {
            Some(i) => i,
            None => {
                return false;
            },
        };
        proof {
            lemma_find_id_from(self@, id, 0);
        }
        let oldn = self.notes.remove(idx);
        let pin_before = oldn.pinned;
        let tags_before = oldn.tags;
        let content_before = oldn.content;
        let new_pinned = match patch.pinned {
            Some(b) => b,
            None => pin_before,
        };
        let new_tags = match patch.tags {
            Some(t) => t,
            None => copy_tags(&tags_before),
        };
        let new_content = match patch.content {
            Some(c) => c,
            None => copy_bytes(&content_before),
        };
        let change = Change {
            change_date_ms: now,
            pin_change: PinChange { before: pin_before, after: new_pinned },
            tag_change: TagChange { before: tags_before, after: copy_tags(&new_tags) },
            content_change: ContentChange {
                before: content_before,
                after: copy_bytes(&new_content),
            },
        };
        let mut changes = oldn.changes;
        let ghost changes0 = changes.deep_view();
        changes.push(change);
        proof {
            assert(changes.deep_view() =~~= changes0.push(change@));
        }
        let newn = Note {
            id: oldn.id,
            created_ms: oldn.created_ms,
            updated_ms: now,
            pinned: new_pinned,
            tags: new_tags,
            content: new_content,
            changes,
        };
        proof {
            assert(newn@ == apply_patch(old(self)@[idx as int], patch@, now));
        }
        self.notes.insert(idx, newn);
        proof {
            assert(self@ =~~= old(self)@.update(
                idx as int,
                apply_patch(old(self)@[idx as int], patch@, now),
            ));
        }
        true
    }

    /// Removes every record with identifier `id` (at most one in a
    /// well-formed collection), keeping the rest in order; reports whether
    /// any was removed. Deleting an absent identifier changes nothing.
    pub fn delete(&mut self, id: u64) -> (r: bool)
        ensures
            final(self)@ == old(self)@.filter(|n: NoteView| n.id != id),
            r == (find_id(old(self)@, id) is Some),
    {
        let ghost all = self@;
        let mut kept: Vec<Note> = Vec::new();
        let mut found = false;
        let mut i: usize = 0;
        proof {
            lemma_find_id_from(all, id, 0);
            assert(all.take(0) =~= Seq::<NoteView>::empty());
            reveal_with_fuel(Seq::<_>::filter, 1);
            assert(all.take(0).filter(|n: NoteView| n.id != id) =~= Seq::<NoteView>::empty());
            assert(kept.deep_view() =~= Seq::<NoteView>::empty());
        }
        while i < self.notes.len()
            invariant
                i <= self.notes.len(),
                all == self@,
                all.len() == self.notes.len(),
                kept.deep_view() == all.take(i as int).filter(|n: NoteView| n.id != id),
                found == (find_id_from(all, id, 0) is Some && find_id_from(all, id, 0)->Some_0
                    < i),
            decreases self.notes.len() - i,
        {
            let ghost pre = all.take(i as int);
            let ghost post = all.take(i + 1);
            proof {
                assert(post.drop_last() =~= pre);
                assert(post.last() == all[i as int]);
                reveal_with_fuel(Seq::<_>::filter, 1);
                lemma_find_id_from(all, id, 0);
            }
            let n = &self.notes[i];
            if n.id == id {
                found = true;
                proof {
                    assert(all[i as int].id == id);
                    assert(post.filter(|n: NoteView| n.id != id) =~= pre.filter(
                        |n: NoteView| n.id != id,
                    ));
                }
            } else {
                let ghost kept0 = kept.deep_view();
                kept.push(copy_note(n));
                proof {
                    assert(all[i as int].id != id);
                    assert(kept.deep_view() =~~= kept0.push(all[i as int]));
                    assert(post.filter(|n: NoteView| n.id != id) =~= pre.filter(
                        |n: NoteView| n.id != id,
                    ).push(all[i as int]));
                }
            }
            i += 1;
        }
        proof {
            assert(all.take(i as int) =~= all);
            lemma_find_id_from(all, id, 0);
        }
        self.notes = kept;
        found
    }
}

/// A filter whose predicate every element passes changes nothing.
pub proof fn lemma_filter_keeps_all(ns: Seq<NoteView>, pred: spec_fn(NoteView) -> bool)
    requires
        forall|i: int| 0 <= i < ns.len() ==> pred(ns[i]),
    ensures
        ns.filter(pred) == ns,
    decreases ns.len(),
{
    reveal_with_fuel(Seq::<_>::filter, 1);
    if ns.len() > 0 {
        assert(forall|i: int| 0 <= i < ns.drop_last().len() ==> ns.drop_last()[i] == ns[i]);
        lemma_filter_keeps_all(ns.drop_last(), pred);
        assert(pred(ns.last()));
        assert(ns.filter(pred) =~= ns);
    } else {
        assert(ns.filter(pred) =~= ns);
    }
}

/// Presentation order: pinned records strictly before unpinned ones, and
/// within the same pin state, the more recently updated strictly first.
pub open spec fn note_before(a: NoteView, b: NoteView) -> bool {
    (a.pinned && !b.pinned) || (a.pinned == b.pinned && a.updated_ms > b.updated_ms)
}

fn note_before_exec(a: &Note, b: &Note) -> (r: bool)
    ensures
        r == note_before(a@, b@),
{
    (a.pinned && !b.pinned) || (a.pinned == b.pinned && a.updated_ms > b.updated_ms)
}

/// Stable insertion of `x` into an already-ordered sequence: `x` lands
/// after every element it does not strictly precede, so equals keep their
/// original relative order.
pub open spec fn insert_sorted(s: Seq<NoteView>, x: NoteView) -> Seq<NoteView>
    decreases s.len(),
{
    if s.len() == 0 {
        seq![x]
    } else if note_before(x, s.last()) {
        insert_sorted(s.drop_last(), x).push(s.last())
    } else {
        s.push(x)
    }
}

/// Stable sort of a collection into presentation order.
pub open spec fn sort_notes(s: Seq<NoteView>) -> Seq<NoteView>
    decreases s.len(),
{
    if s.len() == 0 {
        Seq::empty()
    } else {
        insert_sorted(sort_notes(s.drop_last()), s.last())
    }
}

/// No element strictly precedes an element standing before it.
pub open spec fn ordered(s: Seq<NoteView>) -> bool {
    forall|i: int, j: int| 0 <= i <= j < s.len() ==> !note_before(s[j], s[i])
}

/// Where stable insertion puts `x`: at the index `j` from which on every
/// element is strictly after `x`.
proof fn lemma_insert_sorted_at(s: Seq<NoteView>, x: NoteView, j: int)
    requires
        0 <= j <= s.len(),
        forall|k: int| j <= k < s.len() ==> note_before(x, s[k]),
        j > 0 ==> !note_before(x, s[j - 1]),
    ensures
        insert_sorted(s, x) == s.take(j) + seq![x] + s.skip(j),
    decreases s.len(),
{
    if j == s.len() {
        if s.len() == 0 {
            assert(insert_sorted(s, x) =~= s.take(j) + seq![x] + s.skip(j));
        } else {
            assert(!note_before(x, s.last()));
            assert(insert_sorted(s, x) =~= s.take(j) + seq![x] + s.skip(j));
        }
    } else {
        assert(note_before(x, s.last()));
        let dl = s.drop_last();
        assert(forall|k: int| j <= k < dl.len() ==> dl[k] == s[k]);
        if j > 0 {
            assert(dl[j - 1] == s[j - 1]);
        }
        lemma_insert_sorted_at(dl, x, j);
        assert(insert_sorted(s, x) =~= s.take(j) + seq![x] + s.skip(j));
    }
}

/// Stable insertion keeps the order and adds exactly `x` to the contents.
pub proof fn lemma_insert_sorted_props(s: Seq<NoteView>, x: NoteView)
    requires
        ordered(s),
    ensures
        ordered(insert_sorted(s, x)),
        insert_sorted(s, x).to_multiset() == s.to_multiset().insert(x),
        insert_sorted(s, x).len() == s.len() + 1,
    decreases s.len(),
{
    broadcast use vstd::seq_lib::group_to_multiset_ensures;
    broadcast use vstd::multiset::group_multiset_axioms;

    if s.len() == 0 {
        assert(seq![x] =~= Seq::<NoteView>::empty().push(x));
        assert(Seq::<NoteView>::empty().push(x).to_multiset() =~= vstd::multiset::Multiset::<NoteView>::empty().insert(x));
        assert(s.to_multiset() =~= vstd::multiset::Multiset::<NoteView>::empty());
    } else if note_before(x, s.last()) {
        let dl = s.drop_last();
        let last = s.last();
        assert(ordered(dl)) by {
            assert(forall|i: int, j: int|
                0 <= i <= j < dl.len() ==> dl[i] == s[i] && dl[j] == s[j]);
        }
        lemma_insert_sorted_props(dl, x);
        let ins = insert_sorted(dl, x);
        assert forall|i: int, j: int|
            0 <= i <= j < ins.push(last).len() implies !note_before(
            ins.push(last)[j],
            ins.push(last)[i],
        ) by {
            if j < ins.len() {
                assert(!note_before(ins[j], ins[i]));
            } else {
                // the new last element must not strictly precede any element
                let e = ins.push(last)[i];
                if i < ins.len() {
                    assert(ins.to_multiset().count(e) > 0);
                    assert(dl.to_multiset().insert(x).count(e) > 0);
                    if e == x {
                        assert(!note_before(last, x));
                    } else {
                        assert(dl.to_multiset().count(e) > 0);
                        assert(dl.contains(e));
                        let k = choose|k: int| 0 <= k < dl.len() && dl[k] == e;
                        assert(!note_before(s.last(), s[k]));
                    }
                }
            }
        }
        assert(ins.push(last).to_multiset() =~= s.to_multiset().insert(x)) by {
            assert(ins.push(last).to_multiset() =~= ins.to_multiset().insert(last));
            assert(ins.to_multiset() =~= dl.to_multiset().insert(x));
            assert(dl.push(last) =~= s);
            assert(s.to_multiset() =~= dl.push(last).to_multiset());
            assert(dl.push(last).to_multiset() =~= dl.to_multiset().insert(last));
        }
    } else {
        assert forall|i: int, j: int|
            0 <= i <= j < s.push(x).len() implies !note_before(s.push(x)[j], s.push(x)[i]) by {
            if j < s.len() {
            } else if i < s.len() {
                // x does not strictly precede the old last, hence none before it
                assert(!note_before(x, s.last()));
                assert(!note_before(s.last(), s[i]));
            }
        }
        assert(s.push(x).to_multiset() =~= s.to_multiset().insert(x));
    }
}

/// Sorting orders the records and keeps exactly the same contents.
pub proof fn lemma_sort_notes_props(s: Seq<NoteView>)
    ensures
        ordered(sort_notes(s)),
        sort_notes(s).to_multiset() == s.to_multiset(),
        sort_notes(s).len() == s.len(),
    decreases s.len(),
{
    broadcast use vstd::seq_lib::group_to_multiset_ensures;
    broadcast use vstd::multiset::group_multiset_axioms;

    if s.len() == 0 {
        assert(sort_notes(s).to_multiset() =~= s.to_multiset());
    } else {
        let dl = s.drop_last();
        lemma_sort_notes_props(dl);
        lemma_insert_sorted_props(sort_notes(dl), s.last());
        assert(dl.push(s.last()) =~= s);
        assert(s.to_multiset() =~= dl.push(s.last()).to_multiset());
        assert(dl.push(s.last()).to_multiset() =~= dl.to_multiset().insert(s.last()));
        assert(sort_notes(s).to_multiset() =~= s.to_multiset());
    }
}

impl Store {
    /// The live records in presentation order: pinned first, then most
    /// recently updated first, ties keeping collection order.
    pub fn list_sorted(&self) -> (r: Vec<Note>)
        ensures
            r.deep_view() == sort_notes(self@),
    {
        let ghost all = self@;
        let mut out: Vec<Note> = Vec::new();
        let mut idx: usize = 0;
        proof {
            assert(all.take(0) =~= Seq::<NoteView>::empty());
            assert(out.deep_view() =~= Seq::<NoteView>::empty());
        }
        while idx < self.notes.len()
            invariant
                idx <= self.notes.len(),
                all == self@,
                all.len() == self.notes.len(),
                out.deep_view() == sort_notes(all.take(idx as int)),
            decreases self.notes.len() - idx,
        {
            let ghost prev = sort_notes(all.take(idx as int));
            let n = copy_note(&self.notes[idx]);
            proof {
                assert(n@ == all[idx as int]);
            }
            let mut j: usize = out.len();
            while j > 0 && note_before_exec(&n, &out[j - 1])
                invariant
                    j <= out.len(),
                    out.deep_view() == prev,
                    prev.len() == out.len(),
                    n@ == all[idx as int],
                    forall|k: int| j <= k < prev.len() ==> note_before(n@, prev[k]),
                decreases j,
            {
                proof {
                    assert(out@[j - 1]@ == prev[j - 1]);
                }
                j -= 1;
            }
            proof {
                if j > 0 {
                    assert(out@[j - 1]@ == prev[j - 1]);
                    assert(!note_before(n@, prev[j - 1]));
                }
            }
            out.insert(j, n);
            proof {
                lemma_insert_sorted_at(prev, n@, j as int);
                assert(all.take(idx + 1).drop_last() =~= all.take(idx as int));
                assert(all.take(idx + 1).last() == all[idx as int]);
                assert(sort_notes(all.take(idx + 1)) == insert_sorted(prev, n@));
                assert(out.deep_view() =~~= prev.take(j as int) + seq![n@] + prev.skip(j as int));
            }
            idx += 1;
        }
        proof {
            assert(all.take(idx as int) =~= all);
        }
        out
    }
}

/// The elements of a tag list as the change log prints them: quoted,
/// escaped, separated by comma and space.
pub open spec fn tag_list_inner(items: Seq<Seq<u8>>) -> Seq<u8>
    decreases items.len(),
{
    if items.len() == 0 {
        Seq::empty()
    } else if items.len() == 1 {
        crate::persist::quoted(items[0])
    } else {
        crate::persist::quoted(items[0]) + seq![44u8, 32u8] + tag_list_inner(items.skip(1))
    }
}

/// A printed tag list, brackets included.
pub open spec fn render_tag_list(items: Seq<Seq<u8>>) -> Seq<u8> {
    seq![91u8] + tag_list_inner(items) + seq![93u8]
}

/// The descriptive lines of one change entry: one line per sub-field that
/// actually differs, nothing for sub-fields whose before equals their after.
pub open spec fn render_change_lines(c: ChangeView) -> Seq<u8> {
    (if c.pin_before != c.pin_after {
        seq![80u8, 105, 110, 32, 99, 104, 97, 110, 103, 101, 100, 32, 102, 114, 111, 109, 32]
            + crate::persist::render_bool(c.pin_before) + seq![32u8, 116, 111, 32]
            + crate::persist::render_bool(c.pin_after) + seq![32u8, 97, 116, 32]
            + crate::persist::dec_digits(c.change_date_ms as nat) + seq![10u8]
    } else {
        Seq::<u8>::empty()
    }) + (if c.tags_before != c.tags_after {
        seq![84u8, 97, 103, 115, 32, 99, 104, 97, 110, 103, 101, 100, 32, 102, 114, 111, 109, 32]
            + render_tag_list(c.tags_before) + seq![32u8, 116, 111, 32] + render_tag_list(
            c.tags_after,
        ) + seq![32u8, 97, 116, 32] + crate::persist::dec_digits(c.change_date_ms as nat)
            + seq![10u8]
    } else {
        Seq::<u8>::empty()
    }) + (if c.content_before != c.content_after {
        seq![67u8, 111, 110, 116, 101, 110, 116, 32, 99, 104, 97, 110, 103, 101, 100, 32, 97, 116,
            32] + crate::persist::dec_digits(c.change_date_ms as nat) + seq![10u8]
    } else {
        Seq::<u8>::empty()
    })
}

/// The whole printed change log: every entry prefixed by an arrow marker,
/// followed by its differing sub-fields' lines.
pub open spec fn render_changes_text(cs: Seq<ChangeView>) -> Seq<u8>
    decreases cs.len(),
{
    if cs.len() == 0 {
        Seq::empty()
    } else {
        seq![32u8, 61, 62, 32] + render_change_lines(cs[0]) + render_changes_text(cs.skip(1))
    }
}

pub(crate) fn bytes_eq(a: &[u8], b: &[u8]) -> (r: bool)
    ensures
        r == (a@ == b@),
{
    if a.len() != b.len() {
        proof {
            assert(a@ != b@);
        }
        return false;
    }
    let mut i: usize = 0;
    while i < a.len()
        invariant
            a.len() == b.len(),
            i <= a.len(),
            forall|k: int| 0 <= k < i ==> a@[k] == b@[k],
        decreases a.len() - i,
    {
        if a[i] != b[i] {
            return false;
        }
        i += 1;
    }
    proof {
        assert(a@ =~= b@);
    }
    true
}

fn tags_eq(a: &Vec<Vec<u8>>, b: &Vec<Vec<u8>>) -> (r: bool)
    ensures
        r == (a.deep_view() == b.deep_view()),
{
    if a.len() != b.len() {
        proof {
            assert(a.deep_view().len() != b.deep_view().len());
        }
        return false;
    }
    let mut i: usize = 0;
    while i < a.len()
        invariant
            a.len() == b.len(),
            i <= a.len(),
            forall|k: int| 0 <= k < i ==> a@[k]@ == b@[k]@,
        decreases a.len() - i,
    {
        if !bytes_eq(a[i].as_slice(), b[i].as_slice()) {
            proof {
                assert(a@[i as int].deep_view() =~= a@[i as int]@);
                assert(b@[i as int].deep_view() =~= b@[i as int]@);
                assert(a.deep_view()[i as int] != b.deep_view()[i as int]);
            }
            return false;
        }
        i += 1;
    }
    proof {
        assert(a.deep_view() =~~= b.deep_view());
    }
    true
}

fn append_tag_list(out: &mut Vec<u8>, items: &Vec<Vec<u8>>)
    ensures
        final(out)@ == old(out)@ + render_tag_list(items.deep_view()),
{
    let ghost all = items.deep_view();
    out.push(91);
    let mut i: usize = 0;
    proof {
        assert(all.skip(0) =~= all);
        assert(out@ =~= old(out)@ + seq![91u8]);
    }
    while i < items.len()
        invariant
            i <= items.len(),
            all == items.deep_view(),
            all.len() == items.len(),
            old(out)@ + seq![91u8] + tag_list_inner(all) == out@ + tag_list_inner(
                all.skip(i as int),
            ),
        decreases items.len() - i,
    {
        let ghost out0 = out@;
        let q = crate::scan::json_escape(items[i].as_slice());
        out.push(34);
        out.extend_from_slice(q.as_slice());
        out.push(34);
        if i + 1 < items.len() {
            out.push(44);
            out.push(32);
        }
        proof {
            assert(all.skip(i as int)[0] == all[i as int]);
            assert(items@[i as int].deep_view() =~= items@[i as int]@);
            assert(all[i as int] == items@[i as int]@);
            assert(all.skip(i as int).skip(1) =~= all.skip(i + 1));
            if i + 1 < items.len() {
                assert(out@ =~= out0 + (crate::persist::quoted(all[i as int]) + seq![44u8, 32u8]));
                assert(out0 + tag_list_inner(all.skip(i as int)) =~= out@ + tag_list_inner(
                    all.skip(i + 1),
                ));
            } else {
                assert(out@ =~= out0 + crate::persist::quoted(all[i as int]));
                assert(all.skip(i as int).len() == 1);
                assert(tag_list_inner(all.skip(i + 1)) =~= Seq::<u8>::empty());
                assert(out0 + tag_list_inner(all.skip(i as int)) =~= out@ + tag_list_inner(
                    all.skip(i + 1),
                ));
            }
        }
        i += 1;
    }
    out.push(93);
    proof {
        assert(all.skip(i as int).len() == 0);
        assert(tag_list_inner(all.skip(i as int)) =~= Seq::<u8>::empty());
        assert(out@ =~= old(out)@ + render_tag_list(all));
    }
}

#[verifier::rlimit(100)]
fn append_change_lines(out: &mut Vec<u8>, c: &Change)
    ensures
        final(out)@ == old(out)@ + render_change_lines(c@),
{
    let ghost mark0 = out@;
    if c.pin_change.before != c.pin_change.after {
        let lit: [u8; 17] = [80, 105, 110, 32, 99, 104, 97, 110, 103, 101, 100, 32, 102, 114, 111,
            109, 32];
        out.extend_from_slice(lit.as_slice());
        if c.pin_change.before {
            let t: [u8; 4] = [116, 114, 117, 101];
            out.extend_from_slice(t.as_slice());
        } else {
            let f: [u8; 5] = [102, 97, 108, 115, 101];
            out.extend_from_slice(f.as_slice());
        }
        let to: [u8; 4] = [32, 116, 111, 32];
        out.extend_from_slice(to.as_slice());
        if c.pin_change.after {
            let t: [u8; 4] = [116, 114, 117, 101];
            out.extend_from_slice(t.as_slice());
        } else {
            let f: [u8; 5] = [102, 97, 108, 115, 101];
            out.extend_from_slice(f.as_slice());
        }
        let at: [u8; 4] = [32, 97, 116, 32];
        out.extend_from_slice(at.as_slice());
        let d = crate::persist::fmt_u128(c.change_date_ms);
        out.extend_from_slice(d.as_slice());
        out.push(10);
    }
    let ghost mark1 = out@;
    proof {
        assert(mark1 =~= mark0 + (if c@.pin_before != c@.pin_after {
            seq![80u8, 105, 110, 32, 99, 104, 97, 110, 103, 101, 100, 32, 102, 114, 111, 109, 32]
                + crate::persist::render_bool(c@.pin_before) + seq![32u8, 116, 111, 32]
                + crate::persist::render_bool(c@.pin_after) + seq![32u8, 97, 116, 32]
                + crate::persist::dec_digits(c@.change_date_ms as nat) + seq![10u8]
        } else {
            Seq::<u8>::empty()
        }));
    }
    if !tags_eq(&c.tag_change.before, &c.tag_change.after) {
        let lit: [u8; 18] = [84, 97, 103, 115, 32, 99, 104, 97, 110, 103, 101, 100, 32, 102, 114,
            111, 109, 32];
        out.extend_from_slice(lit.as_slice());
        append_tag_list(out, &c.tag_change.before);
        let to: [u8; 4] = [32, 116, 111, 32];
        out.extend_from_slice(to.as_slice());
        append_tag_list(out, &c.tag_change.after);
        let at: [u8; 4] = [32, 97, 116, 32];
        out.extend_from_slice(at.as_slice());
        let d = crate::persist::fmt_u128(c.change_date_ms);
        out.extend_from_slice(d.as_slice());
        out.push(10);
    }
    let ghost mark2 = out@;
    proof {
        assert(mark2 =~= mark1 + (if c@.tags_before != c@.tags_after {
            seq![84u8, 97, 103, 115, 32, 99, 104, 97, 110, 103, 101, 100, 32, 102, 114, 111, 109,
                32] + render_tag_list(c@.tags_before) + seq![32u8, 116, 111, 32] + render_tag_list(
                c@.tags_after,
            ) + seq![32u8, 97, 116, 32] + crate::persist::dec_digits(c@.change_date_ms as nat)
                + seq![10u8]
        } else {
            Seq::<u8>::empty()
        }));
    }
    if !bytes_eq(c.content_change.before.as_slice(), c.content_change.after.as_slice()) {
        let lit: [u8; 19] = [67, 111, 110, 116, 101, 110, 116, 32, 99, 104, 97, 110, 103, 101,
            100, 32, 97, 116, 32];
        out.extend_from_slice(lit.as_slice());
        let d = crate::persist::fmt_u128(c.change_date_ms);
        out.extend_from_slice(d.as_slice());
        out.push(10);
    }
    proof {
        assert(out@ =~= mark2 + (if c@.content_before != c@.content_after {
            seq![67u8, 111, 110, 116, 101, 110, 116, 32, 99, 104, 97, 110, 103, 101, 100, 32, 97,
                116, 32] + crate::persist::dec_digits(c@.change_date_ms as nat) + seq![10u8]
        } else {
            Seq::<u8>::empty()
        }));
        assert(out@ =~= mark0 + render_change_lines(c@));
    }
}

/// Renders a record's change log as plain text, per `render_changes_text`.
pub fn render_changes(n: &Note) -> (r: Vec<u8>)
    ensures
        r@ == render_changes_text(n@.changes),
{
    let ghost all = n@.changes;
    let mut out: Vec<u8> = Vec::new();
    let mut i: usize = 0;
    proof {
        assert(all.skip(0) =~= all);
        assert(out@ =~= Seq::<u8>::empty());
    }
    while i < n.changes.len()
        invariant
            i <= n.changes.len(),
            all == n@.changes,
            all.len() == n.changes.len(),
            render_changes_text(all) == out@ + render_changes_text(all.skip(i as int)),
        decreases n.changes.len() - i,
    {
        let ghost out0 = out@;
        let arrow: [u8; 4] = [32, 61, 62, 32];
        out.extend_from_slice(arrow.as_slice());
        append_change_lines(&mut out, &n.changes[i]);
        proof {
            assert(all.skip(i as int)[0] == all[i as int]);
            assert(all[i as int] == n.changes@[i as int]@);
            assert(all.skip(i as int).skip(1) =~= all.skip(i + 1));
            assert(out@ =~= out0 + (seq![32u8, 61, 62, 32] + render_change_lines(all[i as int])));
            assert(out0 + render_changes_text(all.skip(i as int)) =~= out@ + render_changes_text(
                all.skip(i + 1),
            ));
        }
        i += 1;
    }
    proof {
        assert(all.skip(i as int).len() == 0);
        assert(render_changes_text(all) =~= out@);
    }
    out
}

} // verus!
