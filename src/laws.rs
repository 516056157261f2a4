//! Properties that hold across operations.
use vstd::prelude::*;
use crate::codec::{decode_spec, encode_spec, lemma_decode_encode, lemma_encode_decode};
use crate::date::{dmy_parse, due_date_of};
use crate::record::{Status, TodoError, TodoView};
use crate::store::{
    add_note_spec, add_spec, add_tag_spec, complete_spec, delete_spec, edit_note_spec,
    lemma_push_no_duplicates, lemma_without, passes, remove_due_date_spec, remove_note_spec,
    remove_tag_spec, select, set_due_date_spec, uncomplete_spec, with_note, with_status, with_tags,
    without,
};

verus! {

/// The value stored under `name`, if any.
pub open spec fn lookup(store: Map<Seq<char>, Seq<u8>>, name: Seq<char>) -> Option<Seq<u8>> {
    if store.contains_key(name) {
        Some(store[name])
    } else {
        None
    }
}

/// Adding under a free name succeeds when the due date, if one is given,
/// parses; once that is stored, adding under the name again fails with
/// `AlreadyExists`.
pub proof fn law_add_is_unique(
    name: Seq<char>,
    note: Option<Seq<char>>,
    due_date: Option<Seq<char>>,
    next_note: Option<Seq<char>>,
    next_due_date: Option<Seq<char>>,
)
    requires
        due_date matches Some(d) ==> due_date_of(d) is Some,
    ensures
        add_spec(None, name, note, due_date) is Ok,
        add_spec(Some(add_spec(None, name, note, due_date)->Ok_0), name, next_note, next_due_date)
            == Err::<Seq<u8>, TodoError>(TodoError::AlreadyExists),
{
}

/// Completing a record twice leaves it done, and the second completion writes
/// what the first did; completing and then uncompleting leaves it open.
pub proof fn law_status_flips(b: Seq<u8>)
    requires
        decode_spec(b) is Some,
    ensures
        complete_spec(Some(b)) matches Ok(c) && complete_spec(Some(c)) == Ok::<Seq<u8>, TodoError>(c)
            && decode_spec(c)->Some_0.status == Status::Done,
        uncomplete_spec(Some(complete_spec(Some(b))->Ok_0)) matches Ok(u) && decode_spec(u)->Some_0.status
            == Status::ToDo,
{
    lemma_encode_decode(b);
    let t = decode_spec(b)->Some_0;
    let done = with_status(t, Status::Done);
    lemma_decode_encode(done);
    assert(with_status(done, Status::Done) == done);
    let open = with_status(done, Status::ToDo);
    lemma_decode_encode(open);
}

/// Adding a tag that was just added fails with `TagAlreadyExists`.
pub proof fn law_add_tag_twice(b: Seq<u8>, tag: Seq<char>)
    requires
        add_tag_spec(Some(b), tag) is Ok,
    ensures
        add_tag_spec(Some(add_tag_spec(Some(b), tag)->Ok_0), tag) == Err::<Seq<u8>, TodoError>(
            TodoError::TagAlreadyExists,
        ),
{
    let t = decode_spec(b)->Some_0;
    lemma_encode_decode(b);
    lemma_push_no_duplicates(t.tags, tag);
    let n = with_tags(t, t.tags.push(tag));
    lemma_decode_encode(n);
    assert(n.tags[n.tags.len() - 1] == tag);
}

/// Whatever adding or removing a tag writes is a record whose tags are
/// distinct, so no sequence of such calls makes a tag occur twice.
pub proof fn law_tags_stay_distinct(stored: Option<Seq<u8>>, tag: Seq<char>)
    ensures
        add_tag_spec(stored, tag) matches Ok(v) ==> (decode_spec(v) matches Some(t)
            && t.tags.no_duplicates()),
        remove_tag_spec(stored, tag) matches Ok(v) ==> (decode_spec(v) matches Some(t)
            && t.tags.no_duplicates()),
{
    if let Some(b) = stored {
        if decode_spec(b) is Some {
            lemma_encode_decode(b);
            let t = decode_spec(b)->Some_0;
            if !t.tags.contains(tag) {
                lemma_push_no_duplicates(t.tags, tag);
                lemma_decode_encode(with_tags(t, t.tags.push(tag)));
            }
            lemma_without(t.tags, tag);
            lemma_decode_encode(with_tags(t, without(t.tags, tag)));
        }
    }
}

/// A due date is checked before the record is looked at: a text that names no
/// date fails with `InvalidDate` whatever is stored, even nothing.
pub proof fn law_date_checked_first(stored: Option<Seq<u8>>, date: Seq<char>)
    requires
        dmy_parse(date) is None,
    ensures
        set_due_date_spec(stored, dmy_parse(date)) == Err::<Seq<u8>, TodoError>(TodoError::InvalidDate),
{
}

/// Filtering by a status and a tag keeps exactly what filtering by the status
/// and then by the tag keeps.
pub proof fn law_filters_compose(ts: Seq<TodoView>, status: Status, tag: Seq<char>)
    ensures
        select(ts, Some(status), Some(tag)) == select(select(ts, Some(status), None), None, Some(tag)),
    decreases ts.len(),
{
    if ts.len() > 0 {
        law_filters_compose(ts.drop_last(), status, tag);
        let first = select(ts.drop_last(), Some(status), None);
        if passes(ts.last(), Some(status), None) {
            assert(first.push(ts.last()).drop_last() =~= first);
        }
    }
}

/// Once a delete is applied to a store, nothing is stored under the name, and
/// every operation on the name fails with `NotFound` (a due date being valid).
pub proof fn law_delete_is_final(
    store: Map<Seq<char>, Seq<u8>>,
    name: Seq<char>,
    text: Seq<char>,
    date: Seq<char>,
)
    requires
        delete_spec(lookup(store, name)) is Ok,
        dmy_parse(date) is Some,
    ensures
        lookup(store.remove(name), name) is None,
        delete_spec(lookup(store.remove(name), name)) == Err::<(), TodoError>(TodoError::NotFound),
        complete_spec(lookup(store.remove(name), name)) == Err::<Seq<u8>, TodoError>(
            TodoError::NotFound,
        ),
        uncomplete_spec(lookup(store.remove(name), name)) == Err::<Seq<u8>, TodoError>(
            TodoError::NotFound,
        ),
        add_note_spec(lookup(store.remove(name), name), text) == Err::<Seq<u8>, TodoError>(
            TodoError::NotFound,
        ),
        edit_note_spec(lookup(store.remove(name), name), text) == Err::<Seq<u8>, TodoError>(
            TodoError::NotFound,
        ),
        remove_note_spec(lookup(store.remove(name), name)) == Err::<Seq<u8>, TodoError>(
            TodoError::NotFound,
        ),
        add_tag_spec(lookup(store.remove(name), name), text) == Err::<Seq<u8>, TodoError>(
            TodoError::NotFound,
        ),
        remove_tag_spec(lookup(store.remove(name), name), text) == Err::<Seq<u8>, TodoError>(
            TodoError::NotFound,
        ),
        set_due_date_spec(lookup(store.remove(name), name), dmy_parse(date)) == Err::<Seq<u8>, TodoError>(
            TodoError::NotFound,
        ),
        remove_due_date_spec(lookup(store.remove(name), name)) == Err::<Seq<u8>, TodoError>(
            TodoError::NotFound,
        ),
{
    assert(!store.remove(name).contains_key(name));
}

/// A note can be added once: adding another then fails with
/// `NoteAlreadyExists`, and the record keeps the first.
pub proof fn law_note_added_once(b: Seq<u8>, first: Seq<char>, second: Seq<char>)
    requires
        decode_spec(b) matches Some(t) && t.note.len() == 0,
        first.len() > 0,
    ensures
        add_note_spec(Some(b), first) matches Ok(v) && decode_spec(v)->Some_0.note == first
            && add_note_spec(Some(v), second) == Err::<Seq<u8>, TodoError>(
            TodoError::NoteAlreadyExists,
        ),
{
    lemma_encode_decode(b);
    lemma_decode_encode(with_note(decode_spec(b)->Some_0, first));
}

/// Editing a note replaces it, whether or not there was one.
pub proof fn law_edit_note_overwrites(b: Seq<u8>, note: Seq<char>)
    requires
        decode_spec(b) is Some,
    ensures
        edit_note_spec(Some(b), note) matches Ok(v) && decode_spec(v)->Some_0.note == note,
{
    lemma_encode_decode(b);
    lemma_decode_encode(with_note(decode_spec(b)->Some_0, note));
}

} // verus!
