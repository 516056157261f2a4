//! The decisions of the store operations. Each operation receives what the
//! store holds under the record's name (nothing, or the stored bytes) and
//! answers with the bytes to write back under that name, or with the error that
//! leaves the store as it was. The caller reads and writes the store itself.
use vstd::prelude::*;
use crate::codec::{decode, decode_spec, encode, encode_spec};
use crate::date::{
    canonical_due_date, dmy_parse, dmy_text, due_date_of, format_due_date, parse_day_month_year,
};
use crate::record::{contains_text, status_from_text, texts, Status, Todo, TodoError, TodoView};

verus! {

/// The bytes handed to an operation, as a value.
pub open spec fn stored_view(stored: Option<&[u8]>) -> Option<Seq<u8>> {
    match stored {
        Some(b) => Some(b@),
        None => None,
    }
}

/// An optional text argument, as a value.
pub open spec fn text_view(t: Option<&String>) -> Option<Seq<char>> {
    match t {
        Some(s) => Some(s@),
        None => None,
    }
}

/// The outcome of an operation, as a value.
pub open spec fn written(r: Result<Vec<u8>, TodoError>) -> Result<Seq<u8>, TodoError> {
    match r {
        Ok(v) => Ok(v@),
        Err(e) => Err(e),
    }
}

/// The record stored under a name: `NotFound` when there is none, and
/// `DecodeError` when the bytes there are no record.
pub open spec fn load_spec(stored: Option<Seq<u8>>) -> Result<TodoView, TodoError> {
    match stored {
        None => Err(TodoError::NotFound),
        Some(b) => match decode_spec(b) {
            Some(t) => Ok(t),
            None => Err(TodoError::DecodeError),
        },
    }
}

/// Loads the stored record, applies `step` to it, and encodes what comes out.
pub open spec fn rewrite(
    stored: Option<Seq<u8>>,
    step: spec_fn(TodoView) -> Result<TodoView, TodoError>,
) -> Result<Seq<u8>, TodoError> {
    match load_spec(stored) {
        Err(e) => Err(e),
        Ok(t) => match step(t) {
            Ok(n) => Ok(encode_spec(n)),
            Err(e) => Err(e),
        },
    }
}

/// A new record: open, with the given note and due date and no tags.
pub open spec fn new_record(name: Seq<char>, note: Seq<char>, due_date: Seq<char>) -> TodoView {
    TodoView { name, status: Status::ToDo, due_date, note, tags: Seq::empty() }
}

/// Adding a record: `AlreadyExists` when the name is taken, then `InvalidDate`
/// when a due date is given that does not parse.
pub open spec fn add_spec(
    stored: Option<Seq<u8>>,
    name: Seq<char>,
    note: Option<Seq<char>>,
    due_date: Option<Seq<char>>,
) -> Result<Seq<u8>, TodoError> {
    let note_text = match note {
        Some(n) => n,
        None => Seq::empty(),
    };
    if stored is Some {
        Err(TodoError::AlreadyExists)
    } else {
        match due_date {
            None => Ok(encode_spec(new_record(name, note_text, Seq::empty()))),
            Some(d) => match due_date_of(d) {
                None => Err(TodoError::InvalidDate),
                Some(dd) => Ok(encode_spec(new_record(name, note_text, dd))),
            },
        }
    }
}

/// The record with another status.
pub open spec fn with_status(t: TodoView, status: Status) -> TodoView {
    TodoView { status, ..t }
}

/// The record with another note.
pub open spec fn with_note(t: TodoView, note: Seq<char>) -> TodoView {
    TodoView { note, ..t }
}

/// The record with another due date.
pub open spec fn with_due_date(t: TodoView, due_date: Seq<char>) -> TodoView {
    TodoView { due_date, ..t }
}

/// The record with other tags.
pub open spec fn with_tags(t: TodoView, tags: Seq<Seq<char>>) -> TodoView {
    TodoView { tags, ..t }
}

/// The texts of `s` other than `x`, in their order.
pub open spec fn without(s: Seq<Seq<char>>, x: Seq<char>) -> Seq<Seq<char>>
    decreases s.len(),
{
    if s.len() == 0 {
        s
    } else if s.last() == x {
        without(s.drop_last(), x)
    } else {
        without(s.drop_last(), x).push(s.last())
    }
}

/// Completing: the stored record, marked done.
pub open spec fn complete_spec(stored: Option<Seq<u8>>) -> Result<Seq<u8>, TodoError> {
    rewrite(stored, |t: TodoView| Ok(with_status(t, Status::Done)))
}

/// Uncompleting: the stored record, marked open.
pub open spec fn uncomplete_spec(stored: Option<Seq<u8>>) -> Result<Seq<u8>, TodoError> {
    rewrite(stored, |t: TodoView| Ok(with_status(t, Status::ToDo)))
}

/// Adding a note: `NoteAlreadyExists` when the record has a non-empty note.
pub open spec fn add_note_spec(stored: Option<Seq<u8>>, note: Seq<char>) -> Result<Seq<u8>, TodoError> {
    rewrite(
        stored,
        |t: TodoView|
            if t.note.len() > 0 {
                Err(TodoError::NoteAlreadyExists)
            } else {
                Ok(with_note(t, note))
            },
    )
}

/// Editing the note: it is replaced, whatever it was.
pub open spec fn edit_note_spec(stored: Option<Seq<u8>>, note: Seq<char>) -> Result<Seq<u8>, TodoError> {
    rewrite(stored, |t: TodoView| Ok(with_note(t, note)))
}

/// Removing the note: it becomes empty.
pub open spec fn remove_note_spec(stored: Option<Seq<u8>>) -> Result<Seq<u8>, TodoError> {
    rewrite(stored, |t: TodoView| Ok(with_note(t, Seq::empty())))
}

/// Adding a tag: `TagAlreadyExists` when the record has it, else it goes last.
pub open spec fn add_tag_spec(stored: Option<Seq<u8>>, tag: Seq<char>) -> Result<Seq<u8>, TodoError> {
    rewrite(
        stored,
        |t: TodoView|
            if t.tags.contains(tag) {
                Err(TodoError::TagAlreadyExists)
            } else {
                Ok(with_tags(t, t.tags.push(tag)))
            },
    )
}

/// Removing a tag: `TagNotFound` when the record lacks it, else the other
/// tags stay in their order.
pub open spec fn remove_tag_spec(stored: Option<Seq<u8>>, tag: Seq<char>) -> Result<Seq<u8>, TodoError> {
    rewrite(
        stored,
        |t: TodoView|
            if !t.tags.contains(tag) {
                Err(TodoError::TagNotFound)
            } else {
                Ok(with_tags(t, without(t.tags, tag)))
            },
    )
}

/// Setting a due date from the day, month and year read from the text, if
/// any were: the date is checked first, so `InvalidDate` comes before
/// `NotFound`.
pub open spec fn set_due_date_spec(stored: Option<Seq<u8>>, parsed: Option<(u32, u32, i32)>) -> Result<
    Seq<u8>,
    TodoError,
> {
    match parsed {
        None => Err(TodoError::InvalidDate),
        Some((d, m, y)) => rewrite(
            stored,
            |t: TodoView| Ok(with_due_date(t, dmy_text(d as int, m as int, y as int))),
        ),
    }
}

/// Removing the due date: it becomes empty.
pub open spec fn remove_due_date_spec(stored: Option<Seq<u8>>) -> Result<Seq<u8>, TodoError> {
    rewrite(stored, |t: TodoView| Ok(with_due_date(t, Seq::empty())))
}

/// Deleting: allowed exactly when a value is stored under the name.
pub open spec fn delete_spec(stored: Option<Seq<u8>>) -> Result<(), TodoError> {
    if stored is Some {
        Ok(())
    } else {
        Err(TodoError::NotFound)
    }
}

/// What `without` keeps, and that it keeps distinct texts distinct.
pub proof fn lemma_without(s: Seq<Seq<char>>, x: Seq<char>)
    ensures
        forall|y: Seq<char>| #[trigger] without(s, x).contains(y) <==> s.contains(y) && y != x,
        s.no_duplicates() ==> without(s, x).no_duplicates(),
    decreases s.len(),
{
    if s.len() > 0 {
        let d = s.drop_last();
        lemma_without(d, x);
        assert forall|y: Seq<char>| s.contains(y) <==> d.contains(y) || y == s.last() by {
            if s.contains(y) {
                let m = choose|m: int| 0 <= m < s.len() && s[m] == y;
                if m < s.len() - 1 {
                    assert(d[m] == y);
                }
            }
            if d.contains(y) {
                let m = choose|m: int| 0 <= m < d.len() && d[m] == y;
                assert(s[m] == y);
            }
            if y == s.last() {
                assert(s[s.len() - 1] == y);
            }
        }
        if s.no_duplicates() {
            assert(d.no_duplicates()) by {
                assert forall|a: int, c: int| 0 <= a < d.len() && 0 <= c < d.len() && a != c implies d[a]
                    != d[c] by {
                    assert(d[a] == s[a] && d[c] == s[c]);
                }
            }
            assert(!d.contains(s.last())) by {
                if d.contains(s.last()) {
                    let m = choose|m: int| 0 <= m < d.len() && d[m] == s.last();
                    assert(s[m] == s[s.len() - 1]);
                }
            }
            if s.last() != x {
                lemma_push_no_duplicates(without(d, x), s.last());
            }
        }
        if s.last() != x {
            let w = without(d, x);
            assert forall|y: Seq<char>| w.push(s.last()).contains(y) <==> w.contains(y) || y
                == s.last() by {
                if w.push(s.last()).contains(y) {
                    let m = choose|m: int| 0 <= m < w.len() + 1 && w.push(s.last())[m] == y;
                    if m < w.len() {
                        assert(w[m] == y);
                    }
                }
                if w.contains(y) {
                    let m = choose|m: int| 0 <= m < w.len() && w[m] == y;
                    assert(w.push(s.last())[m] == y);
                }
                if y == s.last() {
                    assert(w.push(s.last())[w.len() as int] == y);
                }
            }
        }
        assert forall|y: Seq<char>| #[trigger] without(s, x).contains(y) <==> s.contains(y) && y
            != x by {
            assert(s.contains(y) <==> d.contains(y) || y == s.last());
            assert(without(d, x).contains(y) <==> d.contains(y) && y != x);
        }
    }
}

/// Appending a text that is not there keeps the texts distinct.
pub proof fn lemma_push_no_duplicates(s: Seq<Seq<char>>, x: Seq<char>)
    requires
        s.no_duplicates(),
        !s.contains(x),
    ensures
        s.push(x).no_duplicates(),
{
    let p = s.push(x);
    assert forall|a: int, c: int| 0 <= a < p.len() && 0 <= c < p.len() && a != c implies p[a]
        != p[c] by {
        if a < s.len() && c < s.len() {
            assert(p[a] == s[a] && p[c] == s[c]);
        } else if a < s.len() {
            assert(p[a] == s[a]);
            assert(s.contains(p[a]));
        } else if c < s.len() {
            assert(p[c] == s[c]);
            assert(s.contains(p[c]));
        }
    }
}

/// The strings other than those holding `x`, in their order.
fn without_text(v: &Vec<String>, x: &String) -> (r: Vec<String>)
    ensures
        texts(r@) == without(texts(v@), x@),
{
    let mut out: Vec<String> = Vec::new();
    let mut i: usize = 0;
    while i < v.len()
        invariant
            i <= v@.len(),
            texts(out@) == without(texts(v@).subrange(0, i as int), x@),
        decreases v@.len() - i,
    {
        let ghost prefix = texts(v@).subrange(0, i + 1);
        assert(prefix.drop_last() =~= texts(v@).subrange(0, i as int));
        assert(prefix.last() == v@[i as int]@);
        if v[i] != *x {
            let ghost before = out@;
            out.push(v[i].clone());
            assert(texts(out@) =~= texts(before).push(v@[i as int]@));
        }
        i = i + 1;
    }
    assert(texts(v@).subrange(0, v@.len() as int) =~= texts(v@));
    out
}

/// Reads the record stored under a name.
fn load(stored: Option<&[u8]>) -> (r: Result<Todo, TodoError>)
    ensures
        match r {
            Ok(t) => load_spec(stored_view(stored)) == Ok::<TodoView, TodoError>(t@),
            Err(e) => load_spec(stored_view(stored)) == Err::<TodoView, TodoError>(e),
        },
{
    match stored {
        None => Err(TodoError::NotFound),
        Some(b) => decode(b),
    }
}

/// Creates the record `key`: open, with the note if one is given, the
/// canonical form of the due date if one is given, and no tags.
pub fn add_todo(
    stored: Option<&[u8]>,
    key: &String,
    note: Option<&String>,
    due_date: Option<&String>,
) -> (r: Result<Vec<u8>, TodoError>)
    ensures
        written(r) == add_spec(stored_view(stored), key@, text_view(note), text_view(due_date)),
{
    if stored.is_some() {
        return Err(TodoError::AlreadyExists);
    }
    let due = match due_date {
        None => String::new(),
        Some(d) => match canonical_due_date(d.as_str()) {
            Some(dd) => dd,
            None => {
                return Err(TodoError::InvalidDate);
            },
        },
    };
    let note_text = match note {
        Some(n) => n.clone(),
        None => String::new(),
    };
    let t = Todo {
        name: key.clone(),
        status: Status::ToDo,
        due_date: due,
        note: note_text,
        tags: Vec::new(),
    };
    proof {
        assert(texts(t.tags@) =~= Seq::<Seq<char>>::empty());
    }
    Ok(encode(&t))
}

/// Marks the record done.
pub fn complete_todo(stored: Option<&[u8]>) -> (r: Result<Vec<u8>, TodoError>)
    ensures
        written(r) == complete_spec(stored_view(stored)),
{
    let mut t = match load(stored) {
        Ok(t) => t,
        Err(e) => {
            return Err(e);
        },
    };
    t.status = Status::Done;
    Ok(encode(&t))
}

/// Marks the record open again.
pub fn uncomplete_todo(stored: Option<&[u8]>) -> (r: Result<Vec<u8>, TodoError>)
    ensures
        written(r) == uncomplete_spec(stored_view(stored)),
{
    let mut t = match load(stored) {
        Ok(t) => t,
        Err(e) => {
            return Err(e);
        },
    };
    t.status = Status::ToDo;
    Ok(encode(&t))
}

/// Sets the note of a record that has none yet.
pub fn add_todo_note(stored: Option<&[u8]>, note: &String) -> (r: Result<Vec<u8>, TodoError>)
    ensures
        written(r) == add_note_spec(stored_view(stored), note@),
{
    let mut t = match load(stored) {
        Ok(t) => t,
        Err(e) => {
            return Err(e);
        },
    };
    if !t.note.as_str().is_empty() {
        return Err(TodoError::NoteAlreadyExists);
    }
    t.note = note.clone();
    Ok(encode(&t))
}

/// Replaces the note, whether or not there was one.
pub fn edit_todo_note(stored: Option<&[u8]>, new_note: &String) -> (r: Result<Vec<u8>, TodoError>)
    ensures
        written(r) == edit_note_spec(stored_view(stored), new_note@),
{
    let mut t = match load(stored) {
        Ok(t) => t,
        Err(e) => {
            return Err(e);
        },
    };
    t.note = new_note.clone();
    Ok(encode(&t))
}

/// Empties the note.
pub fn remove_todo_note(stored: Option<&[u8]>) -> (r: Result<Vec<u8>, TodoError>)
    ensures
        written(r) == remove_note_spec(stored_view(stored)),
{
    let mut t = match load(stored) {
        Ok(t) => t,
        Err(e) => {
            return Err(e);
        },
    };
    t.note = String::new();
    Ok(encode(&t))
}

/// Adds a tag that the record does not have yet, at the end of its tags.
pub fn add_todo_tag(stored: Option<&[u8]>, tag: &String) -> (r: Result<Vec<u8>, TodoError>)
    ensures
        written(r) == add_tag_spec(stored_view(stored), tag@),
{
    let mut t = match load(stored) {
        Ok(t) => t,
        Err(e) => {
            return Err(e);
        },
    };
    if contains_text(&t.tags, tag) {
        return Err(TodoError::TagAlreadyExists);
    }
    let ghost before = t.tags@;
    t.tags.push(tag.clone());
    assert(texts(t.tags@) =~= texts(before).push(tag@));
    Ok(encode(&t))
}

/// Removes a tag that the record has, keeping the order of the others.
pub fn remove_todo_tag(stored: Option<&[u8]>, tag: &String) -> (r: Result<Vec<u8>, TodoError>)
    ensures
        written(r) == remove_tag_spec(stored_view(stored), tag@),
{
    let mut t = match load(stored) {
        Ok(t) => t,
        Err(e) => {
            return Err(e);
        },
    };
    if !contains_text(&t.tags, tag) {
        return Err(TodoError::TagNotFound);
    }
    t.tags = without_text(&t.tags, tag);
    Ok(encode(&t))
}

/// Sets the due date to the date read from a text, written as `DD-MM-YYYY`;
/// with no date read, fails with `InvalidDate` before the record is looked at.
pub fn set_due_date(stored: Option<&[u8]>, parsed: Option<(u32, u32, i32)>) -> (r: Result<
    Vec<u8>,
    TodoError,
>)
    ensures
        written(r) == set_due_date_spec(stored_view(stored), parsed),
{
    let due = match parsed {
        Some((d, m, y)) => format_due_date(d, m, y),
        None => {
            return Err(TodoError::InvalidDate);
        },
    };
    let mut t = match load(stored) {
        Ok(t) => t,
        Err(e) => {
            return Err(e);
        },
    };
    t.due_date = due;
    Ok(encode(&t))
}

/// Gives the record a due date, read from `date` as `DD-MM-YYYY`.
pub fn add_due_date(stored: Option<&[u8]>, date: &String) -> (r: Result<Vec<u8>, TodoError>)
    ensures
        written(r) == set_due_date_spec(stored_view(stored), dmy_parse(date@)),
{
    set_due_date(stored, parse_day_month_year(date.as_str()))
}

/// Replaces the due date of the record, read from `new_date` as `DD-MM-YYYY`;
/// a record without one gets one.
pub fn change_due_date(stored: Option<&[u8]>, new_date: &String) -> (r: Result<Vec<u8>, TodoError>)
    ensures
        written(r) == set_due_date_spec(stored_view(stored), dmy_parse(new_date@)),
{
    set_due_date(stored, parse_day_month_year(new_date.as_str()))
}

/// Clears the due date.
pub fn remove_due_date(stored: Option<&[u8]>) -> (r: Result<Vec<u8>, TodoError>)
    ensures
        written(r) == remove_due_date_spec(stored_view(stored)),
{
    let mut t = match load(stored) {
        Ok(t) => t,
        Err(e) => {
            return Err(e);
        },
    };
    t.due_date = String::new();
    Ok(encode(&t))
}

/// Whether the record may be deleted: only when one is stored under the name.
pub fn delete_todo(stored: Option<&[u8]>) -> (r: Result<(), TodoError>)
    ensures
        r == delete_spec(stored_view(stored)),
{
    if stored.is_some() {
        Ok(())
    } else {
        Err(TodoError::NotFound)
    }
}

/// Whether a record passes the filters: the status when one is given, and
/// the tag when one is given.
pub open spec fn passes(t: TodoView, status: Option<Status>, tag: Option<Seq<char>>) -> bool {
    &&& (match status {
        Some(s) => t.status == s,
        None => true,
    })
    &&& (match tag {
        Some(g) => t.tags.contains(g),
        None => true,
    })
}

/// The records that pass the filters, in their order.
pub open spec fn select(ts: Seq<TodoView>, status: Option<Status>, tag: Option<Seq<char>>) -> Seq<
    TodoView,
>
    decreases ts.len(),
{
    if ts.len() == 0 {
        ts
    } else if passes(ts.last(), status, tag) {
        select(ts.drop_last(), status, tag).push(ts.last())
    } else {
        select(ts.drop_last(), status, tag)
    }
}

/// The values of some records.
pub open spec fn views(v: Seq<Todo>) -> Seq<TodoView> {
    v.map_values(|t: Todo| t@)
}

/// The values of some byte strings.
pub open spec fn byte_strings(v: Seq<Vec<u8>>) -> Seq<Seq<u8>> {
    v.map_values(|b: Vec<u8>| b@)
}

/// Whether every stored value is the encoding of a record.
pub open spec fn all_decode(values: Seq<Seq<u8>>) -> bool {
    forall|i: int| 0 <= i < values.len() ==> (#[trigger] decode_spec(values[i])) is Some
}

/// The records that the stored values encode.
pub open spec fn decoded(values: Seq<Seq<u8>>) -> Seq<TodoView> {
    values.map_values(|b: Seq<u8>| decode_spec(b)->Some_0)
}

/// The status filter named by its machine form, if one is given.
pub open spec fn status_filter(status: Option<Seq<char>>) -> Result<Option<Status>, TodoError> {
    match status {
        None => Ok(None),
        Some(s) => match status_from_text(s) {
            Ok(st) => Ok(Some(st)),
            Err(e) => Err(e),
        },
    }
}

/// Listing: `InvalidStatus` when the status filter names no status, then
/// `DecodeError` when a stored value is no record, else the records that pass
/// the filters, in the order in which the values are given.
pub open spec fn list_spec(
    values: Seq<Seq<u8>>,
    status: Option<Seq<char>>,
    tag: Option<Seq<char>>,
) -> Result<Seq<TodoView>, TodoError> {
    match status_filter(status) {
        Err(e) => Err(e),
        Ok(f) => if all_decode(values) {
            Ok(select(decoded(values), f, tag))
        } else {
            Err(TodoError::DecodeError)
        },
    }
}

/// Whether a record passes the filters.
fn passes_filters(t: &Todo, status: Option<Status>, tag: Option<&String>) -> (r: bool)
    ensures
        r == passes(t@, status, text_view(tag)),
{
    let status_ok = match status {
        Some(st) => t.status == st,
        None => true,
    };
    let tag_ok = match tag {
        Some(g) => contains_text(&t.tags, g),
        None => true,
    };
    status_ok && tag_ok
}

/// Decodes every stored value and keeps the records that pass the filters: the
/// status given by its machine form ("ToDo" or "Done"), and a tag.
pub fn get_all_todos(values: &Vec<Vec<u8>>, status: Option<&String>, tag: Option<&String>) -> (r:
    Result<Vec<Todo>, TodoError>)
    ensures
        match r {
            Ok(v) => list_spec(byte_strings(values@), text_view(status), text_view(tag)) == Ok::<
                Seq<TodoView>,
                TodoError,
            >(views(v@)),
            Err(e) => list_spec(byte_strings(values@), text_view(status), text_view(tag)) == Err::<
                Seq<TodoView>,
                TodoError,
            >(e),
        },
{
    let filter = match status {
        None => None,
        Some(s) => match Status::from_str(s.as_str()) {
            Ok(st) => Some(st),
            Err(e) => {
                return Err(e);
            },
        },
    };
    let ghost bs = byte_strings(values@);
    let ghost tag_text = text_view(tag);
    let ghost mut ts: Seq<TodoView> = Seq::empty();
    let mut out: Vec<Todo> = Vec::new();
    let mut i: usize = 0;
    while i < values.len()
        invariant
            i <= values@.len(),
            bs == byte_strings(values@),
            tag_text == text_view(tag),
            status_filter(text_view(status)) == Ok::<Option<Status>, TodoError>(filter),
            ts.len() == i,
            forall|j: int| 0 <= j < i ==> decode_spec(bs[j]) == Some(#[trigger] ts[j]),
            views(out@) == select(ts, filter, tag_text),
        decreases values@.len() - i,
    {
        assert(bs[i as int] == values@[i as int]@);
        let t = match decode(values[i].as_slice()) {
            Ok(t) => t,
            Err(e) => {
                assert(decode_spec(bs[i as int]) is None);
                assert(!all_decode(bs));
                return Err(e);
            },
        };
        let keep = passes_filters(&t, filter, tag);
        let ghost before = out@;
        if keep {
            out.push(t);
            assert(views(out@) =~= views(before).push(t@));
        }
        proof {
            let next = ts.push(t@);
            assert(next.drop_last() =~= ts);
            ts = next;
            assert(views(out@) == select(ts, filter, tag_text));
        }
        i = i + 1;
    }
    assert(all_decode(bs)) by {
        assert forall|j: int| 0 <= j < bs.len() implies (#[trigger] decode_spec(bs[j])) is Some by {
            assert(decode_spec(bs[j]) == Some(ts[j]));
        }
    }
    assert(decoded(bs) =~= ts) by {
        assert forall|j: int| 0 <= j < bs.len() implies decoded(bs)[j] == ts[j] by {
            assert(decode_spec(bs[j]) == Some(ts[j]));
        }
    }
    Ok(out)
}

} // verus!
