use std::collections::BTreeMap;
use tman::{
    add_due_date, add_todo, add_todo_note, add_todo_tag, change_due_date, complete_todo, decode,
    delete_todo, edit_todo_note, encode, get_all_todos, remove_due_date, remove_todo_note,
    remove_todo_tag, set_due_date, uncomplete_todo, Status, Todo, TodoError,
};

type Kv = BTreeMap<String, Vec<u8>>;

fn at<'a>(kv: &'a Kv, name: &str) -> Option<&'a [u8]> {
    kv.get(name).map(|v| v.as_slice())
}

fn step(
    kv: &mut Kv,
    name: &str,
    op: impl FnOnce(Option<&[u8]>) -> Result<Vec<u8>, TodoError>,
) -> Result<(), TodoError> {
    let outcome = op(at(kv, name));
    outcome.map(|v| {
        kv.insert(name.to_string(), v);
    })
}

fn load(kv: &Kv, name: &str) -> Todo {
    decode(kv.get(name).unwrap()).unwrap()
}

fn s(text: &str) -> String {
    text.to_string()
}

fn put_record(kv: &mut Kv, name: &str, status: Status, tags: &[&str]) {
    let t = Todo {
        name: s(name),
        status,
        due_date: String::new(),
        note: String::new(),
        tags: tags.iter().map(|t| s(t)).collect(),
    };
    kv.insert(s(name), encode(&t));
}

#[test]
fn adding_a_name_twice_fails_the_second_time() {
    let mut kv = Kv::new();
    let n = s("n");
    assert_eq!(step(&mut kv, "n", |v| add_todo(v, &n, None, None)), Ok(()));
    let before = kv.get("n").cloned();
    assert_eq!(
        step(&mut kv, "n", |v| add_todo(v, &n, Some(&s("other")), None)),
        Err(TodoError::AlreadyExists)
    );
    assert_eq!(kv.get("n").cloned(), before);
}

#[test]
fn adding_checks_the_name_before_the_date() {
    let mut kv = Kv::new();
    put_record(&mut kv, "n", Status::ToDo, &[]);
    assert_eq!(
        add_todo(at(&kv, "n"), &s("n"), None, Some(&s("bad"))),
        Err(TodoError::AlreadyExists)
    );
    assert_eq!(add_todo(None, &s("m"), None, Some(&s("bad"))), Err(TodoError::InvalidDate));
}

#[test]
fn added_due_date_is_canonical() {
    let mut kv = Kv::new();
    step(&mut kv, "n", |_| add_todo(None, &s("n"), None, Some(&s("3-4-2025")))).unwrap();
    assert_eq!(load(&kv, "n").due_date, "03-04-2025");
}

#[test]
fn completing_twice_and_uncompleting() {
    let mut kv = Kv::new();
    put_record(&mut kv, "n", Status::ToDo, &["x"]);
    let original = kv.get("n").cloned().unwrap();
    step(&mut kv, "n", |v| complete_todo(v)).unwrap();
    let once = kv.get("n").cloned().unwrap();
    assert_eq!(load(&kv, "n").status, Status::Done);
    step(&mut kv, "n", |v| complete_todo(v)).unwrap();
    assert_eq!(load(&kv, "n").status, Status::Done);
    assert_eq!(kv.get("n").cloned().unwrap(), once);
    step(&mut kv, "n", |v| uncomplete_todo(v)).unwrap();
    assert_eq!(load(&kv, "n").status, Status::ToDo);
    assert_eq!(kv.get("n").cloned().unwrap(), original);
}

#[test]
fn a_tag_is_added_once_and_order_is_kept() {
    let mut kv = Kv::new();
    put_record(&mut kv, "n", Status::ToDo, &[]);
    for tag in ["a", "b", "c"] {
        step(&mut kv, "n", |v| add_todo_tag(v, &s(tag))).unwrap();
    }
    assert_eq!(
        step(&mut kv, "n", |v| add_todo_tag(v, &s("b"))),
        Err(TodoError::TagAlreadyExists)
    );
    assert_eq!(load(&kv, "n").tags, vec![s("a"), s("b"), s("c")]);
    step(&mut kv, "n", |v| remove_todo_tag(v, &s("b"))).unwrap();
    assert_eq!(load(&kv, "n").tags, vec![s("a"), s("c")]);
    assert_eq!(
        step(&mut kv, "n", |v| remove_todo_tag(v, &s("b"))),
        Err(TodoError::TagNotFound)
    );
    step(&mut kv, "n", |v| add_todo_tag(v, &s("b"))).unwrap();
    assert_eq!(load(&kv, "n").tags, vec![s("a"), s("c"), s("b")]);
}

#[test]
fn an_invalid_date_on_a_missing_record_is_reported_as_invalid() {
    let kv = Kv::new();
    assert_eq!(
        add_due_date(at(&kv, "missing-name"), &s("31-02-2024")),
        Err(TodoError::InvalidDate)
    );
    assert_eq!(
        change_due_date(at(&kv, "missing-name"), &s("31-02-2024")),
        Err(TodoError::InvalidDate)
    );
    assert_eq!(add_due_date(at(&kv, "missing-name"), &s("28-02-2024")), Err(TodoError::NotFound));
}

#[test]
fn filters_combine() {
    let mut kv = Kv::new();
    put_record(&mut kv, "A", Status::ToDo, &["x"]);
    put_record(&mut kv, "B", Status::Done, &["x"]);
    put_record(&mut kv, "C", Status::ToDo, &["y"]);
    let values: Vec<Vec<u8>> = kv.values().cloned().collect();
    let both = get_all_todos(&values, Some(&s("ToDo")), Some(&s("x"))).unwrap();
    assert_eq!(both.len(), 1);
    assert_eq!(both[0].name, "A");
    let by_status = get_all_todos(&values, Some(&s("ToDo")), None).unwrap();
    assert_eq!(by_status.iter().map(|t| t.name.clone()).collect::<Vec<_>>(), vec![s("A"), s("C")]);
    let by_tag = get_all_todos(&values, None, Some(&s("x"))).unwrap();
    assert_eq!(by_tag.iter().map(|t| t.name.clone()).collect::<Vec<_>>(), vec![s("A"), s("B")]);
    let done_y = get_all_todos(&values, Some(&s("Done")), Some(&s("y"))).unwrap();
    assert!(done_y.is_empty());
}

#[test]
fn listing_an_empty_store_gives_nothing() {
    let values: Vec<Vec<u8>> = Vec::new();
    assert!(get_all_todos(&values, None, None).unwrap().is_empty());
}

#[test]
fn listing_reports_bad_status_and_bad_values() {
    let mut kv = Kv::new();
    put_record(&mut kv, "A", Status::ToDo, &[]);
    let mut values: Vec<Vec<u8>> = kv.values().cloned().collect();
    assert_eq!(
        get_all_todos(&values, Some(&s("To Do")), None).err(),
        Some(TodoError::InvalidStatus)
    );
    values.push(b"garbage".to_vec());
    assert_eq!(get_all_todos(&values, None, None).err(), Some(TodoError::DecodeError));
}

#[test]
fn a_corrupt_value_is_a_decode_error() {
    let bad: &[u8] = b"{\"name\":";
    assert_eq!(complete_todo(Some(bad)), Err(TodoError::DecodeError));
    assert_eq!(add_todo_tag(Some(bad), &s("t")), Err(TodoError::DecodeError));
    assert_eq!(add_due_date(Some(bad), &s("01-01-2020")), Err(TodoError::DecodeError));
}

#[test]
fn deleted_records_are_gone() {
    let mut kv = Kv::new();
    put_record(&mut kv, "n", Status::ToDo, &["t"]);
    assert_eq!(delete_todo(at(&kv, "n")), Ok(()));
    kv.remove("n");
    assert!(at(&kv, "n").is_none());
    assert_eq!(delete_todo(at(&kv, "n")), Err(TodoError::NotFound));
    assert_eq!(complete_todo(at(&kv, "n")), Err(TodoError::NotFound));
    assert_eq!(uncomplete_todo(at(&kv, "n")), Err(TodoError::NotFound));
    assert_eq!(add_todo_note(at(&kv, "n"), &s("x")), Err(TodoError::NotFound));
    assert_eq!(edit_todo_note(at(&kv, "n"), &s("x")), Err(TodoError::NotFound));
    assert_eq!(remove_todo_note(at(&kv, "n")), Err(TodoError::NotFound));
    assert_eq!(add_todo_tag(at(&kv, "n"), &s("t")), Err(TodoError::NotFound));
    assert_eq!(remove_todo_tag(at(&kv, "n"), &s("t")), Err(TodoError::NotFound));
    assert_eq!(add_due_date(at(&kv, "n"), &s("01-01-2020")), Err(TodoError::NotFound));
    assert_eq!(change_due_date(at(&kv, "n"), &s("01-01-2020")), Err(TodoError::NotFound));
    assert_eq!(remove_due_date(at(&kv, "n")), Err(TodoError::NotFound));
}

#[test]
fn a_note_is_added_once_and_edited_freely() {
    let mut kv = Kv::new();
    put_record(&mut kv, "n", Status::ToDo, &[]);
    step(&mut kv, "n", |v| add_todo_note(v, &s("a"))).unwrap();
    assert_eq!(
        step(&mut kv, "n", |v| add_todo_note(v, &s("b"))),
        Err(TodoError::NoteAlreadyExists)
    );
    assert_eq!(load(&kv, "n").note, "a");
    step(&mut kv, "n", |v| edit_todo_note(v, &s("c"))).unwrap();
    assert_eq!(load(&kv, "n").note, "c");
    step(&mut kv, "n", |v| remove_todo_note(v)).unwrap();
    assert_eq!(load(&kv, "n").note, "");
    step(&mut kv, "n", |v| edit_todo_note(v, &s("d"))).unwrap();
    assert_eq!(load(&kv, "n").note, "d");
}

#[test]
fn due_dates_change_and_clear() {
    let mut kv = Kv::new();
    put_record(&mut kv, "n", Status::Done, &[]);
    step(&mut kv, "n", |v| add_due_date(v, &s("5-6-2030"))).unwrap();
    assert_eq!(load(&kv, "n").due_date, "05-06-2030");
    step(&mut kv, "n", |v| change_due_date(v, &s("07-08-2031"))).unwrap();
    assert_eq!(load(&kv, "n").due_date, "07-08-2031");
    step(&mut kv, "n", |v| remove_due_date(v)).unwrap();
    assert_eq!(load(&kv, "n").due_date, "");
    assert_eq!(load(&kv, "n").status, Status::Done);
}

#[test]
fn setting_a_read_date() {
    let mut kv = Kv::new();
    put_record(&mut kv, "n", Status::ToDo, &[]);
    assert_eq!(set_due_date(None, Some((1, 2, 2020))), Err(TodoError::NotFound));
    assert_eq!(set_due_date(at(&kv, "n"), None), Err(TodoError::InvalidDate));
    assert_eq!(set_due_date(None, None), Err(TodoError::InvalidDate));
    step(&mut kv, "n", |v| set_due_date(v, Some((5, 6, 2030)))).unwrap();
    assert_eq!(load(&kv, "n").due_date, "05-06-2030");
    step(&mut kv, "n", |v| set_due_date(v, Some((31, 12, 12345)))).unwrap();
    assert_eq!(load(&kv, "n").due_date, "31-12-+12345");
}
