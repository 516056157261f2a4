use std::collections::BTreeMap;
use tman::{
    add_todo, add_todo_note, complete_todo, decode, delete_todo, encode, get_all_todos,
    uncomplete_todo, Status, Todo, TodoError,
};

type Store = BTreeMap<String, Vec<u8>>;

fn value_of<'a>(db: &'a Store, key: &String) -> Option<&'a [u8]> {
    db.get(key).map(|v| v.as_slice())
}

fn apply(db: &mut Store, key: &String, outcome: Result<Vec<u8>, TodoError>) -> Result<(), TodoError> {
    outcome.map(|v| {
        db.insert(key.clone(), v);
    })
}

fn insert_todo(db: &mut Store, key: &String, status: Status, notes: &String) {
    let todo1 = Todo {
        name: key.to_string(),
        status,
        due_date: String::new(),
        note: notes.to_string(),
        tags: Vec::new(),
    };
    db.insert(key.clone(), encode(&todo1));
}

#[test]
fn integration_test_test_add_todo_already_exists() {
    let mut db = Store::new();
    let key = String::from("foo");
    insert_todo(&mut db, &key, Status::ToDo, &String::from("no notes this time"));

    let result = {
        let outcome = add_todo(value_of(&db, &key), &key, None, None);
        apply(&mut db, &key, outcome)
    };
    assert_eq!(false, result.is_ok());
    assert_eq!(result.err().unwrap().message(), "Todo with this name already exists");
}

#[test]
fn test_get_all_todos() {
    let mut db = Store::new();
    let key1 = String::from("foo");
    let notes1 = String::from("random notes");
    insert_todo(&mut db, &key1, Status::ToDo, &notes1);

    let key2 = String::from("bar");
    let notes2 = String::from("random notes again");
    insert_todo(&mut db, &key2, Status::Done, &notes2);

    let stored: Vec<Vec<u8>> = db.values().cloned().collect();
    let todos = get_all_todos(&stored, None, None).unwrap();
    assert_eq!(2, todos.len());

    let todo1 = todos.get(1).unwrap();
    matches!(todo1.status, Status::Done);
    assert_eq!(todo1.name, key1.to_string());
    assert_eq!(todo1.note, notes1);

    let todo2 = todos.get(0).unwrap();
    assert_eq!(todo2.name, key2.to_string());
    matches!(todo2.status, Status::ToDo);
    assert_eq!(todo2.note, notes2)
}

#[test]
fn integration_test_test_complete_todo() {
    let mut db = Store::new();
    let key = String::from("foo");
    let notes = String::from("whatever");
    insert_todo(&mut db, &key, Status::ToDo, &notes);

    let result = {
        let outcome = complete_todo(value_of(&db, &key));
        apply(&mut db, &key, outcome)
    };
    assert_eq!(true, result.is_ok());

    let todo = decode(db.get(&key).unwrap()).unwrap();
    assert_eq!(todo.name, key.to_string());
    matches!(todo.status, Status::ToDo);
    assert_eq!(todo.note, String::from("whatever"));
}

#[test]
fn integration_test_test_complete_missing_todo() {
    let mut db = Store::new();
    let key = String::from("foo");
    let result = {
        let outcome = complete_todo(value_of(&db, &key));
        apply(&mut db, &key, outcome)
    };
    assert_eq!(false, result.is_ok());
    assert_eq!(result.err().unwrap().message(), "Todo with this name does not exist");
}

#[test]
fn integration_test_test_uncomplete_todo() {
    let mut db = Store::new();
    let key = String::from("foo");
    let notes = String::from("whatever");
    insert_todo(&mut db, &key, Status::Done, &notes);

    let result = {
        let outcome = uncomplete_todo(value_of(&db, &key));
        apply(&mut db, &key, outcome)
    };
    assert_eq!(true, result.is_ok());

    let todo = decode(db.get(&key).unwrap()).unwrap();
    assert_eq!(todo.name, key.to_string());
    matches!(todo.status, Status::ToDo);
    assert_eq!(todo.note, String::from("whatever"));
}

#[test]
fn integration_test_test_uncomplete_missing_todo() {
    let mut db = Store::new();
    let key = String::from("foo");
    let result = {
        let outcome = uncomplete_todo(value_of(&db, &key));
        apply(&mut db, &key, outcome)
    };
    assert_eq!(false, result.is_ok());
    assert_eq!(result.err().unwrap().message(), "Todo with this name does not exist");
}

#[test]
fn test_todo_note() {
    let mut db = Store::new();
    let key = String::from("foo");
    let notes = String::from("");
    insert_todo(&mut db, &key, Status::Done, &notes);

    let new_note = String::from("new note");
    let result = {
        let outcome = add_todo_note(value_of(&db, &key), &new_note);
        apply(&mut db, &key, outcome)
    };
    assert_eq!(true, result.is_ok());

    let todo = decode(db.get(&key).unwrap()).unwrap();
    assert_eq!(todo.name, key.to_string());
    matches!(todo.status, Status::ToDo);
    assert_eq!(todo.note, String::from("new note"));
}

#[test]
fn test_todo_note_with_missing_todo() {
    let mut db = Store::new();
    let key = String::from("foo");
    let note = String::from("random note");
    let result = {
        let outcome = add_todo_note(value_of(&db, &key), &note);
        apply(&mut db, &key, outcome)
    };
    assert_eq!(false, result.is_ok());
    assert_eq!(result.err().unwrap().message(), "Todo with this name does not exist");
}

#[test]
fn integration_test_test_delete_todo() {
    let mut db = Store::new();
    let key = String::from("foo");
    let notes = String::from("whatever");
    insert_todo(&mut db, &key, Status::ToDo, &notes);

    let result = delete_todo(value_of(&db, &key));
    if result.is_ok() {
        db.remove(&key);
    }
    assert_eq!(true, result.is_ok());

    let db_value = db.get(&key);
    assert_eq!(true, db_value.is_none());
}

#[test]
fn integration_test_test_delete_missing_todo() {
    let db = Store::new();
    let key = String::from("foo");
    let result = delete_todo(value_of(&db, &key));
    assert_eq!(false, result.is_ok());
    assert_eq!(result.err().unwrap().message(), "Todo with this name does not exist");
}
