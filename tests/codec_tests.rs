use tman::{canonical_due_date, decode, encode, format_due_date, Status, Todo, TodoError};

fn record(name: &str, status: Status, due_date: &str, note: &str, tags: &[&str]) -> Todo {
    Todo {
        name: name.to_string(),
        status,
        due_date: due_date.to_string(),
        note: note.to_string(),
        tags: tags.iter().map(|t| t.to_string()).collect(),
    }
}

fn same(a: &Todo, b: &Todo) -> bool {
    a.name == b.name && a.status == b.status && a.due_date == b.due_date && a.note == b.note
        && a.tags == b.tags
}

#[test]
fn encode_new_record_exactly() {
    let t = record("foo", Status::ToDo, "", "", &[]);
    let bytes = encode(&t);
    assert_eq!(
        String::from_utf8(bytes).unwrap(),
        "{\"name\":\"foo\",\"status\":\"ToDo\",\"due_date\":\"\",\"note\":\"\",\"tags\":[]}"
    );
}

#[test]
fn encode_full_record_exactly() {
    let t = record("a", Status::Done, "17-07-2022", "n", &["x", "y"]);
    assert_eq!(
        String::from_utf8(encode(&t)).unwrap(),
        "{\"name\":\"a\",\"status\":\"Done\",\"due_date\":\"17-07-2022\",\"note\":\"n\",\"tags\":[\"x\",\"y\"]}"
    );
}

#[test]
fn encode_escapes_quotes_backslashes_and_controls() {
    let t = record("q", Status::ToDo, "", "say \"hi\"\\\n", &[]);
    let text = String::from_utf8(encode(&t)).unwrap();
    assert!(text.contains("\"note\":\"say \\\"hi\\\"\\\\\\u000a\""));
}

#[test]
fn encode_keeps_non_ascii_text() {
    let t = record("café", Status::ToDo, "", "", &["ünï"]);
    let text = String::from_utf8(encode(&t)).unwrap();
    assert!(text.contains("\"name\":\"café\""));
    assert!(text.contains("[\"ünï\"]"));
}

#[test]
fn encoding_is_json_that_serde_json_reads() {
    let t = record("a \"b\"", Status::Done, "01-02-2003", "line\nnext\ttab\u{1}", &["x", "y\\z"]);
    let v: serde_json::Value = serde_json::from_slice(&encode(&t)).unwrap();
    assert_eq!(v["name"].as_str().unwrap(), "a \"b\"");
    assert_eq!(v["status"].as_str().unwrap(), "Done");
    assert_eq!(v["due_date"].as_str().unwrap(), "01-02-2003");
    assert_eq!(v["note"].as_str().unwrap(), "line\nnext\ttab\u{1}");
    assert_eq!(v["tags"][1].as_str().unwrap(), "y\\z");
}

#[test]
fn decode_gives_back_what_was_encoded() {
    let cases = vec![
        record("foo", Status::ToDo, "", "", &[]),
        record("a", Status::Done, "17-07-2022", "n", &["x", "y", "z"]),
        record("\"\\", Status::ToDo, "", "\u{0}\u{1f}\n", &["é", "\""]),
        record("", Status::Done, "", "", &[""]),
    ];
    for t in cases {
        let bytes = encode(&t);
        let back = decode(&bytes).unwrap();
        assert!(same(&t, &back));
        assert_eq!(encode(&back), bytes);
    }
}

#[test]
fn decode_rejects_what_is_not_an_encoding() {
    let bad: Vec<&[u8]> = vec![
        b"",
        b"{}",
        b"not json",
        b"{\"name\":\"foo\",\"status\":\"ToDo\",\"due_date\":\"\",\"note\":\"\",\"tags\":[]} ",
        b"{\"name\":\"foo\",\"status\":\"Maybe\",\"due_date\":\"\",\"note\":\"\",\"tags\":[]}",
        b"{\"name\":\"foo\",\"status\":\"ToDo\",\"due_date\":\"\",\"note\":\"\",\"tags\":[\"x\",\"x\"]}",
        b"{\"name\":\"foo\",\"status\":\"ToDo\",\"due_date\":\"\",\"note\":\"a\nb\",\"tags\":[]}",
        b"{\"name\":\"foo\",\"status\":\"ToDo\",\"due_date\":\"\",\"note\":\"\\u00ff\",\"tags\":[]}",
        b"{\"name\":\"\xff\",\"status\":\"ToDo\",\"due_date\":\"\",\"note\":\"\",\"tags\":[]}",
        b"{\"status\":\"ToDo\",\"name\":\"foo\",\"due_date\":\"\",\"note\":\"\",\"tags\":[]}",
    ];
    for b in bad {
        assert_eq!(decode(b).err(), Some(TodoError::DecodeError));
    }
}

#[test]
fn status_labels_and_machine_forms() {
    assert_eq!(Status::ToDo.to_string(), "To Do");
    assert_eq!(Status::Done.to_string(), "Done");
    assert_eq!(Status::from_str("ToDo"), Ok(Status::ToDo));
    assert_eq!(Status::from_str("Done"), Ok(Status::Done));
    assert_eq!(Status::from_str("To Do"), Err(TodoError::InvalidStatus));
    assert_eq!(Status::from_str("done"), Err(TodoError::InvalidStatus));
    assert_eq!(Status::from_str(""), Err(TodoError::InvalidStatus));
}

#[test]
fn dates_are_written_day_month_year() {
    assert_eq!(format_due_date(17, 7, 2022), "17-07-2022");
    assert_eq!(format_due_date(1, 2, 5), "01-02-0005");
    assert_eq!(format_due_date(31, 12, 999), "31-12-0999");
    assert_eq!(format_due_date(1, 1, 10000), "01-01-+10000");
    assert_eq!(format_due_date(1, 1, -1), "01-01--0001");
    assert_eq!(format_due_date(9, 10, 0), "09-10-0000");
}

#[test]
fn due_dates_are_read_and_rewritten_canonically() {
    assert_eq!(canonical_due_date("17-07-2022"), Some(String::from("17-07-2022")));
    assert_eq!(canonical_due_date("1-7-2022"), Some(String::from("01-07-2022")));
    assert_eq!(canonical_due_date("29-02-2024"), Some(String::from("29-02-2024")));
    assert_eq!(canonical_due_date("31-02-2024"), None);
    assert_eq!(canonical_due_date("17-07-222022"), None);
    assert_eq!(canonical_due_date("2022-07-17"), None);
    assert_eq!(canonical_due_date(""), None);
}

#[test]
fn error_messages() {
    assert_eq!(TodoError::AlreadyExists.message(), "Todo with this name already exists");
    assert_eq!(TodoError::NotFound.message(), "Todo with this name does not exist");
    assert_eq!(TodoError::NoteAlreadyExists.message(), "This todo already has a note");
    assert_eq!(
        TodoError::TagAlreadyExists.message(),
        "This tag is has already been added to this todo"
    );
    assert_eq!(TodoError::TagNotFound.message(), "This tag does not exist for this todo");
    assert_eq!(TodoError::InvalidDate.message(), "Invalid date format");
    assert_eq!(TodoError::InvalidStatus.message(), "Invalid status");
    assert_eq!(TodoError::DecodeError.message(), "Stored todo could not be decoded");
    assert_eq!(TodoError::IoError.message(), "Store could not be accessed");
}
