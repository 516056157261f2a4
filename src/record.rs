use vstd::prelude::*;
use vstd::string::StringSliceAdditionalSpecFns;

verus! {

/// Whether a task is still open or finished.
#[derive(PartialEq, Eq, Structural, Clone, Copy, Debug)]
pub enum Status {
    ToDo,
    Done,
}

/// Everything that an operation on the store can fail with.
#[derive(PartialEq, Eq, Structural, Clone, Copy, Debug)]
pub enum TodoError {
    AlreadyExists,
    NotFound,
    NoteAlreadyExists,
    TagAlreadyExists,
    TagNotFound,
    InvalidDate,
    InvalidStatus,
    DecodeError,
    IoError,
}

impl TodoError {
    /// The text shown to the user for this error.
    pub fn message(&self) -> (r: &'static str)
        ensures
            *self == TodoError::AlreadyExists ==> r@ == "Todo with this name already exists"@,
            *self == TodoError::NotFound ==> r@ == "Todo with this name does not exist"@,
            *self == TodoError::NoteAlreadyExists ==> r@ == "This todo already has a note"@,
            *self == TodoError::TagAlreadyExists ==> r@
                == "This tag is has already been added to this todo"@,
            *self == TodoError::TagNotFound ==> r@ == "This tag does not exist for this todo"@,
            *self == TodoError::InvalidDate ==> r@ == "Invalid date format"@,
            *self == TodoError::InvalidStatus ==> r@ == "Invalid status"@,
            *self == TodoError::DecodeError ==> r@ == "Stored todo could not be decoded"@,
            *self == TodoError::IoError ==> r@ == "Store could not be accessed"@,
    {
        match self {
            TodoError::AlreadyExists => "Todo with this name already exists",
            TodoError::NotFound => "Todo with this name does not exist",
            TodoError::NoteAlreadyExists => "This todo already has a note",
            TodoError::TagAlreadyExists => "This tag is has already been added to this todo",
            TodoError::TagNotFound => "This tag does not exist for this todo",
            TodoError::InvalidDate => "Invalid date format",
            TodoError::InvalidStatus => "Invalid status",
            TodoError::DecodeError => "Stored todo could not be decoded",
            TodoError::IoError => "Store could not be accessed",
        }
    }
}

impl Status {
    /// The label shown to a user: "To Do" or "Done".
    pub fn to_string(&self) -> (r: String)
        ensures
            *self == Status::ToDo ==> r@ == "To Do"@,
            *self == Status::Done ==> r@ == "Done"@,
    {
        match self {
            Status::ToDo => "To Do".to_owned(),
            Status::Done => "Done".to_owned(),
        }
    }

    /// Reads the machine form of a status: exactly "ToDo" or "Done".
    pub fn from_str(s: &str) -> (r: Result<Status, TodoError>)
        ensures
            r == status_from_text(s@),
    {
        let todo = "ToDo";
        let done = "Done";
        proof {
            reveal_strlit("ToDo");
            reveal_strlit("Done");
        }
        if text_eq(s, todo) {
            Ok(Status::ToDo)
        } else if text_eq(s, done) {
            Ok(Status::Done)
        } else {
            Err(TodoError::InvalidStatus)
        }
    }
}

/// The status named by its machine form, or `InvalidStatus`.
pub open spec fn status_from_text(s: Seq<char>) -> Result<Status, TodoError> {
    if s == "ToDo"@ {
        Ok(Status::ToDo)
    } else if s == "Done"@ {
        Ok(Status::Done)
    } else {
        Err(TodoError::InvalidStatus)
    }
}

/// Compares two texts character by character.
pub fn text_eq(a: &str, b: &str) -> (r: bool)
    ensures
        r == (a@ == b@),
{
    let ab = a.as_bytes();
    let bb = b.as_bytes();
    proof {
        vstd::utf8::encode_utf8_decode_utf8(a@);
        vstd::utf8::encode_utf8_decode_utf8(b@);
    }
    if ab.len() != bb.len() {
        return false;
    }
    let mut i: usize = 0;
    while i < ab.len()
        invariant
            ab@ == a.spec_bytes(),
            bb@ == b.spec_bytes(),
            ab@.len() == bb@.len(),
            i <= ab@.len(),
            ab@.subrange(0, i as int) == bb@.subrange(0, i as int),
        decreases ab@.len() - i,
    {
        if ab[i] != bb[i] {
            assert(ab@[i as int] != bb@[i as int]);
            assert(a@ != b@) by {
                if a@ == b@ {
                    assert(a.spec_bytes() == b.spec_bytes());
                }
            }
            return false;
        }
        assert(ab@.subrange(0, i + 1) == ab@.subrange(0, i as int).push(ab@[i as int]));
        assert(bb@.subrange(0, i + 1) == bb@.subrange(0, i as int).push(bb@[i as int]));
        i = i + 1;
    }
    assert(ab@ == ab@.subrange(0, ab@.len() as int));
    assert(bb@ == bb@.subrange(0, bb@.len() as int));
    true
}

/// One task record. The name is also the key under which it is stored.
#[derive(Clone, Debug)]
pub struct Todo {
    pub name: String,
    pub status: Status,
    pub due_date: String,
    pub note: String,
    pub tags: Vec<String>,
}

/// The mathematical value of a task record.
pub struct TodoView {
    pub name: Seq<char>,
    pub status: Status,
    pub due_date: Seq<char>,
    pub note: Seq<char>,
    pub tags: Seq<Seq<char>>,
}

impl View for Todo {
    type V = TodoView;

    open spec fn view(&self) -> TodoView {
        TodoView {
            name: self.name@,
            status: self.status,
            due_date: self.due_date@,
            note: self.note@,
            tags: texts(self.tags@),
        }
    }
}

/// The texts held by a sequence of strings.
pub open spec fn texts(v: Seq<String>) -> Seq<Seq<char>> {
    v.map_values(|t: String| t@)
}

/// Whether no text occurs twice among the strings.
pub fn no_duplicate_texts(v: &Vec<String>) -> (r: bool)
    ensures
        r == texts(v@).no_duplicates(),
{
    let mut i: usize = 0;
    while i < v.len()
        invariant
            i <= v@.len(),
            texts(v@).subrange(0, i as int).no_duplicates(),
        decreases v@.len() - i,
    {
        let mut j: usize = 0;
        while j < i
            invariant
                i < v@.len(),
                j <= i,
                forall|m: int| 0 <= m < j ==> v@[m]@ != v@[i as int]@,
            decreases i - j,
        {
            if v[j] == v[i] {
                assert(texts(v@)[j as int] == texts(v@)[i as int]);
                return false;
            }
            j = j + 1;
        }
        assert(texts(v@).subrange(0, i + 1).no_duplicates()) by {
            let w = texts(v@).subrange(0, i + 1);
            assert forall|a: int, c: int| 0 <= a < w.len() && 0 <= c < w.len() && a != c implies w[a]
                != w[c] by {
                if a < i && c < i {
                    assert(w[a] == texts(v@).subrange(0, i as int)[a]);
                    assert(w[c] == texts(v@).subrange(0, i as int)[c]);
                }
            }
        }
        i = i + 1;
    }
    assert(texts(v@).subrange(0, v@.len() as int) =~= texts(v@));
    true
}

/// Whether one of the strings holds the text of `s`.
pub fn contains_text(v: &Vec<String>, s: &String) -> (r: bool)
    ensures
        r == texts(v@).contains(s@),
{
    let mut i: usize = 0;
    while i < v.len()
        invariant
            i <= v@.len(),
            forall|m: int| 0 <= m < i ==> v@[m]@ != s@,
        decreases v@.len() - i,
    {
        if v[i] == *s {
            assert(texts(v@)[i as int] == s@);
            return true;
        }
        i = i + 1;
    }
    assert(!texts(v@).contains(s@)) by {
        if texts(v@).contains(s@) {
            let m = choose|m: int| 0 <= m < texts(v@).len() && texts(v@)[m] == s@;
            assert(v@[m]@ == s@);
        }
    }
    false
}

impl TodoView {
    /// A record is well formed when no tag occurs twice.
    pub open spec fn wf(self) -> bool {
        self.tags.no_duplicates()
    }
}

} // verus!
