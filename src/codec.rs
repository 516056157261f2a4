//! The byte encoding of a task record: a compact JSON object whose fields come
//! in a fixed order, with strings escaped as JSON requires.
use vstd::prelude::*;
use vstd::string::StringSliceAdditionalSpecFns;
use vstd::utf8::encode_utf8;
use crate::record::{no_duplicate_texts, texts, Status, Todo, TodoError, TodoView};
use crate::strings::{bytes_at, bytes_eq, lemma_rest_split, rest_at};

verus! {

pub const QUOTE: u8 = 0x22;

pub const BACKSLASH: u8 = 0x5c;

pub const COMMA: u8 = 0x2c;

pub const CLOSE_BRACKET: u8 = 0x5d;

pub const CLOSE_BRACE: u8 = 0x7d;

pub const LETTER_U: u8 = 0x75;

pub const DIGIT_ZERO: u8 = 0x30;

pub const NAME_KEY: &'static str = "{\"name\":";

pub const STATUS_KEY: &'static str = ",\"status\":";

pub const DUE_DATE_KEY: &'static str = ",\"due_date\":";

pub const NOTE_KEY: &'static str = ",\"note\":";

pub const TAGS_KEY: &'static str = ",\"tags\":[";

/// The lower-case hexadecimal digit of a value below 16.
pub open spec fn hex_digit(n: u8) -> u8 {
    if n < 10 {
        (0x30 + n) as u8
    } else {
        (0x61 + n - 10) as u8
    }
}

/// How one byte of a string's UTF-8 form is written inside the quotes.
pub open spec fn esc(c: u8) -> Seq<u8> {
    if c == QUOTE || c == BACKSLASH {
        seq![BACKSLASH, c]
    } else if c < 0x20 {
        seq![BACKSLASH, LETTER_U, DIGIT_ZERO, DIGIT_ZERO, hex_digit(c / 16), hex_digit(c % 16)]
    } else {
        seq![c]
    }
}

/// The escaped form of a byte string.
pub open spec fn esc_all(v: Seq<u8>) -> Seq<u8>
    decreases v.len(),
{
    if v.len() == 0 {
        Seq::empty()
    } else {
        esc(v[0]) + esc_all(v.drop_first())
    }
}

/// A text as a JSON string literal.
pub open spec fn quoted(s: Seq<char>) -> Seq<u8> {
    seq![QUOTE] + (esc_all(encode_utf8(s)) + seq![QUOTE])
}

/// Every text of the list, each preceded by a comma.
pub open spec fn tail_items(ts: Seq<Seq<char>>) -> Seq<u8>
    decreases ts.len(),
{
    if ts.len() == 0 {
        Seq::empty()
    } else {
        seq![COMMA] + (quoted(ts[0]) + tail_items(ts.drop_first()))
    }
}

/// The texts of the list as JSON string literals separated by commas.
pub open spec fn tag_items(ts: Seq<Seq<char>>) -> Seq<u8> {
    if ts.len() == 0 {
        Seq::empty()
    } else {
        quoted(ts[0]) + tail_items(ts.drop_first())
    }
}

/// A status as the JSON string of its variant's name.
pub open spec fn status_bytes(s: Status) -> Seq<u8> {
    match s {
        Status::ToDo => seq![QUOTE, 0x54u8, 0x6fu8, 0x44u8, 0x6fu8, QUOTE],
        Status::Done => seq![QUOTE, 0x44u8, 0x6fu8, 0x6eu8, 0x65u8, QUOTE],
    }
}

/// What follows the list of tags.
pub open spec fn record_end() -> Seq<u8> {
    seq![CLOSE_BRACKET, CLOSE_BRACE]
}

/// The encoding of the fields from the tags on.
pub open spec fn encode_tags(t: TodoView) -> Seq<u8> {
    TAGS_KEY.spec_bytes() + (tag_items(t.tags) + record_end())
}

/// The encoding of the fields from the note on.
pub open spec fn encode_note(t: TodoView) -> Seq<u8> {
    NOTE_KEY.spec_bytes() + (quoted(t.note) + encode_tags(t))
}

/// The encoding of the fields from the due date on.
pub open spec fn encode_due_date(t: TodoView) -> Seq<u8> {
    DUE_DATE_KEY.spec_bytes() + (quoted(t.due_date) + encode_note(t))
}

/// The encoding of the fields from the status on.
pub open spec fn encode_status(t: TodoView) -> Seq<u8> {
    STATUS_KEY.spec_bytes() + (status_bytes(t.status) + encode_due_date(t))
}

/// The stored form of a record:
/// `{"name":N,"status":S,"due_date":D,"note":T,"tags":[G,...]}`.
pub open spec fn encode_spec(t: TodoView) -> Seq<u8> {
    NAME_KEY.spec_bytes() + quoted(t.name) + STATUS_KEY.spec_bytes() + status_bytes(t.status)
        + DUE_DATE_KEY.spec_bytes() + quoted(t.due_date) + NOTE_KEY.spec_bytes() + quoted(t.note)
        + TAGS_KEY.spec_bytes() + tag_items(t.tags) + record_end()
}

/// The encoding read field by field from the front.
pub proof fn lemma_encode_layers(t: TodoView)
    ensures
        encode_spec(t) == NAME_KEY.spec_bytes() + (quoted(t.name) + encode_status(t)),
{
    let k1 = NAME_KEY.spec_bytes();
    let k2 = STATUS_KEY.spec_bytes();
    let k3 = DUE_DATE_KEY.spec_bytes();
    let k4 = NOTE_KEY.spec_bytes();
    let k5 = TAGS_KEY.spec_bytes();
    let p1 = k1 + quoted(t.name);
    let p2 = p1 + k2;
    let p3 = p2 + status_bytes(t.status);
    let p4 = p3 + k3;
    let p5 = p4 + quoted(t.due_date);
    let p6 = p5 + k4;
    let p7 = p6 + quoted(t.note);
    let p8 = p7 + k5;
    lemma_add_assoc(p8, tag_items(t.tags), record_end());
    lemma_add_assoc(p7, k5, tag_items(t.tags) + record_end());
    lemma_add_assoc(p6, quoted(t.note), encode_tags(t));
    lemma_add_assoc(p5, k4, quoted(t.note) + encode_tags(t));
    lemma_add_assoc(p4, quoted(t.due_date), encode_note(t));
    lemma_add_assoc(p3, k3, quoted(t.due_date) + encode_note(t));
    lemma_add_assoc(p2, status_bytes(t.status), encode_due_date(t));
    lemma_add_assoc(p1, k2, status_bytes(t.status) + encode_due_date(t));
    lemma_add_assoc(k1, quoted(t.name), encode_status(t));
}

/// Two escaped bytes that start the same byte string are the same byte.
pub proof fn lemma_esc_prefix(a: u8, b: u8, x: Seq<u8>, y: Seq<u8>)
    requires
        esc(a) + x == esc(b) + y,
    ensures
        a == b,
        x == y,
{
    let l = esc(a) + x;
    let r = esc(b) + y;
    assert(l[0] == esc(a)[0] && r[0] == esc(b)[0]);
    if esc(a).len() > 1 && esc(b).len() > 1 {
        assert(l[1] == esc(a)[1] && r[1] == esc(b)[1]);
    }
    if a < 0x20 && b < 0x20 {
        assert(l[4] == esc(a)[4] && r[4] == esc(b)[4]);
        assert(l[5] == esc(a)[5] && r[5] == esc(b)[5]);
        assert(a == (a / 16) * 16 + a % 16);
        assert(b == (b / 16) * 16 + b % 16);
    }
    assert(a == b);
    assert(x =~= l.subrange(esc(a).len() as int, l.len() as int));
    assert(y =~= r.subrange(esc(b).len() as int, r.len() as int));
}

/// An escaped byte string is read back up to its closing quote in one way only.
pub proof fn lemma_esc_all_unique(v1: Seq<u8>, x1: Seq<u8>, v2: Seq<u8>, x2: Seq<u8>)
    requires
        esc_all(v1) + (seq![QUOTE] + x1) == esc_all(v2) + (seq![QUOTE] + x2),
    ensures
        v1 == v2,
        x1 == x2,
    decreases v1.len(),
{
    let l = esc_all(v1) + (seq![QUOTE] + x1);
    if v1.len() == 0 {
        assert(l =~= seq![QUOTE] + x1);
        if v2.len() > 0 {
            assert(esc_all(v2) + (seq![QUOTE] + x2) =~= esc(v2[0]) + (esc_all(v2.drop_first())
                + (seq![QUOTE] + x2)));
            assert(l[0] == esc(v2[0])[0]);
        }
        assert(v2.len() == 0);
        assert(esc_all(v2) + (seq![QUOTE] + x2) =~= seq![QUOTE] + x2);
        assert(x1 =~= l.drop_first());
        assert(x2 =~= l.drop_first());
    } else {
        assert(l =~= esc(v1[0]) + (esc_all(v1.drop_first()) + (seq![QUOTE] + x1)));
        if v2.len() == 0 {
            assert(esc_all(v2) + (seq![QUOTE] + x2) =~= seq![QUOTE] + x2);
            assert(l[0] == esc(v1[0])[0]);
        }
        assert(v2.len() > 0);
        assert(esc_all(v2) + (seq![QUOTE] + x2) =~= esc(v2[0]) + (esc_all(v2.drop_first())
            + (seq![QUOTE] + x2)));
        lemma_esc_prefix(
            v1[0],
            v2[0],
            esc_all(v1.drop_first()) + (seq![QUOTE] + x1),
            esc_all(v2.drop_first()) + (seq![QUOTE] + x2),
        );
        lemma_esc_all_unique(v1.drop_first(), x1, v2.drop_first(), x2);
        assert(v1 =~= seq![v1[0]] + v1.drop_first());
        assert(v2 =~= seq![v2[0]] + v2.drop_first());
    }
}

/// A JSON string literal is read back in one way only.
pub proof fn lemma_quoted_unique(s1: Seq<char>, x1: Seq<u8>, s2: Seq<char>, x2: Seq<u8>)
    requires
        quoted(s1) + x1 == quoted(s2) + x2,
    ensures
        s1 == s2,
        x1 == x2,
{
    let e1 = encode_utf8(s1);
    let e2 = encode_utf8(s2);
    let l = quoted(s1) + x1;
    assert(l.drop_first() =~= esc_all(e1) + (seq![QUOTE] + x1));
    assert((quoted(s2) + x2).drop_first() =~= esc_all(e2) + (seq![QUOTE] + x2));
    lemma_esc_all_unique(e1, x1, e2, x2);
    vstd::utf8::encode_utf8_decode_utf8(s1);
    vstd::utf8::encode_utf8_decode_utf8(s2);
}

/// Equal strings after a common prefix are equal.
pub proof fn lemma_strip_prefix(k: Seq<u8>, x: Seq<u8>, y: Seq<u8>)
    requires
        k + x == k + y,
    ensures
        x == y,
{
    assert(x =~= (k + x).subrange(k.len() as int, (k + x).len() as int));
    assert(y =~= (k + y).subrange(k.len() as int, (k + y).len() as int));
}

/// The JSON string of a status is read back in one way only.
pub proof fn lemma_status_unique(s1: Status, x1: Seq<u8>, s2: Status, x2: Seq<u8>)
    requires
        status_bytes(s1) + x1 == status_bytes(s2) + x2,
    ensures
        s1 == s2,
        x1 == x2,
{
    let l = status_bytes(s1) + x1;
    let r = status_bytes(s2) + x2;
    assert(l[1] == status_bytes(s1)[1] && r[1] == status_bytes(s2)[1]);
    assert(s1 == s2);
    lemma_strip_prefix(status_bytes(s1), x1, x2);
}

/// A comma-led list of literals, followed by something that does not start
/// with a comma, is read back in one way only.
pub proof fn lemma_tail_items_unique(a: Seq<Seq<char>>, x: Seq<u8>, b: Seq<Seq<char>>, y: Seq<u8>)
    requires
        tail_items(a) + x == tail_items(b) + y,
        x.len() > 0 && x[0] != COMMA,
        y.len() > 0 && y[0] != COMMA,
    ensures
        a == b,
        x == y,
    decreases a.len(),
{
    let l = tail_items(a) + x;
    if a.len() == 0 {
        assert(l =~= x);
        if b.len() > 0 {
            assert(l[0] == COMMA);
        }
        assert(b.len() == 0);
        assert(tail_items(b) + y =~= y);
    } else {
        if b.len() == 0 {
            assert(tail_items(b) + y =~= y);
            assert(l[0] == COMMA);
        }
        assert(b.len() > 0);
        assert(l.drop_first() =~= quoted(a[0]) + (tail_items(a.drop_first()) + x));
        assert((tail_items(b) + y).drop_first() =~= quoted(b[0]) + (tail_items(b.drop_first())
            + y));
        lemma_quoted_unique(a[0], tail_items(a.drop_first()) + x, b[0], tail_items(b.drop_first()) + y);
        lemma_tail_items_unique(a.drop_first(), x, b.drop_first(), y);
        assert(a =~= seq![a[0]] + a.drop_first());
        assert(b =~= seq![b[0]] + b.drop_first());
    }
}

/// The list of tags, followed by the end of the record, is read back in one way only.
pub proof fn lemma_tag_items_unique(a: Seq<Seq<char>>, b: Seq<Seq<char>>)
    requires
        tag_items(a) + record_end() == tag_items(b) + record_end(),
    ensures
        a == b,
{
    let e = record_end();
    let l = tag_items(a) + e;
    if a.len() == 0 {
        assert(l =~= e);
        if b.len() > 0 {
            assert(l =~= quoted(b[0]) + (tail_items(b.drop_first()) + e));
            assert(l[0] == QUOTE);
        }
        assert(b.len() == 0);
        assert(a =~= b);
    } else {
        if b.len() == 0 {
            assert(tag_items(b) + e =~= e);
            assert(l =~= quoted(a[0]) + (tail_items(a.drop_first()) + e));
            assert(l[0] == QUOTE);
        }
        assert(b.len() > 0);
        assert(l =~= quoted(a[0]) + (tail_items(a.drop_first()) + e));
        assert(tag_items(b) + e =~= quoted(b[0]) + (tail_items(b.drop_first()) + e));
        lemma_quoted_unique(a[0], tail_items(a.drop_first()) + e, b[0], tail_items(b.drop_first()) + e);
        lemma_tail_items_unique(a.drop_first(), e, b.drop_first(), e);
        assert(a =~= seq![a[0]] + a.drop_first());
        assert(b =~= seq![b[0]] + b.drop_first());
    }
}

/// Different records have different encodings.
pub proof fn lemma_encode_injective(t1: TodoView, t2: TodoView)
    requires
        encode_spec(t1) == encode_spec(t2),
    ensures
        t1 == t2,
{
    lemma_encode_layers(t1);
    lemma_encode_layers(t2);
    lemma_strip_prefix(NAME_KEY.spec_bytes(), quoted(t1.name) + encode_status(t1), quoted(t2.name) + encode_status(t2));
    lemma_quoted_unique(t1.name, encode_status(t1), t2.name, encode_status(t2));
    lemma_strip_prefix(STATUS_KEY.spec_bytes(), status_bytes(t1.status) + encode_due_date(t1), status_bytes(t2.status) + encode_due_date(t2));
    lemma_status_unique(t1.status, encode_due_date(t1), t2.status, encode_due_date(t2));
    lemma_strip_prefix(DUE_DATE_KEY.spec_bytes(), quoted(t1.due_date) + encode_note(t1), quoted(t2.due_date) + encode_note(t2));
    lemma_quoted_unique(t1.due_date, encode_note(t1), t2.due_date, encode_note(t2));
    lemma_strip_prefix(NOTE_KEY.spec_bytes(), quoted(t1.note) + encode_tags(t1), quoted(t2.note) + encode_tags(t2));
    lemma_quoted_unique(t1.note, encode_tags(t1), t2.note, encode_tags(t2));
    lemma_strip_prefix(TAGS_KEY.spec_bytes(), tag_items(t1.tags) + record_end(), tag_items(t2.tags) + record_end());
    lemma_tag_items_unique(t1.tags, t2.tags);
}

/// `b` is the encoding of the well-formed record `t`.
pub open spec fn encodes(b: Seq<u8>, t: TodoView) -> bool {
    t.wf() && encode_spec(t) == b
}

/// The well-formed record that `b` encodes, if there is one.
#[verifier::opaque]
pub open spec fn decode_spec(b: Seq<u8>) -> Option<TodoView> {
    if exists|t: TodoView| encodes(b, t) {
        Some(choose|t: TodoView| encodes(b, t))
    } else {
        None
    }
}

/// Decoding the encoding of a well-formed record gives back that record.
pub proof fn lemma_decode_encode(t: TodoView)
    requires
        t.wf(),
    ensures
        decode_spec(encode_spec(t)) == Some(t),
{
    reveal(decode_spec);
    assert(encodes(encode_spec(t), t));
    let c = choose|c: TodoView| encodes(encode_spec(t), c);
    lemma_encode_injective(c, t);
}

/// Bytes that decode are exactly the encoding of what they decode to.
pub proof fn lemma_encode_decode(b: Seq<u8>)
    requires
        decode_spec(b) is Some,
    ensures
        encode_spec(decode_spec(b)->Some_0) == b,
        decode_spec(b)->Some_0.wf(),
{
    reveal(decode_spec);
}

/// Steps over `key` where it stands at `pos`.
fn skip_key(b: &[u8], pos: usize, key: &str) -> (r: Option<usize>)
    requires
        pos <= b@.len(),
    ensures
        r matches Some(p) ==> p == pos + key.spec_bytes().len() <= b@.len(),
        forall|x: Seq<u8>|
            rest_at(b@, pos as int) == key.spec_bytes() + x ==> (r matches Some(p) && rest_at(
                b@,
                p as int,
            ) == x),
{
    let k = key.as_bytes();
    proof {
        assert forall|x: Seq<u8>| rest_at(b@, pos as int) == key.spec_bytes() + x implies pos
            + k@.len() <= b@.len() && rest_at(b@, pos + k@.len()) == x by {
            lemma_rest_split(b@, pos as int, k@, x);
        }
    }
    if k.len() > b.len() - pos {
        None
    } else if bytes_at(b, pos, k) {
        Some(pos + k.len())
    } else {
        None
    }
}

/// Reads the name and the status, with the position after them.
fn parse_head(b: &[u8], Ghost(t0): Ghost<TodoView>) -> (r: Option<(String, Status, usize)>)
    ensures
        r matches Some((n, st, p)) ==> p <= b@.len(),
        encode_spec(t0) == b@ ==> (r matches Some((n, st, p)) && n@ == t0.name && st == t0.status
            && rest_at(b@, p as int) == encode_due_date(t0)),
{
    proof {
        lemma_encode_layers(t0);
        assert(rest_at(b@, 0) =~= b@);
    }
    let pos = match skip_key(b, 0, NAME_KEY) {
        Some(p) => p,
        None => {
            return None;
        },
    };
    let (name, pos) = match parse_quoted(b, pos) {
        Some(x) => x,
        None => {
            return None;
        },
    };
    proof {
        if encode_spec(t0) == b@ {
            assert(rest_at(b@, pos as int) == encode_status(t0));
        }
    }
    let pos = match skip_key(b, pos, STATUS_KEY) {
        Some(p) => p,
        None => {
            return None;
        },
    };
    proof {
        if encode_spec(t0) == b@ {
            assert(rest_at(b@, pos as int) == status_bytes(t0.status) + encode_due_date(t0));
        }
    }
    let (status, pos) = match parse_status(b, pos) {
        Some(x) => x,
        None => {
            return None;
        },
    };
    Some((name, status, pos))
}

/// Reads the due date, the note and the tags that follow the status.
fn parse_tail(b: &[u8], pos: usize, Ghost(t0): Ghost<TodoView>) -> (r: Option<
    (String, String, Vec<String>),
>)
    requires
        pos <= b@.len(),
    ensures
        rest_at(b@, pos as int) == encode_due_date(t0) ==> (r matches Some((d, n, g)) && d@
            == t0.due_date && n@ == t0.note && texts(g@) == t0.tags),
{
    let pos = match skip_key(b, pos, DUE_DATE_KEY) {
        Some(p) => p,
        None => {
            return None;
        },
    };
    let (due_date, pos) = match parse_quoted(b, pos) {
        Some(x) => x,
        None => {
            return None;
        },
    };
    let pos = match skip_key(b, pos, NOTE_KEY) {
        Some(p) => p,
        None => {
            return None;
        },
    };
    let (note, pos) = match parse_quoted(b, pos) {
        Some(x) => x,
        None => {
            return None;
        },
    };
    let pos = match skip_key(b, pos, TAGS_KEY) {
        Some(p) => p,
        None => {
            return None;
        },
    };
    match parse_tag_items(b, pos) {
        Some((tags, _)) => Some((due_date, note, tags)),
        None => None,
    }
}

/// Reads a stored record back. Fails with `DecodeError` exactly when the bytes
/// are not the encoding of a well-formed record.
pub fn decode(b: &[u8]) -> (r: Result<Todo, TodoError>)
    ensures
        match r {
            Ok(t) => decode_spec(b@) == Some(t@),
            Err(e) => decode_spec(b@) is None && e == TodoError::DecodeError,
        },
{
    proof {
        reveal(decode_spec);
    }
    let ghost t0 = choose|t: TodoView| encodes(b@, t);
    let (name, status, pos) = match parse_head(b, Ghost(t0)) {
        Some(x) => x,
        None => {
            return Err(TodoError::DecodeError);
        },
    };
    let (due_date, note, tags) = match parse_tail(b, pos, Ghost(t0)) {
        Some(x) => x,
        None => {
            return Err(TodoError::DecodeError);
        },
    };
    if !no_duplicate_texts(&tags) {
        return Err(TodoError::DecodeError);
    }
    let t = Todo { name, status, due_date, note, tags };
    let encoded = encode(&t);
    if !bytes_eq(encoded.as_slice(), b) {
        return Err(TodoError::DecodeError);
    }
    proof {
        assert(encodes(b@, t@));
        lemma_encode_injective(t@, t0);
    }
    Ok(t)
}

/// Concatenation is associative.
pub proof fn lemma_add_assoc(a: Seq<u8>, b: Seq<u8>, c: Seq<u8>)
    ensures
        (a + b) + c == a + (b + c),
{
    assert((a + b) + c =~= a + (b + c));
}

/// Appending a byte to a byte string appends its escaped form.
pub proof fn lemma_esc_all_push(v: Seq<u8>, c: u8)
    ensures
        esc_all(v.push(c)) == esc_all(v) + esc(c),
    decreases v.len(),
{
    if v.len() == 0 {
        assert(v.push(c).drop_first() =~= Seq::<u8>::empty());
        assert(esc_all(v.push(c)) =~= esc(c) + esc_all(Seq::<u8>::empty()));
        assert(esc_all(v) + esc(c) =~= esc(c));
    } else {
        assert(v.push(c).drop_first() =~= v.drop_first().push(c));
        lemma_esc_all_push(v.drop_first(), c);
        assert(esc_all(v.push(c)) =~= esc(v[0]) + esc_all(v.drop_first().push(c)));
        assert(esc_all(v.push(c)) =~= esc_all(v) + esc(c));
    }
}

/// Appending a text to a list appends a comma and its literal.
pub proof fn lemma_tail_items_push(ts: Seq<Seq<char>>, s: Seq<char>)
    ensures
        tail_items(ts.push(s)) == tail_items(ts) + (seq![COMMA] + quoted(s)),
    decreases ts.len(),
{
    if ts.len() == 0 {
        assert(ts.push(s).drop_first() =~= Seq::<Seq<char>>::empty());
        assert(ts.push(s)[0] == s);
        assert(tail_items(Seq::<Seq<char>>::empty()) == Seq::<u8>::empty());
        assert(tail_items(ts.push(s)) =~= seq![COMMA] + (quoted(s) + Seq::<u8>::empty()));
        assert(tail_items(ts) + (seq![COMMA] + quoted(s)) =~= seq![COMMA] + quoted(s));
    } else {
        assert(ts.push(s).drop_first() =~= ts.drop_first().push(s));
        lemma_tail_items_push(ts.drop_first(), s);
        assert(tail_items(ts.push(s)) =~= tail_items(ts) + (seq![COMMA] + quoted(s)));
    }
}

/// The lower-case hexadecimal digit of `n`.
fn hex_digit_of(n: u8) -> (r: u8)
    requires
        n < 16,
    ensures
        r == hex_digit(n),
{
    if n < 10 {
        0x30 + n
    } else {
        0x61 + n - 10
    }
}

/// Appends all of `b`.
fn push_all(out: &mut Vec<u8>, b: &[u8])
    ensures
        final(out)@ == old(out)@ + b@,
{
    let mut i: usize = 0;
    while i < b.len()
        invariant
            i <= b@.len(),
            out@ == old(out)@ + b@.subrange(0, i as int),
        decreases b@.len() - i,
    {
        out.push(b[i]);
        assert(b@.subrange(0, i + 1) =~= b@.subrange(0, i as int).push(b@[i as int]));
        i = i + 1;
    }
    assert(b@.subrange(0, b@.len() as int) =~= b@);
}

/// Appends the escaped form of one byte.
fn push_escaped_byte(out: &mut Vec<u8>, c: u8)
    ensures
        final(out)@ == old(out)@ + esc(c),
{
    if c == QUOTE || c == BACKSLASH {
        out.push(BACKSLASH);
        out.push(c);
    } else if c < 0x20 {
        out.push(BACKSLASH);
        out.push(LETTER_U);
        out.push(DIGIT_ZERO);
        out.push(DIGIT_ZERO);
        out.push(hex_digit_of(c / 16));
        out.push(hex_digit_of(c % 16));
    } else {
        out.push(c);
    }
    assert(final(out)@ =~= old(out)@ + esc(c));
}

/// Appends a text as a JSON string literal.
fn push_quoted(out: &mut Vec<u8>, s: &str)
    ensures
        final(out)@ == old(out)@ + quoted(s@),
{
    let b = s.as_bytes();
    let ghost start = out@;
    out.push(QUOTE);
    let mut i: usize = 0;
    while i < b.len()
        invariant
            b@ == encode_utf8(s@),
            i <= b@.len(),
            out@ == start + seq![QUOTE] + esc_all(b@.subrange(0, i as int)),
        decreases b@.len() - i,
    {
        proof {
            lemma_esc_all_push(b@.subrange(0, i as int), b@[i as int]);
            assert(b@.subrange(0, i + 1) =~= b@.subrange(0, i as int).push(b@[i as int]));
        }
        push_escaped_byte(out, b[i]);
        i = i + 1;
    }
    out.push(QUOTE);
    assert(b@.subrange(0, b@.len() as int) =~= b@);
    assert(out@ =~= start + quoted(s@));
}

/// Appends the JSON string of a status.
fn push_status(out: &mut Vec<u8>, s: Status)
    ensures
        final(out)@ == old(out)@ + status_bytes(s),
{
    match s {
        Status::ToDo => {
            out.push(QUOTE);
            out.push(0x54);
            out.push(0x6f);
            out.push(0x44);
            out.push(0x6f);
            out.push(QUOTE);
        },
        Status::Done => {
            out.push(QUOTE);
            out.push(0x44);
            out.push(0x6f);
            out.push(0x6e);
            out.push(0x65);
            out.push(QUOTE);
        },
    }
    assert(final(out)@ =~= old(out)@ + status_bytes(s));
}

/// Appends the tags as JSON string literals separated by commas.
fn push_tag_items(out: &mut Vec<u8>, tags: &Vec<String>)
    ensures
        final(out)@ == old(out)@ + tag_items(texts(tags@)),
{
    let ghost v = texts(tags@);
    let ghost before_tags = out@;
    let mut i: usize = 0;
    while i < tags.len()
        invariant
            i <= tags@.len(),
            v == texts(tags@),
            out@ == before_tags + tag_items(v.subrange(0, i as int)),
        decreases tags@.len() - i,
    {
        let ghost prev = v.subrange(0, i as int);
        if i > 0 {
            out.push(COMMA);
        }
        push_quoted(out, tags[i].as_str());
        proof {
            let next = v.subrange(0, i + 1);
            assert(v[i as int] == tags@[i as int]@);
            if i == 0 {
                assert(next.drop_first() =~= Seq::<Seq<char>>::empty());
                assert(out@ =~= before_tags + tag_items(next));
            } else {
                assert(next.drop_first() =~= prev.drop_first().push(v[i as int]));
                lemma_tail_items_push(prev.drop_first(), v[i as int]);
                assert(next[0] == prev[0]);
                assert(out@ =~= before_tags + tag_items(next));
            }
        }
        i = i + 1;
    }
    assert(v.subrange(0, tags@.len() as int) =~= v);
}

/// The value of a lower-case hexadecimal digit.
fn hex_value(h: u8) -> (r: Option<u8>)
    ensures
        forall|n: u8| n < 16 && h == hex_digit(n) ==> r == Some(n),
        r matches Some(n) ==> n < 16,
{
    if 0x30 <= h && h <= 0x39 {
        Some(h - 0x30)
    } else if 0x61 <= h && h <= 0x66 {
        Some(h - 0x61 + 10)
    } else {
        None
    }
}

/// The first escaped byte of a non-empty escaped string, and what follows it.
proof fn lemma_esc_all_step(b: Seq<u8>, i: int, v: Seq<u8>, k: int, x: Seq<u8>)
    requires
        0 <= i <= b.len(),
        0 <= k < v.len(),
        rest_at(b, i) == esc_all(v.subrange(k, v.len() as int)) + x,
    ensures
        i + esc(v[k]).len() <= b.len(),
        rest_at(b, i + esc(v[k]).len()) == esc_all(v.subrange(k + 1, v.len() as int)) + x,
        b[i] == esc(v[k])[0],
        esc(v[k]).len() > 1 ==> b[i + 1] == esc(v[k])[1],
        esc(v[k]).len() > 5 ==> b[i + 2] == esc(v[k])[2] && b[i + 3] == esc(v[k])[3] && b[i + 4]
            == esc(v[k])[4] && b[i + 5] == esc(v[k])[5],
{
    let w = v.subrange(k, v.len() as int);
    assert(w.drop_first() =~= v.subrange(k + 1, v.len() as int));
    assert(w[0] == v[k]);
    assert(esc_all(w) + x =~= esc(v[k]) + (esc_all(v.subrange(k + 1, v.len() as int)) + x));
    lemma_rest_split(b, i, esc(v[k]), esc_all(v.subrange(k + 1, v.len() as int)) + x);
    assert(b[i + 0] == esc(v[k])[0]);
    if esc(v[k]).len() > 5 {
        assert(b[i + 1] == esc(v[k])[1]);
        assert(b[i + 2] == esc(v[k])[2]);
        assert(b[i + 3] == esc(v[k])[3]);
        assert(b[i + 4] == esc(v[k])[4]);
        assert(b[i + 5] == esc(v[k])[5]);
    } else if esc(v[k]).len() > 1 {
        assert(b[i + 1] == esc(v[k])[1]);
    }
}

/// Reads the JSON string literal that starts at `pos`, with the position after it.
fn parse_quoted(b: &[u8], pos: usize) -> (r: Option<(String, usize)>)
    requires
        pos <= b@.len(),
    ensures
        forall|s: Seq<char>, x: Seq<u8>|
            #![trigger quoted(s) + x]
            quoted(s) + x == rest_at(b@, pos as int) ==> (r matches Some((t, p)) && t@ == s && p
                == pos + quoted(s).len() && rest_at(b@, p as int) == x),
        r matches Some((t, p)) ==> pos < p <= b@.len(),
{
    let ghost on = exists|s: Seq<char>, x: Seq<u8>| quoted(s) + x == rest_at(b@, pos as int);
    let ghost (s0, x0) = choose|s: Seq<char>, x: Seq<u8>| quoted(s) + x == rest_at(b@, pos as int);
    let ghost v = encode_utf8(s0);
    let ghost tail = seq![QUOTE] + x0;
    proof {
        assert forall|s: Seq<char>, x: Seq<u8>|
            #![trigger quoted(s) + x]
            quoted(s) + x == rest_at(b@, pos as int) implies on && s == s0 && x == x0 by {
            lemma_quoted_unique(s, x, s0, x0);
        }
        if on {
            assert(quoted(s0) + x0 =~= seq![QUOTE] + (esc_all(v) + tail));
            lemma_rest_split(b@, pos as int, seq![QUOTE], esc_all(v) + tail);
            assert(b@[pos + 0] == seq![QUOTE][0]);
            assert(v.subrange(0, v.len() as int) =~= v);
        }
    }
    if pos >= b.len() || b[pos] != QUOTE {
        return None;
    }
    let mut out: Vec<u8> = Vec::new();
    let mut i: usize = pos + 1;
    loop
        invariant
            pos < i <= b@.len(),
            b@.len() == b.len(),
            tail == seq![QUOTE] + x0,
            v == encode_utf8(s0),
            forall|s: Seq<char>, x: Seq<u8>|
                #![trigger quoted(s) + x]
                quoted(s) + x == rest_at(b@, pos as int) ==> on && s == s0 && x == x0,
            on ==> quoted(s0) + x0 == rest_at(b@, pos as int),
            on ==> out@.len() <= v.len() && out@ == v.subrange(0, out@.len() as int) && rest_at(
                b@,
                i as int,
            ) == esc_all(v.subrange(out@.len() as int, v.len() as int)) + tail,
        ensures
            pos < i < b@.len(),
            b@.len() == b.len(),
            on ==> out@ == v && rest_at(b@, i + 1) == x0,
        decreases b@.len() - i,
    {
        let ghost k = out@.len() as int;
        proof {
            if on && k < v.len() {
                lemma_esc_all_step(b@, i as int, v, k, tail);
                assert(v.subrange(0, k + 1) =~= v.subrange(0, k).push(v[k]));
            }
            if on && k == v.len() {
                assert(v.subrange(k, v.len() as int) =~= Seq::<u8>::empty());
                assert(esc_all(Seq::<u8>::empty()) == Seq::<u8>::empty());
                assert(v.subrange(0, k) =~= v);
                assert(esc_all(Seq::<u8>::empty()) + tail =~= tail);
                lemma_rest_split(b@, i as int, seq![QUOTE], x0);
                assert(b@[i + 0] == seq![QUOTE][0]);
            }
        }
        if i >= b.len() {
            return None;
        }
        let c = b[i];
        if c == QUOTE {
            break ;
        } else if c == BACKSLASH {
            if i + 1 >= b.len() {
                return None;
            }
            let e = b[i + 1];
            if e == QUOTE || e == BACKSLASH {
                out.push(e);
                i = i + 2;
            } else if e == LETTER_U {
                if b.len() - i < 6 || b[i + 2] != DIGIT_ZERO || b[i + 3] != DIGIT_ZERO {
                    return None;
                }
                let hi = hex_value(b[i + 4]);
                let lo = hex_value(b[i + 5]);
                match (hi, lo) {
                    (Some(h), Some(l)) => {
                        if h >= 2 {
                            return None;
                        }
                        proof {
                            if on && k < v.len() {
                                let c0 = v[k];
                                assert(c0 == (c0 / 16) * 16 + c0 % 16);
                            }
                        }
                        out.push(h * 16 + l);
                        i = i + 6;
                    },
                    _ => {
                        return None;
                    },
                }
            } else {
                return None;
            }
        } else {
            out.push(c);
            i = i + 1;
        }
    }
    proof {
        if on {
            vstd::utf8::encode_utf8_valid_utf8(s0);
            vstd::utf8::encode_utf8_decode_utf8(s0);
        }
    }
    match String::from_utf8(out) {
        Ok(t) => {
            proof {
                if on {
                    assert(b@.len() - (i + 1) == x0.len());
                    assert(b@.len() - pos == quoted(s0).len() + x0.len());
                    lemma_rest_split(b@, pos as int, quoted(s0), x0);
                }
            }
            Some((t, i + 1))
        },
        Err(_) => None,
    }
}

/// Reads the JSON string of a status that starts at `pos`.
fn parse_status(b: &[u8], pos: usize) -> (r: Option<(Status, usize)>)
    requires
        pos <= b@.len(),
    ensures
        forall|st: Status, x: Seq<u8>|
            #![trigger status_bytes(st) + x]
            status_bytes(st) + x == rest_at(b@, pos as int) ==> (r matches Some((s2, p)) && s2 == st
                && p == pos + 6 && rest_at(b@, p as int) == x),
        r matches Some((st, p)) ==> p <= b@.len(),
{
    let todo: Vec<u8> = vec![QUOTE, 0x54, 0x6f, 0x44, 0x6f, QUOTE];
    let done: Vec<u8> = vec![QUOTE, 0x44, 0x6f, 0x6e, 0x65, QUOTE];
    assert(todo@ =~= status_bytes(Status::ToDo));
    assert(done@ =~= status_bytes(Status::Done));
    proof {
        assert forall|st: Status, x: Seq<u8>|
            #![trigger status_bytes(st) + x]
            status_bytes(st) + x == rest_at(b@, pos as int) implies pos + 6 <= b@.len()
            && b@.subrange(pos as int, pos + 6) == status_bytes(st) && rest_at(b@, pos + 6) == x by {
            lemma_rest_split(b@, pos as int, status_bytes(st), x);
        }
        assert(todo@[1] != done@[1]);
    }
    if b.len() - pos < 6 {
        None
    } else if bytes_at(b, pos, todo.as_slice()) {
        Some((Status::ToDo, pos + 6))
    } else if bytes_at(b, pos, done.as_slice()) {
        Some((Status::Done, pos + 6))
    } else {
        None
    }
}

/// Reads the comma-separated JSON string literals that start at `pos` and stop
/// before the end of a record, with the position of that end.
fn parse_tag_items(b: &[u8], pos: usize) -> (r: Option<(Vec<String>, usize)>)
    requires
        pos <= b@.len(),
    ensures
        forall|ts: Seq<Seq<char>>|
            #![trigger tag_items(ts)]
            tag_items(ts) + record_end() == rest_at(b@, pos as int) ==> (r matches Some((v, p))
                && texts(v@) == ts && p <= b@.len() && rest_at(b@, p as int) == record_end()),
{
    let ghost on = exists|ts: Seq<Seq<char>>| tag_items(ts) + record_end() == rest_at(b@, pos as int);
    let ghost ts0 = choose|ts: Seq<Seq<char>>| tag_items(ts) + record_end() == rest_at(b@, pos as int);
    let ghost e = record_end();
    proof {
        assert forall|ts: Seq<Seq<char>>|
            #![trigger tag_items(ts)]
            tag_items(ts) + record_end() == rest_at(b@, pos as int) implies on && ts == ts0 by {
            lemma_tag_items_unique(ts, ts0);
        }
    }
    let mut tags: Vec<String> = Vec::new();
    if pos < b.len() && b[pos] == CLOSE_BRACKET {
        proof {
            if on && ts0.len() > 0 {
                assert(tag_items(ts0) + e =~= quoted(ts0[0]) + (tail_items(ts0.drop_first()) + e));
                lemma_rest_split(b@, pos as int, quoted(ts0[0]), tail_items(ts0.drop_first()) + e);
                assert(b@[pos + 0] == quoted(ts0[0])[0]);
            }
            if on {
                assert(tag_items(ts0) + e =~= e);
                assert(texts(tags@) =~= ts0);
            }
        }
        return Some((tags, pos));
    }
    proof {
        if on {
            if ts0.len() == 0 {
                assert(tag_items(ts0) + e =~= e);
                assert(b@[pos as int] == rest_at(b@, pos as int)[0]);
            }
            assert(ts0.len() > 0);
            assert(tag_items(ts0) + e =~= quoted(ts0[0]) + (tail_items(ts0.drop_first()) + e));
            lemma_rest_split(b@, pos as int, quoted(ts0[0]), tail_items(ts0.drop_first()) + e);
        }
    }
    let mut p: usize = match parse_quoted(b, pos) {
        Some((t, q)) => {
            tags.push(t);
            q
        },
        None => {
            return None;
        },
    };
    proof {
        if on {
            assert(ts0.drop_first() =~= ts0.subrange(1, ts0.len() as int));
            assert(texts(tags@) =~= ts0.subrange(0, 1));
        }
    }
    loop
        invariant
            pos < p <= b@.len(),
            b@.len() == b.len(),
            e == record_end(),
            forall|ts: Seq<Seq<char>>|
                #![trigger tag_items(ts)]
                tag_items(ts) + record_end() == rest_at(b@, pos as int) ==> on && ts == ts0,
            on ==> 1 <= tags@.len() <= ts0.len() && texts(tags@) == ts0.subrange(
                0,
                tags@.len() as int,
            ) && rest_at(b@, p as int) == tail_items(ts0.subrange(tags@.len() as int, ts0.len() as int))
                + e,
        ensures
            p <= b@.len(),
            on ==> texts(tags@) == ts0 && rest_at(b@, p as int) == e,
        decreases b@.len() - p,
    {
        let ghost k = tags@.len() as int;
        let ghost rest = ts0.subrange(k, ts0.len() as int);
        proof {
            if on && k < ts0.len() {
                assert(rest.drop_first() =~= ts0.subrange(k + 1, ts0.len() as int));
                assert(rest[0] == ts0[k]);
                assert(tail_items(rest) + e =~= seq![COMMA] + (quoted(ts0[k]) + (tail_items(
                    ts0.subrange(k + 1, ts0.len() as int),
                ) + e)));
                lemma_rest_split(
                    b@,
                    p as int,
                    seq![COMMA],
                    quoted(ts0[k]) + (tail_items(ts0.subrange(k + 1, ts0.len() as int)) + e),
                );
                assert(b@[p + 0] == seq![COMMA][0]);
                lemma_rest_split(
                    b@,
                    p + 1,
                    quoted(ts0[k]),
                    tail_items(ts0.subrange(k + 1, ts0.len() as int)) + e,
                );
            }
            if on && k == ts0.len() {
                assert(rest =~= Seq::<Seq<char>>::empty());
                assert(tail_items(rest) + e =~= e);
                assert(ts0.subrange(0, k) =~= ts0);
                lemma_rest_split(b@, p as int, e, Seq::<u8>::empty());
                assert(b@[p + 0] == e[0]);
            }
        }
        if p < b.len() && b[p] == COMMA {
            match parse_quoted(b, p + 1) {
                Some((t, q)) => {
                    let ghost before = tags@;
                    tags.push(t);
                    proof {
                        if on {
                            assert(ts0.subrange(0, k + 1) =~= ts0.subrange(0, k).push(ts0[k]));
                            assert(texts(tags@) =~= texts(before).push(t@));
                        }
                    }
                    p = q;
                },
                None => {
                    return None;
                },
            }
        } else {
            break ;
        }
    }
    Some((tags, p))
}

/// The stored form of a record.
pub fn encode(t: &Todo) -> (r: Vec<u8>)
    ensures
        r@ == encode_spec(t@),
{
    let mut out: Vec<u8> = Vec::new();
    push_all(&mut out, NAME_KEY.as_bytes());
    push_quoted(&mut out, t.name.as_str());
    push_all(&mut out, STATUS_KEY.as_bytes());
    push_status(&mut out, t.status);
    push_all(&mut out, DUE_DATE_KEY.as_bytes());
    push_quoted(&mut out, t.due_date.as_str());
    push_all(&mut out, NOTE_KEY.as_bytes());
    push_quoted(&mut out, t.note.as_str());
    push_all(&mut out, TAGS_KEY.as_bytes());
    push_tag_items(&mut out, &t.tags);
    let ghost body = out@;
    out.push(CLOSE_BRACKET);
    out.push(CLOSE_BRACE);
    assert(out@ =~= body + record_end());
    out
}

} // verus!
