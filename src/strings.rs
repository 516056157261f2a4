use vstd::prelude::*;
use vstd::utf8::{decode_utf8, valid_utf8};

verus! {

#[verifier::external_type_specification]
#[verifier::external_body]
pub struct ExFromUtf8Error(std::string::FromUtf8Error);

/// Relies on `String::push`: the character is appended at the end.
pub assume_specification[ String::push ](s: &mut String, ch: char)
    ensures
        final(s)@ == old(s)@.push(ch),
;

/// Relies on `String::from_utf8`: it succeeds exactly on valid UTF-8 and then
/// holds the characters that the bytes encode.
pub assume_specification[ String::from_utf8 ](vec: Vec<u8>) -> (r: Result<
    String,
    std::string::FromUtf8Error,
>)
    ensures
        r is Ok <==> valid_utf8(vec@),
        r matches Ok(s) ==> s@ == decode_utf8(vec@),
;

/// Compares two byte strings.
pub fn bytes_eq(a: &[u8], b: &[u8]) -> (r: bool)
    ensures
        r == (a@ == b@),
{
    if a.len() != b.len() {
        return false;
    }
    let mut i: usize = 0;
    while i < a.len()
        invariant
            a@.len() == b@.len(),
            i <= a@.len(),
            a@.subrange(0, i as int) == b@.subrange(0, i as int),
        decreases a@.len() - i,
    {
        if a[i] != b[i] {
            assert(a@[i as int] != b@[i as int]);
            return false;
        }
        assert(a@.subrange(0, i + 1) == a@.subrange(0, i as int).push(a@[i as int]));
        assert(b@.subrange(0, i + 1) == b@.subrange(0, i as int).push(b@[i as int]));
        i = i + 1;
    }
    assert(a@ == a@.subrange(0, a@.len() as int));
    assert(b@ == b@.subrange(0, b@.len() as int));
    true
}

/// What follows position `pos` of `b`.
pub open spec fn rest_at(b: Seq<u8>, pos: int) -> Seq<u8> {
    b.subrange(pos, b.len() as int)
}

/// What follows a prefix that stands at `pos`.
pub proof fn lemma_rest_split(b: Seq<u8>, pos: int, k: Seq<u8>, x: Seq<u8>)
    requires
        0 <= pos <= b.len(),
        rest_at(b, pos) == k + x,
    ensures
        pos + k.len() <= b.len(),
        b.subrange(pos, pos + k.len()) == k,
        rest_at(b, pos + k.len()) == x,
        forall|j: int| 0 <= j < k.len() ==> b[pos + j] == k[j],
{
    assert(b.subrange(pos, pos + k.len()) =~= (k + x).subrange(0, k.len() as int));
    assert(rest_at(b, pos + k.len()) =~= (k + x).subrange(k.len() as int, (k + x).len() as int));
    assert forall|j: int| 0 <= j < k.len() implies b[pos + j] == k[j] by {
        assert(b[pos + j] == rest_at(b, pos)[j]);
    }
}

/// Whether `lit` stands in `b` at `pos`.
pub fn bytes_at(b: &[u8], pos: usize, lit: &[u8]) -> (r: bool)
    requires
        pos <= b@.len(),
    ensures
        r == (pos + lit@.len() <= b@.len() && b@.subrange(pos as int, pos + lit@.len()) == lit@),
        forall|x: Seq<u8>| rest_at(b@, pos as int) == lit@ + x ==> r,
{
    proof {
        assert forall|x: Seq<u8>| rest_at(b@, pos as int) == lit@ + x implies pos + lit@.len()
            <= b@.len() && b@.subrange(pos as int, pos + lit@.len()) == lit@ by {
            lemma_rest_split(b@, pos as int, lit@, x);
        }
    }
    if lit.len() > b.len() - pos {
        return false;
    }
    let mut i: usize = 0;
    while i < lit.len()
        invariant
            pos + lit@.len() <= b@.len(),
            b@.len() == b.len(),
            i <= lit@.len(),
            b@.subrange(pos as int, pos + i) == lit@.subrange(0, i as int),
        decreases lit@.len() - i,
    {
        if b[pos + i] != lit[i] {
            assert(b@.subrange(pos as int, pos + lit@.len())[i as int] != lit@[i as int]);
            return false;
        }
        assert(b@.subrange(pos as int, pos + i + 1) =~= b@.subrange(pos as int, pos + i).push(
            b@[pos + i],
        ));
        assert(lit@.subrange(0, i + 1) =~= lit@.subrange(0, i as int).push(lit@[i as int]));
        i = i + 1;
    }
    assert(lit@.subrange(0, lit@.len() as int) =~= lit@);
    true
}

} // verus!
