//! Byte strings.

use vstd::prelude::*;
use vstd::string::*;

verus! {

/// The bytes of a text.
pub open spec fn utf8(s: Seq<char>) -> Seq<u8> {
    vstd::utf8::encode_utf8(s)
}

/// Puts `b` behind `out`.
pub fn append(out: &mut Vec<u8>, b: &[u8])
    ensures
        final(out)@ == old(out)@ + b@,
{
    let ghost start = out@;
    out.extend_from_slice(b);
    assert(out@ =~= start + b@);
}

/// Puts the bytes of the text `s` behind `out`.
pub fn append_text(out: &mut Vec<u8>, s: &str)
    ensures
        final(out)@ == old(out)@ + utf8(s@),
{
    append(out, s.as_bytes());
}

/// A copy of `b`.
pub fn copy(b: &[u8]) -> (r: Vec<u8>)
    ensures
        r@ == b@,
{
    let mut out: Vec<u8> = Vec::new();
    append(&mut out, b);
    assert(out@ =~= b@);
    out
}

/// Whether `a` and `b` are the same.
pub fn equal(a: &[u8], b: &[u8]) -> (r: bool)
    ensures
        r == (a@ == b@),
{
    if a.len() != b.len() {
        return false;
    }
    let mut i: usize = 0;
    while i < a.len()
        invariant
            i <= a@.len() == b@.len(),
            forall|j: int| 0 <= j < i ==> a@[j] == b@[j],
        decreases a@.len() - i,
    {
        if a[i] != b[i] {
            assert(a@[i as int] != b@[i as int]);
            return false;
        }
        i = i + 1;
    }
    assert(a@ =~= b@);
    true
}

/// Whether `b` begins with `p`.
pub open spec fn has_prefix(b: Seq<u8>, p: Seq<u8>) -> bool {
    p.len() <= b.len() && b.take(p.len() as int) == p
}

/// What follows the prefix `p` of `b`, or `None` where `b` does not begin with it.
pub fn strip_prefix(b: &[u8], p: &[u8]) -> (r: Option<Vec<u8>>)
    ensures
        match r {
            Some(rest) => has_prefix(b@, p@) && rest@ == b@.skip(p@.len() as int),
            None => !has_prefix(b@, p@),
        },
{
    if b.len() < p.len() {
        return None;
    }
    let front = vstd::slice::slice_subrange(b, 0, p.len());
    assert(front@ =~= b@.take(p@.len() as int));
    if !equal(front, p) {
        return None;
    }
    let rest = vstd::slice::slice_subrange(b, p.len(), b.len());
    assert(rest@ =~= b@.skip(p@.len() as int));
    Some(copy(rest))
}

/// The bytes of a text are those of its UTF-8 encoding; bytes begin with others exactly where
/// something, or nothing, put behind these gives them.
pub proof fn law_bytes_of_texts(s: Seq<char>, b: Seq<u8>, p: Seq<u8>, rest: Seq<u8>)
    ensures
        utf8(s) == vstd::utf8::encode_utf8(s),
        has_prefix(p + rest, p),
        has_prefix(b, p) ==> b == p + b.skip(p.len() as int),
{
    assert((p + rest).take(p.len() as int) =~= p);
    if has_prefix(b, p) {
        assert(b =~= p + b.skip(p.len() as int));
    }
}

} // verus!
