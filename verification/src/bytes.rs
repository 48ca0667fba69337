//! Small byte-sequence helpers and the one conversion from bytes to a
//! `String`.

use vstd::prelude::*;
use vstd::string::StringSliceAdditionalSpecFns;
use vstd::utf8::*;

use crate::lines::views;

verus! {

/// `String::from_utf8`: the string that `bytes` encode, or `None` when
/// they are not valid UTF-8. The contract restates the documentation of
/// std: the conversion succeeds exactly on valid UTF-8 and the string's
/// characters are the ones the bytes encode.
#[verifier::external_body]
pub(crate) fn string_from_utf8(bytes: Vec<u8>) -> (r: Option<String>)
    ensures
        r is Some <==> valid_utf8(bytes@),
        r matches Some(s) ==> s@ == decode_utf8(bytes@),
{
    String::from_utf8(bytes).ok()
}

/// `std::str::from_utf8`: the string slice over `bytes`, or `None` when
/// they are not valid UTF-8. The contract restates the documentation of
/// std: the conversion succeeds exactly on valid UTF-8 and the slice's
/// characters are the ones the bytes encode.
#[verifier::external_body]
pub(crate) fn str_from_utf8(bytes: &[u8]) -> (r: Option<&str>)
    ensures
        r is Some <==> valid_utf8(bytes@),
        r matches Some(s) ==> s@ == decode_utf8(bytes@),
{
    std::str::from_utf8(bytes).ok()
}

/// A fresh vector holding the bytes of `s`.
pub(crate) fn copy_bytes(s: &[u8]) -> (r: Vec<u8>)
    ensures
        r@ == s@,
{
    let mut r: Vec<u8> = Vec::new();
    let mut k: usize = 0;
    while k < s.len()
        invariant
            k <= s@.len(),
            r@ == s@.take(k as int),
        decreases s.len() - k,
    {
        r.push(s[k]);
        k = k + 1;
        assert(r@ =~= s@.take(k as int));
    }
    assert(s@.take(k as int) =~= s@);
    r
}

/// Appends the bytes of `s` to `out`.
pub(crate) fn push_bytes(out: &mut Vec<u8>, s: &[u8])
    ensures
        final(out)@ == old(out)@ + s@,
{
    let ghost start = out@;
    let mut k: usize = 0;
    while k < s.len()
        invariant
            k <= s@.len(),
            out@ == start + s@.take(k as int),
        decreases s.len() - k,
    {
        out.push(s[k]);
        k = k + 1;
        assert(out@ =~= start + s@.take(k as int));
    }
    assert(s@.take(k as int) =~= s@);
}

/// Whether `s` begins with `prefix`.
pub open spec fn starts_with(s: Seq<u8>, prefix: Seq<u8>) -> bool {
    prefix.len() <= s.len() && s.take(prefix.len() as int) == prefix
}

/// Whether `s` begins with `prefix`.
pub(crate) fn has_prefix(s: &[u8], prefix: &[u8]) -> (r: bool)
    ensures
        r == starts_with(s@, prefix@),
{
    if prefix.len() > s.len() {
        return false;
    }
    let mut k: usize = 0;
    while k < prefix.len()
        invariant
            prefix@.len() <= s@.len(),
            k <= prefix@.len(),
            forall|i: int| 0 <= i < k ==> s@[i] == prefix@[i],
        decreases prefix.len() - k,
    {
        if s[k] != prefix[k] {
            assert(s@.take(prefix@.len() as int)[k as int] != prefix@[k as int]);
            return false;
        }
        k = k + 1;
    }
    assert(s@.take(prefix@.len() as int) =~= prefix@);
    true
}

/// The bytes of the first `k` slices of `ls` number no more than all of them.
pub proof fn lemma_span_le_total(ls: Seq<Seq<u8>>, k: int)
    requires
        0 <= k <= ls.len(),
    ensures
        ls.take(k).flatten().len() <= ls.flatten().len(),
{
    crate::lines::lemma_flatten_split(ls, k);
}

/// The number of bytes in all of `ls`.
pub(crate) fn total_len(ls: &[&str]) -> (r: usize)
    requires
        views(ls@).flatten().len() <= usize::MAX,
    ensures
        r == views(ls@).flatten().len(),
{
    let ghost v = views(ls@);
    let mut total: usize = 0;
    let mut k: usize = 0;
    while k < ls.len()
        invariant
            v == views(ls@),
            v.flatten().len() <= usize::MAX,
            k <= ls@.len(),
            total == v.take(k as int).flatten().len(),
        decreases ls.len() - k,
    {
        proof {
            crate::lines::lemma_span_step(v, k as int);
            lemma_span_le_total(v, k + 1);
        }
        total = total + ls[k].len();
        k = k + 1;
    }
    assert(v.take(k as int) =~= v);
    total
}

/// All the bytes of `ls`, one slice after another.
pub(crate) fn concat_lines(ls: &[&str]) -> (r: Vec<u8>)
    ensures
        r@ == views(ls@).flatten(),
{
    let ghost v = views(ls@);
    let mut out: Vec<u8> = Vec::new();
    let mut k: usize = 0;
    while k < ls.len()
        invariant
            v == views(ls@),
            k <= ls@.len(),
            out@ == v.take(k as int).flatten(),
        decreases ls.len() - k,
    {
        proof {
            crate::lines::lemma_span_step(v, k as int);
        }
        push_bytes(&mut out, ls[k].as_bytes());
        k = k + 1;
    }
    assert(v.take(k as int) =~= v);
    out
}

} // verus!
