//! Random-access helpers over the bytes of an input: member validation and
//! seeking, shared by every input that holds its bytes in one slice.
use vstd::prelude::*;
use crate::label::{JsonString, quoted};

verus! {

/// The escape character of JSON strings.
pub const BACKSLASH: u8 = 92;

/// The label, with its quotes, occupies `s[p .. p + |l| + 2)`, and its opening
/// quote is not escaped.
pub open spec fn key_at(s: Seq<u8>, p: int, l: Seq<u8>) -> bool {
    &&& 0 <= p
    &&& p + l.len() + 2 <= s.len()
    &&& s.subrange(p, p + l.len() + 2) == quoted(l)
    &&& (p == 0 || s[p - 1] != BACKSLASH)
}

/// The span `[from, to]` is exactly the quoted label, correctly delimited.
pub open spec fn member_match(s: Seq<u8>, from: int, to: int, l: Seq<u8>) -> bool {
    to == from + l.len() + 1 && key_at(s, from, l)
}

/// The bytes that `u8::is_ascii_whitespace` accepts.
pub open spec fn is_whitespace(b: u8) -> bool {
    b == 32 || b == 9 || b == 10 || b == 12 || b == 13
}

/// Whether `b` is ASCII whitespace (space, tab, line feed, form feed, carriage return).
pub fn is_ascii_whitespace(b: u8) -> (r: bool)
    ensures
        r == is_whitespace(b),
{
    b == 32 || b == 9 || b == 10 || b == 12 || b == 13
}

/// Whether the bytes `[from, to]` are the quoted label, as a key: the span lies
/// in the input, equals the label with its quotes, and its opening quote is not
/// preceded by an escape.
pub fn is_member_match(bytes: &[u8], from: usize, to: usize, label: &JsonString) -> (r: bool)
    requires
        label.wf(),
        from <= to,
    ensures
        r == member_match(bytes@, from as int, to as int, label@),
{
    if to >= bytes.len() {
        return false;
    }
    let q = label.bytes_with_quotes();
    if to - from + 1 != q.len() {
        return false;
    }
    let mut k: usize = 0;
    while k < q.len()
        invariant
            to < bytes@.len(),
            to - from + 1 == q@.len(),
            q@ == quoted(label@),
            k <= q@.len(),
            forall|m: int| 0 <= m < k ==> bytes@[from + m] == q@[m],
        decreases q@.len() - k,
    {
        if bytes[from + k] != q[k] {
            proof {
                assert(bytes@.subrange(from as int, from + label@.len() + 2)[k as int] != quoted(label@)[k as int]);
            }
            return false;
        }
        k = k + 1;
    }
    proof {
        assert(bytes@.subrange(from as int, from + label@.len() + 2) =~= quoted(label@));
    }
    from == 0 || bytes[from - 1] != BACKSLASH
}

/// The last position at or before `from` that holds `needle`.
pub fn seek_backward(bytes: &[u8], from: usize, needle: u8) -> (r: Option<usize>)
    requires
        from < bytes@.len(),
    ensures
        match r {
            Some(i) => i <= from && bytes@[i as int] == needle
                && forall|k: int| i < k <= from ==> bytes@[k] != needle,
            None => forall|k: int| 0 <= k <= from ==> bytes@[k] != needle,
        },
{
    let mut idx: usize = from;
    loop
        invariant
            idx <= from < bytes@.len(),
            forall|k: int| idx < k <= from ==> bytes@[k] != needle,
        decreases idx,
    {
        if bytes[idx] == needle {
            return Some(idx);
        }
        if idx == 0 {
            return None;
        }
        idx = idx - 1;
    }
}

/// The first position at or after `from` that holds a non-whitespace byte, with that byte.
pub fn seek_non_whitespace_forward(bytes: &[u8], from: usize) -> (r: Option<(usize, u8)>)
    ensures
        match r {
            Some((i, b)) => from <= i < bytes@.len() && b == bytes@[i as int] && !is_whitespace(b)
                && forall|k: int| from <= k < i ==> is_whitespace(#[trigger] bytes@[k]),
            None => forall|k: int| from <= k < bytes@.len() ==> is_whitespace(#[trigger] bytes@[k]),
        },
{
    let mut idx: usize = from;
    if idx >= bytes.len() {
        return None;
    }
    loop
        invariant
            from <= idx < bytes@.len(),
            forall|k: int| from <= k < idx ==> is_whitespace(#[trigger] bytes@[k]),
        decreases bytes@.len() - idx,
    {
        let b = bytes[idx];
        if !is_ascii_whitespace(b) {
            return Some((idx, b));
        }
        idx = idx + 1;
        if idx == bytes.len() {
            return None;
        }
    }
}

/// The last position at or before `from` that holds a non-whitespace byte, with that byte.
pub fn seek_non_whitespace_backward(bytes: &[u8], from: usize) -> (r: Option<(usize, u8)>)
    ensures
        match r {
            Some((i, b)) => i <= from < bytes@.len() && b == bytes@[i as int] && !is_whitespace(b)
                && forall|k: int| i < k <= from ==> is_whitespace(#[trigger] bytes@[k]),
            None => from >= bytes@.len()
                || forall|k: int| 0 <= k <= from ==> is_whitespace(#[trigger] bytes@[k]),
        },
{
    let mut idx: usize = from;
    if idx >= bytes.len() {
        return None;
    }
    loop
        invariant
            idx <= from < bytes@.len(),
            forall|k: int| idx < k <= from ==> is_whitespace(#[trigger] bytes@[k]),
        decreases idx,
    {
        let b = bytes[idx];
        if !is_ascii_whitespace(b) {
            return Some((idx, b));
        }
        if idx == 0 {
            return None;
        }
        idx = idx - 1;
    }
}

} // verus!
