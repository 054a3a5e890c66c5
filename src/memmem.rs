//! The linear label matcher: scans blocks byte by byte for the label's first
//! character and confirms each candidate with the member validator.
use vstd::prelude::*;
use crate::input::{MAX_BLOCK_SIZE, InputError, MmapInput, MmapBlockIterator};
use crate::label::{JsonString, QUOTE, quoted};
use crate::in_slice::{key_at, BACKSLASH};

verus! {

/// No key of label `l` starts at a position in `[lo, hi)`.
pub open spec fn no_key_in(s: Seq<u8>, lo: int, hi: int, l: Seq<u8>) -> bool {
    forall|p: int| lo <= p < hi ==> !key_at(s, p, l)
}

/// `p` is the first position at or after `lo` where a key of label `l` starts.
pub open spec fn is_first_key_from(s: Seq<u8>, lo: int, p: int, l: Seq<u8>) -> bool {
    lo <= p && key_at(s, p, l) && no_key_in(s, lo, p, l)
}

/// `r` is what a search for label `l` from position `lo` must report: the
/// first key at or after `lo`, or nothing when there is none.
pub open spec fn search_result(s: Seq<u8>, lo: int, l: Seq<u8>, r: Option<int>) -> bool {
    match r {
        Some(p) => is_first_key_from(s, lo, p, l),
        None => forall|p: int| lo <= p ==> !key_at(s, p, l),
    }
}

/// The block of `n` bytes of `s` that holds position `j`.
pub open spec fn block_of(s: Seq<u8>, j: int, n: int) -> Seq<u8> {
    s.subrange(j - j % n, j - j % n + n)
}

/// A key starts with its quote, followed by the label's first byte, and fits in the input.
pub proof fn lemma_key_bytes(s: Seq<u8>, p: int, l: Seq<u8>)
    requires
        key_at(s, p, l),
        l.len() > 0,
    ensures
        s[p] == QUOTE,
        s[p + 1] == l[0],
        p + l.len() + 1 < s.len(),
{
    assert(s.subrange(p, p + l.len() + 2)[0] == quoted(l)[0]);
    assert(s.subrange(p, p + l.len() + 2)[1] == quoted(l)[1]);
}

/// A key of label `l` lies inside the input.
pub proof fn lemma_key_bytes_fit(s: Seq<u8>, p: int, l: Seq<u8>)
    requires
        key_at(s, p, l),
    ensures
        0 <= p,
        p + l.len() + 2 <= s.len(),
{
}

/// Looks for the first key at or after `start_idx` inside `first_block`, the
/// block of `N` bytes of the input that holds `start_idx`: the candidates are
/// the quotes from `start_idx` to the end of the block.
pub fn find_label_in_first_block<'i, const N: usize>(
    input: &'i MmapInput,
    first_block: &'i [u8],
    start_idx: usize,
    label: &JsonString,
) -> (r: Result<Option<(usize, &'i [u8])>, InputError>)
    requires
        label.wf(),
        input.wf(),
        N > 0,
        start_idx - start_idx % N + N <= input@.len(),
        first_block@ == block_of(input@, start_idx as int, N as int),
    ensures
        match r {
            Ok(Some((p, b))) => b == first_block && p < start_idx - start_idx % N + N
                && is_first_key_from(input@, start_idx as int, p as int, label@),
            Ok(None) => no_key_in(input@, start_idx as int, start_idx - start_idx % N + N, label@),
            Err(_) => false,
        },
{
    proof {
        vstd::arithmetic::div_mod::lemma_mod_decreases(start_idx as nat, N as nat);
        vstd::arithmetic::div_mod::lemma_mod_bound(start_idx as int, N as int);
    }
    let block_start = start_idx - start_idx % N;
    let label_size = label.bytes_with_quotes().len();
    let mut i: usize = start_idx % N;
    while i < N
        invariant
            label.wf(),
            label_size == label@.len() + 2,
            block_start == start_idx - start_idx % N,
            block_start + N <= input@.len(),
            input@.len() <= usize::MAX,
            first_block@ == input@.subrange(block_start as int, block_start + N),
            start_idx % N <= i <= N,
            no_key_in(input@, start_idx as int, block_start + i, label@),
        decreases N - i,
    {
        let j = block_start + i;
        if first_block[i] == QUOTE && label_size - 1 <= usize::MAX - j {
            if input.is_member_match(j, j + (label_size - 1), label) {
                return Ok(Some((j, first_block)));
            }
        }
        proof {
            if key_at(input@, j as int, label@) {
                assert(input@.subrange(j as int, j + label@.len() + 2)[0] == quoted(label@)[0]);
            }
        }
        i = i + 1;
    }
    Ok(None)
}

/// The linear matcher over a mapped input and a block cursor over it.
pub struct SequentialMemmemClassifier<'i, const N: usize> {
    input: &'i MmapInput,
    iter: MmapBlockIterator<'i, N>,
}

impl<'i, const N: usize> SequentialMemmemClassifier<'i, N> {
    /// The input searched.
    pub closed spec fn input(&self) -> Seq<u8> {
        self.input@
    }

    /// The cursor that the search advances.
    pub closed spec fn cursor(&self) -> MmapBlockIterator<'i, N> {
        self.iter
    }

    /// The cursor runs over the input, block by whole block.
    pub open spec fn wf(&self) -> bool {
        &&& self.cursor().wf()
        &&& self.cursor().bytes() == self.input()
        &&& self.input().len() as int % (MAX_BLOCK_SIZE as int) == 0
        &&& self.input().len() <= usize::MAX
    }

    /// A matcher that searches `input` with the cursor `iter` over it.
    pub fn new(input: &'i MmapInput, iter: MmapBlockIterator<'i, N>) -> (r: Self)
        ensures
            r.input() == input@,
            r.cursor() == iter,
    {
        SequentialMemmemClassifier { input, iter }
    }

    /// Gives the cursor back, where the search left it.
    pub fn into_iter(self) -> (r: MmapBlockIterator<'i, N>)
        ensures
            r == self.cursor(),
    {
        self.iter
    }

    /// Pulls blocks from the cursor, whose position is `offset`, until a key of
    /// `label` is confirmed; a candidate is each byte equal to the label's first
    /// byte, whose preceding byte is taken as the opening quote. Returns the
    /// position of the first key whose first label byte is at or after `offset`,
    /// with the block that holds that byte, or `None` once the cursor is spent.
    pub fn find_label_sequential(&mut self, label: &JsonString, offset: usize) -> (r: Result<
        Option<(usize, &'i [u8])>,
        InputError,
    >)
        requires
            old(self).wf(),
            label.wf(),
            label@.len() > 0,
            offset == old(self).cursor().position(),
        ensures
            final(self).wf(),
            final(self).input() == old(self).input(),
            r is Ok,
            r matches Ok(Some((p, b))) ==> is_first_key_from(old(self).input(), offset - 1, p as int, label@),
            r matches Ok(Some((p, b))) ==> b@ == block_of(old(self).input(), p + 1, N as int),
            r matches Ok(Some((p, b))) ==> final(self).cursor().position() == p + 1 - (p + 1) % (N as int) + N,
            r matches Ok(None) ==> search_result(old(self).input(), offset - 1, label@, None),
            r matches Ok(None) ==> final(self).cursor().position() == if offset < old(self).input().len() {
                old(self).input().len() as int
            } else {
                offset as int
            },
    {
        let label_size = label.bytes_with_quotes().len();
        let first_c = label.bytes()[0];
        let mut cur: usize = offset;
        let ghost s = self.input@;
        let ghost start = offset;
        loop
            invariant
                self.wf(),
                self.input() == old(self).input(),
                self.input() == s,
                s == self.input@,
                label.wf(),
                label@.len() > 0,
                label_size == label@.len() + 2,
                first_c == label@[0],
                cur == self.cursor().position(),
                start <= cur,
                start == offset,
                start < s.len() ==> cur <= s.len(),
                cur > start ==> cur <= s.len(),
                no_key_in(s, start - 1, cur - 1, label@),
            decreases s.len() + N - cur,
        {
            let next = self.iter.next();
            let block = match next {
                Ok(Some(b)) => b,
                Ok(None) => {
                    proof {
                        assert forall|p: int| start - 1 <= p implies !key_at(s, p, label@) by {
                            if key_at(s, p, label@) && p >= cur - 1 {
                                lemma_key_bytes(s, p, label@);
                            }
                        }
                        assert(search_result(s, start - 1, label@, None));
                        assert(start < s.len() ==> cur == s.len());
                        assert(start >= s.len() ==> cur == start);
                    }
                    return Ok(None);
                },
                Err(e) => {
                    return Err(e);
                },
            };
            let mut i: usize = 0;
            while i < N
                invariant
                    self.wf(),
                    self.input() == old(self).input(),
                    self.input() == s,
                    s == self.input@,
                    label.wf(),
                    label@.len() > 0,
                    label_size == label@.len() + 2,
                    first_c == label@[0],
                    cur + N == self.cursor().position(),
                    cur + N <= s.len(),
                    (cur as int) % (N as int) == 0,
                    block@ == s.subrange(cur as int, cur + N),
                    start <= cur,
                    start == offset,
                    i <= N,
                    no_key_in(s, start - 1, cur + i - 1, label@),
                decreases N - i,
            {
                let j = cur + i;
                let c = block[i];
                if c == first_c && j >= 1 && label_size - 2 <= usize::MAX - j {
                    if self.input.is_member_match(j - 1, j + (label_size - 2), label) {
                        proof {
                            vstd::arithmetic::div_mod::lemma_fundamental_div_mod(j as int, N as int);
                            vstd::arithmetic::div_mod::lemma_mod_multiples_vanish(
                                (cur as int) / (N as int), i as int, N as int);
                            vstd::arithmetic::div_mod::lemma_fundamental_div_mod(cur as int, N as int);
                            vstd::arithmetic::div_mod::lemma_small_mod(i as nat, N as nat);
                            assert(key_at(s, j - 1, label@));
                            assert(is_first_key_from(s, start - 1, j - 1, label@));
                            assert((j as int) % (N as int) == i);
                            assert(block@ == block_of(s, j as int, N as int));
                        }
                        return Ok(Some((j - 1, block)));
                    }
                }
                proof {
                    assert(c == s[j as int]);
                    if key_at(s, j - 1, label@) {
                        lemma_key_bytes(s, j - 1, label@);
                    }
                }
                i = i + 1;
            }
            cur = cur + block.len();
        }
    }

    /// The first key of `label` that the search can still reach. With
    /// `first_block`, the block of the input that holds `start_idx` (the cursor
    /// standing just past it), that is the first key at or after `start_idx`;
    /// without, the first key whose first label byte is at or after the
    /// cursor's position.
    pub fn find_label(&mut self, first_block: Option<&'i [u8]>, start_idx: usize, label: &JsonString) -> (r: Result<
        Option<(usize, &'i [u8])>,
        InputError,
    >)
        requires
            old(self).wf(),
            label.wf(),
            label@.len() > 0,
            first_block matches Some(b) ==> {
                &&& b@ == block_of(old(self).input(), start_idx as int, N as int)
                &&& old(self).cursor().position() == start_idx - start_idx % N + N
                &&& old(self).cursor().position() <= old(self).input().len()
            },
        ensures
            final(self).wf(),
            final(self).input() == old(self).input(),
            match r {
                Ok(Some((p, b))) => is_first_key_from(
                    old(self).input(),
                    search_start(first_block is Some, start_idx as int, old(self).cursor().position()),
                    p as int,
                    label@,
                ) && (if first_block is Some && p < old(self).cursor().position() {
                    b == first_block.unwrap()
                } else {
                    b@ == block_of(old(self).input(), p + 1, N as int)
                }),
                Ok(None) => search_result(
                    old(self).input(),
                    search_start(first_block is Some, start_idx as int, old(self).cursor().position()),
                    label@,
                    None,
                ),
                Err(_) => false,
            },
            r matches Ok(Some((p, b))) ==> final(self).cursor().position() == if first_block is Some
                && p < old(self).cursor().position() {
                old(self).cursor().position()
            } else {
                p + 1 - (p + 1) % (N as int) + N
            },
            r matches Ok(None) ==> final(self).cursor().position() == if old(self).cursor().position()
                < old(self).input().len() {
                old(self).input().len() as int
            } else {
                old(self).cursor().position()
            },
    {
        if let Some(b) = first_block {
            let found = find_label_in_first_block::<N>(self.input, b, start_idx, label);
            match found {
                Ok(Some(res)) => {
                    return Ok(Some(res));
                },
                Ok(None) => {},
                Err(e) => {
                    return Err(e);
                },
            }
        }
        let next_block_offset = self.iter.get_offset();
        self.find_label_sequential(label, next_block_offset)
    }
}

/// Where a search starts: at `start_idx` when the block holding it is in
/// hand, else just before the cursor's position (a candidate is a label's
/// first byte, whose opening quote comes one byte earlier).
pub open spec fn search_start(has_first_block: bool, start_idx: int, position: int) -> int {
    if has_first_block {
        start_idx
    } else {
        position - 1
    }
}

/// A search reports the first key: when the quoted label stands unescaped at
/// `p`, at or after the start, with no key between the start and `p`, the
/// search reports `p`, and so nothing earlier.
pub proof fn lemma_first_key_reported(s: Seq<u8>, lo: int, l: Seq<u8>, r: Option<int>, p: int)
    requires
        search_result(s, lo, l, r),
        lo <= p,
        key_at(s, p, l),
        no_key_in(s, lo, p, l),
    ensures
        r == Some(p),
{
    match r {
        Some(q) => {
            if q < p {
                assert(!key_at(s, q, l));
            } else if q > p {
                assert(!key_at(s, p, l));
            }
        },
        None => {
            assert(!key_at(s, p, l));
        },
    }
}

/// A search reports only keys: the reported position holds exactly the quoted
/// label, and a quote that an escape precedes (as inside a string value) is
/// never reported.
pub proof fn lemma_only_keys_reported(s: Seq<u8>, lo: int, l: Seq<u8>, p: int)
    requires
        search_result(s, lo, l, Some(p)),
    ensures
        s.subrange(p, p + l.len() + 2) == quoted(l),
        p == 0 || s[p - 1] != BACKSLASH,
{
}

/// A search over an input with no key of the label at or after the start
/// reports no match.
pub proof fn lemma_no_occurrence_no_match(s: Seq<u8>, lo: int, l: Seq<u8>, r: Option<int>)
    requires
        search_result(s, lo, l, r),
        forall|p: int| lo <= p ==> !key_at(s, p, l),
    ensures
        r is None,
{
}

/// Searching twice from the same start over the same input gives the same result.
pub proof fn lemma_search_deterministic(s: Seq<u8>, lo: int, l: Seq<u8>, r1: Option<int>, r2: Option<int>)
    requires
        search_result(s, lo, l, r1),
        search_result(s, lo, l, r2),
    ensures
        r1 == r2,
{
    if let Some(p) = r1 {
        lemma_first_key_reported(s, lo, l, r2, p);
    } else if let Some(p) = r2 {
        lemma_first_key_reported(s, lo, l, r1, p);
    }
}

} // verus!
