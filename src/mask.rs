//! The bitmask label matcher: candidate positions come from two marker masks
//! over a 64-byte window, with one carry bit from the window before.
use vstd::prelude::*;
use vstd::std_specs::bits::{u64_trailing_zeros, axiom_u64_trailing_zeros};
use crate::input::MmapInput;
use crate::label::JsonString;
use crate::in_slice::{key_at, BACKSLASH};
use crate::label::quoted;
use crate::memmem::{no_key_in, search_result, lemma_first_key_reported};

verus! {

/// Bit `i` of `w` is set.
pub open spec fn bit(w: u64, i: u64) -> bool {
    (w >> i) & 1u64 == 1u64
}

/// The candidate word: bit `i` is set where `second` holds at `i` and `first`
/// held one position earlier, in this window or, for bit 0, at the last
/// position of the previous window (the carry).
pub open spec fn candidates(previous_block: u64, first: u64, second: u64) -> u64 {
    (previous_block | (first << 1u64)) & second
}

/// The position of the opening quote that candidate bit `idx` of a window at
/// `offset` stands for: the candidate marks the byte two after the quote.
pub open spec fn candidate_position(offset: int, idx: int) -> int {
    offset + idx - 2
}

/// No candidate of `cand` below bit `hi` is a key of `l`.
pub open spec fn no_key_below(s: Seq<u8>, l: Seq<u8>, cand: u64, offset: int, hi: int) -> bool {
    forall|k: u64| k < hi && k < 64 && #[trigger] bit(cand, k) ==> !key_at(s, candidate_position(offset, k as int), l)
}

/// `r` is what checking the candidates `cand` of the window at `offset` must
/// report: the position of the lowest candidate that is a key of `l`, or
/// nothing when none is.
pub open spec fn mask_result(s: Seq<u8>, l: Seq<u8>, cand: u64, offset: int, r: Option<usize>) -> bool {
    match r {
        Some(p) => {
            let idx = p + 2 - offset;
            &&& 0 <= idx < 64
            &&& bit(cand, idx as u64)
            &&& key_at(s, p as int, l)
            &&& no_key_below(s, l, cand, offset, idx)
        },
        None => no_key_below(s, l, cand, offset, 64),
    }
}

proof fn lemma_clear_bit(r: u64, i: u64)
    requires
        i < 64,
        bit(r, i),
    ensures
        r & !(1u64 << i) < r,
        forall|k: u64| k < 64 ==> (#[trigger] bit(r & !(1u64 << i), k) <==> (k != i && bit(r, k))),
{
    assert(r & !(1u64 << i) < r) by (bit_vector)
        requires i < 64, (r >> i) & 1u64 == 1u64;
    assert(forall|k: u64| k < 64 ==> ((((r & !(1u64 << i)) >> k) & 1u64 == 1u64) <==> (k != i && (r >> k) & 1u64 == 1u64))) by (bit_vector)
        requires i < 64;
}

/// Checks the candidates of one 64-byte window, lowest bit first, with the
/// member validator; returns the position of the first one confirmed as a key
/// of `label`, or `None` when no candidate of this window is one.
pub fn find_in_mask(
    input: &MmapInput,
    label: &JsonString,
    previous_block: u64,
    first: u64,
    second: u64,
    offset: usize,
) -> (r: Option<usize>)
    requires
        input.wf(),
        label.wf(),
    ensures
        mask_result(input@, label@, candidates(previous_block, first, second), offset as int, r),
{
    let label_size = label.bytes_with_quotes().len();
    let mut result: u64 = (previous_block | (first << 1u64)) & second;
    let ghost cand = candidates(previous_block, first, second);
    let ghost s = input@;
    while result != 0
        invariant
            input.wf(),
            label.wf(),
            s == input@,
            cand == candidates(previous_block, first, second),
            label_size == label@.len() + 2,
            forall|k: u64| k < 64 && #[trigger] bit(result, k) ==> bit(cand, k),
            forall|k: u64| k < 64 && #[trigger] bit(cand, k) && !bit(result, k)
                ==> !key_at(s, candidate_position(offset as int, k as int), label@),
        decreases result,
    {
        proof {
            axiom_u64_trailing_zeros(result);
        }
        let idx = result.trailing_zeros() as usize;
        let ghost i = idx as u64;
        if offset <= usize::MAX - idx && offset + idx >= 2 && label_size - 1 <= usize::MAX - (offset + idx - 2) {
            let from = offset + idx - 2;
            if input.is_member_match(from, from + (label_size - 1), label) {
                proof {
                    assert(bit(result, i));
                    assert(bit(cand, i));
                    assert forall|k: u64| k < idx && k < 64 && #[trigger] bit(cand, k) implies
                        !key_at(s, candidate_position(offset as int, k as int), label@) by {
                        assert((result >> k) & 1u64 == 0u64);
                    }
                }
                assert(key_at(s, from as int, label@));
                assert(no_key_below(s, label@, cand, offset as int, idx as int));
                assert(from + 2 - offset == idx);
                return Some(from);
            }
        }
        proof {
            if key_at(s, candidate_position(offset as int, idx as int), label@) {
                crate::memmem::lemma_key_bytes_fit(s, candidate_position(offset as int, idx as int), label@);
            }
            lemma_clear_bit(result, i);
        }
        result = result & !(1u64 << idx);
    }
    proof {
        assert forall|k: u64| k < 64 && #[trigger] bit(cand, k) implies
            !key_at(s, candidate_position(offset as int, k as int), label@) by {
            assert((result >> k) & 1u64 != 1u64) by (bit_vector) requires result == 0u64;
        }
    }
    None
}

/// The bitmask matcher reports the lowest candidate that is a key: when
/// candidate bit `idx` stands for a key and no lower candidate does, it
/// reports that key's position.
pub proof fn lemma_mask_first_key_reported(s: Seq<u8>, l: Seq<u8>, cand: u64, offset: int, r: Option<usize>, idx: u64)
    requires
        mask_result(s, l, cand, offset, r),
        idx < 64,
        bit(cand, idx),
        key_at(s, candidate_position(offset, idx as int), l),
        no_key_below(s, l, cand, offset, idx as int),
    ensures
        r == Some(candidate_position(offset, idx as int) as usize),
{
    match r {
        Some(p) => {
            let j = (p + 2 - offset) as u64;
            if j < idx {
                assert(!key_at(s, candidate_position(offset, j as int), l));
            } else if j > idx {
                assert(!key_at(s, candidate_position(offset, idx as int), l));
            }
        },
        None => {
            assert(!key_at(s, candidate_position(offset, idx as int), l));
        },
    }
}

/// The bitmask matcher reports only keys: the reported position holds exactly
/// the quoted label, and a quote that an escape precedes is never reported.
pub proof fn lemma_mask_only_keys_reported(s: Seq<u8>, l: Seq<u8>, cand: u64, offset: int, p: usize)
    requires
        mask_result(s, l, cand, offset, Some(p)),
    ensures
        s.subrange(p as int, p + l.len() + 2) == quoted(l),
        p == 0 || s[p - 1] != BACKSLASH,
{
}

/// Checking the same candidates of the same window twice gives the same result.
pub proof fn lemma_mask_deterministic(s: Seq<u8>, l: Seq<u8>, cand: u64, offset: int, r1: Option<usize>, r2: Option<usize>)
    requires
        mask_result(s, l, cand, offset, r1),
        mask_result(s, l, cand, offset, r2),
    ensures
        r1 == r2,
{
    if let Some(p) = r1 {
        lemma_mask_first_key_reported(s, l, cand, offset, r2, (p + 2 - offset) as u64);
    } else if let Some(p) = r2 {
        lemma_mask_first_key_reported(s, l, cand, offset, r1, (p + 2 - offset) as u64);
    }
}

/// A key whose opening quote is the last byte before a window at `offset`
/// (its label in the window itself) is found at `offset - 1` by both matchers:
/// by a linear search from `lo` that meets no earlier key, and by the bitmask
/// matcher on that window, where the key is candidate bit 1 (`first` at bit 0,
/// shifted in) and no lower candidate is a key.
pub proof fn lemma_straddling_key_found_by_both(
    s: Seq<u8>,
    l: Seq<u8>,
    lo: int,
    linear: Option<int>,
    previous_block: u64,
    first: u64,
    second: u64,
    offset: int,
    masked: Option<usize>,
)
    requires
        key_at(s, offset - 1, l),
        lo <= offset - 1,
        no_key_in(s, lo, offset - 1, l),
        search_result(s, lo, l, linear),
        first & 1u64 == 1u64,
        second & 2u64 == 2u64,
        bit(candidates(previous_block, first, second), 0) ==> !key_at(s, offset - 2, l),
        mask_result(s, l, candidates(previous_block, first, second), offset, masked),
    ensures
        linear == Some(offset - 1),
        masked == Some((offset - 1) as usize),
{
    lemma_first_key_reported(s, lo, l, linear, offset - 1);
    let cand = candidates(previous_block, first, second);
    assert(bit(cand, 1)) by (bit_vector)
        requires
            cand == (previous_block | (first << 1u64)) & second,
            first & 1u64 == 1u64,
            second & 2u64 == 2u64;
    lemma_mask_first_key_reported(s, l, cand, offset, masked, 1);
}

} // verus!
