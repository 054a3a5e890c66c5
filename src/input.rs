//! The memory-mapped input and its iterator over fixed-size blocks.
use vstd::prelude::*;
use vstd::arithmetic::div_mod::{lemma_fundamental_div_mod, lemma_mod_multiples_basic};
use memmap2::Mmap;
use crate::label::JsonString;
use crate::in_slice;
use crate::in_slice::{member_match, is_whitespace, key_at};
use crate::label::{QUOTE, quoted};

verus! {

/// The largest block size an iterator may use; mapped inputs are padded to a
/// multiple of it.
pub const MAX_BLOCK_SIZE: usize = 256;

/// Errors of building or reading an input.
#[derive(Debug, Clone, Copy, PartialEq, Eq, Structural)]
pub enum InputError {
    /// The mapped length is not a multiple of `MAX_BLOCK_SIZE`.
    UnpaddedLength { len: usize },
    /// Padding the length to a multiple of `MAX_BLOCK_SIZE` does not fit in a `usize`.
    LengthOverflow { len: usize },
}

#[verifier::external_type_specification]
#[verifier::external_body]
pub struct ExMmap(Mmap);

/// The bytes that a memory map holds.
pub uninterp spec fn mapped_contents(m: Mmap) -> Seq<u8>;

/// Relies on `<memmap2::Mmap as Deref>::deref`: the mapped region as a slice.
/// Its bytes stay as mapped while the map lives, which `Mmap::map` requires of
/// its caller (the file is not modified meanwhile).
#[verifier::external_body]
fn mapped_bytes(m: &Mmap) -> (r: &[u8])
    ensures
        r@ == mapped_contents(*m),
{
    std::ops::Deref::deref(m)
}

proof fn lemma_next_block_fits(idx: int, len: int, n: int)
    requires
        n > 0,
        idx >= 0,
        idx % n == 0,
        len % n == 0,
        idx < len,
    ensures
        idx + n <= len,
{
    lemma_fundamental_div_mod(idx, n);
    lemma_fundamental_div_mod(len, n);
    let a = idx / n;
    let b = len / n;
    assert(n * a < n * b ==> a < b) by (nonlinear_arith)
        requires n > 0;
    assert(a + 1 <= b ==> n * a + n <= n * b) by (nonlinear_arith)
        requires n > 0;
}

proof fn lemma_step_keeps_alignment(idx: int, k: int, n: int)
    requires
        n > 0,
        idx % n == 0,
    ensures
        (idx + k * n) % n == 0,
{
    lemma_fundamental_div_mod(idx, n);
    let a = idx / n;
    assert(n * a + k * n == (a + k) * n) by (nonlinear_arith);
    lemma_mod_multiples_basic(a + k, n);
}

proof fn lemma_divides_transitive(len: int, m: int, n: int)
    requires
        n > 0,
        m > 0,
        len % m == 0,
        m % n == 0,
    ensures
        len % n == 0,
{
    lemma_fundamental_div_mod(len, m);
    lemma_fundamental_div_mod(m, n);
    let a = len / m;
    let b = m / n;
    assert(m * a == (a * b) * n) by (nonlinear_arith)
        requires m == n * b;
    lemma_mod_multiples_basic(a * b, n);
}

/// The smallest multiple of `MAX_BLOCK_SIZE` that is at least `len`.
pub open spec fn padded(len: int) -> int {
    if len % (MAX_BLOCK_SIZE as int) == 0 {
        len
    } else {
        len - len % (MAX_BLOCK_SIZE as int) + MAX_BLOCK_SIZE
    }
}

/// The length to map a file of `file_len` bytes with, so that every block of
/// the input is whole: the smallest multiple of `MAX_BLOCK_SIZE` that is at
/// least `file_len`, or an error where that does not fit in a `usize`.
pub fn padded_length(file_len: usize) -> (r: Result<usize, InputError>)
    ensures
        match r {
            Ok(n) => n == padded(file_len as int) && (n as int) % (MAX_BLOCK_SIZE as int) == 0
                && file_len <= n < file_len + MAX_BLOCK_SIZE,
            Err(e) => e == (InputError::LengthOverflow { len: file_len }) && padded(file_len as int) > usize::MAX,
        },
{
    let rem = file_len % MAX_BLOCK_SIZE;
    let pad = if rem == 0 { 0 } else { MAX_BLOCK_SIZE - rem };
    proof {
        lemma_fundamental_div_mod(file_len as int, MAX_BLOCK_SIZE as int);
        lemma_mod_multiples_basic(file_len as int / (MAX_BLOCK_SIZE as int) + 1, MAX_BLOCK_SIZE as int);
        lemma_mod_multiples_basic(file_len as int / (MAX_BLOCK_SIZE as int), MAX_BLOCK_SIZE as int);
    }
    if file_len > usize::MAX - pad {
        return Err(InputError::LengthOverflow { len: file_len });
    }
    Ok(file_len + pad)
}

/// Input wrapping a memory mapped file.
pub struct MmapInput {
    mmap: Mmap,
}

impl View for MmapInput {
    type V = Seq<u8>;

    /// The mapped bytes, padding included.
    closed spec fn view(&self) -> Seq<u8> {
        mapped_contents(self.mmap)
    }
}

impl MmapInput {
    /// Every block of every admissible size is whole.
    pub open spec fn wf(&self) -> bool {
        &&& self@.len() as int % (MAX_BLOCK_SIZE as int) == 0
        &&& self@.len() <= usize::MAX
    }

    /// Takes a memory map whose length was padded to a multiple of
    /// `MAX_BLOCK_SIZE`; refuses one that was not.
    pub fn from_mmap(mmap: Mmap) -> (r: Result<Self, InputError>)
        ensures
            match r {
                Ok(i) => i@ == mapped_contents(mmap) && i.wf(),
                Err(e) => mapped_contents(mmap).len() as int % (MAX_BLOCK_SIZE as int) != 0
                    && e == (InputError::UnpaddedLength { len: mapped_contents(mmap).len() as usize }),
            },
    {
        let len = mapped_bytes(&mmap).len();
        if len % MAX_BLOCK_SIZE != 0 {
            return Err(InputError::UnpaddedLength { len });
        }
        Ok(MmapInput { mmap })
    }

    /// All the bytes of the input, padding included.
    pub fn as_bytes(&self) -> (r: &[u8])
        ensures
            r@ == self@,
    {
        mapped_bytes(&self.mmap)
    }

    /// A fresh cursor over blocks of `N` bytes, at offset 0.
    pub fn iter_blocks<const N: usize>(&self) -> (r: MmapBlockIterator<'_, N>)
        requires
            self.wf(),
            N > 0,
            MAX_BLOCK_SIZE % N == 0,
        ensures
            r.wf(),
            r.bytes() == self@,
            r.position() == 0,
    {
        let bytes = mapped_bytes(&self.mmap);
        proof {
            lemma_divides_transitive(bytes@.len() as int, MAX_BLOCK_SIZE as int, N as int);
        }
        MmapBlockIterator::new(bytes)
    }

    /// The last position at or before `from` that holds `needle`.
    pub fn seek_backward(&self, from: usize, needle: u8) -> (r: Option<usize>)
        requires
            from < self@.len(),
        ensures
            match r {
                Some(i) => i <= from && self@[i as int] == needle
                    && forall|k: int| i < k <= from ==> self@[k] != needle,
                None => forall|k: int| 0 <= k <= from ==> self@[k] != needle,
            },
    {
        in_slice::seek_backward(mapped_bytes(&self.mmap), from, needle)
    }

    /// The first non-whitespace byte at or after `from`, with its position.
    pub fn seek_non_whitespace_forward(&self, from: usize) -> (r: Result<Option<(usize, u8)>, InputError>)
        ensures
            match r {
                Ok(Some((i, b))) => from <= i < self@.len() && b == self@[i as int] && !is_whitespace(b)
                    && forall|k: int| from <= k < i ==> is_whitespace(#[trigger] self@[k]),
                Ok(None) => forall|k: int| from <= k < self@.len() ==> is_whitespace(#[trigger] self@[k]),
                Err(_) => false,
            },
    {
        Ok(in_slice::seek_non_whitespace_forward(mapped_bytes(&self.mmap), from))
    }

    /// The last non-whitespace byte at or before `from`, with its position.
    pub fn seek_non_whitespace_backward(&self, from: usize) -> (r: Option<(usize, u8)>)
        ensures
            match r {
                Some((i, b)) => i <= from < self@.len() && b == self@[i as int] && !is_whitespace(b)
                    && forall|k: int| i < k <= from ==> is_whitespace(#[trigger] self@[k]),
                None => from >= self@.len()
                    || forall|k: int| 0 <= k <= from ==> is_whitespace(#[trigger] self@[k]),
            },
    {
        in_slice::seek_non_whitespace_backward(mapped_bytes(&self.mmap), from)
    }

    /// Whether the span `[from, to]` is the quoted label, as a key.
    pub fn is_member_match(&self, from: usize, to: usize, label: &JsonString) -> (r: bool)
        requires
            label.wf(),
            from <= to,
        ensures
            r == member_match(self@, from as int, to as int, label@),
    {
        in_slice::is_member_match(mapped_bytes(&self.mmap), from, to, label)
    }
}

/// Iterator over the blocks of an input, each of exactly `N` bytes.
pub struct MmapBlockIterator<'a, const N: usize> {
    input: &'a [u8],
    idx: usize,
}

impl<'a, const N: usize> MmapBlockIterator<'a, N> {
    /// The bytes iterated over.
    pub closed spec fn bytes(&self) -> Seq<u8> {
        self.input@
    }

    /// The absolute offset of the next block.
    pub closed spec fn position(&self) -> int {
        self.idx as int
    }

    /// Blocks are whole: the input and the offset are multiples of `N`.
    pub open spec fn wf(&self) -> bool {
        &&& N > 0
        &&& self.bytes().len() as int % (N as int) == 0
        &&& self.position() % (N as int) == 0
    }

    /// A cursor at offset 0 over `bytes`, whose length is a multiple of `N`.
    pub fn new(bytes: &'a [u8]) -> (r: Self)
        requires
            N > 0,
            bytes@.len() as int % (N as int) == 0,
        ensures
            r.wf(),
            r.bytes() == bytes@,
            r.position() == 0,
    {
        proof {
            lemma_mod_multiples_basic(0, N as int);
        }
        MmapBlockIterator { input: bytes, idx: 0 }
    }

    /// The next block, `N` bytes at the current offset, or `None` once the offset
    /// has reached the end of the input. Reading a mapped input never fails.
    pub fn next(&mut self) -> (r: Result<Option<&'a [u8]>, InputError>)
        requires
            old(self).wf(),
        ensures
            final(self).wf(),
            final(self).bytes() == old(self).bytes(),
            match r {
                Ok(Some(b)) => old(self).position() + N <= old(self).bytes().len()
                    && b@ == old(self).bytes().subrange(old(self).position(), old(self).position() + N)
                    && final(self).position() == old(self).position() + N,
                Ok(None) => old(self).position() >= old(self).bytes().len()
                    && final(self).position() == old(self).position(),
                Err(_) => false,
            },
    {
        if self.idx >= self.input.len() {
            Ok(None)
        } else {
            proof {
                lemma_next_block_fits(self.idx as int, self.input@.len() as int, N as int);
                lemma_step_keeps_alignment(self.idx as int, 1, N as int);
            }
            let block = &self.input[self.idx..self.idx + N];
            self.idx = self.idx + N;
            Ok(Some(block))
        }
    }

    /// The absolute offset of the next block.
    pub fn get_offset(&self) -> (r: usize)
        ensures
            r == self.position(),
    {
        self.idx
    }

    /// Skips `count` whole blocks without reading them.
    pub fn offset(&mut self, count: isize)
        requires
            old(self).wf(),
            count >= 0,
            old(self).position() + count * N <= usize::MAX,
        ensures
            final(self).wf(),
            final(self).bytes() == old(self).bytes(),
            final(self).position() == old(self).position() + count * N,
    {
        proof {
            lemma_step_keeps_alignment(self.idx as int, count as int, N as int);
            assert(0 <= count * N <= usize::MAX) by (nonlinear_arith)
                requires count >= 0, N > 0, self.idx + count * N <= usize::MAX, self.idx >= 0;
        }
        self.idx = self.idx + (count as usize) * N;
    }
}

/// Padding never holds a key: when every byte from `data_len` on is zero, any
/// key of a label lies wholly within the first `data_len` bytes, since it ends
/// with a quote.
pub proof fn lemma_padding_never_matches(s: Seq<u8>, data_len: int, l: Seq<u8>, p: int)
    requires
        forall|k: int| data_len <= k < s.len() ==> s[k] == 0u8,
        key_at(s, p, l),
    ensures
        p + l.len() + 2 <= data_len,
{
    let end = p + l.len() + 1;
    assert(s.subrange(p, p + l.len() + 2)[l.len() as int + 1] == quoted(l)[l.len() as int + 1]);
    assert(s[end] == QUOTE);
}

} // verus!
