//! Byte-level text helpers: comparison, whitespace, identifier scanning.

use vstd::prelude::*;

verus! {

/// Byte-wise equality of two slices.
pub fn bytes_eq_slice(a: &[u8], b: &[u8]) -> (r: bool)
    ensures
        r == (a@ == b@),
{
    if a.len() != b.len() {
        assert(a@.len() != b@.len());
        return false;
    }
    let n = a.len();
    let mut i: usize = 0;
    while i < n
        invariant
            n == a@.len(),
            n == b@.len(),
            i <= n,
            forall|k: int| 0 <= k < i ==> a@[k] == b@[k],
        decreases n - i,
    {
        if a[i] != b[i] {
            return false;
        }
        i += 1;
    }
    assert(a@ =~= b@);
    true
}

/// Byte-wise equality of two owned buffers.
pub fn bytes_eq(a: &Vec<u8>, b: &Vec<u8>) -> (r: bool)
    ensures
        r == (a@ == b@),
{
    bytes_eq_slice(a.as_slice(), b.as_slice())
}

/// Is `b` an ASCII whitespace byte?
pub open spec fn spec_is_ws(b: u8) -> bool {
    b == 32 || b == 9 || b == 10 || b == 13 || b == 12
}

pub fn is_ws(b: u8) -> (r: bool)
    ensures
        r == spec_is_ws(b),
{
    b == 32 || b == 9 || b == 10 || b == 13 || b == 12
}

/// Are all bytes of `text` in `[start, end)` whitespace?
pub open spec fn spec_all_ws(text: Seq<u8>, start: int, end: int) -> bool {
    forall|k: int| start <= k < end && 0 <= k < text.len() ==> spec_is_ws(#[trigger] text[k])
}

pub fn all_ws(text: &Vec<u8>, start: usize, end: usize) -> (r: bool)
    ensures
        r == spec_all_ws(text@, start as int, end as int),
{
    let n = text.len();
    let mut i: usize = start;
    if end <= start {
        return true;
    }
    while i < end && i < n
        invariant
            n == text@.len(),
            start <= i,
            forall|k: int| start <= k < i && 0 <= k < n ==> spec_is_ws(#[trigger] text@[k]),
        decreases end - i,
    {
        if !is_ws(text[i]) {
            return false;
        }
        i += 1;
    }
    true
}

/// Is `b` an ASCII letter, digit, or underscore (an identifier byte)?
pub open spec fn spec_is_word_byte(b: u8) -> bool {
    (48 <= b <= 57) || (65 <= b <= 90) || (97 <= b <= 122) || b == 95
}

pub fn is_word_byte(b: u8) -> (r: bool)
    ensures
        r == spec_is_word_byte(b),
{
    (48 <= b && b <= 57) || (65 <= b && b <= 90) || (97 <= b && b <= 122) || b == 95
}

/// Does `pat` occur in `text` starting at offset `at`?
pub open spec fn spec_match_at(text: Seq<u8>, pat: Seq<u8>, at: int) -> bool {
    &&& 0 <= at
    &&& at + pat.len() <= text.len()
    &&& forall|k: int| 0 <= k < pat.len() ==> text[at + k] == #[trigger] pat[k]
}

/// Does `pat` occur in `text` at offset `at`?
pub fn match_at(text: &Vec<u8>, pat: &Vec<u8>, at: usize) -> (r: bool)
    ensures
        r == spec_match_at(text@, pat@, at as int),
{
    let m = pat.len();
    let n = text.len();
    if at > n || m > n - at {
        return false;
    }
    let mut k: usize = 0;
    while k < m
        invariant
            m == pat@.len(),
            n == text@.len(),
            at + m <= n,
            k <= m,
            forall|j: int| 0 <= j < k ==> text@[at + j] == #[trigger] pat@[j],
        decreases m - k,
    {
        if text[at + k] != pat[k] {
            return false;
        }
        k += 1;
    }
    true
}

/// The bytes of `text` in `[start, end)`, clamped to the buffer.
pub fn slice_range(text: &Vec<u8>, start: usize, end: usize) -> (r: Vec<u8>)
    requires
        start <= end,
        end <= text@.len(),
    ensures
        r@ == text@.subrange(start as int, end as int),
{
    let mut out: Vec<u8> = Vec::new();
    let mut i: usize = start;
    while i < end
        invariant
            start <= i <= end,
            end <= text@.len(),
            out@ == text@.subrange(start as int, i as int),
        decreases end - i,
    {
        out.push(text[i]);
        assert(out@ =~= text@.subrange(start as int, i + 1));
        i += 1;
    }
    out
}

/// Replace the bytes of `text` in `[start, old_end)` with `repl`.
pub fn splice_text(text: &mut Vec<u8>, start: usize, old_end: usize, repl: &Vec<u8>) -> (ok: bool)
    ensures
        ok <==> (start <= old_end && old_end <= old(text)@.len()),
        !ok ==> *final(text) == *old(text),
        ok ==> start <= old_end <= old(text)@.len() && final(text)@ == old(text)@.subrange(
            0,
            start as int,
        ) + repl@ + old(text)@.subrange(old_end as int, old(text)@.len() as int),
{
    let n = text.len();
    if start > old_end || old_end > n {
        return false;
    }
    let mut out: Vec<u8> = Vec::new();
    let mut i: usize = 0;
    while i < start
        invariant
            start <= old_end <= n,
            n == text@.len(),
            i <= start,
            out@ == text@.subrange(0, i as int),
        decreases start - i,
    {
        out.push(text[i]);
        proof {
            assert(out@ =~= text@.subrange(0, i + 1));
        }
        i += 1;
    }
    let mut k: usize = 0;
    let m = repl.len();
    while k < m
        invariant
            start <= old_end <= n,
            n == text@.len(),
            m == repl@.len(),
            k <= m,
            out@ == text@.subrange(0, start as int) + repl@.subrange(0, k as int),
        decreases m - k,
    {
        out.push(repl[k]);
        proof {
            assert(out@ =~= text@.subrange(0, start as int) + repl@.subrange(0, k + 1));
        }
        k += 1;
    }
    proof {
        assert(repl@.subrange(0, m as int) =~= repl@);
    }
    let mut j: usize = old_end;
    while j < n
        invariant
            start <= old_end <= n,
            n == text@.len(),
            old_end <= j <= n,
            out@ == text@.subrange(0, start as int) + repl@ + text@.subrange(
                old_end as int,
                j as int,
            ),
        decreases n - j,
    {
        out.push(text[j]);
        proof {
            assert(out@ =~= text@.subrange(0, start as int) + repl@ + text@.subrange(
                old_end as int,
                j + 1,
            ));
        }
        j += 1;
    }
    *text = out;
    true
}

} // verus!
