//! Big-endian words and NUL-terminated strings inside a byte blob.
use vstd::prelude::*;
use vstd::utf8::valid_utf8;
use vstd::string::StringSliceAdditionalSpecFns;

verus! {

/// The big-endian 32-bit word whose first byte is at `p`.
pub open spec fn be32(b: Seq<u8>, p: int) -> int {
    b[p] as int * 0x100_0000 + b[p + 1] as int * 0x1_0000 + b[p + 2] as int * 0x100 + b[p + 3] as int
}

/// `n` rounded up to a multiple of four.
pub open spec fn align4(n: int) -> int {
    (n + 3) / 4 * 4
}

/// Length of the NUL-terminated string at `p` whose NUL lies before `lim`.
pub open spec fn cstr_len(b: Seq<u8>, p: int, lim: int) -> Option<nat>
    decreases lim - p,
{
    if p < 0 || p >= lim || lim > b.len() {
        None
    } else if b[p] == 0 {
        Some(0)
    } else {
        match cstr_len(b, p + 1, lim) {
            Some(k) => Some(k + 1),
            None => None,
        }
    }
}

/// A string found by `cstr_len` ends on a NUL inside `[p, lim)`.
pub proof fn lemma_cstr_len_bounds(b: Seq<u8>, p: int, lim: int)
    ensures
        cstr_len(b, p, lim) matches Some(k) ==> p + k < lim && lim <= b.len() && 0 <= p && b[p
            + k] == 0,
    decreases lim - p,
{
    if 0 <= p < lim && lim <= b.len() && b[p] != 0 {
        lemma_cstr_len_bounds(b, p + 1, lim);
    }
}

pub fn read_be32(b: &[u8], p: usize) -> (r: u32)
    requires
        p + 4 <= b@.len(),
    ensures
        r == be32(b@, p as int),
{
    (b[p] as u32) * 0x100_0000 + (b[p + 1] as u32) * 0x1_0000 + (b[p + 2] as u32) * 0x100 + (
    b[p + 3] as u32)
}

/// Rounds a record length up to the four-byte alignment of the token stream.
pub fn align_up4(n: usize) -> (r: usize)
    requires
        n + 3 <= usize::MAX,
    ensures
        r == align4(n as int),
{
    (n + 3) / 4 * 4
}

/// Finds the NUL that ends the string at `p`, looking no further than `lim`.
pub fn find_nul(b: &[u8], p: usize, lim: usize) -> (r: Option<usize>)
    requires
        lim <= b@.len(),
    ensures
        match cstr_len(b@, p as int, lim as int) {
            Some(k) => r matches Some(n) && n == p + k,
            None => r is None,
        },
        r matches Some(n) ==> p <= n < lim,
{
    proof {
        lemma_cstr_len_bounds(b@, p as int, lim as int);
    }
    let mut i: usize = p;
    while i < lim
        invariant
            p <= i,
            lim <= b@.len(),
            match cstr_len(b@, i as int, lim as int) {
                Some(k) => cstr_len(b@, p as int, lim as int) == Some((k + (i - p)) as nat),
                None => cstr_len(b@, p as int, lim as int) is None,
            },
        decreases lim - i,
    {
        if b[i] == 0 {
            return Some(i);
        }
        i = i + 1;
    }
    None
}

/// Whether two byte strings are equal.
pub fn bytes_eq(a: &[u8], b: &[u8]) -> (r: bool)
    ensures
        r == (a@ == b@),
{
    if a.len() != b.len() {
        return false;
    }
    let mut i: usize = 0;
    while i < a.len()
        invariant
            a@.len() == b@.len(),
            i <= a@.len(),
            a@.subrange(0, i as int) == b@.subrange(0, i as int),
        decreases a@.len() - i,
    {
        if a[i] != b[i] {
            assert(a@[i as int] != b@[i as int]);
            return false;
        }
        assert(a@.subrange(0, i + 1) == a@.subrange(0, i as int).push(a@[i as int]));
        assert(b@.subrange(0, i + 1) == b@.subrange(0, i as int).push(b@[i as int]));
        i = i + 1;
    }
    assert(a@ == a@.subrange(0, a@.len() as int));
    assert(b@ == b@.subrange(0, b@.len() as int));
    true
}

/// Relies on `core::str::from_utf8`: it accepts exactly the valid UTF-8 byte
/// strings, and the text it returns holds those same bytes.
#[verifier::external_body]
pub(crate) fn text_of(b: &[u8]) -> (r: Option<&str>)
    ensures
        r is Some <==> valid_utf8(b@),
        r matches Some(s) ==> s.spec_bytes() == b@,
{
    core::str::from_utf8(b).ok()
}

} // verus!
