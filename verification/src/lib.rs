//! Restores community-reverted vandalism into the current text of a wiki
//! article: a word-level longest-common-subsequence engine feeds a diff3-style
//! three-way merger, whose re-merged fragments are wrapped in sentinel
//! markers that a rewriting pass later turns into highlighted spans.

use vstd::prelude::*;

pub mod clock;
pub mod json;
pub mod longest_common_subsequence;
pub mod merge;
pub mod page;
pub mod sections;
pub mod wiki;
pub mod words;

verus! {

use vstd::string::StringSliceAdditionalSpecFns;

/// The sentinel that opens a marked insertion: U+E000, a private-use code
/// point that never appears in legitimate wiki text, as UTF-8 bytes.
pub open spec fn start_marker_bytes() -> Seq<u8> {
    seq![0xeeu8, 0x80u8, 0x80u8]
}

/// The sentinel that closes a marked insertion: U+E001 as UTF-8 bytes.
pub open spec fn end_marker_bytes() -> Seq<u8> {
    seq![0xeeu8, 0x80u8, 0x81u8]
}

/// Appends the opening sentinel to `out`.
pub fn push_start_marker(out: &mut Vec<u8>)
    ensures
        final(out)@ == old(out)@ + start_marker_bytes(),
{
    out.push(0xee);
    out.push(0x80);
    out.push(0x80);
    proof {
        assert(out@ =~= old(out)@ + start_marker_bytes());
    }
}

/// Appends the closing sentinel to `out`.
pub fn push_end_marker(out: &mut Vec<u8>)
    ensures
        final(out)@ == old(out)@ + end_marker_bytes(),
{
    out.push(0xee);
    out.push(0x80);
    out.push(0x81);
    proof {
        assert(out@ =~= old(out)@ + end_marker_bytes());
    }
}

/// Appends a whole byte vector to `out`.
pub fn append_bytes(out: &mut Vec<u8>, src: &Vec<u8>)
    ensures
        final(out)@ == old(out)@ + src@,
{
    let mut i: usize = 0;
    while i < src.len()
        invariant
            0 <= i <= src@.len(),
            out@ == old(out)@ + src@.take(i as int),
        decreases src@.len() - i,
    {
        out.push(src[i]);
        proof {
            assert(out@ =~= old(out)@ + src@.take(i + 1));
        }
        i += 1;
    }
    proof {
        assert(src@.take(src@.len() as int) =~= src@);
    }
}

/// Appends a whole byte slice to `out`.
pub fn append_slice(out: &mut Vec<u8>, src: &[u8])
    ensures
        final(out)@ == old(out)@ + src@,
{
    let mut i: usize = 0;
    while i < src.len()
        invariant
            0 <= i <= src@.len(),
            out@ == old(out)@ + src@.take(i as int),
        decreases src@.len() - i,
    {
        out.push(src[i]);
        proof {
            assert(out@ =~= old(out)@ + src@.take(i + 1));
        }
        i += 1;
    }
    proof {
        assert(src@.take(src@.len() as int) =~= src@);
    }
}

/// Byte-wise equality of two slices.
pub fn slices_eq(x: &[u8], y: &[u8]) -> (r: bool)
    ensures
        r == (x@ == y@),
{
    if x.len() != y.len() {
        assert(x@ != y@);
        return false;
    }
    let mut i: usize = 0;
    while i < x.len()
        invariant
            0 <= i <= x@.len(),
            x@.len() == y@.len(),
            forall|k: int| 0 <= k < i ==> x@[k] == y@[k],
        decreases x@.len() - i,
    {
        if x[i] != y[i] {
            assert(x@ != y@);
            return false;
        }
        i += 1;
    }
    assert(x@ =~= y@);
    true
}

/// Character-wise equality of two strings, decided by their UTF-8 bytes.
pub fn str_eq(a: &str, b: &str) -> (r: bool)
    ensures
        r == (a@ == b@),
{
    let r = slices_eq(a.as_bytes(), b.as_bytes());
    proof {
        if a.spec_bytes() == b.spec_bytes() {
            vstd::utf8::encode_utf8_decode_utf8(a@);
            vstd::utf8::encode_utf8_decode_utf8(b@);
            assert(a@ == b@);
        }
    }
    r
}

/// Decimal digits of `n`, most significant first, as ASCII bytes.
pub open spec fn spec_dec_bytes(n: nat) -> Seq<u8>
    decreases n,
{
    if n < 10 {
        seq![(48 + n) as u8]
    } else {
        spec_dec_bytes(n / 10).push((48 + n % 10) as u8)
    }
}

/// Renders `n` in decimal as ASCII bytes.
pub fn dec_bytes(n: u64) -> (r: Vec<u8>)
    ensures
        r@ == spec_dec_bytes(n as nat),
    decreases n,
{
    if n < 10 {
        let mut v: Vec<u8> = Vec::new();
        v.push(48 + n as u8);
        assert(v@ =~= spec_dec_bytes(n as nat));
        v
    } else {
        let mut v = dec_bytes(n / 10);
        v.push(48 + (n % 10) as u8);
        assert(v@ =~= spec_dec_bytes(n as nat));
        v
    }
}

} // verus!
