use vstd::prelude::*;
use vstd::bytes::*;
use vstd::utf8::{valid_utf8, encode_utf8};

verus! {

/// Size in bytes of one page.
pub const PAGE_SIZE: usize = 8192;

/// `buf` with `bytes` laid over it starting at `off`.
pub open spec fn spliced(buf: Seq<u8>, off: int, bytes: Seq<u8>) -> Seq<u8> {
    Seq::new(buf.len(), |k: int| if off <= k < off + bytes.len() { bytes[k - off] } else { buf[k] })
}

/// Copies `bytes` into `buf` at `off`.
pub fn write_bytes(buf: &mut [u8; PAGE_SIZE], off: usize, bytes: &[u8])
    requires
        off + bytes@.len() <= PAGE_SIZE,
    ensures
        final(buf)@ == spliced(old(buf)@, off as int, bytes@),
{
    let mut i: usize = 0;
    while i < bytes.len()
        invariant
            off + bytes@.len() <= PAGE_SIZE,
            i <= bytes@.len(),
            buf@.len() == PAGE_SIZE,
            forall|k: int| 0 <= k < PAGE_SIZE ==> #[trigger] buf@[k] == (if off <= k < off + i { bytes@[k - off] } else { old(buf)@[k] }),
        decreases bytes@.len() - i,
    {
        buf[off + i] = bytes[i];
        i = i + 1;
    }
    assert(buf@ =~= spliced(old(buf)@, off as int, bytes@));
}

/// Reads the little-endian `u16` at `off`.
pub fn read_u16(buf: &[u8], off: usize) -> (v: u16)
    requires
        off + 2 <= buf.len(),
    ensures
        v == spec_u16_from_le_bytes(buf@.subrange(off as int, off + 2)),
{
    u16_from_le_bytes(vstd::slice::slice_subrange(buf, off, off + 2))
}

/// Reads the little-endian `u32` at `off`.
pub fn read_u32(buf: &[u8], off: usize) -> (v: u32)
    requires
        off + 4 <= buf.len(),
    ensures
        v == spec_u32_from_le_bytes(buf@.subrange(off as int, off + 4)),
{
    u32_from_le_bytes(vstd::slice::slice_subrange(buf, off, off + 4))
}

/// Reads the little-endian `u64` at `off`.
pub fn read_u64(buf: &[u8], off: usize) -> (v: u64)
    requires
        off + 8 <= buf.len(),
    ensures
        v == spec_u64_from_le_bytes(buf@.subrange(off as int, off + 8)),
{
    u64_from_le_bytes(vstd::slice::slice_subrange(buf, off, off + 8))
}

/// Two sequences that agree on `[a, b)` have equal subranges there.
pub proof fn lemma_subrange_agree(s1: Seq<u8>, s2: Seq<u8>, a: int, b: int)
    requires
        0 <= a <= b <= s1.len(),
        b <= s2.len(),
        forall|k: int| a <= k < b ==> s1[k] == s2[k],
    ensures
        s1.subrange(a, b) == s2.subrange(a, b),
{
    assert(s1.subrange(a, b) =~= s2.subrange(a, b));
}

/// Appends the little-endian bytes of `v`.
pub fn push_u16(out: &mut Vec<u8>, v: u16)
    ensures
        final(out)@ == old(out)@ + spec_u16_to_le_bytes(v),
{
    let mut b = u16_to_le_bytes(v);
    out.append(&mut b);
}

/// Appends the little-endian bytes of `v`.
pub fn push_u32(out: &mut Vec<u8>, v: u32)
    ensures
        final(out)@ == old(out)@ + spec_u32_to_le_bytes(v),
{
    let mut b = u32_to_le_bytes(v);
    out.append(&mut b);
}

/// Appends the little-endian bytes of `v`.
pub fn push_u64(out: &mut Vec<u8>, v: u64)
    ensures
        final(out)@ == old(out)@ + spec_u64_to_le_bytes(v),
{
    let mut b = u64_to_le_bytes(v);
    out.append(&mut b);
}

/// Appends `bytes`.
pub fn push_bytes(out: &mut Vec<u8>, bytes: &[u8])
    ensures
        final(out)@ == old(out)@ + bytes@,
{
    let mut i: usize = 0;
    while i < bytes.len()
        invariant
            i <= bytes@.len(),
            out@ == old(out)@ + bytes@.subrange(0, i as int),
        decreases bytes@.len() - i,
    {
        out.push(bytes[i]);
        i = i + 1;
        proof {
            assert(out@ =~= old(out)@ + bytes@.subrange(0, i as int));
        }
    }
    assert(bytes@.subrange(0, bytes@.len() as int) =~= bytes@);
}

/// Appends `n` zero bytes.
pub fn push_zeros(out: &mut Vec<u8>, n: usize)
    ensures
        final(out)@ == old(out)@ + Seq::new(n as nat, |k: int| 0u8),
{
    let mut i: usize = 0;
    while i < n
        invariant
            i <= n,
            out@ == old(out)@ + Seq::new(i as nat, |k: int| 0u8),
        decreases n - i,
    {
        out.push(0);
        i = i + 1;
        proof {
            assert(out@ =~= old(out)@ + Seq::new(i as nat, |k: int| 0u8));
        }
    }
}

/// A copy of bytes `[start, end)` of `buf`.
pub fn copy_range(buf: &[u8], start: usize, end: usize) -> (out: Vec<u8>)
    requires
        start <= end <= buf@.len(),
    ensures
        out@ == buf@.subrange(start as int, end as int),
{
    let mut out: Vec<u8> = Vec::new();
    let mut i: usize = start;
    while i < end
        invariant
            start <= i <= end <= buf@.len(),
            out@ == buf@.subrange(start as int, i as int),
        decreases end - i,
    {
        out.push(buf[i]);
        i = i + 1;
        proof {
            assert(out@ =~= buf@.subrange(start as int, i as int));
        }
    }
    out
}

/// `String::from_utf8`: the string whose UTF-8 encoding is `bytes`, when `bytes` is valid
/// UTF-8. The claim is what std documents: the call fails exactly on invalid UTF-8, and the
/// string it builds keeps the bytes as they are.
#[verifier::external_body]
pub(crate) fn string_from_utf8(bytes: Vec<u8>) -> (r: Option<String>)
    ensures
        r is Some <==> valid_utf8(bytes@),
        r matches Some(s) ==> encode_utf8(s@) == bytes@,
{
    String::from_utf8(bytes).ok()
}

/// The bytes of `b` from position `off` on; nothing when `off` lies past its end.
pub open spec fn tail(b: Seq<u8>, off: int) -> Seq<u8> {
    if 0 <= off <= b.len() {
        b.subrange(off, b.len() as int)
    } else {
        Seq::empty()
    }
}

/// A copy of the bytes of `buf` from position `off` on.
pub fn copy_tail(buf: &[u8], off: u64) -> (out: Vec<u8>)
    ensures
        out@ == tail(buf@, off as int),
{
    if off > buf.len() as u64 {
        return Vec::new();
    }
    copy_range(buf, off as usize, buf.len())
}

} // verus!
