//! Big-endian slice accessors. All MFS on-disk integers are big-endian.

use vstd::prelude::*;

verus! {

/// The big-endian 16-bit number at byte `off` of `s`.
pub open spec fn be16(s: Seq<u8>, off: int) -> u16 {
    (s[off] * 256 + s[off + 1]) as u16
}

/// The big-endian 32-bit number at byte `off` of `s`.
pub open spec fn be32(s: Seq<u8>, off: int) -> u32 {
    (s[off] * 16777216 + s[off + 1] * 65536 + s[off + 2] * 256 + s[off + 3]) as u32
}

/// The two bytes of `v`, big end first.
pub open spec fn be16_bytes(v: u16) -> Seq<u8> {
    seq![(v / 256) as u8, (v % 256) as u8]
}

/// The four bytes of `v`, big end first.
pub open spec fn be32_bytes(v: u32) -> Seq<u8> {
    seq![
        (v / 16777216) as u8,
        (v / 65536 % 256) as u8,
        (v / 256 % 256) as u8,
        (v % 256) as u8,
    ]
}

/// `s` with the bytes from `off` on replaced by `bytes`.
pub open spec fn splice(s: Seq<u8>, off: int, bytes: Seq<u8>) -> Seq<u8> {
    Seq::new(
        s.len(),
        |i: int|
            if off <= i < off + bytes.len() {
                bytes[i - off]
            } else {
                s[i]
            },
    )
}

/// `n` zero bytes.
pub open spec fn zeros(n: nat) -> Seq<u8> {
    Seq::new(n, |i: int| 0u8)
}

/// Reads the big-endian 16-bit number at `off`.
pub fn rd_u16(b: &[u8], off: usize) -> (v: u16)
    requires
        off + 2 <= b@.len(),
    ensures
        v == be16(b@, off as int),
{
    b[off] as u16 * 256 + b[off + 1] as u16
}

/// Reads the big-endian 32-bit number at `off`.
pub fn rd_u32(b: &[u8], off: usize) -> (v: u32)
    requires
        off + 4 <= b@.len(),
    ensures
        v == be32(b@, off as int),
{
    b[off] as u32 * 16777216 + b[off + 1] as u32 * 65536 + b[off + 2] as u32 * 256
        + b[off + 3] as u32
}

/// Writes `v` at `off`, big end first.
pub fn wr_u16(b: &mut [u8], off: usize, v: u16)
    requires
        off + 2 <= old(b)@.len(),
    ensures
        final(b)@ == splice(old(b)@, off as int, be16_bytes(v)),
{
    b[off] = (v / 256) as u8;
    b[off + 1] = (v % 256) as u8;
}

/// Writes `v` at `off`, big end first.
pub fn wr_u32(b: &mut [u8], off: usize, v: u32)
    requires
        off + 4 <= old(b)@.len(),
    ensures
        final(b)@ == splice(old(b)@, off as int, be32_bytes(v)),
{
    b[off] = (v / 16777216) as u8;
    b[off + 1] = (v / 65536 % 256) as u8;
    b[off + 2] = (v / 256 % 256) as u8;
    b[off + 3] = (v % 256) as u8;
}

/// Writes `bytes` at `off`.
pub fn put_bytes(b: &mut [u8], off: usize, bytes: &[u8])
    requires
        off + bytes@.len() <= old(b)@.len(),
    ensures
        final(b)@ == splice(old(b)@, off as int, bytes@),
{
    let n: usize = bytes.len();
    let len: usize = b.len();
    let mut i: usize = 0;
    while i < n
        invariant
            i <= n,
            n == bytes@.len(),
            off + n <= len,
            len == old(b)@.len(),
            b@ == splice(old(b)@, off as int, bytes@.take(i as int)),
        decreases n - i,
    {
        b[off + i] = bytes[i];
        i += 1;
    }
    assert(bytes@.take(n as int) == bytes@);
}

/// Writes `n` zero bytes at `off`.
pub fn put_zeros(b: &mut [u8], off: usize, n: usize)
    requires
        off + n <= old(b)@.len(),
    ensures
        final(b)@ == splice(old(b)@, off as int, zeros(n as nat)),
{
    let len: usize = b.len();
    let mut i: usize = 0;
    while i < n
        invariant
            i <= n,
            off + n <= len,
            len == old(b)@.len(),
            b@ == splice(old(b)@, off as int, zeros(i as nat)),
        decreases n - i,
    {
        b[off + i] = 0;
        i += 1;
    }
}

/// Appends `v`, big end first.
pub fn push_be16(b: &mut Vec<u8>, v: u16)
    ensures
        final(b)@ == old(b)@ + be16_bytes(v),
{
    b.push((v / 256) as u8);
    b.push((v % 256) as u8);
}

/// Appends `v`, big end first.
pub fn push_be32(b: &mut Vec<u8>, v: u32)
    ensures
        final(b)@ == old(b)@ + be32_bytes(v),
{
    b.push((v / 16777216) as u8);
    b.push((v / 65536 % 256) as u8);
    b.push((v / 256 % 256) as u8);
    b.push((v % 256) as u8);
}

/// Appends `n` zero bytes.
pub fn push_zeros(b: &mut Vec<u8>, n: usize)
    ensures
        final(b)@ == old(b)@ + zeros(n as nat),
{
    let mut i: usize = 0;
    while i < n
        invariant
            i <= n,
            b@ == old(b)@ + zeros(i as nat),
        decreases n - i,
    {
        b.push(0);
        i += 1;
    }
}

/// Appends `bytes`.
pub fn push_bytes(b: &mut Vec<u8>, bytes: &[u8])
    ensures
        final(b)@ == old(b)@ + bytes@,
{
    b.extend_from_slice(bytes);
    assert(b@ =~= old(b)@ + bytes@);
}

/// A number whose bytes stand at `off` reads as that number, also where they
/// begin a longer sequence.
pub proof fn lemma_be16_read(s: Seq<u8>, b: Seq<u8>, off: int, v: u16)
    requires
        0 <= off,
        off + 2 <= b.len() <= s.len(),
        b.subrange(off, off + 2) == be16_bytes(v),
        forall|i: int| 0 <= i < b.len() ==> s[i] == b[i],
    ensures
        be16(s, off) == v,
{
    let t = b.subrange(off, off + 2);
    assert(s[off] == t[0] && s[off + 1] == t[1]);
}

/// A number whose bytes stand at `off` reads as that number, also where they
/// begin a longer sequence.
pub proof fn lemma_be32_read(s: Seq<u8>, b: Seq<u8>, off: int, v: u32)
    requires
        0 <= off,
        off + 4 <= b.len() <= s.len(),
        b.subrange(off, off + 4) == be32_bytes(v),
        forall|i: int| 0 <= i < b.len() ==> s[i] == b[i],
    ensures
        be32(s, off) == v,
{
    let t = b.subrange(off, off + 4);
    assert(s[off] == t[0] && s[off + 1] == t[1] && s[off + 2] == t[2] && s[off + 3] == t[3]);
}

/// The bytes of a number that was read are the bytes it was read from.
pub proof fn lemma_be16_rewrite(s: Seq<u8>, off: int)
    requires
        0 <= off,
        off + 2 <= s.len(),
    ensures
        be16_bytes(be16(s, off)) == s.subrange(off, off + 2),
{
}

/// The bytes of a number that was read are the bytes it was read from.
pub proof fn lemma_be32_rewrite(s: Seq<u8>, off: int)
    requires
        0 <= off,
        off + 4 <= s.len(),
    ensures
        be32_bytes(be32(s, off)) == s.subrange(off, off + 4),
{
    lemma_be32_split(s[off] as int, s[off + 1] as int, s[off + 2] as int, s[off + 3] as int);
    let t = s.subrange(off, off + 4);
    assert(t[0] == s[off] && t[1] == s[off + 1] && t[2] == s[off + 2] && t[3] == s[off + 3]);
    assert(be32_bytes(be32(s, off)) =~= t);
}

/// Taking a number of four bytes apart again.
proof fn lemma_be32_split(a: int, b: int, c: int, d: int)
    requires
        0 <= a < 256,
        0 <= b < 256,
        0 <= c < 256,
        0 <= d < 256,
    ensures
        ({
            let v = a * 16777216 + b * 65536 + c * 256 + d;
            &&& v <= u32::MAX
            &&& v / 16777216 == a
            &&& v / 65536 % 256 == b
            &&& v / 256 % 256 == c
            &&& v % 256 == d
        }),
{
    let v = a * 16777216 + b * 65536 + c * 256 + d;
    assert(v / 65536 == a * 256 + b);
    assert(v / 256 == a * 65536 + b * 256 + c);
}

/// Sequences with the same bytes in a range have each of them in common.
pub proof fn lemma_same_range(a: Seq<u8>, b: Seq<u8>, lo: int, hi: int)
    requires
        0 <= lo <= hi <= a.len(),
        hi <= b.len(),
        a.subrange(lo, hi) == b.subrange(lo, hi),
    ensures
        forall|i: int| lo <= i < hi ==> #[trigger] a[i] == b[i],
{
    assert forall|i: int| lo <= i < hi implies #[trigger] a[i] == b[i] by {
        assert(a.subrange(lo, hi)[i - lo] == a[i]);
        assert(b.subrange(lo, hi)[i - lo] == b[i]);
    }
}

} // verus!
