//! Little-endian integer encoding, through `byteorder`.

use vstd::prelude::*;
use byteorder::{ByteOrder, LittleEndian};

verus! {

/// The `k` little-endian bytes of `n` (its `k` lowest base-256 digits, lowest first).
pub open spec fn le_bytes(n: nat, k: nat) -> Seq<u8>
    decreases k,
{
    if k == 0 {
        Seq::empty()
    } else {
        seq![(n % 256) as u8] + le_bytes(n / 256, (k - 1) as nat)
    }
}

/// The number whose little-endian bytes are `b`.
pub open spec fn le_value(b: Seq<u8>) -> nat
    decreases b.len(),
{
    if b.len() == 0 {
        0
    } else {
        b[0] as nat + 256 * le_value(b.drop_first())
    }
}

/// Powers of 256.
pub open spec fn pow256(k: nat) -> nat
    decreases k,
{
    if k == 0 { 1 } else { 256 * pow256((k - 1) as nat) }
}

/// Reading back `k` little-endian bytes of `n` gives `n` when it fits in `k` bytes.
pub proof fn lemma_le_roundtrip(n: nat, k: nat)
    requires
        n < pow256(k),
    ensures
        le_bytes(n, k).len() == k,
        le_value(le_bytes(n, k)) == n,
    decreases k,
{
    if k > 0 {
        assert(n / 256 < pow256((k - 1) as nat)) by (nonlinear_arith)
            requires
                n < 256 * pow256((k - 1) as nat),
        ;
        lemma_le_roundtrip(n / 256, (k - 1) as nat);
        let b = le_bytes(n, k);
        assert(b.drop_first() =~= le_bytes(n / 256, (k - 1) as nat));
        assert(n == n % 256 + 256 * (n / 256)) by (nonlinear_arith);
    }
}

/// `k` little-endian bytes always read back below `256^k`.
pub proof fn lemma_le_value_bound(b: Seq<u8>)
    ensures
        le_value(b) < pow256(b.len()),
    decreases b.len(),
{
    if b.len() > 0 {
        lemma_le_value_bound(b.drop_first());
        let v = le_value(b.drop_first());
        let p = pow256((b.len() - 1) as nat);
        assert(b[0] as nat + 256 * v < 256 * p) by (nonlinear_arith)
            requires
                v < p,
                b[0] < 256,
        ;
    }
}

/// Writes `n` as two little-endian bytes (`LittleEndian::write_u16`).
#[verifier::external_body]
pub(crate) fn le_u16_bytes(n: u16) -> (r: [u8; 2])
    ensures
        r@ == le_bytes(n as nat, 2),
{
    let mut buf = [0u8; 2];
    LittleEndian::write_u16(&mut buf, n);
    buf
}

/// Writes `n` as four little-endian bytes (`LittleEndian::write_u32`).
#[verifier::external_body]
pub(crate) fn le_u32_bytes(n: u32) -> (r: [u8; 4])
    ensures
        r@ == le_bytes(n as nat, 4),
{
    let mut buf = [0u8; 4];
    LittleEndian::write_u32(&mut buf, n);
    buf
}

/// Writes `n` as eight little-endian bytes (`LittleEndian::write_u64`).
#[verifier::external_body]
pub(crate) fn le_u64_bytes(n: u64) -> (r: [u8; 8])
    ensures
        r@ == le_bytes(n as nat, 8),
{
    let mut buf = [0u8; 8];
    LittleEndian::write_u64(&mut buf, n);
    buf
}

/// Reads the two bytes of `buf` at `pos` as a little-endian number (`LittleEndian::read_u16`).
#[verifier::external_body]
pub(crate) fn le_read_u16(buf: &[u8], pos: usize) -> (r: u16)
    requires
        pos + 2 <= buf@.len(),
    ensures
        r as nat == le_value(buf@.subrange(pos as int, pos + 2)),
{
    LittleEndian::read_u16(&buf[pos..])
}

/// Reads the four bytes of `buf` at `pos` as a little-endian number (`LittleEndian::read_u32`).
#[verifier::external_body]
pub(crate) fn le_read_u32(buf: &[u8], pos: usize) -> (r: u32)
    requires
        pos + 4 <= buf@.len(),
    ensures
        r as nat == le_value(buf@.subrange(pos as int, pos + 4)),
{
    LittleEndian::read_u32(&buf[pos..])
}

/// Reads the eight bytes of `buf` at `pos` as a little-endian number (`LittleEndian::read_u64`).
#[verifier::external_body]
pub(crate) fn le_read_u64(buf: &[u8], pos: usize) -> (r: u64)
    requires
        pos + 8 <= buf@.len(),
    ensures
        r as nat == le_value(buf@.subrange(pos as int, pos + 8)),
{
    LittleEndian::read_u64(&buf[pos..])
}

/// Appends `bytes` to `out`.
pub fn push_bytes(out: &mut Vec<u8>, bytes: &[u8])
    ensures
        final(out)@ == old(out)@ + bytes@,
{
    let mut i: usize = 0;
    while i < bytes.len()
        invariant
            i <= bytes@.len(),
            out@ == old(out)@ + bytes@.take(i as int),
        decreases bytes.len() - i,
    {
        out.push(bytes[i]);
        i += 1;
        assert(out@ =~= old(out)@ + bytes@.take(i as int));
    }
    assert(bytes@.take(bytes@.len() as int) =~= bytes@);
}

} // verus!
