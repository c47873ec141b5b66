//! Little-endian encodings of integers and of integer sequences.
use vstd::prelude::*;
use vstd::bytes::{
    lemma_auto_spec_u32_to_from_le_bytes, lemma_auto_spec_u64_to_from_le_bytes,
    spec_u32_from_le_bytes, spec_u32_to_le_bytes, spec_u64_from_le_bytes, spec_u64_to_le_bytes,
    u32_from_le_bytes, u32_to_le_bytes, u64_from_le_bytes, u64_to_le_bytes,
};

verus! {

/// Little-endian bytes of every value of `xs`, one after another.
pub open spec fn le32_all(xs: Seq<u32>) -> Seq<u8>
    decreases xs.len(),
{
    if xs.len() == 0 {
        Seq::empty()
    } else {
        le32_all(xs.drop_last()) + spec_u32_to_le_bytes(xs.last())
    }
}

/// Little-endian bytes of every value of `xs`, one after another.
pub open spec fn le64_all(xs: Seq<u64>) -> Seq<u8>
    decreases xs.len(),
{
    if xs.len() == 0 {
        Seq::empty()
    } else {
        le64_all(xs.drop_last()) + spec_u64_to_le_bytes(xs.last())
    }
}

/// The 32-bit value stored little-endian at byte offset `off`.
pub open spec fn u32_at(bytes: Seq<u8>, off: int) -> u32 {
    spec_u32_from_le_bytes(bytes.subrange(off, off + 4))
}

/// The 64-bit value stored little-endian at byte offset `off`.
pub open spec fn u64_at(bytes: Seq<u8>, off: int) -> u64 {
    spec_u64_from_le_bytes(bytes.subrange(off, off + 8))
}

pub proof fn lemma_le32_all(xs: Seq<u32>)
    ensures
        le32_all(xs).len() == 4 * xs.len(),
        forall|i: int|
            0 <= i < xs.len() ==> #[trigger] le32_all(xs).subrange(4 * i, 4 * i + 4)
                == spec_u32_to_le_bytes(xs[i]),
    decreases xs.len(),
{
    lemma_auto_spec_u32_to_from_le_bytes();
    if xs.len() > 0 {
        let init = xs.drop_last();
        lemma_le32_all(init);
        let whole = le32_all(xs);
        assert forall|i: int| 0 <= i < xs.len() implies #[trigger] whole.subrange(4 * i, 4 * i + 4)
            == spec_u32_to_le_bytes(xs[i]) by {
            if i < xs.len() - 1 {
                assert(whole.subrange(4 * i, 4 * i + 4) =~= le32_all(init).subrange(4 * i, 4 * i + 4));
                assert(init[i] == xs[i]);
            } else {
                assert(whole.subrange(4 * i, 4 * i + 4) =~= spec_u32_to_le_bytes(xs.last()));
            }
        }
    }
}

pub proof fn lemma_le64_all(xs: Seq<u64>)
    ensures
        le64_all(xs).len() == 8 * xs.len(),
        forall|i: int|
            0 <= i < xs.len() ==> #[trigger] le64_all(xs).subrange(8 * i, 8 * i + 8)
                == spec_u64_to_le_bytes(xs[i]),
    decreases xs.len(),
{
    lemma_auto_spec_u64_to_from_le_bytes();
    if xs.len() > 0 {
        let init = xs.drop_last();
        lemma_le64_all(init);
        let whole = le64_all(xs);
        assert forall|i: int| 0 <= i < xs.len() implies #[trigger] whole.subrange(8 * i, 8 * i + 8)
            == spec_u64_to_le_bytes(xs[i]) by {
            if i < xs.len() - 1 {
                assert(whole.subrange(8 * i, 8 * i + 8) =~= le64_all(init).subrange(8 * i, 8 * i + 8));
                assert(init[i] == xs[i]);
            } else {
                assert(whole.subrange(8 * i, 8 * i + 8) =~= spec_u64_to_le_bytes(xs.last()));
            }
        }
    }
}

/// Append the little-endian bytes of `x`.
pub fn push_le32(out: &mut Vec<u8>, x: u32)
    ensures
        final(out)@ == old(out)@ + spec_u32_to_le_bytes(x),
{
    let b = u32_to_le_bytes(x);
    out.extend_from_slice(b.as_slice());
}

/// Append the little-endian bytes of `x`.
pub fn push_le64(out: &mut Vec<u8>, x: u64)
    ensures
        final(out)@ == old(out)@ + spec_u64_to_le_bytes(x),
{
    let b = u64_to_le_bytes(x);
    out.extend_from_slice(b.as_slice());
}

/// Read the 32-bit little-endian value at `off`.
pub fn read_le32(bytes: &[u8], off: usize) -> (x: u32)
    requires
        off + 4 <= bytes.len(),
    ensures
        x == u32_at(bytes@, off as int),
{
    u32_from_le_bytes(&bytes[off..off + 4])
}

/// Read the 64-bit little-endian value at `off`.
pub fn read_le64(bytes: &[u8], off: usize) -> (x: u64)
    requires
        off + 8 <= bytes.len(),
    ensures
        x == u64_at(bytes@, off as int),
{
    u64_from_le_bytes(&bytes[off..off + 8])
}

} // verus!
