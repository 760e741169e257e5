//! Little-endian integer fields: the mathematical reading of a fixed-width
//! field out of a byte sequence, exec readers that match it, and exec writers
//! whose output reads back to the written value.

use vstd::prelude::*;

verus! {

/// The unsigned value of the `width` bytes of `data` starting at `pos`, read
/// little-endian. Meaningful when `pos .. pos + width` is in bounds.
pub open spec fn le_val(data: Seq<u8>, pos: int, width: nat) -> nat
    decreases width,
{
    if width == 0 {
        0
    } else {
        (data[pos] + 256 * le_val(data, pos + 1, (width - 1) as nat)) as nat
    }
}

/// A little-endian field reads the same out of any two places that hold the
/// same bytes.
pub proof fn lemma_le_val_agrees(d1: Seq<u8>, d2: Seq<u8>, pos1: int, pos2: int, width: nat)
    requires
        0 <= pos1,
        pos1 + width <= d1.len(),
        0 <= pos2,
        pos2 + width <= d2.len(),
        forall|k: int| 0 <= k < width ==> #[trigger] d1[pos1 + k] == d2[pos2 + k],
    ensures
        le_val(d1, pos1, width) == le_val(d2, pos2, width),
    decreases width,
{
    if width > 0 {
        assert(d1[pos1 + 0] == d2[pos2 + 0]);
        assert forall|k: int| 0 <= k < width - 1 implies #[trigger] d1[(pos1 + 1) + k] == d2[(pos2
            + 1) + k] by {
            assert(d1[pos1 + (k + 1)] == d2[pos2 + (k + 1)]);
            assert((pos1 + 1) + k == pos1 + (k + 1));
            assert((pos2 + 1) + k == pos2 + (k + 1));
        }
        lemma_le_val_agrees(d1, d2, pos1 + 1, pos2 + 1, (width - 1) as nat);
    }
}

/// A little-endian field of `width` bytes is below `256^width`; stated for
/// the widths the format uses.
pub proof fn lemma_le_val_bound(data: Seq<u8>, pos: int, width: nat)
    requires
        width <= 8,
    ensures
        le_val(data, pos, width) < pow256(width),
    decreases width,
{
    reveal_with_fuel(pow256, 9);
    if width > 0 {
        lemma_le_val_bound(data, pos + 1, (width - 1) as nat);
    }
}

pub open spec fn pow256(width: nat) -> nat
    decreases width,
{
    if width == 0 {
        1
    } else {
        256 * pow256((width - 1) as nat)
    }
}

pub fn read_u8(data: &[u8], pos: usize) -> (r: u8)
    requires
        pos < data@.len(),
    ensures
        r as nat == le_val(data@, pos as int, 1),
{
    proof {
        reveal_with_fuel(le_val, 2);
    }
    data[pos]
}

pub fn read_u16_le(data: &[u8], pos: usize) -> (r: u16)
    requires
        pos + 2 <= data@.len(),
    ensures
        r as nat == le_val(data@, pos as int, 2),
{
    proof {
        reveal_with_fuel(le_val, 3);
    }
    let b0 = data[pos] as u16;
    let b1 = data[pos + 1] as u16;
    b0 + b1 * 256
}

pub fn read_u32_le(data: &[u8], pos: usize) -> (r: u32)
    requires
        pos + 4 <= data@.len(),
    ensures
        r as nat == le_val(data@, pos as int, 4),
{
    proof {
        reveal_with_fuel(le_val, 5);
    }
    let b0 = data[pos] as u32;
    let b1 = data[pos + 1] as u32;
    let b2 = data[pos + 2] as u32;
    let b3 = data[pos + 3] as u32;
    b0 + b1 * 0x100 + b2 * 0x1_0000 + b3 * 0x100_0000
}

pub fn read_u64_le(data: &[u8], pos: usize) -> (r: u64)
    requires
        pos + 8 <= data@.len(),
    ensures
        r as nat == le_val(data@, pos as int, 8),
{
    proof {
        reveal_with_fuel(le_val, 9);
    }
    let b0 = data[pos] as u64;
    let b1 = data[pos + 1] as u64;
    let b2 = data[pos + 2] as u64;
    let b3 = data[pos + 3] as u64;
    let b4 = data[pos + 4] as u64;
    let b5 = data[pos + 5] as u64;
    let b6 = data[pos + 6] as u64;
    let b7 = data[pos + 7] as u64;
    b0 + b1 * 0x100 + b2 * 0x1_0000 + b3 * 0x100_0000 + b4 * 0x1_0000_0000 + b5
        * 0x100_0000_0000 + b6 * 0x1_0000_0000_0000 + b7 * 0x100_0000_0000_0000
}

pub fn push_u8(buf: &mut Vec<u8>, v: u8)
    ensures
        final(buf)@.len() == old(buf)@.len() + 1,
        final(buf)@.subrange(0, old(buf)@.len() as int) == old(buf)@,
        le_val(final(buf)@, old(buf)@.len() as int, 1) == v as nat,
{
    buf.push(v);
    proof {
        reveal_with_fuel(le_val, 2);
        assert(final(buf)@.subrange(0, old(buf)@.len() as int) =~= old(buf)@);
    }
}

pub fn push_u16_le(buf: &mut Vec<u8>, v: u16)
    ensures
        final(buf)@.len() == old(buf)@.len() + 2,
        final(buf)@.subrange(0, old(buf)@.len() as int) == old(buf)@,
        le_val(final(buf)@, old(buf)@.len() as int, 2) == v as nat,
{
    let b0 = (v % 256) as u8;
    let b1 = (v / 256) as u8;
    buf.push(b0);
    buf.push(b1);
    proof {
        reveal_with_fuel(le_val, 3);
        assert(final(buf)@.subrange(0, old(buf)@.len() as int) =~= old(buf)@);
    }
}

pub fn push_u32_le(buf: &mut Vec<u8>, v: u32)
    ensures
        final(buf)@.len() == old(buf)@.len() + 4,
        final(buf)@.subrange(0, old(buf)@.len() as int) == old(buf)@,
        le_val(final(buf)@, old(buf)@.len() as int, 4) == v as nat,
{
    let b0 = (v % 256) as u8;
    let b1 = ((v / 0x100) % 256) as u8;
    let b2 = ((v / 0x1_0000) % 256) as u8;
    let b3 = (v / 0x100_0000) as u8;
    buf.push(b0);
    buf.push(b1);
    buf.push(b2);
    buf.push(b3);
    proof {
        reveal_with_fuel(le_val, 5);
        assert(final(buf)@.subrange(0, old(buf)@.len() as int) =~= old(buf)@);
    }
}

#[verifier::rlimit(50)]
pub fn push_u64_le(buf: &mut Vec<u8>, v: u64)
    ensures
        final(buf)@.len() == old(buf)@.len() + 8,
        final(buf)@.subrange(0, old(buf)@.len() as int) == old(buf)@,
        le_val(final(buf)@, old(buf)@.len() as int, 8) == v as nat,
{
    let b0 = (v % 256) as u8;
    let b1 = ((v / 0x100) % 256) as u8;
    let b2 = ((v / 0x1_0000) % 256) as u8;
    let b3 = ((v / 0x100_0000) % 256) as u8;
    let b4 = ((v / 0x1_0000_0000) % 256) as u8;
    let b5 = ((v / 0x100_0000_0000) % 256) as u8;
    let b6 = ((v / 0x1_0000_0000_0000) % 256) as u8;
    let b7 = (v / 0x100_0000_0000_0000) as u8;
    buf.push(b0);
    buf.push(b1);
    buf.push(b2);
    buf.push(b3);
    buf.push(b4);
    buf.push(b5);
    buf.push(b6);
    buf.push(b7);
    proof {
        reveal_with_fuel(le_val, 9);
        assert(final(buf)@.subrange(0, old(buf)@.len() as int) =~= old(buf)@);
    }
}

} // verus!
