//! The CISO container: descriptor, header and index encodings, padding, and
//! the assembly of one physical output file.

use vstd::prelude::*;

use crate::bytes::{append_bytes, push_u32_le, push_u64_le, push_zeros, u32_le, u64_le};
use crate::{CISO_BLOCK_SIZE, CISO_HEADER_SIZE, CISO_MAGIC};

verus! {

/// The container descriptor computed once per conversion.
#[derive(Copy, Clone)]
pub struct CsoImage {
    /// Format revision; fixed at 2.
    pub version: u8,
    /// Log2 of the byte alignment granularity; fixed at 2 (4-byte alignment).
    pub align: u8,
    /// Length in bytes of the filesystem payload.
    pub total_bytes: u64,
    /// Number of blocks the payload partitions into; the final block may be
    /// short.
    pub total_blocks: usize,
}

/// Number of blocks that a payload of `total_bytes` bytes partitions into:
/// one per full 2048-byte block, plus one for a short final remainder.
pub open spec fn spec_total_blocks(total_bytes: int) -> int {
    (total_bytes + 2047) / 2048
}

/// Computes the container descriptor for a payload that starts `image_offset`
/// bytes into a raw image of `raw_len` bytes.
pub fn get_cso_info(raw_len: usize, image_offset: usize) -> (r: CsoImage)
    requires
        image_offset <= raw_len,
    ensures
        r.version == 2,
        r.align == 2,
        r.total_bytes == raw_len - image_offset,
        r.total_blocks == spec_total_blocks(raw_len - image_offset),
{
    let rem = raw_len - image_offset;
    let blocks = if rem == 0 {
        0
    } else {
        (rem - 1) / CISO_BLOCK_SIZE + 1
    };
    assert(blocks == spec_total_blocks(rem as int)) by {
        if rem > 0 {
            let q = (rem - 1) as int / 2048;
            vstd::arithmetic::div_mod::lemma_fundamental_div_mod((rem - 1) as int, 2048);
            assert((rem + 2047) == 2048 * (q + 1) + (rem - 1) as int % 2048);
            vstd::arithmetic::div_mod::lemma_div_multiples_vanish_fancy(
                q + 1,
                (rem - 1) as int % 2048,
                2048,
            );
        }
    }
    CsoImage { version: 2, align: 2, total_bytes: rem as u64, total_blocks: blocks }
}

/// The 24 header bytes at the start of every physical output file, little
/// endian: magic, header size, payload length, block size, version, align
/// shift, and two reserved zero bytes.
pub open spec fn cso_header_bytes(img: CsoImage) -> Seq<u8> {
    u32_le(CISO_MAGIC) + u32_le(CISO_HEADER_SIZE) + u64_le(img.total_bytes) + u32_le(
        CISO_BLOCK_SIZE as u32,
    ) + seq![img.version, img.align, 0u8, 0u8]
}

/// Appends the 24-byte container header for `img_data` to `f`.
pub fn write_cso_info(f: &mut Vec<u8>, img_data: CsoImage)
    ensures
        final(f)@ == old(f)@ + cso_header_bytes(img_data),
        final(f)@.len() == old(f)@.len() + CISO_HEADER_SIZE,
{
    push_u32_le(f, CISO_MAGIC);
    push_u32_le(f, CISO_HEADER_SIZE);
    push_u64_le(f, img_data.total_bytes);
    push_u32_le(f, CISO_BLOCK_SIZE as u32);
    f.push(img_data.version);
    f.push(img_data.align);
    f.push(0u8);
    f.push(0u8);
    assert(f@ =~= old(f)@ + cso_header_bytes(img_data));
}

/// The little-endian encoding of a block index: each entry as four bytes,
/// in order.
pub open spec fn index_bytes(entries: Seq<u32>) -> Seq<u8>
    decreases entries.len(),
{
    if entries.len() == 0 {
        Seq::empty()
    } else {
        index_bytes(entries.drop_last()) + u32_le(entries.last())
    }
}

/// The index encoding takes four bytes per entry.
pub proof fn lemma_index_bytes_len(entries: Seq<u32>)
    ensures
        index_bytes(entries).len() == 4 * entries.len(),
    decreases entries.len(),
{
    if entries.len() > 0 {
        lemma_index_bytes_len(entries.drop_last());
    }
}

/// Appends the little-endian encoding of every index entry to `f`.
pub fn write_block_index(f: &mut Vec<u8>, blocks: &Vec<u32>)
    ensures
        final(f)@ == old(f)@ + index_bytes(blocks@),
{
    let mut i: usize = 0;
    while i < blocks.len()
        invariant
            i <= blocks.len(),
            f@ == old(f)@ + index_bytes(blocks@.take(i as int)),
        decreases blocks.len() - i,
    {
        push_u32_le(f, blocks[i]);
        proof {
            let taken = blocks@.take(i as int + 1);
            assert(taken.drop_last() =~= blocks@.take(i as int));
            assert(taken.last() == blocks@[i as int]);
        }
        i = i + 1;
    }
    assert(blocks@.take(blocks@.len() as int) =~= blocks@);
}

/// Number of zero bytes appended to a file of `len` bytes to round it up to
/// the next 1024-byte boundary; a file already on a boundary still gets a
/// full 1024 bytes.
pub open spec fn pad_amount(len: int) -> int {
    1024 - len % 1024
}

/// Pads `f` with zero bytes so that its length is a multiple of 1024.
pub fn pad_file(f: &mut Vec<u8>)
    ensures
        final(f)@ == old(f)@ + Seq::new(pad_amount(old(f)@.len() as int) as nat, |i: int| 0u8),
        final(f)@.len() == old(f)@.len() + pad_amount(old(f)@.len() as int),
        final(f)@.len() % 1024 == 0,
        0 < pad_amount(old(f)@.len() as int) <= 1024,
{
    let pad = 1024 - f.len() % 1024;
    push_zeros(f, pad);
    proof {
        vstd::arithmetic::div_mod::lemma_fundamental_div_mod(old(f)@.len() as int, 1024);
        vstd::arithmetic::div_mod::lemma_mod_multiples_vanish(
            old(f)@.len() as int / 1024 + 1,
            0,
            1024,
        );
    }
}

/// The bytes of `s` followed by its zero padding up to the next 1024-byte
/// boundary.
pub open spec fn padded(s: Seq<u8>) -> Seq<u8> {
    s + Seq::new(pad_amount(s.len() as int) as nat, |i: int| 0u8)
}

} // verus!
