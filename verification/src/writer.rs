//! The container writer: the per-block read, compress, place and index
//! loop, the alignment and splitting policy, and the finished archive.

use vstd::prelude::*;

use crate::bytes::{append_bytes, push_zeros, subvec};
use crate::codec::{
    compress_then_evaluate, lz4_frame_decoded, lz4_frame_of, stored_payload, stores_compressed,
    CsoError, StoredBlock,
};
use crate::container::{
    cso_header_bytes, get_cso_info, index_bytes, pad_file, padded, spec_total_blocks,
    write_block_index, write_cso_info, CsoImage,
};
use crate::scan::{get_image_offset, spec_image_offset};
use crate::FATX_MAX_SIZE;

verus! {

/// The offset field of an index entry: bits 0 to 30, the block's recorded
/// byte position right-shifted by the align shift.
pub open spec fn offset_field(e: u32) -> u32 {
    e & 0x7FFF_FFFF
}

/// The compressed flag of an index entry: bit 31.
pub open spec fn compressed_flag(e: u32) -> bool {
    e & 0x8000_0000 != 0
}

/// The byte position an index entry records: its offset field left-shifted
/// by the align shift.
pub open spec fn entry_off(e: u32) -> int {
    4 * (offset_field(e) as int)
}

/// The recorded position of the start of file `f`'s data region, among `n`
/// total blocks. In the first file positions are absolute, so its data
/// region begins right after the 24-byte header and the `4 * (n + 1)`-byte
/// index; in every later file the running position restarts at zero and
/// positions are relative to the data region itself.
pub open spec fn base_of(f: int, n: int) -> int {
    if f == 0 {
        28 + 4 * n
    } else {
        0
    }
}

/// The bytes of block `i` of the payload that starts at `off` in `raw`:
/// 2048 bytes, or whatever remains for the final block.
#[verifier::opaque]
pub open spec fn block_at(raw: Seq<u8>, off: int, i: int) -> Seq<u8> {
    let start = off + 2048 * i;
    let end = if start + 2048 <= raw.len() {
        start + 2048
    } else {
        raw.len() as int
    };
    raw.subrange(start, end)
}

/// Block `i` is correctly recorded by the index entry `e` and stored in the
/// data region `d` of file `f`: the flag matches the compression decision,
/// the stored bytes sit exactly at the recorded position, the stored form
/// restores the block, and the block was only placed while the running
/// position was within the split threshold `t` (alignment may add up to 3).
#[verifier::opaque]
pub open spec fn block_placed(
    raw: Seq<u8>,
    off: int,
    t: int,
    n: int,
    e: u32,
    d: Seq<u8>,
    f: int,
    i: int,
) -> bool {
    let b = block_at(raw, off, i);
    let s = stored_payload(b);
    let p = entry_off(e) - base_of(f, n);
    &&& compressed_flag(e) == stores_compressed(b)
    &&& lz4_frame_of(b).len() >= 11
    &&& (stores_compressed(b) ==> lz4_frame_decoded(lz4_frame_of(b)) == b)
    &&& 0 <= p
    &&& p + s.len() <= d.len()
    &&& d.subrange(p, p + s.len()) == s
    &&& entry_off(e) <= t + 3
}

/// The in-memory result of one conversion: the descriptor, the shared block
/// index (with its trailing terminator entry), and one data region per
/// physical output file. `assign` records, for the proof, which file each
/// block was placed in.
pub struct CsoArchive {
    pub info: CsoImage,
    pub index: Vec<u32>,
    pub data: Vec<Vec<u8>>,
    pub assign: Ghost<Seq<int>>,
}

/// Everything the writer guarantees of a finished archive for the payload
/// that starts at `off` in `raw`, under the split threshold `t`:
/// the descriptor fields; an index of one entry per block plus the
/// terminator; every block stored at its recorded, 4-byte-aligned position
/// in its file in a form that restores it; positions non-decreasing and
/// non-overlapping within a file; the running position restarting at zero
/// in each later file; a new file opened exactly when the position had
/// passed the threshold, so no data region outgrows the threshold by more
/// than one aligned block; and the terminator recording the final position.
pub open spec fn archive_ok(raw: Seq<u8>, off: int, t: int, a: CsoArchive) -> bool {
    let total = raw.len() - off;
    let n = spec_total_blocks(total);
    let files = a.data@;
    let asg = a.assign@;
    let last = files.len() - 1;
    &&& a.info.version == 2
    &&& a.info.align == 2
    &&& a.info.total_bytes == total
    &&& a.info.total_blocks == n
    &&& a.index@.len() == n + 1
    &&& files.len() >= 1
    &&& asg.len() == n
    &&& forall|i: int| 0 <= i < n ==> 0 <= #[trigger] asg[i] < files.len()
    &&& forall|i: int| #![trigger asg[i], asg[i + 1]] 0 <= i < n - 1 ==> asg[i] <= asg[i + 1]
    &&& forall|i: int|
        0 <= i < n ==> #[trigger] block_placed(
            raw,
            off,
            t,
            n,
            a.index@[i],
            files[asg[i]]@,
            asg[i],
            i,
        )
    &&& forall|i: int|
        #![trigger asg[i], asg[i + 1]]
        0 <= i < n - 1 && asg[i] == asg[i + 1] ==> entry_off(a.index@[i]) + stored_payload(
            block_at(raw, off, i),
        ).len() <= entry_off(a.index@[i + 1])
    &&& forall|i: int|
        #![trigger asg[i], asg[i - 1]]
        1 <= i < n && asg[i] != asg[i - 1] ==> entry_off(a.index@[i]) == 0
    &&& forall|i: int|
        #![trigger asg[i], asg[i + 1]]
        0 <= i < n - 1 && asg[i] == asg[i + 1] ==> entry_off(a.index@[i + 1]) <= entry_off(
            a.index@[i],
        ) + stored_payload(block_at(raw, off, i)).len() + 3
    &&& (n > 0 && asg[0] > 0 ==> entry_off(a.index@[0]) == 0)
    &&& (n > 0 && asg[0] == 0 ==> entry_off(a.index@[0]) == base_of(0, n))
    &&& !compressed_flag(a.index@[n])
    &&& offset_field(a.index@[n]) == (base_of(last, n) + files[last]@.len()) / 4
    &&& forall|i: int|
        0 <= i < n && #[trigger] asg[i] == last ==> entry_off(a.index@[i]) <= entry_off(
            a.index@[n],
        )
    &&& forall|i: int|
        #![trigger asg[i], asg[i + 1]]
        0 <= i < n - 1 && asg[i] != asg[i + 1] ==> base_of(asg[i], n) + files[asg[i]]@.len()
            == entry_off(a.index@[i]) + stored_payload(block_at(raw, off, i)).len()
    &&& (n > 0 ==> base_of(asg[n - 1], n) + files[asg[n - 1]]@.len() == entry_off(
        a.index@[n - 1],
    ) + stored_payload(block_at(raw, off, n - 1)).len())
    &&& (n > 0 && asg[0] > 0 ==> files[0]@.len() == 0)
    &&& forall|f: int| 0 <= f < last ==> base_of(f, n) + #[trigger] files[f]@.len() > t
    &&& forall|f: int|
        0 <= f < files.len() ==> #[trigger] files[f]@.len() == 0 || base_of(f, n)
            + files[f]@.len() <= t + 2051
}

/// Some block of the payload that starts at `off` in `raw` has an LZ4
/// frame without its fixed 11-byte overhead. No well-formed frame lacks it,
/// so this names the one condition under which the writer reports an
/// encoding failure.
pub open spec fn encoding_failure_witness(raw: Seq<u8>, off: int) -> bool {
    exists|i: int|
        0 <= i < spec_total_blocks(raw.len() - off) && lz4_frame_of(
            #[trigger] block_at(raw, off, i),
        ).len() < 11
}

/// The data region of file `f` while the writer is mid-loop: a closed file
/// keeps its region in `done`, and the open file's region is `cur`.
pub open spec fn file_data(done: Seq<Vec<u8>>, cur: Seq<u8>, f: int) -> Seq<u8> {
    if f < done.len() {
        done[f]@
    } else {
        cur
    }
}

/// How the index entry for a 4-byte-aligned position under `2^32` is
/// encoded and read back.
proof fn lemma_entry_encode(x: u32)
    ensures
        offset_field(x >> 2u32) == x >> 2u32,
        !compressed_flag(x >> 2u32),
        offset_field((x >> 2u32) | 0x8000_0000u32) == x >> 2u32,
        compressed_flag((x >> 2u32) | 0x8000_0000u32),
        (x >> 2u32) as int == x as int / 4,
{
    assert((x >> 2u32) & 0x7FFF_FFFFu32 == x >> 2u32) by (bit_vector);
    assert((x >> 2u32) & 0x8000_0000u32 == 0) by (bit_vector);
    assert(((x >> 2u32) | 0x8000_0000u32) & 0x7FFF_FFFFu32 == x >> 2u32) by (bit_vector);
    assert(((x >> 2u32) | 0x8000_0000u32) & 0x8000_0000u32 != 0) by (bit_vector);
    assert(x >> 2u32 == x / 4) by (bit_vector);
}

/// A block stays placed when its file's data region is extended at the end.
proof fn lemma_placed_extend(
    raw: Seq<u8>,
    off: int,
    t: int,
    n: int,
    e: u32,
    d1: Seq<u8>,
    d2: Seq<u8>,
    f: int,
    i: int,
)
    requires
        block_placed(raw, off, t, n, e, d1, f, i),
        d1.len() <= d2.len(),
        d2.subrange(0, d1.len() as int) == d1,
    ensures
        block_placed(raw, off, t, n, e, d2, f, i),
{
    reveal(block_placed);
    let s = stored_payload(block_at(raw, off, i));
    let p = entry_off(e) - base_of(f, n);
    assert(d2.subrange(p, p + s.len()) =~= d1.subrange(p, p + s.len()));
}

/// Every block stays placed when the open file's data region is extended
/// at the end.
proof fn lemma_regions_extend(
    raw: Seq<u8>,
    off: int,
    t: int,
    n: int,
    idx: Seq<u32>,
    done: Seq<Vec<u8>>,
    cur1: Seq<u8>,
    cur2: Seq<u8>,
    asg: Seq<int>,
    m: int,
)
    requires
        cur1.len() <= cur2.len(),
        cur2.subrange(0, cur1.len() as int) == cur1,
        forall|j: int| 0 <= j < m ==> 0 <= #[trigger] asg[j] <= done.len(),
        forall|j: int|
            0 <= j < m ==> #[trigger] block_placed(
                raw,
                off,
                t,
                n,
                idx[j],
                file_data(done, cur1, asg[j]),
                asg[j],
                j,
            ),
    ensures
        forall|j: int|
            0 <= j < m ==> #[trigger] block_placed(
                raw,
                off,
                t,
                n,
                idx[j],
                file_data(done, cur2, asg[j]),
                asg[j],
                j,
            ),
{
    assert forall|j: int| 0 <= j < m implies #[trigger] block_placed(
        raw,
        off,
        t,
        n,
        idx[j],
        file_data(done, cur2, asg[j]),
        asg[j],
        j,
    ) by {
        assert(block_placed(raw, off, t, n, idx[j], file_data(done, cur1, asg[j]), asg[j], j));
        if asg[j] == done.len() {
            lemma_placed_extend(raw, off, t, n, idx[j], cur1, cur2, asg[j], j);
        } else {
            assert(file_data(done, cur2, asg[j]) == file_data(done, cur1, asg[j]));
        }
    }
}

/// Every block stays placed when the open file's data region is closed and
/// appended to the finished list.
proof fn lemma_regions_close(
    raw: Seq<u8>,
    off: int,
    t: int,
    n: int,
    idx: Seq<u32>,
    done1: Seq<Vec<u8>>,
    done2: Seq<Vec<u8>>,
    cur1: Seq<u8>,
    cur2: Seq<u8>,
    asg: Seq<int>,
    m: int,
)
    requires
        done2.len() == done1.len() + 1,
        forall|f: int| 0 <= f < done1.len() ==> #[trigger] done2[f] == done1[f],
        done2[done1.len() as int]@ == cur1,
        forall|j: int| 0 <= j < m ==> 0 <= #[trigger] asg[j] <= done1.len(),
        forall|j: int|
            0 <= j < m ==> #[trigger] block_placed(
                raw,
                off,
                t,
                n,
                idx[j],
                file_data(done1, cur1, asg[j]),
                asg[j],
                j,
            ),
    ensures
        forall|j: int|
            0 <= j < m ==> #[trigger] block_placed(
                raw,
                off,
                t,
                n,
                idx[j],
                file_data(done2, cur2, asg[j]),
                asg[j],
                j,
            ),
{
    assert forall|j: int| 0 <= j < m implies #[trigger] block_placed(
        raw,
        off,
        t,
        n,
        idx[j],
        file_data(done2, cur2, asg[j]),
        asg[j],
        j,
    ) by {
        assert(block_placed(raw, off, t, n, idx[j], file_data(done1, cur1, asg[j]), asg[j], j));
        assert(file_data(done2, cur2, asg[j]) == file_data(done1, cur1, asg[j]));
    }
}

/// Converts the payload that starts `image_offset` bytes into the raw image
/// `raw` into a CISO archive, opening a new output file whenever the
/// running position passes `split_threshold`.
///
/// On success the archive satisfies `archive_ok`. The only failure is an
/// encoding error, and it occurs only when some block's LZ4 frame lacks its
/// fixed 11-byte overhead, which no well-formed frame does: when every
/// block's frame carries it, success is owed.
#[verifier::rlimit(100)]
#[verifier::spinoff_prover]
pub fn build_archive(raw: &Vec<u8>, image_offset: usize, split_threshold: u64) -> (r: Result<
    CsoArchive,
    CsoError,
>)
    requires
        image_offset <= raw.len(),
        split_threshold <= FATX_MAX_SIZE,
    ensures
        r matches Ok(a) ==> archive_ok(raw@, image_offset as int, split_threshold as int, a),
        r matches Err(e) ==> e is Encoding,
        r is Err ==> encoding_failure_witness(raw@, image_offset as int),
        !encoding_failure_witness(raw@, image_offset as int) ==> r is Ok,
{
    let ghost off = image_offset as int;
    let ghost t = split_threshold as int;
    let ghost total = raw@.len() - off;
    let info = get_cso_info(raw.len(), image_offset);
    let total_blocks = info.total_blocks;
    let ghost n = total_blocks as int;
    proof {
        assert(total + 2047 <= u64::MAX as int + 2047);
        vstd::arithmetic::div_mod::lemma_div_is_ordered(total + 2047, u64::MAX as int + 2047, 2048);
        assert((u64::MAX as int + 2047) / 2048 == 0x20_0000_0000_0000);
        assert(n <= 0x20_0000_0000_0000);
        vstd::arithmetic::div_mod::lemma_fundamental_div_mod(total + 2047, 2048);
        assert(2048 * n <= total + 2047);
    }
    let mut index: Vec<u32> = Vec::new();
    let mut done: Vec<Vec<u8>> = Vec::new();
    let mut cur: Vec<u8> = Vec::new();
    let ghost mut asg: Seq<int> = Seq::empty();
    let mut write_pos: u64 = 28 + 4 * (total_blocks as u64);
    let mut block: usize = 0;
    while block < total_blocks
        invariant
            image_offset <= raw@.len(),
            split_threshold <= FATX_MAX_SIZE,
            off == image_offset as int,
            t == split_threshold as int,
            total == raw@.len() - off,
            n == total_blocks as int,
            n == spec_total_blocks(total),
            2048 * n <= total + 2047,
            n <= 0x20_0000_0000_0000,
            block <= total_blocks,
            index@.len() == block as int,
            asg.len() == block as int,
            forall|j: int| 0 <= j < block as int ==> 0 <= #[trigger] asg[j] <= done@.len(),
            block > 0 ==> asg[block as int - 1] == done@.len(),
            block == 0 ==> done@.len() == 0,
            forall|j: int|
                #![trigger asg[j], asg[j + 1]]
                0 <= j < block as int - 1 ==> asg[j] <= asg[j + 1],
            write_pos as int == base_of(done@.len() as int, n) + cur@.len(),
            write_pos as int <= t + 2051 || (done@.len() == 0 && cur@.len() == 0 && block
                == 0),
            forall|j: int|
                0 <= j < block as int ==> #[trigger] block_placed(
                    raw@,
                    off,
                    t,
                    n,
                    index@[j],
                    file_data(done@, cur@, asg[j]),
                    asg[j],
                    j,
                ),
            forall|j: int|
                #![trigger asg[j], asg[j + 1]]
                0 <= j < block as int - 1 && asg[j] == asg[j + 1] ==> entry_off(index@[j])
                    + stored_payload(block_at(raw@, off, j)).len() <= entry_off(index@[j + 1]),
            forall|j: int|
                #![trigger asg[j], asg[j - 1]]
                1 <= j < block as int && asg[j] != asg[j - 1] ==> entry_off(index@[j]) == 0,
            block > 0 && asg[0] > 0 ==> entry_off(index@[0]) == 0,
            block > 0 && asg[0] == 0 ==> entry_off(index@[0]) == base_of(0, n),
            forall|j: int|
                #![trigger asg[j], asg[j + 1]]
                0 <= j < block as int - 1 && asg[j] == asg[j + 1] ==> entry_off(index@[j + 1])
                    <= entry_off(index@[j]) + stored_payload(block_at(raw@, off, j)).len() + 3,
            block == 0 ==> cur@.len() == 0,
            block > 0 ==> write_pos as int == entry_off(index@[block as int - 1])
                + stored_payload(block_at(raw@, off, block as int - 1)).len(),
            forall|j: int|
                #![trigger asg[j], asg[j + 1]]
                0 <= j < block as int - 1 && asg[j] != asg[j + 1] ==> base_of(asg[j], n)
                    + done@[asg[j]]@.len() == entry_off(index@[j]) + stored_payload(
                    block_at(raw@, off, j),
                ).len(),
            block > 0 && asg[0] > 0 ==> done@[0]@.len() == 0,
            forall|f: int| 0 <= f < done@.len() ==> base_of(f, n) + #[trigger] done@[f]@.len() > t,
            forall|f: int|
                0 <= f < done@.len() ==> #[trigger] done@[f]@.len() == 0 || base_of(f, n)
                    + done@[f]@.len() <= t + 2051,
        decreases total_blocks - block,
    {
        let ghost done_top = done@;
        let ghost cur_top = cur@;
        let ghost pos_top = write_pos as int;
        // Open the next numbered file when the running position has passed
        // the split threshold; the position restarts at zero there.
        if write_pos > split_threshold {
            done.push(cur);
            cur = Vec::new();
            write_pos = 0;
            proof {
                lemma_regions_close(
                    raw@,
                    off,
                    t,
                    n,
                    index@,
                    done_top,
                    done@,
                    cur_top,
                    cur@,
                    asg,
                    block as int,
                );
            }
        }
        let ghost cur_mid = cur@;
        let ghost pos_mid = write_pos as int;
        // Zero padding up to the next 4-byte boundary, so that every stored
        // block starts aligned.
        let align_rem = (write_pos % 4) as usize;
        if align_rem > 0 {
            let pad = 4 - align_rem;
            push_zeros(&mut cur, pad);
            write_pos = write_pos + pad as u64;
            proof {
                assert(cur@.subrange(0, cur_mid.len() as int) =~= cur_mid);
                vstd::arithmetic::div_mod::lemma_fundamental_div_mod(pos_mid, 4);
            }
        }
        proof {
            assert(write_pos as int % 4 == 0) by {
                if pos_mid % 4 != 0 {
                    vstd::arithmetic::div_mod::lemma_fundamental_div_mod(pos_mid, 4);
                    vstd::arithmetic::div_mod::lemma_mod_multiples_vanish(pos_mid / 4 + 1, 0, 4);
                }
            }
            assert(cur@.subrange(0, cur_mid.len() as int) =~= cur_mid);
            lemma_regions_extend(
                raw@,
                off,
                t,
                n,
                index@,
                done@,
                cur_mid,
                cur@,
                asg,
                block as int,
            );
        }
        // The entry records the aligned position, shifted by the align
        // shift; bit 31 is reserved for the compressed flag.
        let entry_base: u32 = (write_pos as u32) >> 2;
        proof {
            lemma_entry_encode(write_pos as u32);
        }
        // Read one block from the source payload; the final block may be
        // short.
        proof {
            assert(2048 * (block as int) <= 2048 * (n - 1)) by (nonlinear_arith)
                requires
                    block as int <= n - 1,
            ;
        }
        let start = image_offset + block * 2048;
        let end = if raw.len() - start >= 2048 {
            start + 2048
        } else {
            raw.len()
        };
        let chunk = subvec(raw, start, end);
        proof {
            reveal(block_at);
            assert(chunk@ =~= block_at(raw@, off, block as int));
        }
        // Compress the block and keep whichever form is smaller by the
        // safety margin.
        let stored = match compress_then_evaluate(&chunk) {
            Ok(s) => s,
            Err(e) => {
                proof {
                    assert(lz4_frame_of(block_at(raw@, off, block as int)).len() < 11);
                    assert(encoding_failure_witness(raw@, off));
                }
                return Err(e);
            },
        };
        let is_comp = stored.compressed();
        let entry: u32 = if is_comp {
            entry_base | 0x8000_0000
        } else {
            entry_base
        };
        let payload = match stored {
            StoredBlock::Raw(v) => v,
            StoredBlock::Compressed(v) => v,
        };
        let ghost cur_mid2 = cur@;
        let ghost pos_mid2 = write_pos as int;
        let ghost asg_old = asg;
        append_bytes(&mut cur, &payload);
        write_pos = write_pos + payload.len() as u64;
        index.push(entry);
        proof {
            asg = asg.push(done@.len() as int);
        }
        block = block + 1;
        proof {
            let bi = block as int - 1;
            let b = block_at(raw@, off, bi);
            assert(payload@ == stored_payload(b));
            assert(cur@.subrange(0, cur_mid2.len() as int) =~= cur_mid2);
            assert(cur@.subrange(cur_mid2.len() as int, cur_mid2.len() + payload@.len() as int)
                =~= payload@);
            assert(entry_off(entry) == pos_mid2);
            assert(block_placed(raw@, off, t, n, entry, cur@, done@.len() as int, bi)) by {
                reveal(block_placed);
            }
            if bi == 0 && asg[0] > 0 {
                assert(done@.len() > 0);
                assert(pos_mid2 == 0);
            }
            if bi == 0 && asg[0] == 0 {
                assert(done@.len() == 0);
                assert((28 + 4 * n) % 4 == 0) by {
                    vstd::arithmetic::div_mod::lemma_mod_multiples_basic(7 + n, 4);
                }
                assert(pos_top == 28 + 4 * n);
                assert(pos_mid2 == 28 + 4 * n);
            }
            if bi > 0 && asg[bi - 1] == asg[bi] {
                assert(pos_mid2 <= pos_top + 3);
            }
            lemma_regions_extend(raw@, off, t, n, index@, done@, cur_mid2, cur@, asg_old, bi);
            assert forall|j: int| 0 <= j < block as int implies #[trigger] block_placed(
                raw@,
                off,
                t,
                n,
                index@[j],
                file_data(done@, cur@, asg[j]),
                asg[j],
                j,
            ) by {
                if j < bi {
                    assert(asg[j] == asg_old[j]);
                    assert(block_placed(
                        raw@,
                        off,
                        t,
                        n,
                        index@[j],
                        file_data(done@, cur@, asg_old[j]),
                        asg_old[j],
                        j,
                    ));
                } else {
                    assert(file_data(done@, cur@, asg[j]) == cur@);
                }
            }
            // a file that closed this iteration ends exactly at its last
            // block's end
            if bi > 0 && asg[bi - 1] != asg[bi] {
                assert(asg[bi - 1] == done@.len() - 1);
                assert(done@[asg[bi - 1]]@ == cur_top);
                assert(pos_top == base_of(asg[bi - 1], n) + cur_top.len());
                assert(base_of(asg[bi - 1], n) + done@[asg[bi - 1]]@.len() == entry_off(
                    index@[bi - 1],
                ) + stored_payload(block_at(raw@, off, bi - 1)).len());
            }
            // the previous block in the same file ends at or before the new
            // block's recorded position
            if bi > 0 && asg[bi - 1] == asg[bi] {
                assert(asg[bi - 1] == asg_old[bi - 1]);
                assert(block_placed(
                    raw@,
                    off,
                    t,
                    n,
                    index@[bi - 1],
                    file_data(done@, cur_mid2, asg_old[bi - 1]),
                    asg_old[bi - 1],
                    bi - 1,
                ));
                assert(pos_mid2 == base_of(done@.len() as int, n) + cur_mid2.len());
                assert(entry_off(index@[bi - 1]) + stored_payload(block_at(raw@, off, bi - 1)).len()
                    <= entry_off(index@[bi])) by {
                    reveal(block_placed);
                }
            }
        }
    }
    // The trailing terminator entry records the final position of the last
    // file; kept for backward format compatibility.
    proof {
        assert((write_pos as int) < 0x1_0000_0000);
    }
    let term: u32 = (write_pos as u32) >> 2;
    proof {
        lemma_entry_encode(write_pos as u32);
        assert((write_pos as u32) as int == write_pos as int);
    }
    index.push(term);
    let ghost done_end = done@;
    let ghost cur_end = cur@;
    done.push(cur);
    let archive = CsoArchive { info, index, data: done, assign: Ghost(asg) };
    proof {
        let files = archive.data@;
        let last = files.len() - 1;
        assert(files[last]@ == cur_end);
        lemma_regions_close(
            raw@,
            off,
            t,
            n,
            archive.index@,
            done_end,
            files,
            cur_end,
            cur_end,
            asg,
            n,
        );
        assert forall|i: int| 0 <= i < n implies #[trigger] block_placed(
            raw@,
            off,
            t,
            n,
            archive.index@[i],
            files[asg[i]]@,
            asg[i],
            i,
        ) by {
            assert(block_placed(
                raw@,
                off,
                t,
                n,
                archive.index@[i],
                file_data(files, cur_end, asg[i]),
                asg[i],
                i,
            ));
            assert(files[asg[i]]@ == file_data(files, cur_end, asg[i]));
        }
        if n > 0 {
            assert(asg[n - 1] == done_end.len());
            assert(files[asg[n - 1]]@ == cur_end);
        }
        assert forall|i: int|
            #![trigger asg[i], asg[i + 1]]
            0 <= i < n - 1 && asg[i] != asg[i + 1] implies base_of(asg[i], n) + files[asg[i]]@.len()
            == entry_off(archive.index@[i]) + stored_payload(block_at(raw@, off, i)).len() by {
            assert(asg[i] < done_end.len());
            assert(files[asg[i]]@ == done_end[asg[i]]@);
        }
        assert forall|i: int| 0 <= i < n && #[trigger] asg[i] == last implies entry_off(
            archive.index@[i],
        ) <= entry_off(archive.index@[n]) by {
            let e = archive.index@[i];
            let s = stored_payload(block_at(raw@, off, i));
            assert(block_placed(raw@, off, t, n, e, files[asg[i]]@, asg[i], i));
            assert(entry_off(e) <= base_of(last, n) + cur_end.len()) by {
                reveal(block_placed);
            }
            let w = write_pos as int;
            assert(entry_off(e) <= w);
            let o = offset_field(e) as int;
            vstd::arithmetic::div_mod::lemma_div_is_ordered(4 * o, w, 4);
            vstd::arithmetic::div_mod::lemma_div_multiples_vanish(o, 4);
        }
    }
    Ok(archive)
}

/// The file assignment of blocks is non-decreasing: a later block never
/// lands in an earlier file.
pub proof fn lemma_assign_ordered(raw: Seq<u8>, off: int, t: int, a: CsoArchive, i: int, j: int)
    requires
        archive_ok(raw, off, t, a),
        0 <= i <= j < spec_total_blocks(raw.len() - off),
    ensures
        a.assign@[i] <= a.assign@[j],
    decreases j - i,
{
    if i < j {
        let k = j - 1;
        lemma_assign_ordered(raw, off, t, a, i, k);
        assert(a.assign@[k] <= a.assign@[k + 1]);
    }
}

/// Index monotonicity: among the entries of blocks placed in one physical
/// file, recorded offsets never decrease.
pub proof fn lemma_index_monotone(raw: Seq<u8>, off: int, t: int, a: CsoArchive, i: int, j: int)
    requires
        archive_ok(raw, off, t, a),
        0 <= i <= j < spec_total_blocks(raw.len() - off),
        a.assign@[i] == a.assign@[j],
    ensures
        offset_field(a.index@[i]) <= offset_field(a.index@[j]),
    decreases j - i,
{
    if i < j {
        lemma_assign_ordered(raw, off, t, a, i, i + 1);
        lemma_assign_ordered(raw, off, t, a, i + 1, j);
        assert(a.assign@[i] <= a.assign@[i + 1]);
        assert(a.assign@[i] == a.assign@[i + 1]);
        assert(entry_off(a.index@[i]) + stored_payload(block_at(raw, off, i)).len() <= entry_off(
            a.index@[i + 1],
        ));
        lemma_index_monotone(raw, off, t, a, i + 1, j);
    }
}

/// Alignment: the byte position an index entry records, its offset field
/// shifted left by the align shift, is a multiple of the 4-byte alignment
/// granularity.
pub proof fn lemma_entry_alignment(e: u32)
    ensures
        entry_off(e) % 4 == 0,
{
    vstd::arithmetic::div_mod::lemma_mod_multiples_basic(offset_field(e) as int, 4);
}

/// Assembles physical file `f` of the archive: the 24-byte header, the
/// complete block index, the file's packed data region, then zero padding
/// up to the next 1024-byte boundary.
pub fn file_bytes(a: &CsoArchive, f: usize) -> (r: Vec<u8>)
    requires
        f < a.data.len(),
    ensures
        r@ == padded(cso_header_bytes(a.info) + index_bytes(a.index@) + a.data@[f as int]@),
        r@.len() % 1024 == 0,
{
    let mut out: Vec<u8> = Vec::new();
    write_cso_info(&mut out, a.info);
    write_block_index(&mut out, &a.index);
    let region = &a.data[f];
    append_bytes(&mut out, region);
    let ghost body = out@;
    pad_file(&mut out);
    proof {
        assert(body =~= cso_header_bytes(a.info) + index_bytes(a.index@) + a.data@[f as int]@);
        assert(out@ =~= padded(cso_header_bytes(a.info) + index_bytes(a.index@) + a.data@[
            f as int
        ]@));
    }
    out
}

/// Converts one raw image into a CISO archive: locates the filesystem
/// payload by its signature, then runs the container writer over it.
///
/// A layout-detection failure is reported exactly when neither signature is
/// present. The only other failure is an encoding error, which occurs only
/// when some block's LZ4 frame lacks its fixed overhead, which no
/// well-formed frame does: a signed image whose blocks all encode normally
/// is owed success.
pub fn compress_iso(raw: &Vec<u8>, split_threshold: u64) -> (r: Result<CsoArchive, CsoError>)
    requires
        split_threshold <= FATX_MAX_SIZE,
    ensures
        r matches Ok(a) ==> spec_image_offset(raw@) matches Some(off) && archive_ok(
            raw@,
            off,
            split_threshold as int,
            a,
        ),
        spec_image_offset(raw@) is None ==> (r matches Err(e) && e is Layout),
        (r matches Err(e) && e is Layout) ==> spec_image_offset(raw@) is None,
        (r matches Err(e) && e is Encoding) ==> (spec_image_offset(raw@) matches Some(off)
            && encoding_failure_witness(raw@, off)),
        r matches Err(e) ==> e is Layout || e is Encoding,
{
    match get_image_offset(raw) {
        Some(off) => {
            let r = build_archive(raw, off, split_threshold);
            proof {
                if r is Err {
                    assert(spec_image_offset(raw@) == Some(off as int));
                    assert(encoding_failure_witness(raw@, off as int));
                }
            }
            r
        },
        None => Err(CsoError::Layout),
    }
}

} // verus!
