//! Per-block compression: wraps one source block in an independent-block,
//! checksum-free LZ4 frame, strips the frame's fixed overhead, and decides
//! whether the compressed form is worth storing at all.

use vstd::prelude::*;

use crate::bytes::subvec;

verus! {

/// The LZ4 frame that the encoder produces for the bytes `b`, under this
/// library's fixed settings (independent blocks, no checksums, 64 KB block
/// size, level 16, auto flush). With the settings fixed, the frame is a
/// function of the input bytes alone.
pub uninterp spec fn lz4_frame_of(b: Seq<u8>) -> Seq<u8>;

/// The bytes that the LZ4 frame decoder restores from the frame `frame`.
pub uninterp spec fn lz4_frame_decoded(frame: Seq<u8>) -> Seq<u8>;

/// An error that ends the conversion of one input image.
#[derive(Debug)]
pub enum CsoError {
    /// Neither known signature location matched: the layout of the input
    /// file was not recognized.
    Layout,
    /// The block encoder failed; the payload carries its message.
    Encoding(String),
}

impl CsoError {
    /// A human-readable description of the error.
    pub fn message(&self) -> (r: String)
        ensures
            self is Layout ==> r@ == "could not get image offset"@,
            self matches CsoError::Encoding(m) ==> r@ == m@,
    {
        match self {
            CsoError::Layout => String::from_str("could not get image offset"),
            CsoError::Encoding(m) => m.clone(),
        }
    }
}

/// Relies on minilz4's `EncoderBuilder` and `Encoder` over a `Vec<u8>`
/// sink: the result is the complete LZ4 frame for `block`, and minilz4's
/// `Decoder` restores `block` exactly from that frame.
///
/// The call is promised to succeed: writing to a `Vec` cannot fail, the
/// encoder's buffer is sized by `LZ4F_compressBound`, so none of the
/// `LZ4F_compress*` calls can report an error for these settings, and the
/// one remaining failure path, allocation of the compression context, is
/// treated as absent, as the verification model does for allocation
/// elsewhere.
#[verifier::external_body]
fn lz4_encode(block: &Vec<u8>) -> (r: Result<Vec<u8>, String>)
    ensures
        r is Ok,
        r matches Ok(frame) ==> frame@ == lz4_frame_of(block@)
            && lz4_frame_decoded(frame@) == block@,
{
    let built = minilz4::EncoderBuilder::new()
        .auto_flush(true)
        .checksum(minilz4::ContentChecksum::NoChecksum)
        .block_mode(minilz4::BlockMode::Independent)
        .block_size(minilz4::BlockSize::Max64KB)
        .level(16)
        .build(Vec::new());
    match built {
        Ok(mut enc) => match std::io::Write::write_all(&mut enc, block).and_then(|_| enc.finish())
            {
            Ok(frame) => Ok(frame),
            Err(e) => Err(e.to_string()),
        },
        Err(e) => Err(e.to_string()),
    }
}

/// The frame with its fixed overhead stripped: the 7-byte frame header and
/// the 4-byte end mark, which the container does not need to store because
/// its index already bounds every block.
pub open spec fn trimmed_frame(frame: Seq<u8>) -> Seq<u8> {
    frame.subrange(7, frame.len() - 4)
}

/// Compresses one source block and strips the frame overhead.
///
/// The result is the LZ4 frame of `block` minus its first 7 and last 4
/// bytes. It succeeds exactly when the frame is at least 11 bytes long,
/// which every well-formed frame is (a 7-byte header and a 4-byte end
/// mark); the failure is an encoding error.
pub fn compress_block_v2(block: &Vec<u8>) -> (r: Result<Vec<u8>, CsoError>)
    ensures
        r is Ok <==> lz4_frame_of(block@).len() >= 11,
        r matches Ok(v) ==> v@ == trimmed_frame(lz4_frame_of(block@))
            && lz4_frame_decoded(lz4_frame_of(block@)) == block@,
        r matches Err(e) ==> e is Encoding,
{
    match lz4_encode(block) {
        Ok(frame) => {
            if frame.len() >= 11 {
                Ok(subvec(&frame, 7, frame.len() - 4))
            } else {
                Err(CsoError::Encoding(String::from_str(
                    "encoder produced a frame shorter than its fixed overhead",
                )))
            }
        },
        Err(m) => Err(CsoError::Encoding(m)),
    }
}

/// One block as it is stored in the container: either the source bytes
/// unchanged, or the trimmed compressed form.
pub enum StoredBlock {
    Raw(Vec<u8>),
    Compressed(Vec<u8>),
}

impl StoredBlock {
    /// The bytes that are written to the output file for this block.
    pub open spec fn payload(self) -> Seq<u8> {
        match self {
            StoredBlock::Raw(v) => v@,
            StoredBlock::Compressed(v) => v@,
        }
    }

    /// Whether the index entry for this block carries the compressed flag.
    pub open spec fn is_compressed(self) -> bool {
        self is Compressed
    }

    /// The stored bytes, borrowed.
    pub fn payload_ref(&self) -> (r: &Vec<u8>)
        ensures
            r@ == self.payload(),
    {
        match self {
            StoredBlock::Raw(v) => v,
            StoredBlock::Compressed(v) => v,
        }
    }

    /// Whether this block is stored compressed.
    pub fn compressed(&self) -> (r: bool)
        ensures
            r == self.is_compressed(),
    {
        match self {
            StoredBlock::Raw(_) => false,
            StoredBlock::Compressed(_) => true,
        }
    }
}

/// Whether the block `b` is stored in compressed form: only when the
/// trimmed compressed form undercuts the raw size by more than the 12-byte
/// safety margin. On a tie the raw form is preferred.
#[verifier::opaque]
pub open spec fn stores_compressed(b: Seq<u8>) -> bool {
    trimmed_frame(lz4_frame_of(b)).len() + 12 < b.len()
}

/// The bytes stored for the block `b`.
#[verifier::opaque]
pub open spec fn stored_payload(b: Seq<u8>) -> Seq<u8> {
    if stores_compressed(b) {
        trimmed_frame(lz4_frame_of(b))
    } else {
        b
    }
}

/// The stored form of a block restores the source bytes exactly: a raw
/// block is the block itself, and a compressed block is the LZ4 frame of
/// the block with its 7-byte header and 4-byte end mark stripped, where
/// decoding the full frame yields the block again.
pub open spec fn stored_block_restores(s: StoredBlock, b: Seq<u8>) -> bool {
    match s {
        StoredBlock::Raw(v) => v@ == b,
        StoredBlock::Compressed(v) => {
            let frame = lz4_frame_of(b);
            &&& frame.len() >= 11
            &&& frame == frame.subrange(0, 7) + v@ + frame.subrange(
                frame.len() - 4,
                frame.len() as int,
            )
            &&& lz4_frame_decoded(frame) == b
        },
    }
}

/// Compresses one source block and keeps the result only where it is
/// worthwhile.
///
/// The result is the compressed form exactly when its length plus the
/// 12-byte margin is still under the raw length; otherwise the raw bytes
/// are stored and the compressed form is discarded. Either way the stored
/// form restores the source block exactly. It succeeds exactly when the
/// block's frame carries its fixed overhead, as every well-formed frame
/// does.
pub fn compress_then_evaluate(block: &Vec<u8>) -> (r: Result<StoredBlock, CsoError>)
    ensures
        r is Ok <==> lz4_frame_of(block@).len() >= 11,
        r matches Ok(s) ==> s.is_compressed() == stores_compressed(block@)
            && s.payload() == stored_payload(block@)
            && stored_block_restores(s, block@)
            && s.payload().len() <= block@.len(),
        r matches Err(e) ==> e is Encoding,
{
    proof {
        reveal(stores_compressed);
        reveal(stored_payload);
    }
    let compressed = match compress_block_v2(block) {
        Ok(v) => v,
        Err(e) => {
            return Err(e);
        },
    };
    let read = block.len();
    if compressed.len() >= read || read - compressed.len() <= 12 {
        let raw = subvec(block, 0, block.len());
        assert(raw@ =~= block@);
        Ok(StoredBlock::Raw(raw))
    } else {
        proof {
            let frame = lz4_frame_of(block@);
            assert(frame =~= frame.subrange(0, 7) + compressed@ + frame.subrange(
                frame.len() - 4,
                frame.len() as int,
            ));
        }
        Ok(StoredBlock::Compressed(compressed))
    }
}

} // verus!
