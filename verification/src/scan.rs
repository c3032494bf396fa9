//! The signature scanner: probes a handful of fixed byte offsets in a raw
//! image to determine where the filesystem payload begins.

use vstd::prelude::*;

use crate::bytes::{bytes_eq, subvec};

verus! {

/// Byte offset probed for the signature of a redump-layout dump, which
/// carries auxiliary metadata before the filesystem.
pub const XBOX_MEDIA_HEADER_REDUMP_OFFSET: usize = 0x18310000;

/// Byte offset probed for the signature of a raw XDVDFS image, which
/// starts at the filesystem root.
pub const XBOX_MEDIA_HEADER_XDVDFS_OFFSET: usize = 0x10000;

/// Where the payload begins within a redump-layout dump.
pub const REDUMP_PAYLOAD_OFFSET: usize = 0x18300000;

/// The 20-byte XDVDFS volume signature.
pub open spec fn xbox_media_sig() -> Seq<u8> {
    seq![
        77u8,
        73u8,
        67u8,
        82u8,
        79u8,
        83u8,
        79u8,
        70u8,
        84u8,
        42u8,
        88u8,
        66u8,
        79u8,
        88u8,
        42u8,
        77u8,
        69u8,
        68u8,
        73u8,
        65u8,
    ]
}

/// Whether the volume signature stands at byte offset `off` of `raw`.
pub open spec fn sig_at(raw: Seq<u8>, off: int) -> bool {
    off + 20 <= raw.len() && raw.subrange(off, off + 20) == xbox_media_sig()
}

/// Where the filesystem payload begins in `raw`: behind the dump metadata
/// when the redump-layout signature matches, at byte 0 when the raw XDVDFS
/// signature matches, and nowhere (`None`) when neither does.
pub open spec fn spec_image_offset(raw: Seq<u8>) -> Option<int> {
    if sig_at(raw, XBOX_MEDIA_HEADER_REDUMP_OFFSET as int) {
        Some(REDUMP_PAYLOAD_OFFSET as int)
    } else if sig_at(raw, XBOX_MEDIA_HEADER_XDVDFS_OFFSET as int) {
        Some(0int)
    } else {
        None
    }
}

/// The volume signature as bytes.
fn xbox_media_header() -> (r: Vec<u8>)
    ensures
        r@ == xbox_media_sig(),
{
    let mut v: Vec<u8> = Vec::new();
    v.push(77u8);
    v.push(73u8);
    v.push(67u8);
    v.push(82u8);
    v.push(79u8);
    v.push(83u8);
    v.push(79u8);
    v.push(70u8);
    v.push(84u8);
    v.push(42u8);
    v.push(88u8);
    v.push(66u8);
    v.push(79u8);
    v.push(88u8);
    v.push(42u8);
    v.push(77u8);
    v.push(69u8);
    v.push(68u8);
    v.push(73u8);
    v.push(65u8);
    assert(v@ =~= xbox_media_sig());
    v
}

/// Compares the 20 bytes at `at` against the volume signature.
fn probe_signature(raw: &Vec<u8>, at: usize) -> (r: bool)
    requires
        at + 20 <= usize::MAX,
    ensures
        r == sig_at(raw@, at as int),
{
    if raw.len() < at + 20 {
        return false;
    }
    let window = subvec(raw, at, at + 20);
    let sig = xbox_media_header();
    bytes_eq(&window, &sig)
}

/// Determines where the filesystem payload begins, by probing the two
/// known signature locations in order.
pub fn get_image_offset(raw: &Vec<u8>) -> (r: Option<usize>)
    ensures
        match r {
            Some(off) => spec_image_offset(raw@) == Some(off as int) && off < raw@.len(),
            None => spec_image_offset(raw@) is None,
        },
{
    if probe_signature(raw, XBOX_MEDIA_HEADER_REDUMP_OFFSET) {
        Some(REDUMP_PAYLOAD_OFFSET)
    } else if probe_signature(raw, XBOX_MEDIA_HEADER_XDVDFS_OFFSET) {
        Some(0)
    } else {
        None
    }
}

} // verus!
