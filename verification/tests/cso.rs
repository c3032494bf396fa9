use xisocompress::codec::{compress_block_v2, compress_then_evaluate, CsoError, StoredBlock};
use xisocompress::container::{get_cso_info, pad_file, write_block_index, write_cso_info};
use xisocompress::scan::get_image_offset;
use xisocompress::writer::{build_archive, compress_iso, file_bytes};
use xisocompress::FATX_MAX_SIZE;

/// Mirrors the library's fixed encoder settings, producing the full frame.
fn reference_frame(block: &[u8]) -> Vec<u8> {
    let mut enc = minilz4::EncoderBuilder::new()
        .auto_flush(true)
        .checksum(minilz4::ContentChecksum::NoChecksum)
        .block_mode(minilz4::BlockMode::Independent)
        .block_size(minilz4::BlockSize::Max64KB)
        .level(16)
        .build(Vec::new())
        .unwrap();
    std::io::Write::write_all(&mut enc, block).unwrap();
    enc.finish().unwrap()
}

/// Deterministic, incompressible-looking bytes.
fn noise(n: usize) -> Vec<u8> {
    let mut x: u64 = 0x2545F4914F6CDD1D;
    let mut v = Vec::with_capacity(n);
    for _ in 0..n {
        x = x.wrapping_mul(6364136223846793005).wrapping_add(1442695040888963407);
        v.push((x >> 56) as u8);
    }
    v
}

#[test]
fn compressible_block_prefers_compressed() {
    let block = vec![0u8; 2048];
    let stored = compress_then_evaluate(&block).unwrap();
    match stored {
        StoredBlock::Compressed(v) => {
            assert!(v.len() + 12 < 2048);
            let frame = reference_frame(&block);
            assert_eq!(&frame[7..frame.len() - 4], &v[..]);
        },
        StoredBlock::Raw(_) => panic!("an all-zero block must compress"),
    }
}

#[test]
fn compressed_block_round_trips() {
    let mut block = vec![7u8; 2048];
    for i in 0..64 {
        block[i * 32] = i as u8;
    }
    let stored = compress_then_evaluate(&block).unwrap();
    match stored {
        StoredBlock::Compressed(v) => {
            let frame = reference_frame(&block);
            // the stored payload is the frame minus its 7-byte header and
            // 4-byte end mark
            let mut rebuilt = frame[..7].to_vec();
            rebuilt.extend_from_slice(&v);
            rebuilt.extend_from_slice(&frame[frame.len() - 4..]);
            assert_eq!(rebuilt, frame);
            let decoded = minilz4::Decoder::new(&frame[..]).unwrap().decode().unwrap();
            assert_eq!(decoded, block);
        },
        StoredBlock::Raw(_) => panic!("a repetitive block must compress"),
    }
}

#[test]
fn incompressible_block_stays_raw() {
    let block = noise(2048);
    let stored = compress_then_evaluate(&block).unwrap();
    match stored {
        StoredBlock::Raw(v) => assert_eq!(v, block),
        StoredBlock::Compressed(_) => panic!("noise must be stored raw"),
    }
}

#[test]
fn compress_block_v2_strips_frame_overhead() {
    let block = vec![3u8; 1024];
    let trimmed = compress_block_v2(&block).unwrap();
    let frame = reference_frame(&block);
    assert_eq!(&frame[7..frame.len() - 4], &trimmed[..]);
}

#[test]
fn image_offset_redump_layout() {
    let mut raw = vec![0u8; 0x18310000 + 20];
    raw[0x18310000..0x18310000 + 20].copy_from_slice(b"MICROSOFT*XBOX*MEDIA");
    assert_eq!(get_image_offset(&raw), Some(0x18300000));
}

#[test]
fn image_offset_xdvdfs_layout() {
    let mut raw = vec![0u8; 0x10000 + 2048];
    raw[0x10000..0x10000 + 20].copy_from_slice(b"MICROSOFT*XBOX*MEDIA");
    assert_eq!(get_image_offset(&raw), Some(0));
}

#[test]
fn image_offset_unrecognized() {
    let raw = vec![0u8; 4096];
    assert_eq!(get_image_offset(&raw), None);
}

#[test]
fn cso_info_block_arithmetic() {
    let info = get_cso_info(4096 + 100, 100);
    assert_eq!(info.version, 2);
    assert_eq!(info.align, 2);
    assert_eq!(info.total_bytes, 4096);
    assert_eq!(info.total_blocks, 2);
    assert_eq!(get_cso_info(2049, 0).total_blocks, 2);
    assert_eq!(get_cso_info(2048, 0).total_blocks, 1);
    assert_eq!(get_cso_info(1, 0).total_blocks, 1);
    assert_eq!(get_cso_info(0, 0).total_blocks, 0);
}

#[test]
fn header_layout_is_exact() {
    let info = get_cso_info(0x1000, 0);
    let mut buf: Vec<u8> = Vec::new();
    write_cso_info(&mut buf, info);
    let expected: Vec<u8> = vec![
        0x43, 0x49, 0x53, 0x4F, // magic "CISO"
        0x18, 0x00, 0x00, 0x00, // header size
        0x00, 0x10, 0x00, 0x00, 0x00, 0x00, 0x00, 0x00, // total bytes
        0x00, 0x08, 0x00, 0x00, // block size
        0x02, // version
        0x02, // align shift
        0x00, 0x00, // reserved
    ];
    assert_eq!(buf, expected);
}

#[test]
fn block_index_little_endian() {
    let entries: Vec<u32> = vec![1, 0x80000002];
    let mut buf: Vec<u8> = Vec::new();
    write_block_index(&mut buf, &entries);
    assert_eq!(buf, vec![1, 0, 0, 0, 2, 0, 0, 0x80]);
}

#[test]
fn padding_reaches_kilobyte_boundary() {
    let mut buf = vec![9u8; 24];
    pad_file(&mut buf);
    assert_eq!(buf.len(), 1024);
    assert!(buf[24..].iter().all(|&b| b == 0));
    // a file already on a boundary still gets a full kilobyte
    let mut buf2 = vec![9u8; 1024];
    pad_file(&mut buf2);
    assert_eq!(buf2.len(), 2048);
}

#[test]
fn single_block_archive() {
    let payload = vec![0u8; 2048];
    let a = build_archive(&payload, 0, FATX_MAX_SIZE).unwrap();
    assert_eq!(a.info.total_blocks, 1);
    assert_eq!(a.index.len(), 2);
    assert_eq!(a.data.len(), 1);
    // one block: stored at the absolute position after header and index
    let clen = {
        let f = reference_frame(&payload);
        f.len() - 11
    };
    assert_eq!(a.index[0], 0x80000000 | (32 >> 2));
    assert_eq!(a.index[1], ((32 + clen) as u32) >> 2);
    let file = file_bytes(&a, 0);
    assert_eq!(&file[0..4], &[0x43, 0x49, 0x53, 0x4F]);
    assert_eq!(file.len() % 1024, 0);
}

#[test]
fn pipeline_on_signed_image() {
    let mut raw = vec![0u8; 0x10000 + 2048];
    raw[0x10000..0x10000 + 20].copy_from_slice(b"MICROSOFT*XBOX*MEDIA");
    let a = compress_iso(&raw, FATX_MAX_SIZE).unwrap();
    assert_eq!(a.info.total_bytes, (0x10000 + 2048) as u64);
    assert_eq!(a.info.total_blocks, 33);
    assert_eq!(a.index.len(), 34);
    assert_eq!(a.data.len(), 1);
    let file = file_bytes(&a, 0);
    assert_eq!(&file[0..4], &[0x43, 0x49, 0x53, 0x4F]);
    assert_eq!(file.len() % 1024, 0);
    // offsets never decrease within the single file
    for i in 0..33 {
        assert!(a.index[i] & 0x7FFFFFFF <= a.index[i + 1] & 0x7FFFFFFF);
    }
}

#[test]
fn pipeline_rejects_unrecognized_layout() {
    let raw = vec![0u8; 4096];
    match compress_iso(&raw, FATX_MAX_SIZE) {
        Err(e) => {
            assert!(matches!(e, CsoError::Layout));
            assert_eq!(e.message(), "could not get image offset");
        },
        Ok(_) => panic!("an unsigned image must be rejected"),
    }
}

#[test]
fn split_archive_resets_offsets() {
    // four incompressible blocks under a tiny threshold: the third block
    // opens a second file whose offsets restart at zero
    let payload = noise(8192);
    let a = build_archive(&payload, 0, 4096).unwrap();
    assert_eq!(a.info.total_blocks, 4);
    assert_eq!(a.data.len(), 2);
    // base position: 24-byte header + 5 index entries
    assert_eq!(a.index[0], 44 >> 2);
    assert_eq!(a.index[1], 2092 >> 2);
    assert_eq!(a.index[2], 0);
    assert_eq!(a.index[3], 2048 >> 2);
    assert_eq!(a.index[4], 4096 >> 2);
    assert_eq!(a.data[0].len(), 4096);
    assert_eq!(a.data[1].len(), 4096);
    for f in 0..2 {
        let file = file_bytes(&a, f);
        assert_eq!(file.len() % 1024, 0);
        // header and the full shared index, then that file's blocks
        assert_eq!(&file[0..4], &[0x43, 0x49, 0x53, 0x4F]);
        assert_eq!(&file[44..44 + 4096], &payload[f * 4096..(f + 1) * 4096]);
    }
}

#[test]
fn raw_blocks_sit_at_recorded_offsets() {
    // three incompressible blocks, the last one short
    let payload = noise(5000);
    let a = build_archive(&payload, 0, FATX_MAX_SIZE).unwrap();
    assert_eq!(a.info.total_blocks, 3);
    assert_eq!(a.index[0], 40 >> 2);
    assert_eq!(a.index[1], 2088 >> 2);
    assert_eq!(a.index[2], 4136 >> 2);
    assert_eq!(a.index[3], 5040 >> 2);
    let file = file_bytes(&a, 0);
    // the index region holds the little-endian entries
    let mut idx_bytes: Vec<u8> = Vec::new();
    write_block_index(&mut idx_bytes, &a.index);
    assert_eq!(&file[24..40], &idx_bytes[..]);
    // every raw block's bytes sit exactly at its recorded position
    assert_eq!(&file[40..2088], &payload[0..2048]);
    assert_eq!(&file[2088..4136], &payload[2048..4096]);
    assert_eq!(&file[4136..5040], &payload[4096..5000]);
}
