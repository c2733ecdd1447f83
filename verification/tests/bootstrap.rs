//! The bootstrap chain must tell a read failure (an unreadable or truncated
//! image) from a structural negative (readable, but not UDF).

use std::io::{self, Cursor};

use udf_forensic::source::{ReadError, UdfSource};
use udf_forensic::volume::{detect_udf, parse_udf_state, parse_udf_state_checked, UdfPartitionKind};

/// A source whose every read fails with a non-EOF error: a device fault.
struct FaultyReader;

impl UdfSource for FaultyReader {
    fn read_exact_at(&mut self, _byte_pos: u64, _buf: &mut Vec<u8>) -> Result<(), ReadError> {
        Err(ReadError::Fault(io::Error::other("device read fault")))
    }
}

#[test]
fn io_error_at_anchor_surfaces_as_err() {
    let mut r = FaultyReader;
    let res = parse_udf_state_checked(&mut r);
    assert!(
        res.is_err(),
        "a device read fault reading the anchor must surface as Err, not Ok(None)"
    );
}

#[test]
fn truncated_before_anchor_surfaces_as_err() {
    // Too short to reach logical sector 256 at any candidate block size.
    let buf = vec![0u8; 4096];
    let mut r = Cursor::new(buf);
    let res = parse_udf_state_checked(&mut r);
    assert!(
        res.is_err(),
        "truncation before the AVDP anchor must surface as Err (UnexpectedEof)"
    );
    let err = res.err().unwrap().into_io();
    assert_eq!(err.kind(), io::ErrorKind::UnexpectedEof);
}

#[test]
fn full_size_but_wrong_anchor_is_ok_none() {
    // Sector 256 reads as zeros: tag identifier 0, not an AVDP.
    let buf = vec![0u8; 257 * 2048];
    let mut r = Cursor::new(buf);
    let res = parse_udf_state_checked(&mut r);
    assert!(
        matches!(res, Ok(None)),
        "a readable image with a non-AVDP anchor must be Ok(None), got {res:?}"
    );
}

#[test]
fn lenient_parse_folds_a_read_fault_into_none() {
    let mut r = FaultyReader;
    assert!(parse_udf_state(&mut r).is_none());
}

#[test]
fn detect_udf_finds_nsr03_and_stops_at_tea01() {
    let mut img = vec![0u8; 34 * 2048];
    img[17 * 2048 + 1..17 * 2048 + 6].copy_from_slice(b"NSR03");
    assert!(detect_udf(&mut Cursor::new(img.clone())));

    let mut early_end = img.clone();
    early_end[16 * 2048 + 1..16 * 2048 + 6].copy_from_slice(b"TEA01");
    assert!(!detect_udf(&mut Cursor::new(early_end)));

    assert!(!detect_udf(&mut FaultyReader));
    assert!(!detect_udf(&mut Cursor::new(vec![0u8; 34 * 2048])));
}

const BS: usize = 512;

fn stamp_tag(img: &mut [u8], lba: usize, tag_id: u16) {
    let o = lba * BS;
    img[o..o + 2].copy_from_slice(&tag_id.to_le_bytes());
    img[o + 12..o + 16].copy_from_slice(&(lba as u32).to_le_bytes());
}

/// AVDP at 256 → VDS at 260 (PD, LVD with one Type-1 map, terminator) →
/// FSD at logical block 3 of a partition starting at `part_start`, whose
/// root directory File Entry is logical block 4.
fn bootstrap_image(part_start: u32) -> Vec<u8> {
    let mut img = vec![0u8; BS * 280];
    let a = 256 * BS;
    img[a + 16..a + 20].copy_from_slice(&(4u32 * BS as u32).to_le_bytes());
    img[a + 20..a + 24].copy_from_slice(&260u32.to_le_bytes());
    stamp_tag(&mut img, 256, 2);

    let p = 260 * BS;
    img[p + 22..p + 24].copy_from_slice(&0u16.to_le_bytes());
    img[p + 188..p + 192].copy_from_slice(&part_start.to_le_bytes());
    stamp_tag(&mut img, 260, 5);

    let l = 261 * BS;
    img[l + 252..l + 256].copy_from_slice(&3u32.to_le_bytes());
    img[l + 256..l + 258].copy_from_slice(&0u16.to_le_bytes());
    img[l + 264..l + 268].copy_from_slice(&6u32.to_le_bytes());
    img[l + 268..l + 272].copy_from_slice(&1u32.to_le_bytes());
    img[l + 440] = 1;
    img[l + 441] = 6;
    img[l + 444..l + 446].copy_from_slice(&0u16.to_le_bytes());
    stamp_tag(&mut img, 261, 6);

    stamp_tag(&mut img, 262, 8);

    let f = (part_start as usize + 3) * BS;
    img[f + 404..f + 408].copy_from_slice(&4u32.to_le_bytes());
    stamp_tag(&mut img, part_start as usize + 3, 256);
    img
}

#[test]
fn minimal_chain_parses_at_detected_block_size() {
    let img = bootstrap_image(10);
    let st = parse_udf_state_checked(&mut Cursor::new(img))
        .expect("readable")
        .expect("valid UDF");
    assert_eq!(st.block_size, 512);
    assert_eq!(st.partition_start, 10);
    assert_eq!(st.fsd_lba, 13);
    assert_eq!(st.root_fe_lba, 14);
    assert_eq!(st.partition_kind, UdfPartitionKind::Physical);
    assert_eq!(st.partition_map_count, 1);
    assert_eq!(st.vds_loc, 260);
    assert_eq!(st.vds_len_sectors, 4);
}

#[test]
fn anchor_with_wrong_location_is_not_udf() {
    let mut img = bootstrap_image(0);
    // The anchor tag records location 255: not an AVDP for sector 256.
    img[256 * BS + 12..256 * BS + 16].copy_from_slice(&255u32.to_le_bytes());
    let res = parse_udf_state_checked(&mut Cursor::new(img));
    assert!(matches!(res, Ok(None)), "got {res:?}");
}

#[test]
fn device_fault_is_a_fault_and_truncation_an_eof() {
    let res = parse_udf_state_checked(&mut FaultyReader);
    assert!(matches!(res, Err(ReadError::Fault(_))), "got {res:?}");
    let res = parse_udf_state_checked(&mut Cursor::new(vec![0u8; 4096]));
    assert!(matches!(res, Err(ReadError::Eof(_))), "got {res:?}");
}

#[test]
fn probe_past_the_end_is_skipped_not_fatal() {
    // 280 sectors of 512 bytes: the 2048-byte probe at 524288 runs past the
    // end, is skipped, and the 512-byte probe finds the anchor.
    let img = bootstrap_image(0);
    assert!(img.len() < 256 * 2048 + 16);
    let st = parse_udf_state_checked(&mut Cursor::new(img)).expect("readable");
    assert_eq!(st.map(|s| s.block_size), Some(512));
}

#[test]
fn lenient_parse_matches_the_checked_parse_on_the_same_bytes() {
    for img in [bootstrap_image(0), vec![0u8; 4096], vec![0u8; 257 * 2048]] {
        let lenient = parse_udf_state(&mut Cursor::new(img.clone()));
        let checked = parse_udf_state_checked(&mut Cursor::new(img)).ok().flatten();
        assert_eq!(lenient.is_some(), checked.is_some());
        assert_eq!(lenient.map(|s| s.root_fe_lba), checked.map(|s| s.root_fe_lba));
    }
}
