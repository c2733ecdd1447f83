//! Anomaly kinds, their derived surface, and the analyzer over hand-built
//! UDF images.

use std::io::Cursor;

use udf_forensic::descriptor::{
    decode_timestamp, ecma167_crc, tag_checksum, TAG_AVDP, TAG_EFE, TAG_FE, TAG_FID, TAG_FSD, TAG_LVD, TAG_PD,
};
use udf_forensic::findings::{
    analyze, audit_file_entry, audit_tag_at, fe_findings, str_after, tag_audit, Category, Severity,
    UdfAnomaly, UdfAnomalyKind,
};

fn slack_image(info_len: u64, slack: &[u8]) -> Vec<u8> {
    let bs = 512usize;
    let mut img = vec![0u8; bs * 8];
    let fe = 4 * bs;
    img[fe..fe + 2].copy_from_slice(&TAG_FE.to_le_bytes());
    img[fe + 34..fe + 36].copy_from_slice(&0u16.to_le_bytes());
    img[fe + 56..fe + 64].copy_from_slice(&info_len.to_le_bytes());
    img[fe + 168..fe + 172].copy_from_slice(&0u32.to_le_bytes());
    img[fe + 172..fe + 176].copy_from_slice(&8u32.to_le_bytes());
    img[fe + 176..fe + 180].copy_from_slice(&(info_len as u32).to_le_bytes());
    img[fe + 180..fe + 184].copy_from_slice(&5u32.to_le_bytes());
    let data = 5 * bs + (info_len as usize % bs);
    img[data..data + slack.len()].copy_from_slice(slack);
    img
}

#[test]
fn audit_file_entry_emits_slack_finding() {
    let mut r = Cursor::new(slack_image(100, &[0x01, 0x00, 0x02]));
    let mut out = Vec::new();
    audit_file_entry(&mut r, 512, 0, 4, None, &mut out).unwrap();
    let slack: Vec<_> = out
        .iter()
        .filter(|a| matches!(a.kind, UdfAnomalyKind::SlackData { .. }))
        .collect();
    assert_eq!(slack.len(), 1);
    assert_eq!(slack[0].code, "UDF-SLACK-DATA");
    assert_eq!(slack[0].severity, Severity::Low);
    assert!(matches!(
        slack[0].kind,
        UdfAnomalyKind::SlackData {
            nonzero_bytes: 2,
            ..
        }
    ));
}

#[test]
fn slack_anomaly_surface() {
    let an = UdfAnomaly::new(UdfAnomalyKind::SlackData {
        lba: 5,
        nonzero_bytes: 2,
        slack_bytes: 412,
    });
    assert_eq!(an.code, "UDF-SLACK-DATA");
    assert_eq!(an.severity, Severity::Low);
    assert_eq!(an.kind.category(), Category::Residue);
    assert!(an.note.contains("consistent with"));
    let shown = an.display_string();
    assert!(
        shown.starts_with("[LOW] UDF-SLACK-DATA: "),
        "unexpected Display: {shown}"
    );
}

#[test]
fn file_after_volume_surface() {
    let an = UdfAnomaly::new(UdfAnomalyKind::FileAfterVolume {
        lba: 7,
        file_time: "2099-01-01 00:00:00".into(),
        volume_time: "2026-06-21 08:46:57".into(),
    });
    assert_eq!(an.code, "UDF-TIME-AFTER-VOLUME");
    assert_eq!(an.severity, Severity::Medium);
    assert_eq!(an.kind.category(), Category::History);
    assert!(an.note.contains("consistent with"));
}

#[test]
fn notes_are_exact() {
    let crc = UdfAnomaly::new(UdfAnomalyKind::TagCrcMismatch {
        descriptor: "AVDP".into(),
        lba: 256,
        stored: 0x1A2B,
        computed: 0x00FF,
    });
    assert_eq!(
        crc.note,
        "AVDP descriptor at LBA 256: recorded DescriptorCRC 0x1a2b disagrees with the CRC-CCITT \
         recomputed over its body (0x00ff) — ECMA-167 mandates a valid CRC on every descriptor, \
         so a mismatch is consistent with the descriptor body having been edited without \
         recomputing the CRC, or with corruption"
    );
    assert_eq!(crc.severity, Severity::High);
    assert_eq!(crc.kind.category(), Category::Integrity);
    assert_eq!(crc.code, "UDF-TAG-CRC-MISMATCH");

    let ck = UdfAnomaly::new(UdfAnomalyKind::TagChecksumBad {
        descriptor: "FileSetDescriptor".into(),
        lba: 261,
        stored: 7,
        computed: 200,
    });
    assert_eq!(
        ck.note,
        "FileSetDescriptor descriptor at LBA 261: recorded tag checksum 7 disagrees with the \
         recomputed mod-256 sum of the tag bytes (200) — ECMA-167 mandates a valid \
         descriptor-tag checksum, so a mismatch is consistent with the 16-byte tag header \
         having been edited, or with corruption"
    );
    assert_eq!(ck.code, "UDF-TAG-CHECKSUM-BAD");
    assert_eq!(ck.severity, Severity::High);

    let late = UdfAnomaly::new(UdfAnomalyKind::FileAfterVolume {
        lba: 0,
        file_time: "2099-01-01 00:00:00".into(),
        volume_time: "2026-06-21 08:46:57".into(),
    });
    assert_eq!(
        late.note,
        "File Entry at LBA 0 has modification time 2099-01-01 00:00:00, after the volume File \
         Set Descriptor recording time 2026-06-21 08:46:57 — files normally predate volume \
         finalization, so this is consistent with a post-authoring addition/touch or a \
         backdated volume recording time"
    );

    let slack = UdfAnomaly::new(UdfAnomalyKind::SlackData {
        lba: 4294967295,
        nonzero_bytes: 1,
        slack_bytes: 4095,
    });
    assert_eq!(
        slack.note,
        "File Entry at LBA 4294967295 has 1 non-zero byte(s) in its 4095-byte final-block slack \
         — data unaccounted for by InformationLength; consistent with buffer/RAM fragments \
         leaked by the authoring host (often benign: not zero-filled) or with hidden bytes"
    );
    assert_eq!(
        slack.display_string(),
        format!("[LOW] UDF-SLACK-DATA: {}", slack.note)
    );
}

#[test]
fn severity_labels_and_order() {
    assert_eq!(Severity::Info.label(), "INFO");
    assert_eq!(Severity::Critical.label(), "CRITICAL");
    assert!(Severity::Low < Severity::Medium && Severity::Medium < Severity::High);
}

#[test]
fn text_ordering_matches_str_ordering() {
    assert!(str_after("2099-01-01 00:00:00", "2026-06-21 08:46:57"));
    assert!(!str_after("2026-06-21 08:46:57", "2026-06-21 08:46:57"));
    assert!(!str_after("2026", "2026-06"));
    assert!(str_after("2026-06", "2026"));
    assert!(!str_after("", ""));
}

// ── Hand-built minimal UDF ───────────────────────────────────────────────

const BS: usize = 512;

/// Stamp a valid descriptor tag (identifier, location, matching checksum
/// and CRC over `crc_len` body bytes) at logical block `lba`.
fn stamp_tag(img: &mut [u8], lba: usize, tag_id: u16, crc_len: u16) {
    let o = lba * BS;
    img[o..o + 2].copy_from_slice(&tag_id.to_le_bytes());
    img[o + 2..o + 4].copy_from_slice(&0x0102u16.to_le_bytes());
    img[o + 12..o + 16].copy_from_slice(&(lba as u32).to_le_bytes());
    let crc = ecma167_crc(&img[o + 16..o + 16 + crc_len as usize]);
    img[o + 8..o + 10].copy_from_slice(&crc.to_le_bytes());
    img[o + 10..o + 12].copy_from_slice(&crc_len.to_le_bytes());
    img[o + 4] = tag_checksum(&img[o..o + 16]);
}

/// Write one File Identifier Descriptor at `off` naming the File Entry at
/// logical block `child_lbn`; returns the advance to the next one.
fn write_fid(data: &mut [u8], off: usize, child_lbn: u32, is_dir: bool, name: &[u8]) -> usize {
    data[off..off + 2].copy_from_slice(&TAG_FID.to_le_bytes());
    let body = off + 16;
    data[body] = 1;
    data[body + 2] = if is_dir { 0x02 } else { 0x00 };
    data[body + 3] = name.len() as u8;
    data[body + 8..body + 12].copy_from_slice(&child_lbn.to_le_bytes());
    let id = body + 20;
    data[id..id + name.len()].copy_from_slice(name);
    let raw = 16 + 2 + 1 + 1 + 16 + 2 + name.len();
    let advance = (raw + 3) & !3;
    data[off + 10..off + 12].copy_from_slice(&((advance - 16) as u16).to_le_bytes());
    advance
}

/// Stamp a directory File Entry at `lba` whose inline data is `fids`.
fn stamp_dir_fe(img: &mut [u8], lba: usize, fids: &[u8]) {
    let o = lba * BS;
    img[o + 34..o + 36].copy_from_slice(&3u16.to_le_bytes());
    img[o + 27] = 4;
    img[o + 56..o + 64].copy_from_slice(&(fids.len() as u64).to_le_bytes());
    img[o + 168..o + 172].copy_from_slice(&0u32.to_le_bytes());
    img[o + 172..o + 176].copy_from_slice(&(fids.len() as u32).to_le_bytes());
    img[o + 176..o + 176 + fids.len()].copy_from_slice(fids);
    stamp_tag(img, lba, TAG_FE, 200);
}

/// AVDP → VDS (PD, LVD, LVID, end) → FSD → root directory (one
/// subdirectory, one inline file) → subdirectory → file.
fn minimal_udf() -> Vec<u8> {
    let mut img = vec![0u8; BS * 280];
    let part_start = 0u32;

    let a = 256 * BS;
    img[a + 16..a + 20].copy_from_slice(&(4u32 * BS as u32).to_le_bytes());
    img[a + 20..a + 24].copy_from_slice(&260u32.to_le_bytes());
    stamp_tag(&mut img, 256, TAG_AVDP, 16);

    let p = 260 * BS;
    img[p + 22..p + 24].copy_from_slice(&0u16.to_le_bytes());
    img[p + 188..p + 192].copy_from_slice(&part_start.to_le_bytes());
    stamp_tag(&mut img, 260, TAG_PD, 200);

    let l = 261 * BS;
    img[l + 252..l + 256].copy_from_slice(&3u32.to_le_bytes());
    img[l + 256..l + 258].copy_from_slice(&0u16.to_le_bytes());
    img[l + 264..l + 268].copy_from_slice(&6u32.to_le_bytes());
    img[l + 268..l + 272].copy_from_slice(&1u32.to_le_bytes());
    img[l + 440] = 1;
    img[l + 441] = 6;
    img[l + 444..l + 446].copy_from_slice(&0u16.to_le_bytes());
    stamp_tag(&mut img, 261, TAG_LVD, 400);

    stamp_tag(&mut img, 262, 9, 80);

    let f = 3 * BS;
    img[f + 16 + 2..f + 16 + 4].copy_from_slice(&2026i16.to_le_bytes());
    img[f + 16 + 4] = 6;
    img[f + 16 + 5] = 21;
    img[f + 404..f + 408].copy_from_slice(&4u32.to_le_bytes());
    stamp_tag(&mut img, 3, TAG_FSD, 400);

    let mut fids = vec![0u8; 160];
    let n = write_fid(&mut fids, 0, 6, true, b"sub");
    let _ = write_fid(&mut fids, n, 7, false, b"f.txt");
    let total = n + ((16 + 2 + 1 + 1 + 16 + 2 + 5 + 3) & !3);
    stamp_dir_fe(&mut img, 4, &fids[..total]);

    stamp_dir_fe(&mut img, 6, &[]);

    let ff = 7 * BS;
    img[ff + 34..ff + 36].copy_from_slice(&3u16.to_le_bytes());
    img[ff + 27] = 5;
    img[ff + 56..ff + 64].copy_from_slice(&4u64.to_le_bytes());
    img[ff + 168..ff + 172].copy_from_slice(&0u32.to_le_bytes());
    img[ff + 172..ff + 176].copy_from_slice(&4u32.to_le_bytes());
    img[ff + 176..ff + 180].copy_from_slice(b"abcd");
    stamp_tag(&mut img, 7, TAG_FE, 200);

    img
}

#[test]
fn analyze_walks_subdirectory_clean() {
    let img = minimal_udf();
    let mut r = Cursor::new(img);
    let a = analyze(&mut r).expect("minimal UDF analyzes");
    assert!(
        a.is_empty(),
        "internally consistent minimal UDF must be clean, got: {a:?}"
    );
}

#[test]
fn audit_tag_at_ignores_unrecognised_identifier() {
    let mut img = vec![0u8; BS];
    img[0..2].copy_from_slice(&0x7FFFu16.to_le_bytes());
    let mut r = Cursor::new(img);
    let mut out = Vec::new();
    let tag = audit_tag_at(&mut r, BS as u32, 0, &mut out).unwrap();
    assert_eq!(tag, 0x7FFF);
    assert!(out.is_empty());
}

#[test]
fn audit_tag_at_skips_crc_when_length_overflows_block() {
    let mut img = vec![0u8; BS];
    img[0..2].copy_from_slice(&TAG_FSD.to_le_bytes());
    img[10..12].copy_from_slice(&0xFFFFu16.to_le_bytes());
    img[4] = tag_checksum(&img[..16]);
    let mut r = Cursor::new(img);
    let mut out = Vec::new();
    audit_tag_at(&mut r, BS as u32, 0, &mut out).unwrap();
    assert!(
        out.is_empty(),
        "oversized crc_len skips CRC, valid checksum is clean"
    );
}

#[test]
fn walk_skips_already_visited_directory_cycle() {
    let mut img = minimal_udf();
    let mut fids = vec![0u8; 64];
    let total = write_fid(&mut fids, 0, 4, true, b"up");
    stamp_dir_fe(&mut img, 6, &fids[..total]);
    let mut r = Cursor::new(img);
    let a = analyze(&mut r).expect("cyclic UDF still terminates");
    assert!(a.is_empty(), "cycle must be skipped cleanly, got: {a:?}");
}

#[test]
fn flipped_avdp_body_byte_is_a_crc_mismatch() {
    let mut img = minimal_udf();
    // A byte of the CRC-covered AVDP body that the chain does not read.
    img[256 * BS + 30] ^= 0xFF;
    let a = analyze(&mut Cursor::new(img)).expect("analyzes");
    assert_eq!(a.len(), 1, "got {a:?}");
    assert_eq!(a[0].code, "UDF-TAG-CRC-MISMATCH");
    assert_eq!(a[0].severity, Severity::High);
    assert!(matches!(
        &a[0].kind,
        UdfAnomalyKind::TagCrcMismatch { descriptor, lba: 256, .. } if descriptor == "AVDP"
    ));
    assert!(a[0].note.contains("consistent with"));
}

#[test]
fn flipped_fsd_tag_byte_is_a_checksum_mismatch() {
    let mut img = minimal_udf();
    // Tag byte 3 (descriptor version, high byte) is covered by the checksum
    // but read by nothing else.
    img[3 * BS + 3] ^= 0x40;
    let a = analyze(&mut Cursor::new(img)).expect("analyzes");
    assert_eq!(a.len(), 1, "got {a:?}");
    assert_eq!(a[0].code, "UDF-TAG-CHECKSUM-BAD");
    assert!(matches!(
        &a[0].kind,
        UdfAnomalyKind::TagChecksumBad { descriptor, lba: 3, .. } if descriptor == "FileSetDescriptor"
    ));
}

#[test]
fn file_modified_after_the_volume_is_reported() {
    let mut img = minimal_udf();
    let ff = 7 * BS;
    img[ff + 84 + 2..ff + 84 + 4].copy_from_slice(&2099i16.to_le_bytes());
    img[ff + 84 + 4] = 1;
    img[ff + 84 + 5] = 1;
    stamp_tag(&mut img, 7, TAG_FE, 200);
    let a = analyze(&mut Cursor::new(img)).expect("analyzes");
    assert_eq!(a.len(), 1, "got {a:?}");
    assert_eq!(a[0].code, "UDF-TIME-AFTER-VOLUME");
    assert!(matches!(
        &a[0].kind,
        UdfAnomalyKind::FileAfterVolume { lba: 7, file_time, volume_time }
            if file_time == "2099-01-01 00:00:00" && volume_time == "2026-06-21 00:00:00"
    ));
}

#[test]
fn not_udf_analyzes_to_nothing_and_truncation_is_an_error() {
    let a = analyze(&mut Cursor::new(vec![0u8; 257 * 2048])).expect("readable");
    assert!(a.is_empty());
    assert!(analyze(&mut Cursor::new(vec![0u8; 4096])).is_err());
}

#[test]
fn tag_audit_reports_both_mismatches_in_order() {
    let mut s = vec![0u8; 64];
    s[0..2].copy_from_slice(&TAG_FE.to_le_bytes());
    s[10..12].copy_from_slice(&4u16.to_le_bytes());
    s[16] = 0xAB;
    s[4] = tag_checksum(&s[..16]).wrapping_add(1);
    let mut out = Vec::new();
    let id = tag_audit(&s, 9, &mut out);
    assert_eq!(id, TAG_FE);
    assert_eq!(out.len(), 2);
    assert_eq!(out[0].code, "UDF-TAG-CHECKSUM-BAD");
    assert_eq!(out[1].code, "UDF-TAG-CRC-MISMATCH");
    assert!(matches!(
        &out[1].kind,
        UdfAnomalyKind::TagCrcMismatch { lba: 9, stored: 0, .. }
    ));
}

#[test]
fn file_entry_findings_time_then_slack() {
    let mut efe = vec![0u8; 512];
    efe[0..2].copy_from_slice(&TAG_EFE.to_le_bytes());
    efe[92 + 2..92 + 4].copy_from_slice(&2030i16.to_le_bytes());
    efe[92 + 4] = 1;
    efe[92 + 5] = 2;
    let mut out = Vec::new();
    fe_findings(&efe, 11, Some("2029-12-31 23:59:59"), Some((2, 412)), &mut out);
    assert_eq!(out.len(), 2);
    assert!(matches!(
        &out[0].kind,
        UdfAnomalyKind::FileAfterVolume { lba: 11, file_time, .. } if file_time == "2030-01-02 00:00:00"
    ));
    assert_eq!(
        out[1].kind,
        UdfAnomalyKind::SlackData { lba: 11, nonzero_bytes: 2, slack_bytes: 412 }
    );

    // An earlier file time, clean slack, or no volume time: nothing.
    let mut none = Vec::new();
    fe_findings(&efe, 11, Some("2031-01-01 00:00:00"), Some((0, 412)), &mut none);
    fe_findings(&efe, 11, None, None, &mut none);
    assert!(none.is_empty());

    // Not a File Entry: nothing, whatever the slack count.
    let mut other = Vec::new();
    fe_findings(&[0u8; 512], 11, Some("1970-01-01 00:00:00"), Some((5, 100)), &mut other);
    assert!(other.is_empty());
}

#[test]
fn severity_and_code_are_derived_and_stable() {
    let k = UdfAnomalyKind::TagCrcMismatch {
        descriptor: "AVDP".into(),
        lba: 256,
        stored: 0x1234,
        computed: 0x5678,
    };
    let an = UdfAnomaly::new(k);
    assert_eq!(an.code, "UDF-TAG-CRC-MISMATCH");
    assert_eq!(an.severity, Severity::High);
    assert!(an.note.contains("consistent with"));
}

#[test]
fn decoded_timestamps_sort_as_the_times() {
    let stamp = |y: i16, mo: u8, d: u8, h: u8, mi: u8, s: u8| {
        let mut t = [0u8; 12];
        t[2..4].copy_from_slice(&y.to_le_bytes());
        t[4] = mo;
        t[5] = d;
        t[6] = h;
        t[7] = mi;
        t[8] = s;
        decode_timestamp(&t).unwrap()
    };
    let early = stamp(2026, 6, 21, 8, 46, 57);
    let later_second = stamp(2026, 6, 21, 8, 46, 58);
    let later_month = stamp(2026, 10, 1, 0, 0, 0);
    let later_year = stamp(2100, 1, 1, 0, 0, 0);
    assert!(str_after(&later_second, &early));
    assert!(str_after(&later_month, &early));
    assert!(str_after(&later_year, &later_month));
    assert!(!str_after(&early, &early));
    assert!(!str_after(&early, &later_second));
}
