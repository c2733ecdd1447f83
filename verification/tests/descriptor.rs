//! Descriptor tag checksum and CRC, descriptor labels and timestamps.

use std::io::Cursor;

use udf_forensic::descriptor::{
    decode_timestamp, descriptor_label, ecma167_crc, fe_modification_time, tag_checksum, TAG_EFE,
    TAG_FE, TAG_FE_ALT, TAG_FID, TAG_FSD,
};
use udf_forensic::volume::fsd_recording_time;

#[test]
fn crc_ccitt_matches_known_vectors() {
    // CRC-CCITT (poly 0x1021, init 0x0000): "123456789" → 0x31C3.
    assert_eq!(ecma167_crc(b"123456789"), 0x31C3);
    assert_eq!(ecma167_crc(&[]), 0x0000);
}

#[test]
fn crc_of_a_single_byte() {
    // One byte 0x01: 0x0100 shifted through eight steps, 0x1021 folded in.
    assert_eq!(ecma167_crc(&[0x01]), 0x1021);
    assert_eq!(ecma167_crc(&[0x00, 0x00]), 0x0000);
}

#[test]
fn tag_checksum_skips_byte_4() {
    let mut tag = [0u8; 16];
    tag[0] = 2;
    tag[4] = 0xFF;
    tag[6] = 3;
    assert_eq!(tag_checksum(&tag), 5);
}

#[test]
fn tag_checksum_wraps_mod_256_and_ignores_bytes_past_16() {
    let mut tag = [0xFFu8; 20];
    tag[4] = 0;
    // 15 bytes of 0xFF: 15 * 255 = 3825 = 0xEF1 → 0xF1.
    assert_eq!(tag_checksum(&tag), 0xF1);
    // Changing byte 4 changes nothing.
    tag[4] = 0x12;
    assert_eq!(tag_checksum(&tag), 0xF1);
}

#[test]
fn descriptor_label_known_and_unknown() {
    for (id, name) in [
        (TAG_FSD, "FileSetDescriptor"),
        (TAG_EFE, "ExtendedFileEntry"),
        (TAG_FID, "FileIdentifierDescriptor"),
        (TAG_FE, "FileEntry"),
        (TAG_FE_ALT, "FileEntry"),
        (1, "PrimaryVolumeDescriptor"),
        (3, "VolumeDescriptorPointer"),
        (4, "ImplementationUseVolumeDescriptor"),
        (7, "UnallocatedSpaceDescriptor"),
        (9, "LogicalVolumeIntegrityDescriptor"),
        (258, "AllocationExtentDescriptor"),
        (259, "IndirectEntry"),
        (262, "SpaceBitmapDescriptor"),
        (263, "PartitionIntegrityEntry"),
        (264, "ExtendedAttributeHeaderDescriptor"),
        (265, "UnallocatedSpaceEntry"),
    ] {
        assert_eq!(descriptor_label(id), Some(name), "tag {id}");
    }
    assert_eq!(descriptor_label(0xFFFF), None);
}

#[test]
fn descriptor_label_of_the_bootstrap_tags() {
    assert_eq!(descriptor_label(2), Some("AVDP"));
    assert_eq!(descriptor_label(5), Some("PartitionDescriptor"));
    assert_eq!(descriptor_label(6), Some("LogicalVolumeDescriptor"));
    assert_eq!(descriptor_label(8), Some("TerminatingDescriptor"));
    assert_eq!(descriptor_label(0), None);
}

#[test]
fn timestamp_decodes_and_rejects_implausible() {
    let mut t = [0u8; 12];
    t[2..4].copy_from_slice(&2026i16.to_le_bytes());
    t[4] = 6;
    t[5] = 21;
    t[6] = 8;
    t[7] = 46;
    t[8] = 57;
    assert_eq!(decode_timestamp(&t).as_deref(), Some("2026-06-21 08:46:57"));

    let mut bad = t;
    bad[2..4].copy_from_slice(&0i16.to_le_bytes());
    assert_eq!(decode_timestamp(&bad), None);

    let mut badmon = t;
    badmon[4] = 0;
    assert_eq!(decode_timestamp(&badmon), None);

    assert_eq!(decode_timestamp(&[0u8; 4]), None);
}

#[test]
fn timestamp_year_bounds_and_negative_years() {
    let mut t = [0u8; 12];
    t[4] = 12;
    t[5] = 31;
    t[2..4].copy_from_slice(&1970i16.to_le_bytes());
    assert_eq!(decode_timestamp(&t).as_deref(), Some("1970-12-31 00:00:00"));
    t[2..4].copy_from_slice(&2200i16.to_le_bytes());
    assert_eq!(decode_timestamp(&t).as_deref(), Some("2200-12-31 00:00:00"));
    t[2..4].copy_from_slice(&2201i16.to_le_bytes());
    assert_eq!(decode_timestamp(&t), None);
    t[2..4].copy_from_slice(&(-2026i16).to_le_bytes());
    assert_eq!(decode_timestamp(&t), None);
    t[2..4].copy_from_slice(&2000i16.to_le_bytes());
    t[5] = 32;
    assert_eq!(decode_timestamp(&t), None);
}

#[test]
fn fe_modification_time_offset_differs_for_efe() {
    let mut fe = vec![0u8; 512];
    let stamp = |buf: &mut [u8], off: usize, year: i16| {
        buf[off + 2..off + 4].copy_from_slice(&year.to_le_bytes());
        buf[off + 4] = 1;
        buf[off + 5] = 1;
    };
    stamp(&mut fe, 84, 2030);
    assert_eq!(
        fe_modification_time(&fe, false).as_deref(),
        Some("2030-01-01 00:00:00")
    );
    let mut efe = vec![0u8; 512];
    stamp(&mut efe, 92, 2031);
    assert_eq!(
        fe_modification_time(&efe, true).as_deref(),
        Some("2031-01-01 00:00:00")
    );
}

#[test]
fn fe_modification_time_of_a_short_sector_is_none() {
    assert_eq!(fe_modification_time(&[0u8; 95], false), None);
    assert_eq!(fe_modification_time(&[0u8; 100], true), None);
}

#[test]
fn fsd_recording_time_none_for_non_fsd() {
    let img = vec![0u8; 512];
    let mut r = Cursor::new(img);
    assert_eq!(fsd_recording_time(&mut r, 512, 0).unwrap(), None);
}

#[test]
fn fsd_recording_time_reads_the_fsd_timestamp() {
    let mut img = vec![0u8; 1024];
    img[512..514].copy_from_slice(&TAG_FSD.to_le_bytes());
    img[512 + 18..512 + 20].copy_from_slice(&2026i16.to_le_bytes());
    img[512 + 20] = 6;
    img[512 + 21] = 21;
    img[512 + 22] = 8;
    let mut r = Cursor::new(img);
    assert_eq!(
        fsd_recording_time(&mut r, 512, 1).unwrap().as_deref(),
        Some("2026-06-21 08:00:00")
    );
    // A read past the end is an error, not a missing time.
    assert!(fsd_recording_time(&mut r, 512, 2).is_err());
}

#[test]
fn crc_is_linear_over_xor() {
    let a = b"UDF body";
    let b = b"12345678";
    let x: Vec<u8> = a.iter().zip(b.iter()).map(|(p, q)| p ^ q).collect();
    assert_eq!(ecma167_crc(&x), ecma167_crc(a) ^ ecma167_crc(b));
}

#[test]
fn crc_ignores_a_leading_zero_byte() {
    assert_eq!(ecma167_crc(&[0x00, 0x31, 0x32, 0x33]), ecma167_crc(&[0x31, 0x32, 0x33]));
}

#[test]
fn crc_of_body_followed_by_its_crc_is_zero() {
    let mut m = b"123456789".to_vec();
    let c = ecma167_crc(&m);
    m.push((c >> 8) as u8);
    m.push((c & 0xff) as u8);
    assert_eq!(ecma167_crc(&m), 0);
}
