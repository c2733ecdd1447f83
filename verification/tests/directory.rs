//! File Entry data, OSTA CS0 names, File Identifier Descriptors, partition
//! maps and little-endian fields.

use std::io::Cursor;

use udf_forensic::bytes::read_le_u32;
use udf_forensic::descriptor::{TAG_EFE, TAG_FE, TAG_FID};
use udf_forensic::directory::{
    decode_osta_cs0, detect_fid_tag_size, parse_fids, read_dir_at_lba, read_extents_long,
    read_extents_short, read_fe_data, read_fe_info_len,
};
use udf_forensic::volume::{classify_type2, parse_partition_maps, UdfPartitionKind};

#[test]
fn cs0_names_decode_as_utf8_or_utf16be() {
    assert_eq!(decode_osta_cs0(b"\x08hello"), "hello");
    assert_eq!(decode_osta_cs0(&[16, 0x00, b'A', 0x00, 0xE9, 0x26, 0x3A]), "A\u{e9}\u{263a}");
    // A trailing odd byte of UTF-16 data is dropped.
    assert_eq!(decode_osta_cs0(&[16, 0x00, b'Z', 0x00]), "Z");
    // Invalid UTF-8 is replaced, not rejected.
    assert_eq!(decode_osta_cs0(&[8, b'a', 0xFF, b'b']), "a\u{fffd}b");
    // An unpaired surrogate in UTF-16 is replaced too.
    assert_eq!(decode_osta_cs0(&[16, 0xD8, 0x00]), "\u{fffd}");
    assert_eq!(decode_osta_cs0(&[]), "");
    assert_eq!(decode_osta_cs0(&[8]), "");
}

#[test]
fn read_le_u32_is_zero_out_of_range() {
    let data = [0x78, 0x56, 0x34, 0x12, 0xFF];
    assert_eq!(read_le_u32(&data, 0), 0x1234_5678);
    assert_eq!(read_le_u32(&data, 1), 0xFF12_3456);
    assert_eq!(read_le_u32(&data, 2), 0);
    assert_eq!(read_le_u32(&data, usize::MAX), 0);
}

#[test]
fn fid_tag_size_follows_the_plausible_icb_offset() {
    let mut d = vec![0u8; 64];
    d[4..6].copy_from_slice(&TAG_FID.to_le_bytes());
    // Standard layout: ICB logical block at tag + 22.
    d[4 + 22..4 + 26].copy_from_slice(&7u32.to_le_bytes());
    assert_eq!(detect_fid_tag_size(&d), 16);
    // Logical block 7 two bytes further on: the extended layout.
    d[4 + 22..4 + 28].fill(0);
    d[4 + 24..4 + 28].copy_from_slice(&7u32.to_le_bytes());
    assert_eq!(detect_fid_tag_size(&d), 18);
    // Neither plausible: the standard layout.
    d[4 + 22..4 + 28].fill(0xFF);
    assert_eq!(detect_fid_tag_size(&d), 16);
    assert_eq!(detect_fid_tag_size(&[0u8; 64]), 16);
}

/// One 18-byte-tag (ECMA-167 layout) File Identifier Descriptor.
fn fid(chars: u8, lbn: u32, name: &[u8]) -> Vec<u8> {
    let mut f = vec![0u8; 16 + 22 + name.len()];
    f[0..2].copy_from_slice(&TAG_FID.to_le_bytes());
    f[18] = chars;
    f[19] = name.len() as u8;
    f[24..28].copy_from_slice(&lbn.to_le_bytes());
    f[38..].copy_from_slice(name);
    let advance = (f.len() + 3) & !3;
    f.resize(advance, 0);
    let crc_len = (advance - 16) as u16;
    f[10..12].copy_from_slice(&crc_len.to_le_bytes());
    f
}

#[test]
fn fids_skip_the_parent_and_resolve_through_the_partition() {
    let mut data = fid(0x0A, 1, b"");
    data.extend(fid(0x02, 3, b"\x08docs"));
    data.extend(fid(0x00, 5, b"\x08a.bin"));
    // Block 3 + partition start 2 holds a File Entry of 1234 bytes.
    let mut img = vec![0u8; 512 * 8];
    img[5 * 512..5 * 512 + 2].copy_from_slice(&TAG_FE.to_le_bytes());
    img[5 * 512 + 56..5 * 512 + 64].copy_from_slice(&1234u64.to_le_bytes());
    let entries = parse_fids(&mut Cursor::new(img), 512, 2, &data);
    assert_eq!(entries.len(), 2);
    assert_eq!(entries[0].name, "docs");
    assert!(entries[0].is_dir);
    assert_eq!(entries[0].fe_lba, 5);
    assert_eq!(entries[0].size, 1234);
    assert_eq!(entries[1].name, "a.bin");
    assert!(!entries[1].is_dir);
    assert_eq!(entries[1].fe_lba, 7);
    assert_eq!(entries[1].size, 0);
}

#[test]
fn a_child_past_the_addressable_range_is_left_out() {
    let data = fid(0x00, 10, b"\x08far");
    let entries = parse_fids(&mut Cursor::new(vec![0u8; 512]), 512, u32::MAX - 5, &data);
    assert!(entries.is_empty());
}

/// A 512-byte-block image with a File Entry (tag `tag`) at LBA 1 using
/// allocation type `alloc`, length `info_len`, and allocation area `ad`;
/// block `b` of the image is filled with the byte `b`.
fn fe_image(tag: u16, alloc: u16, info_len: u64, ad: &[u8]) -> Vec<u8> {
    let mut img = vec![0u8; 512 * 16];
    for b in 2..16 {
        img[b * 512..(b + 1) * 512].fill(b as u8);
    }
    let o = 512;
    img[o..o + 512].fill(0);
    img[o..o + 2].copy_from_slice(&tag.to_le_bytes());
    img[o + 34..o + 36].copy_from_slice(&alloc.to_le_bytes());
    img[o + 56..o + 64].copy_from_slice(&info_len.to_le_bytes());
    let (ad_len_off, area) = if tag == TAG_EFE { (180, 184) } else { (172, 176) };
    img[o + ad_len_off..o + ad_len_off + 4].copy_from_slice(&(ad.len() as u32).to_le_bytes());
    img[o + area..o + area + ad.len()].copy_from_slice(ad);
    img
}

#[test]
fn inline_data_is_cut_at_the_information_length() {
    let img = fe_image(TAG_FE, 3, 5, b"abcdefgh");
    assert_eq!(read_fe_data(&mut Cursor::new(img), 512, 0, 1).unwrap(), b"abcde");
    let img = fe_image(TAG_FE, 3, 50, b"abc");
    assert_eq!(read_fe_data(&mut Cursor::new(img), 512, 0, 1).unwrap(), b"abc");
}

#[test]
fn short_extents_are_read_block_by_block_up_to_the_length() {
    // 700 bytes at block 3, then 100 bytes at block 9; 750 bytes wanted.
    let mut ad = Vec::new();
    ad.extend(700u32.to_le_bytes());
    ad.extend(3u32.to_le_bytes());
    ad.extend(100u32.to_le_bytes());
    ad.extend(9u32.to_le_bytes());
    let img = fe_image(TAG_FE, 0, 750, &ad);
    let d = read_fe_data(&mut Cursor::new(img), 512, 0, 1).unwrap();
    assert_eq!(d.len(), 750);
    assert!(d[..512].iter().all(|&b| b == 3));
    assert!(d[512..700].iter().all(|&b| b == 4));
    assert!(d[700..].iter().all(|&b| b == 9));
}

#[test]
fn long_extents_of_an_extended_file_entry() {
    let mut ad = vec![0u8; 16];
    ad[0..4].copy_from_slice(&20u32.to_le_bytes());
    ad[4..8].copy_from_slice(&4u32.to_le_bytes());
    let img = fe_image(TAG_EFE, 1, 20, &ad);
    // Partition start 2: block 4 is image block 6.
    assert_eq!(read_fe_data(&mut Cursor::new(img), 512, 2, 1).unwrap(), vec![6u8; 20]);
}

#[test]
fn unrecorded_extents_and_other_allocation_types() {
    let mut ad = Vec::new();
    ad.extend((0x8000_0000u32 | 100).to_le_bytes());
    ad.extend(3u32.to_le_bytes());
    assert_eq!(read_extents_short(&mut Cursor::new(vec![0u8; 4096]), 512, 0, &ad, 100).unwrap().len(), 0);
    let mut long = vec![0u8; 16];
    long[0..4].copy_from_slice(&10u32.to_le_bytes());
    long[4..8].copy_from_slice(&1u32.to_le_bytes());
    assert_eq!(read_extents_long(&mut Cursor::new(vec![7u8; 4096]), 512, 0, &long, 100).unwrap(), vec![7u8; 10]);
    // Allocation type 2 carries no data this reader follows.
    let img = fe_image(TAG_FE, 2, 10, &[]);
    assert!(read_fe_data(&mut Cursor::new(img), 512, 0, 1).is_none());
    // A block past the end of the image: no data.
    let mut far = Vec::new();
    far.extend(10u32.to_le_bytes());
    far.extend(1000u32.to_le_bytes());
    let img = fe_image(TAG_FE, 0, 10, &far);
    assert!(read_fe_data(&mut Cursor::new(img), 512, 0, 1).is_none());
}

#[test]
fn a_sector_that_is_no_file_entry_has_no_data_or_length() {
    let img = vec![0u8; 2048];
    assert!(read_fe_data(&mut Cursor::new(img.clone()), 512, 0, 1).is_none());
    assert!(read_fe_info_len(&mut Cursor::new(img.clone()), 512, 1).is_none());
    assert!(read_dir_at_lba(&mut Cursor::new(img), 512, 0, 1).is_none());
}

#[test]
fn type2_maps_are_classified_by_their_entity_string() {
    let mut m = vec![0u8; 64];
    m[5..5 + 23].copy_from_slice(b"*UDF Sparable Partition");
    assert_eq!(classify_type2(&m), UdfPartitionKind::Sparable);
    m[30..30 + 22].copy_from_slice(b"*UDF Virtual Partition");
    assert_eq!(classify_type2(&m), UdfPartitionKind::Virtual);
    assert_eq!(classify_type2(b"*UDF Metadata Partition"), UdfPartitionKind::Metadata);
    assert_eq!(classify_type2(b"*UDF Metadata Partitio"), UdfPartitionKind::Unknown);
    assert_eq!(classify_type2(&[]), UdfPartitionKind::Unknown);
}

#[test]
fn partition_maps_stop_at_the_count_or_a_bad_length() {
    let mut lvd = vec![0u8; 512];
    lvd[268..272].copy_from_slice(&3u32.to_le_bytes());
    lvd[264..268].copy_from_slice(&70u32.to_le_bytes());
    // Type 1, partition number 7.
    lvd[440] = 1;
    lvd[441] = 6;
    lvd[444..446].copy_from_slice(&7u16.to_le_bytes());
    // Type 2 carrying the Virtual string.
    lvd[446] = 2;
    lvd[447] = 64;
    lvd[446 + 4..446 + 26].copy_from_slice(b"*UDF Virtual Partition");
    let maps = parse_partition_maps(&lvd);
    assert_eq!(maps.len(), 2);
    assert_eq!(maps[0].kind, UdfPartitionKind::Physical);
    assert_eq!(maps[0].partition_number, Some(7));
    assert_eq!(maps[1].kind, UdfPartitionKind::Virtual);
    assert_eq!(maps[1].partition_number, None);
    // A map table too short for the second map keeps only the first.
    lvd[264..268].copy_from_slice(&60u32.to_le_bytes());
    assert_eq!(parse_partition_maps(&lvd).len(), 1);
    // A count of one stops after the first map.
    lvd[264..268].copy_from_slice(&70u32.to_le_bytes());
    lvd[268..272].copy_from_slice(&1u32.to_le_bytes());
    assert_eq!(parse_partition_maps(&lvd).len(), 1);
}

#[test]
fn at_most_one_child_per_36_bytes() {
    let mut data = Vec::new();
    for i in 0..6u32 {
        data.extend(fid(0x00, 10 + i, b""));
    }
    assert_eq!(data.len(), 6 * 40);
    let entries = parse_fids(&mut Cursor::new(vec![0u8; 512 * 32]), 512, 0, &data);
    assert_eq!(entries.len(), 6);
    assert!(entries.len() <= data.len() / 36);
}
