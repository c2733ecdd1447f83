//! Final-block slack of a File Entry and the last block of its data.

use std::io::Cursor;

use udf_forensic::descriptor::{TAG_EFE, TAG_FE};
use udf_forensic::slack::{fe_last_block_pos, fe_slack_nonzero, last_block_pos};

#[test]
fn last_block_pos_none_for_non_file_entry() {
    let img = vec![0u8; 512];
    let mut r = Cursor::new(img);
    assert_eq!(fe_last_block_pos(&mut r, 512, 0, 0), None);
}

#[test]
fn slack_via_long_allocation_descriptor() {
    let bs = 512usize;
    let mut img = vec![0u8; bs * 8];
    let fe = 4 * bs;
    img[fe..fe + 2].copy_from_slice(&TAG_FE.to_le_bytes());
    img[fe + 34..fe + 36].copy_from_slice(&1u16.to_le_bytes());
    img[fe + 56..fe + 64].copy_from_slice(&100u64.to_le_bytes());
    img[fe + 168..fe + 172].copy_from_slice(&0u32.to_le_bytes());
    img[fe + 172..fe + 176].copy_from_slice(&16u32.to_le_bytes());
    img[fe + 176..fe + 180].copy_from_slice(&100u32.to_le_bytes());
    img[fe + 180..fe + 184].copy_from_slice(&5u32.to_le_bytes());
    let data = 5 * bs + 100;
    img[data] = 0x7F;
    let mut r = Cursor::new(img);
    let (nonzero, slack) = fe_slack_nonzero(&mut r, 512, 0, 4).expect("slack present");
    assert_eq!(slack, 412);
    assert_eq!(nonzero, 1);
}

/// A 512-byte-block image with a base File Entry at LBA 4 whose single
/// short allocation descriptor points to data block 5, with `slack_fill`
/// written past `info_len` in that block.
fn image_with_slack(info_len: u64, slack_fill: &[u8]) -> (Vec<u8>, u32, u32) {
    let bs = 512usize;
    let part_start = 0u32;
    let fe_lba = 4u32;
    let data_lbn = 5u32;
    let mut img = vec![0u8; bs * 8];
    let fe = fe_lba as usize * bs;
    img[fe..fe + 2].copy_from_slice(&TAG_FE.to_le_bytes());
    img[fe + 34..fe + 36].copy_from_slice(&0u16.to_le_bytes());
    img[fe + 56..fe + 64].copy_from_slice(&info_len.to_le_bytes());
    img[fe + 168..fe + 172].copy_from_slice(&0u32.to_le_bytes());
    img[fe + 172..fe + 176].copy_from_slice(&8u32.to_le_bytes());
    let ad = fe + 176;
    img[ad..ad + 4].copy_from_slice(&(info_len as u32).to_le_bytes());
    img[ad + 4..ad + 8].copy_from_slice(&data_lbn.to_le_bytes());
    let data = (part_start + data_lbn) as usize * bs;
    let slack_start = data + (info_len as usize % bs);
    for (i, &b) in slack_fill.iter().enumerate() {
        img[slack_start + i] = b;
    }
    (img, part_start, fe_lba)
}

#[test]
fn slack_counts_nonzero_tail_bytes() {
    let (img, ps, fe) = image_with_slack(100, &[0xAA, 0x00, 0xBB, 0xCC]);
    let mut r = Cursor::new(img);
    let (nonzero, slack) = fe_slack_nonzero(&mut r, 512, ps, fe).expect("slack present");
    assert_eq!(slack, 412);
    assert_eq!(nonzero, 3);
}

#[test]
fn slack_none_when_block_aligned() {
    let (img, ps, fe) = image_with_slack(512, &[0xFF]);
    let mut r = Cursor::new(img);
    assert_eq!(fe_slack_nonzero(&mut r, 512, ps, fe), None);
}

#[test]
fn slack_none_when_zero_length() {
    let (img, ps, fe) = image_with_slack(0, &[]);
    let mut r = Cursor::new(img);
    assert_eq!(fe_slack_nonzero(&mut r, 512, ps, fe), None);
}

#[test]
fn slack_none_for_inline_data() {
    let (mut img, ps, fe) = image_with_slack(100, &[0xAA]);
    let fe_off = fe as usize * 512;
    img[fe_off + 34..fe_off + 36].copy_from_slice(&3u16.to_le_bytes());
    let mut r = Cursor::new(img);
    assert_eq!(fe_slack_nonzero(&mut r, 512, ps, fe), None);
}

#[test]
fn clean_slack_counts_zero_nonzero_bytes() {
    let (img, ps, fe) = image_with_slack(100, &[]);
    let mut r = Cursor::new(img);
    assert_eq!(fe_slack_nonzero(&mut r, 512, ps, fe), Some((0, 412)));
}

#[test]
fn last_block_is_the_last_block_of_the_last_recorded_extent() {
    // Two short_ads: 1000 bytes at block 5 (blocks 5, 6) and 600 bytes at
    // block 9 (blocks 9, 10), in a partition starting at 2.
    let mut fe = vec![0u8; 512];
    fe[0..2].copy_from_slice(&TAG_FE.to_le_bytes());
    fe[172..176].copy_from_slice(&16u32.to_le_bytes());
    fe[176..180].copy_from_slice(&1000u32.to_le_bytes());
    fe[180..184].copy_from_slice(&5u32.to_le_bytes());
    fe[184..188].copy_from_slice(&600u32.to_le_bytes());
    fe[188..192].copy_from_slice(&9u32.to_le_bytes());
    assert_eq!(last_block_pos(&fe, 512, 2), Some(12 * 512));

    // An unrecorded second extent (type bits 30-31 set) does not count.
    fe[184..188].copy_from_slice(&(0x4000_0000u32 | 600).to_le_bytes());
    assert_eq!(last_block_pos(&fe, 512, 2), Some(8 * 512));

    // Inline data has no allocated block.
    fe[34] = 3;
    assert_eq!(last_block_pos(&fe, 512, 2), None);
}

#[test]
fn last_block_of_an_extended_file_entry() {
    // EFE: L_EA at 176, L_AD at 180, descriptors from 184.
    let mut efe = vec![0u8; 512];
    efe[0..2].copy_from_slice(&TAG_EFE.to_le_bytes());
    efe[180..184].copy_from_slice(&8u32.to_le_bytes());
    efe[184..188].copy_from_slice(&512u32.to_le_bytes());
    efe[188..192].copy_from_slice(&7u32.to_le_bytes());
    assert_eq!(last_block_pos(&efe, 512, 0), Some(7 * 512));
}
