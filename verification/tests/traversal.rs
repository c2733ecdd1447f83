//! Directory traversal and file data over a hand-built volume whose root
//! directory holds inline, short-extent, long-extent and UTF-16-named files,
//! a subdirectory, a broken directory and a symlink.

use std::io::Cursor;

use udf_forensic::directory::{read_dir_at_lba, read_fe_data};
use udf_forensic::findings::{analyze, UdfAnomalyKind};
use udf_forensic::vfs::{FeMeta, UdfVfs, UdfVfsError};
use udf_forensic::volume::parse_udf_state;

const BS: usize = 512;
const ROOT_FE: u32 = 4;
const SUBDIR_FE: u32 = 5;
const INLINE_FILE_FE: u32 = 6;
const SHORT_FILE_FE: u32 = 7;
const LONG_FILE_FE: u32 = 10;
const UTF16_FILE_FE: u32 = 12;
const BROKEN_DIR_FE: u32 = 13;
const SYMLINK_FE: u32 = 14;
const SHORT_FILE_LEN: u64 = 600;
const LONG_FILE_LEN: u64 = 300;

fn w16(img: &mut [u8], o: usize, v: u16) {
    img[o..o + 2].copy_from_slice(&v.to_le_bytes());
}
fn w32(img: &mut [u8], o: usize, v: u32) {
    img[o..o + 4].copy_from_slice(&v.to_le_bytes());
}
fn w64(img: &mut [u8], o: usize, v: u64) {
    img[o..o + 8].copy_from_slice(&v.to_le_bytes());
}

/// A 16-byte-tag File Identifier Descriptor naming the File Entry at
/// logical block `child_lbn`.
fn fid(child_lbn: u32, is_dir: bool, is_parent: bool, name: &[u8]) -> Vec<u8> {
    let mut chars = 0u8;
    if is_dir {
        chars |= 0x02;
    }
    if is_parent {
        chars |= 0x08;
    }
    let name_len = name.len();
    let body_len = 1 + 1 + 16 + 2 + name_len;
    let advance = (16 + body_len + 3) & !3;
    let mut f = vec![0u8; advance];
    w16(&mut f, 0, 257);
    w16(&mut f, 10, body_len as u16);
    f[16] = chars;
    f[17] = name_len as u8;
    w32(&mut f, 22, child_lbn);
    f[36..36 + name_len].copy_from_slice(name);
    f
}

/// A File Entry at `lba` with ICB file type `file_type`, allocation type
/// `alloc`, Information Length `info_len` and allocation area `ad`.
fn stamp_fe(img: &mut [u8], lba: u32, file_type: u8, alloc: u16, info_len: u64, ad: &[u8]) {
    let o = lba as usize * BS;
    w16(img, o, 260);
    img[o + 27] = file_type;
    w16(img, o + 34, alloc);
    w64(img, o + 56, info_len);
    w32(img, o + 168, 0);
    w32(img, o + 172, ad.len() as u32);
    img[o + 176..o + 176 + ad.len()].copy_from_slice(ad);
}

fn short_ad(len: u32, pos: u32) -> [u8; 8] {
    let mut a = [0u8; 8];
    a[0..4].copy_from_slice(&len.to_le_bytes());
    a[4..8].copy_from_slice(&pos.to_le_bytes());
    a
}

fn long_ad(len: u32, lbn: u32) -> [u8; 16] {
    let mut a = [0u8; 16];
    a[0..4].copy_from_slice(&len.to_le_bytes());
    a[4..8].copy_from_slice(&lbn.to_le_bytes());
    a
}

/// The volume; its descriptor tags carry no checksum or CRC.
fn image() -> Vec<u8> {
    let mut img = vec![0u8; BS * 264];

    let avdp = 256 * BS;
    w16(&mut img, avdp, 2);
    w32(&mut img, avdp + 12, 256);
    w32(&mut img, avdp + 16, (4 * BS) as u32);
    w32(&mut img, avdp + 20, 260);

    let pd = 260 * BS;
    w16(&mut img, pd, 5);
    w16(&mut img, pd + 22, 0);
    w32(&mut img, pd + 188, 0);

    let lvd = 261 * BS;
    w16(&mut img, lvd, 6);
    w32(&mut img, lvd + 252, 3);
    w16(&mut img, lvd + 256, 0);
    w32(&mut img, lvd + 264, 6);
    w32(&mut img, lvd + 268, 1);
    img[lvd + 440] = 1;
    img[lvd + 441] = 6;
    w16(&mut img, lvd + 444, 0);

    let fsd = 3 * BS;
    w16(&mut img, fsd, 256);
    w32(&mut img, fsd + 404, 4);

    let mut dir = Vec::new();
    dir.extend_from_slice(&fid(ROOT_FE, true, true, b""));
    dir.extend_from_slice(&fid(SUBDIR_FE, true, false, b"\x08sub"));
    dir.extend_from_slice(&fid(INLINE_FILE_FE, false, false, b"\x08inline.txt"));
    dir.extend_from_slice(&fid(SHORT_FILE_FE, false, false, b"\x08short.bin"));
    dir.extend_from_slice(&fid(LONG_FILE_FE, false, false, b"\x08long.bin"));
    dir.extend_from_slice(&fid(UTF16_FILE_FE, false, false, &[16, 0x00, b'U']));
    dir.extend_from_slice(&fid(BROKEN_DIR_FE, true, false, b"\x08bd"));
    dir.extend_from_slice(&fid(SYMLINK_FE, false, false, b"\x08lnk"));
    let root_dir_block = 15u32;
    img[root_dir_block as usize * BS..root_dir_block as usize * BS + dir.len()]
        .copy_from_slice(&dir);
    stamp_fe(&mut img, ROOT_FE, 4, 0, dir.len() as u64, &short_ad(dir.len() as u32, root_dir_block));

    stamp_fe(&mut img, SUBDIR_FE, 4, 3, 0, &[]);

    let symlink_data: [u8; 19] = [
        0x03, 0x00, 0x00, 0x00, 0x05, 0x0b, 0x00, 0x00, 0x08, b'R', b'E', b'A', b'D', b'M', b'E',
        b'.', b't', b'x', b't',
    ];
    stamp_fe(&mut img, SYMLINK_FE, 0x0c, 3, symlink_data.len() as u64, &symlink_data);

    stamp_fe(&mut img, INLINE_FILE_FE, 5, 3, 4, b"abcd");

    stamp_fe(&mut img, SHORT_FILE_FE, 5, 0, SHORT_FILE_LEN, &short_ad(SHORT_FILE_LEN as u32, 8));
    img[8 * BS..9 * BS].fill(0x41);
    img[9 * BS..9 * BS + 88].fill(0x42);

    stamp_fe(&mut img, LONG_FILE_FE, 5, 1, LONG_FILE_LEN, &long_ad(LONG_FILE_LEN as u32, 11));
    img[11 * BS..11 * BS + LONG_FILE_LEN as usize].fill(0x43);

    stamp_fe(&mut img, UTF16_FILE_FE, 5, 3, 4, b"wxyz");

    let o = BROKEN_DIR_FE as usize * BS;
    w16(&mut img, o, 260);
    img[o + 27] = 4;
    w16(&mut img, o + 34, 0);
    w64(&mut img, o + 56, 0);
    w32(&mut img, o + 168, 0);
    w32(&mut img, o + 172, 1000);

    img
}

#[test]
fn root_lists_every_non_parent_child() {
    let mut r = Cursor::new(image());
    let st = parse_udf_state(&mut r).expect("valid UDF");
    assert_eq!(st.root_fe_lba, ROOT_FE);
    assert_eq!(st.block_size, 512);
    let entries = read_dir_at_lba(&mut r, 512, st.partition_start, st.root_fe_lba).expect("root");
    let got: Vec<(&str, bool, u64, u32)> = entries
        .iter()
        .map(|e| (e.name.as_str(), e.is_dir, e.size, e.fe_lba))
        .collect();
    assert_eq!(
        got,
        [
            ("sub", true, 0, SUBDIR_FE),
            ("inline.txt", false, 4, INLINE_FILE_FE),
            ("short.bin", false, SHORT_FILE_LEN, SHORT_FILE_FE),
            ("long.bin", false, LONG_FILE_LEN, LONG_FILE_FE),
            ("U", false, 4, UTF16_FILE_FE),
            ("bd", true, 0, BROKEN_DIR_FE),
            ("lnk", false, 19, SYMLINK_FE),
        ]
    );
}

#[test]
fn file_data_through_each_allocation_type() {
    let mut r = Cursor::new(image());
    assert_eq!(read_fe_data(&mut r, 512, 0, INLINE_FILE_FE).unwrap(), b"abcd");
    let short = read_fe_data(&mut r, 512, 0, SHORT_FILE_FE).unwrap();
    assert_eq!(short.len(), 600);
    assert!(short[..512].iter().all(|&b| b == 0x41));
    assert!(short[512..].iter().all(|&b| b == 0x42));
    assert_eq!(read_fe_data(&mut r, 512, 0, LONG_FILE_FE).unwrap(), vec![0x43; 300]);
    assert_eq!(read_fe_data(&mut r, 512, 0, UTF16_FILE_FE).unwrap(), b"wxyz");
    assert!(read_fe_data(&mut r, 512, 0, BROKEN_DIR_FE).is_none());
    assert!(read_dir_at_lba(&mut r, 512, 0, BROKEN_DIR_FE).is_none());
}

#[test]
fn mounted_volume_over_the_same_image() {
    let mut fs = UdfVfs::open(Cursor::new(image())).expect("mounts");
    assert_eq!(fs.lookup(ROOT_FE, b"SHORT.BIN").unwrap(), Some(SHORT_FILE_FE));
    assert_eq!(fs.read_at(SHORT_FILE_FE, 510, 4).unwrap(), [0x41, 0x41, 0x42, 0x42]);
    assert_eq!(fs.resolve(SYMLINK_FE).unwrap(), FeMeta { is_dir: false, size: 19 });
    // The broken directory is listed as a directory but cannot be read.
    match fs.dir_children(BROKEN_DIR_FE) {
        Err(UdfVfsError::Decode { offset, detail }) => {
            assert_eq!(offset, 13 * 512);
            assert_eq!(detail, "directory File Entry at LBA 13 could not be read");
        }
        other => panic!("expected a decode error, got {other:?}"),
    }
}

#[test]
fn unstamped_tags_are_reported_in_walk_order() {
    let a = analyze(&mut Cursor::new(image())).expect("analyzes");
    assert!(a.iter().all(|x| x.code == "UDF-TAG-CHECKSUM-BAD"), "got {a:?}");
    let lbas: Vec<u32> = a
        .iter()
        .map(|x| match &x.kind {
            UdfAnomalyKind::TagChecksumBad { lba, .. } => *lba,
            _ => u32::MAX,
        })
        .collect();
    // Anchor, PD, LVD, FSD; then the root, its files in order, and the two
    // directories it lists, the last listed first.
    assert_eq!(lbas, [256, 260, 261, 3, 4, 6, 7, 10, 12, 14, 13, 5]);
    assert_eq!(
        a[0].kind,
        UdfAnomalyKind::TagChecksumBad { descriptor: "AVDP".into(), lba: 256, stored: 0, computed: 3 }
    );
}
