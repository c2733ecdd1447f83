//! The mounted volume: node resolution, listings, lookups and reads.

use std::io::Cursor;

use udf_forensic::descriptor::{TAG_AVDP, TAG_FE, TAG_FID, TAG_FSD, TAG_LVD, TAG_PD};
use udf_forensic::source::ReadError;
use udf_forensic::vfs::{eq_ignore_ascii_case, fe_lba_from_opaque, FeMeta, UdfVfs, UdfVfsError};

const BS: usize = 512;

fn stamp_id(img: &mut [u8], lba: usize, tag_id: u16) {
    let o = lba * BS;
    img[o..o + 2].copy_from_slice(&tag_id.to_le_bytes());
    img[o + 12..o + 16].copy_from_slice(&(lba as u32).to_le_bytes());
}

fn write_fid(data: &mut [u8], off: usize, child_lbn: u32, is_dir: bool, name: &[u8]) -> usize {
    data[off..off + 2].copy_from_slice(&TAG_FID.to_le_bytes());
    let body = off + 16;
    data[body + 2] = if is_dir { 0x02 } else { 0x00 };
    data[body + 3] = name.len() as u8;
    data[body + 8..body + 12].copy_from_slice(&child_lbn.to_le_bytes());
    // File version (2), characteristics (1), L_FI (1), ICB (16), L_IU (2).
    let id = body + 22;
    data[id..id + name.len()].copy_from_slice(name);
    let raw = 16 + 2 + 1 + 1 + 16 + 2 + name.len();
    let advance = (raw + 3) & !3;
    data[off + 10..off + 12].copy_from_slice(&((advance - 16) as u16).to_le_bytes());
    advance
}

fn stamp_inline_fe(img: &mut [u8], lba: usize, file_type: u8, data: &[u8]) {
    let o = lba * BS;
    img[o..o + 2].copy_from_slice(&TAG_FE.to_le_bytes());
    img[o + 27] = file_type;
    img[o + 34..o + 36].copy_from_slice(&3u16.to_le_bytes());
    img[o + 56..o + 64].copy_from_slice(&(data.len() as u64).to_le_bytes());
    img[o + 172..o + 176].copy_from_slice(&(data.len() as u32).to_le_bytes());
    img[o + 176..o + 176 + data.len()].copy_from_slice(data);
}

/// A 512-byte-block volume: root directory (LBA 4) holding a subdirectory
/// `Sub` (LBA 6) and a file `Readme.TXT` (LBA 7) of 11 bytes; LBA 8 is a
/// file no directory lists.
fn volume() -> Vec<u8> {
    let mut img = vec![0u8; BS * 280];
    let a = 256 * BS;
    img[a + 16..a + 20].copy_from_slice(&(4u32 * BS as u32).to_le_bytes());
    img[a + 20..a + 24].copy_from_slice(&260u32.to_le_bytes());
    stamp_id(&mut img, 256, TAG_AVDP);
    stamp_id(&mut img, 260, TAG_PD);
    let l = 261 * BS;
    img[l + 252..l + 256].copy_from_slice(&3u32.to_le_bytes());
    img[l + 264..l + 268].copy_from_slice(&6u32.to_le_bytes());
    img[l + 268..l + 272].copy_from_slice(&1u32.to_le_bytes());
    img[l + 440] = 1;
    img[l + 441] = 6;
    stamp_id(&mut img, 261, TAG_LVD);
    let f = 3 * BS;
    img[f + 404..f + 408].copy_from_slice(&4u32.to_le_bytes());
    stamp_id(&mut img, 3, TAG_FSD);

    let mut fids = vec![0u8; 128];
    let n = write_fid(&mut fids, 0, 6, true, b"\x08Sub");
    let m = write_fid(&mut fids, n, 7, false, b"\x08Readme.TXT");
    stamp_inline_fe(&mut img, 4, 4, &fids[..n + m]);
    stamp_inline_fe(&mut img, 6, 4, &[]);
    stamp_inline_fe(&mut img, 7, 5, b"hello world");
    stamp_inline_fe(&mut img, 8, 5, b"orphan");
    img
}

fn open() -> UdfVfs<Cursor<Vec<u8>>> {
    UdfVfs::open(Cursor::new(volume())).expect("mounts")
}

#[test]
fn root_is_seeded_as_a_directory() {
    let mut fs = open();
    assert_eq!(fs.state().root_fe_lba, 4);
    assert_eq!(fs.state().block_size, 512);
    assert_eq!(fs.resolve(4).unwrap(), FeMeta { is_dir: true, size: 0 });
}

#[test]
fn lists_root_and_caches_children() {
    let mut fs = open();
    let children = fs.dir_children(4).expect("read_dir");
    let names: Vec<_> = children.iter().map(|c| c.name.as_str()).collect();
    assert_eq!(names, ["Sub", "Readme.TXT"]);
    assert!(children[0].is_dir && !children[1].is_dir);
    assert_eq!(children[1].size, 11);
    assert_eq!(fs.resolve(7).unwrap(), FeMeta { is_dir: false, size: 11 });
    assert_eq!(fs.resolve(6).unwrap(), FeMeta { is_dir: true, size: 0 });
}

#[test]
fn lookup_missing_is_none() {
    let mut fs = open();
    assert!(fs.lookup(4, b"NOPE.NOTPRESENT").unwrap().is_none());
}

#[test]
fn lookup_ignores_ascii_case() {
    let mut fs = open();
    assert_eq!(fs.lookup(4, b"README.txt").unwrap(), Some(7));
    assert_eq!(fs.lookup(4, b"sub").unwrap(), Some(6));
    assert_eq!(fs.lookup(4, b"Readme.TX").unwrap(), None);
}

#[test]
fn read_at_with_offset() {
    let mut fs = open();
    assert_eq!(fs.read_at(7, 0, 32).unwrap(), b"hello world");
    assert_eq!(fs.read_at(7, 6, 3).unwrap(), b"wor");
    assert!(fs.read_at(7, 11, 32).unwrap().is_empty());
    assert!(fs.read_at(7, u64::from(u32::MAX), 32).unwrap().is_empty());
}

#[test]
fn extent_is_one_run_of_the_node_size() {
    let mut fs = open();
    fs.dir_children(4).unwrap();
    assert_eq!(fs.extent_len(7).unwrap(), Some(11));
    assert_eq!(fs.extent_len(6).unwrap(), None);
}

#[test]
fn untraversed_nodes_are_classified_from_their_file_entry() {
    let mut fs = open();
    assert_eq!(fs.resolve(8).unwrap(), FeMeta { is_dir: false, size: 6 });
}

#[test]
fn a_node_that_is_no_file_entry_is_loud() {
    let mut fs = open();
    match fs.resolve(9_999) {
        Err(UdfVfsError::Decode { offset, detail }) => {
            assert_eq!(offset, 9_999 * 512);
            assert_eq!(
                detail,
                "no File Entry at LBA 9999; enumerate its parent directory first"
            );
        }
        other => panic!("expected a decode error, got {other:?}"),
    }
}

#[test]
fn read_dir_on_a_file_is_loud() {
    let mut fs = open();
    match fs.dir_children(7) {
        Err(UdfVfsError::Decode { offset, detail }) => {
            assert_eq!(offset, 7 * 512);
            assert_eq!(detail, "File Entry at LBA 7 is not a directory");
        }
        other => panic!("expected a decode error, got {other:?}"),
    }
    assert!(fs.dir_children(u32::MAX).is_err());
}

#[test]
fn mounting_a_non_udf_source_fails() {
    assert!(matches!(
        UdfVfs::open(Cursor::new(vec![0u8; 257 * 2048])),
        Err(UdfVfsError::NotUdf)
    ));
    assert!(matches!(
        UdfVfs::open(Cursor::new(vec![0u8; 4096])),
        Err(UdfVfsError::Io(_))
    ));
}

#[test]
fn fe_lba_of_rejects_non_opaque_and_overflow() {
    assert_eq!(fe_lba_from_opaque(42), Some(42));
    assert_eq!(fe_lba_from_opaque(u64::from(u32::MAX) + 1), None);
    assert_eq!(fe_lba_from_opaque(u64::from(u32::MAX)), Some(u32::MAX));
}

#[test]
fn ascii_case_folding_leaves_other_bytes_alone() {
    assert!(eq_ignore_ascii_case(b"AbC", b"aBc"));
    assert!(!eq_ignore_ascii_case(b"abc", b"abcd"));
    assert!(!eq_ignore_ascii_case(&[0xC9], &[0xE9]));
    assert!(!eq_ignore_ascii_case(b"[", b"{"));
}

#[test]
fn a_truncated_mount_carries_the_end_of_data_error() {
    match UdfVfs::open(Cursor::new(vec![0u8; 4096])) {
        Err(UdfVfsError::Io(ReadError::Eof(e))) => {
            assert_eq!(e.kind(), std::io::ErrorKind::UnexpectedEof)
        },
        Err(e) => panic!("expected an end-of-data error, got {e:?}"),
        Ok(_) => panic!("expected an end-of-data error, got a mount"),
    }
}
