//! File Entries, their data, and the File Identifier Descriptors of a
//! directory.

use vstd::prelude::*;
use vstd::slice::slice_to_vec;

use crate::bytes::{le16_at, le32_at, le64_at, spec_le16, spec_le32, spec_le64};
use crate::descriptor::{slice_subrange, TAG_EFE, TAG_FE, TAG_FE_ALT, TAG_FID};
use crate::source::{block_at, read_block, same_source, UdfSource};

verus! {

/// A single entry returned by directory traversal.
#[derive(Debug, Clone)]
pub struct UdfFileEntry {
    /// Decoded filename (OSTA CS0: UTF-8 or UTF-16BE).
    pub name: String,
    /// True if this entry is a directory.
    pub is_dir: bool,
    /// File size in bytes (Information Length of its File Entry; 0 when
    /// that File Entry cannot be read).
    pub size: u64,
    /// Physical LBA of the File Entry descriptor sector.
    pub fe_lba: u32,
}

/// Allocation type of a File Entry whose allocation descriptors are 8-byte
/// `short_ad`s.
pub const ALLOC_SHORT: u16 = 0;
/// Allocation type of 16-byte `long_ad`s.
pub const ALLOC_LONG: u16 = 1;
/// Allocation type of data stored inline in the File Entry.
pub const ALLOC_INLINE: u16 = 3;
/// ICB Tag File Type of a directory.
pub const FILE_TYPE_DIRECTORY: u8 = 4;

/// `id` is a File Entry or Extended File Entry tag identifier.
pub open spec fn spec_is_fe_tag(id: int) -> bool {
    id == TAG_FE as int || id == TAG_FE_ALT as int || id == TAG_EFE as int
}

/// The fields of a File Entry sector that locate its data.
pub struct FeLayout {
    /// An Extended File Entry (whose fields sit 8 bytes further on).
    pub is_efe: bool,
    /// ICB allocation type (flags bits 0-2).
    pub alloc_type: u16,
    /// Information Length: the file size in bytes.
    pub info_len: u64,
    /// Start of the allocation descriptor (or inline data) area.
    pub ad_start: usize,
    /// End of that area.
    pub ad_end: usize,
}

/// The layout of the File Entry in `s`: `None` when its tag is not a File
/// Entry, or when the area `L_EA` and `L_AD` describe does not fit the
/// sector. The base File Entry has `L_EA` at byte 168, `L_AD` at 172 and the
/// area from 176 on (after the extended attributes); the Extended File Entry
/// 176, 180 and 184.
pub open spec fn spec_fe_layout(s: Seq<u8>) -> Option<FeLayout> {
    let id = spec_le16(s, 0);
    if !spec_is_fe_tag(id) {
        None
    } else {
        let is_efe = id == TAG_EFE as int;
        let ea_off: int = if is_efe {
            176
        } else {
            168
        };
        let ad_off: int = if is_efe {
            180
        } else {
            172
        };
        let header: int = if is_efe {
            184
        } else {
            176
        };
        if ad_off + 4 > s.len() {
            None
        } else {
            let ad_start = header + spec_le32(s, ea_off);
            let ad_end = ad_start + spec_le32(s, ad_off);
            if ad_end > s.len() {
                None
            } else {
                Some(
                    FeLayout {
                        is_efe,
                        alloc_type: (spec_le16(s, 34) % 8) as u16,
                        info_len: spec_le64(s, 56) as u64,
                        ad_start: ad_start as usize,
                        ad_end: ad_end as usize,
                    },
                )
            }
        }
    }
}

/// Decode the layout of the File Entry in `s`.
pub fn fe_layout(s: &[u8]) -> (r: Option<FeLayout>)
    requires
        s@.len() >= 64,
    ensures
        r == spec_fe_layout(s@),
{
    let id = le16_at(s, 0);
    if id != TAG_FE && id != TAG_FE_ALT && id != TAG_EFE {
        return None;
    }
    let is_efe = id == TAG_EFE;
    let (ea_off, ad_off, header): (usize, usize, u64) = if is_efe {
        (176, 180, 184)
    } else {
        (168, 172, 176)
    };
    let len = s.len();
    if ad_off + 4 > len {
        return None;
    }
    let ea_len = le32_at(s, ea_off) as u64;
    let ad_len = le32_at(s, ad_off) as u64;
    let ad_start = header + ea_len;
    let ad_end = ad_start + ad_len;
    if ad_end > len as u64 {
        return None;
    }
    Some(
        FeLayout {
            is_efe,
            alloc_type: le16_at(s, 34) % 8,
            info_len: le64_at(s, 56),
            ad_start: ad_start as usize,
            ad_end: ad_end as usize,
        },
    )
}

/// The Information Length of the File Entry in `s`, or `None` when `s` is
/// not a File Entry.
pub open spec fn spec_fe_info_len(s: Seq<u8>) -> Option<u64> {
    if spec_is_fe_tag(spec_le16(s, 0)) {
        Some(spec_le64(s, 56) as u64)
    } else {
        None
    }
}

/// The Information Length of the File Entry at `lba` in `src`: `None` when
/// its block cannot be read or is not a File Entry.
pub open spec fn spec_fe_info_len_at<S: UdfSource>(src: S, bs: u32, lba: u32) -> Option<u64> {
    match block_at(src, lba, bs) {
        None => None,
        Some(s) => spec_fe_info_len(s),
    }
}

/// Read the Information Length (file size) of the File Entry at `fe_lba`:
/// `None` when the read fails, otherwise what [`spec_fe_info_len`] decodes
/// from the sector read.
pub fn read_fe_info_len<S: UdfSource>(reader: &mut S, block_size: u32, fe_lba: u32) -> (r: Option<
    u64,
>)
    requires
        64 <= block_size <= 4096,
    ensures
        same_source(*old(reader), *final(reader)),
        old(reader).reads_described() ==> r == spec_fe_info_len_at(*old(reader), block_size, fe_lba),
        r is Some ==> exists|s: Seq<u8>|
            s.len() == block_size && #[trigger] spec_fe_info_len(s) == r,
{
    proof {
        lemma_block_pos(fe_lba, block_size);
    }
    let sector = read_block(reader, fe_lba as u64 * block_size as u64, block_size as usize)?;
    let id = le16_at(sector.as_slice(), 0);
    if id != TAG_FE && id != TAG_FE_ALT && id != TAG_EFE {
        assert(spec_fe_info_len(sector@) is None);
        return None;
    }
    let r = Some(le64_at(sector.as_slice(), 56));
    assert(spec_fe_info_len(sector@) == r);
    r
}

/// The ICB Tag File Type (byte 27) of the File Entry in `s`, or `None` when
/// `s` is not a File Entry.
pub open spec fn spec_fe_file_type(s: Seq<u8>) -> Option<u8> {
    if spec_is_fe_tag(spec_le16(s, 0)) {
        Some(s[27])
    } else {
        None
    }
}

/// The ICB Tag File Type of the File Entry at `lba` in `src`: `None` when
/// its block cannot be read or is not a File Entry.
pub open spec fn spec_fe_file_type_at<S: UdfSource>(src: S, bs: u32, lba: u32) -> Option<u8> {
    match block_at(src, lba, bs) {
        None => None,
        Some(s) => spec_fe_file_type(s),
    }
}

/// Read the ICB Tag File Type of the File Entry at `fe_lba`: `None` when the
/// read fails, otherwise what [`spec_fe_file_type`] decodes from the sector.
pub fn read_fe_file_type<S: UdfSource>(reader: &mut S, block_size: u32, fe_lba: u32) -> (r: Option<
    u8,
>)
    requires
        64 <= block_size <= 4096,
    ensures
        same_source(*old(reader), *final(reader)),
        old(reader).reads_described() ==> r == spec_fe_file_type_at(*old(reader), block_size, fe_lba),
        r is Some ==> exists|s: Seq<u8>|
            s.len() == block_size && #[trigger] spec_fe_file_type(s) == r,
{
    proof {
        lemma_block_pos(fe_lba, block_size);
    }
    let sector = read_block(reader, fe_lba as u64 * block_size as u64, block_size as usize)?;
    let id = le16_at(sector.as_slice(), 0);
    if id != TAG_FE && id != TAG_FE_ALT && id != TAG_EFE {
        assert(spec_fe_file_type(sector@) is None);
        return None;
    }
    let r = Some(sector[27]);
    assert(spec_fe_file_type(sector@) == r);
    r
}

/// The byte position of logical sector `lba` fits a `u64`.
pub proof fn lemma_block_pos(lba: u32, block_size: u32)
    requires
        block_size <= 4096,
    ensures
        lba as u64 * block_size as u64 <= 0x1_0000_0000 * 4096,
{
    assert(lba as u64 * block_size as u64 <= 0x1_0000_0000 * 4096) by (nonlinear_arith)
        requires
            block_size <= 4096,
    ;
}

} // verus!

verus! {

/// The allocation descriptor at `pos` describes recorded data: extent type
/// 0 (bits 30-31 of its length field clear) and a non-zero length.
pub open spec fn spec_recorded_len(ad: Seq<u8>, pos: int) -> int {
    let raw = spec_le32(ad, pos);
    if 0 < raw < 0x4000_0000 {
        raw
    } else {
        0
    }
}

/// The total length of the recorded extents that the allocation descriptors
/// of `stride` bytes from `pos` on describe.
pub open spec fn spec_recorded_sum(ad: Seq<u8>, stride: int, pos: int) -> int
    decreases ad.len() - pos,
{
    if pos < 0 || stride <= 0 || pos + stride > ad.len() {
        0
    } else {
        spec_recorded_len(ad, pos) + spec_recorded_sum(ad, stride, pos + stride)
    }
}

proof fn lemma_recorded_sum_nonneg(ad: Seq<u8>, stride: int, pos: int)
    ensures
        spec_recorded_sum(ad, stride, pos) >= 0,
    decreases ad.len() - pos,
{
    if !(pos < 0 || stride <= 0 || pos + stride > ad.len()) {
        lemma_recorded_sum_nonneg(ad, stride, pos + stride);
    }
}

/// `min(a, b)`.
pub open spec fn spec_min(a: int, b: int) -> int {
    if a < b {
        a
    } else {
        b
    }
}

/// The bytes of an extent of `len` bytes from byte `pos` of `src`, read one
/// whole block of `bs` bytes at a time, of which the extent takes up to
/// what it has left: `None` when a block read fails.
pub open spec fn spec_extent_bytes<S: UdfSource>(src: S, bs: u32, pos: int, len: int) -> Option<
    Seq<u8>,
>
    decreases len,
{
    if len <= 0 || bs == 0 {
        Some(Seq::empty())
    } else {
        let n = spec_min(len, bs as int);
        match src.bytes_at(pos, bs as nat) {
            None => None,
            Some(b) => match spec_extent_bytes(src, bs, pos + n, len - n) {
                None => None,
                Some(rest) => Some(b.take(n) + rest),
            },
        }
    }
}

/// Sources that agree on every read give an extent the same bytes, when
/// they describe their reads.
pub proof fn lemma_extent_same_source<S: UdfSource>(a: S, b: S, bs: u32, pos: int, len: int)
    requires
        same_source(a, b),
    ensures
        a.reads_described() ==> (spec_extent_bytes(a, bs, pos, len) == spec_extent_bytes(b, bs, pos, len)),
    decreases len,
{
    if a.reads_described() {
        if len > 0 && bs > 0 {
            let n = spec_min(len, bs as int);
            assert(a.bytes_at(pos, bs as nat) == b.bytes_at(pos, bs as nat));
            lemma_extent_same_source(a, b, bs, pos + n, len - n);
        }
    }
}

/// Read the `ext_len` bytes of one extent starting at byte `byte_pos`, one
/// logical block at a time, appending to `data` until it holds `total_len`
/// bytes. `None` when a block cannot be read.
pub fn read_extent<S: UdfSource>(
    reader: &mut S,
    block_size: u32,
    byte_pos: u64,
    ext_len: usize,
    total_len: u64,
    data: &mut Vec<u8>,
) -> (r: Option<()>)
    requires
        64 <= block_size <= 4096,
        old(data)@.len() <= total_len,
        ext_len < 0x4000_0000,
        byte_pos <= 0x2_0000_0000 * 4096,
    ensures
        same_source(*old(reader), *final(reader)),
        old(reader).reads_described() ==> match spec_extent_bytes(*old(reader), block_size, byte_pos as int, ext_len as int) {
            None => r is None,
            Some(e) => r is Some && final(data)@ == old(data)@ + e.take(
                spec_min(ext_len as int, total_len - old(data)@.len()),
            ),
        },
        r is Some ==> final(data)@.len() == old(data)@.len() + spec_min(
            ext_len as int,
            total_len - old(data)@.len(),
        ),
        r is Some ==> final(data)@.take(old(data)@.len() as int) == old(data)@,
{
    let bs = block_size as usize;
    let ghost start = data@;
    let ghost src = *reader;
    let ghost whole = spec_extent_bytes(src, block_size, byte_pos as int, ext_len as int);
    let ghost mut done: Seq<u8> = Seq::empty();
    let mut consumed: usize = 0;
    let mut pos: u64 = byte_pos;
    while consumed < ext_len
        invariant
            bs == block_size as usize,
            64 <= bs <= 4096,
            consumed <= ext_len < 0x4000_0000,
            pos == byte_pos + consumed,
            byte_pos <= 0x2_0000_0000 * 4096,
            start.len() <= total_len,
            src == *old(reader),
            start == old(data)@,
            whole == spec_extent_bytes(src, block_size, byte_pos as int, ext_len as int),
            same_source(src, *reader),
            done.len() == consumed,
            src.reads_described() ==> whole == match spec_extent_bytes(
                src,
                block_size,
                pos as int,
                ext_len - consumed,
            ) {
                None => None,
                Some(rest) => Some(done + rest),
            },
            src.reads_described() ==> data@ == start + done.take(
                spec_min(consumed as int, total_len - start.len()),
            ),
            data@.len() == start.len() + spec_min(consumed as int, total_len - start.len()),
            data@.take(start.len() as int) == start,
        decreases ext_len - consumed,
    {
        let ghost rem = ext_len - consumed;
        let sector = match read_block(reader, pos, bs) {
            None => {
                assert(src.reads_described() ==> spec_extent_bytes(
                    src,
                    block_size,
                    pos as int,
                    rem as int,
                ) is None);
                return None;
            },
            Some(v) => v,
        };
        let remaining: u64 = total_len - data.len() as u64;
        let sector_bytes: usize = if ext_len - consumed < bs {
            ext_len - consumed
        } else {
            bs
        };
        let take: usize = if (sector_bytes as u64) < remaining {
            sector_bytes
        } else {
            remaining as usize
        };
        let ghost before = data@;
        data.extend_from_slice(slice_subrange(sector.as_slice(), 0, take));
        proof {
            let b = sector@;
            let n = sector_bytes as int;
            assert(n == spec_min(rem as int, bs as int));
            let done2 = done + b.take(n);
            let t = total_len - start.len();
            assert(data@.take(start.len() as int) =~= start);
            if src.reads_described() {
                assert(src.bytes_at(pos as int, bs as nat) == Some(b));
                let next = spec_extent_bytes(src, block_size, pos + n, rem - n);
                assert(spec_extent_bytes(src, block_size, pos as int, rem as int) == match next {
                    None => None,
                    Some(rest) => Some(b.take(n) + rest),
                });
                if next is Some {
                    let rest = next->0;
                    assert(done + (b.take(n) + rest) =~= done2 + rest);
                }
                assert(data@ =~= start + done2.take(spec_min(consumed + n, t)));
            }
            done = done2;
        }
        consumed = consumed + sector_bytes;
        pos = pos + sector_bytes as u64;
    }
    proof {
        assert(spec_extent_bytes(src, block_size, pos as int, 0) == Some(Seq::<u8>::empty()));
        assert(done + Seq::<u8>::empty() =~= done);
    }
    Some(())
}

/// The data of the recorded extents that the allocation descriptors of
/// `stride` bytes in `ad` from `pos` on describe, appended to `acc` until it
/// holds `total` bytes: each recorded extent (see [`spec_recorded_len`]) is
/// read from block `partition_start` plus its logical block and cut at
/// what `acc` still lacks. `None` when a block read fails.
pub open spec fn spec_extents_from<S: UdfSource>(
    src: S,
    bs: u32,
    partition_start: u32,
    ad: Seq<u8>,
    stride: int,
    pos: int,
    total: int,
    acc: Seq<u8>,
) -> Option<Seq<u8>>
    decreases ad.len() - pos,
{
    if pos < 0 || stride <= 0 || pos + stride > ad.len() || acc.len() >= total {
        Some(acc)
    } else {
        let raw = spec_le32(ad, pos);
        if 0 < raw < 0x4000_0000 {
            let phys = (partition_start as int + spec_le32(ad, pos + 4)) * bs as int;
            match spec_extent_bytes(src, bs, phys, raw) {
                None => None,
                Some(e) => spec_extents_from(
                    src,
                    bs,
                    partition_start,
                    ad,
                    stride,
                    pos + stride,
                    total,
                    acc + e.take(spec_min(raw, total - acc.len())),
                ),
            }
        } else {
            spec_extents_from(src, bs, partition_start, ad, stride, pos + stride, total, acc)
        }
    }
}

/// Sources that agree on every read give the extents the same data, when
/// they describe their reads.
pub proof fn lemma_extents_same_source<S: UdfSource>(
    a: S,
    b: S,
    bs: u32,
    partition_start: u32,
    ad: Seq<u8>,
    stride: int,
    pos: int,
    total: int,
    acc: Seq<u8>,
)
    requires
        same_source(a, b),
    ensures
        a.reads_described() ==> (spec_extents_from(a, bs, partition_start, ad, stride, pos, total, acc)
            == spec_extents_from(b, bs, partition_start, ad, stride, pos, total, acc)),
    decreases ad.len() - pos,
{
    if a.reads_described() {
        if !(pos < 0 || stride <= 0 || pos + stride > ad.len() || acc.len() >= total) {
            let raw = spec_le32(ad, pos);
            let phys = (partition_start as int + spec_le32(ad, pos + 4)) * bs as int;
            lemma_extent_same_source(a, b, bs, phys, raw);
            if 0 < raw < 0x4000_0000 {
                match spec_extent_bytes(a, bs, phys, raw) {
                    None => {},
                    Some(e) => lemma_extents_same_source(
                        a,
                        b,
                        bs,
                        partition_start,
                        ad,
                        stride,
                        pos + stride,
                        total,
                        acc + e.take(spec_min(raw, total - acc.len())),
                    ),
                }
            } else {
                lemma_extents_same_source(a, b, bs, partition_start, ad, stride, pos + stride, total, acc);
            }
        }
    }
}

/// The data the allocation descriptors of `stride` bytes in `ad` describe,
/// up to `total` bytes.
pub open spec fn spec_extents<S: UdfSource>(
    src: S,
    bs: u32,
    partition_start: u32,
    ad: Seq<u8>,
    stride: int,
    total: int,
) -> Option<Seq<u8>> {
    spec_extents_from(src, bs, partition_start, ad, stride, 0, total, Seq::empty())
}

/// Collect the data of the recorded extents that the allocation
/// descriptors in `ad_area` (`stride` bytes each: 8 for `short_ad`, 16 for
/// `long_ad`) describe, until `total_len` bytes are gathered. Each
/// descriptor records the extent length at bytes 0..4 and its logical block
/// at 4..8; the physical block is `partition_start` plus that.
pub fn read_extents<S: UdfSource>(
    reader: &mut S,
    block_size: u32,
    partition_start: u32,
    ad_area: &[u8],
    total_len: u64,
    stride: usize,
) -> (r: Option<Vec<u8>>)
    requires
        64 <= block_size <= 4096,
        stride == 8 || stride == 16,
    ensures
        same_source(*old(reader), *final(reader)),
        old(reader).reads_described() ==> match spec_extents(
            *old(reader),
            block_size,
            partition_start,
            ad_area@,
            stride as int,
            total_len as int,
        ) {
            None => r is None,
            Some(d) => r matches Some(v) && v@ == d,
        },
        r matches Some(d) ==> d@.len() == spec_min(
            total_len as int,
            spec_recorded_sum(ad_area@, stride as int, 0),
        ),
{
    let ghost src = *reader;
    let ghost whole = spec_extents(
        src,
        block_size,
        partition_start,
        ad_area@,
        stride as int,
        total_len as int,
    );
    let mut data: Vec<u8> = Vec::new();
    let mut pos: usize = 0;
    let len = ad_area.len();
    proof {
        lemma_recorded_sum_nonneg(ad_area@, stride as int, 0);
    }
    while pos <= len && len - pos >= stride && (data.len() as u64) < total_len
        invariant
            len == ad_area@.len(),
            stride == 8 || stride == 16,
            64 <= block_size <= 4096,
            pos <= len,
            pos % stride == 0,
            data@.len() <= total_len,
            data@.len() == spec_min(
                total_len as int,
                spec_recorded_sum(ad_area@, stride as int, 0) - spec_recorded_sum(
                    ad_area@,
                    stride as int,
                    pos as int,
                ),
            ),
            spec_recorded_sum(ad_area@, stride as int, pos as int) >= 0,
            src == *old(reader),
            same_source(src, *reader),
            whole == spec_extents(
                src,
                block_size,
                partition_start,
                ad_area@,
                stride as int,
                total_len as int,
            ),
            src.reads_described() ==> whole == spec_extents_from(
                src,
                block_size,
                partition_start,
                ad_area@,
                stride as int,
                pos as int,
                total_len as int,
                data@,
            ),
        decreases len - pos,
    {
        let len_raw = le32_at(ad_area, pos);
        let ext_pos = le32_at(ad_area, pos + 4);
        proof {
            lemma_recorded_sum_nonneg(ad_area@, stride as int, pos + stride);
        }
        if len_raw > 0 && len_raw < 0x4000_0000 {
            assert((partition_start as u64 + ext_pos as u64) * block_size as u64 <= 0x2_0000_0000
                * 4096) by (nonlinear_arith)
                requires
                    block_size <= 4096,
                    partition_start as u64 + ext_pos as u64 <= 0x2_0000_0000,
            ;
            let phys = (partition_start as u64 + ext_pos as u64) * block_size as u64;
            let ghost before = data@;
            let ghost cur = *reader;
            let got = read_extent(reader, block_size, phys, len_raw as usize, total_len, &mut data);
            proof {
                lemma_extent_same_source(src, cur, block_size, phys as int, len_raw as int);
                assert(phys as int == (partition_start as int + spec_le32(ad_area@, pos + 4))
                    * block_size as int);
            }
            if got.is_none() {
                return None;
            }
        }
        pos = pos + stride;
    }
    proof {
        lemma_recorded_sum_nonneg(ad_area@, stride as int, pos as int);
    }
    Some(data)
}

/// Collect the data that `short_ad` allocation descriptors (8 bytes each)
/// describe.
pub fn read_extents_short<S: UdfSource>(
    reader: &mut S,
    block_size: u32,
    partition_start: u32,
    ad_area: &[u8],
    total_len: u64,
) -> (r: Option<Vec<u8>>)
    requires
        64 <= block_size <= 4096,
    ensures
        same_source(*old(reader), *final(reader)),
        old(reader).reads_described() ==> match spec_extents(*old(reader), block_size, partition_start, ad_area@, 8, total_len as int) {
            None => r is None,
            Some(d) => r matches Some(v) && v@ == d,
        },
        r matches Some(d) ==> d@.len() == spec_min(
            total_len as int,
            spec_recorded_sum(ad_area@, 8, 0),
        ),
{
    read_extents(reader, block_size, partition_start, ad_area, total_len, 8)
}

/// Collect the data that `long_ad` allocation descriptors (16 bytes each)
/// describe.
pub fn read_extents_long<S: UdfSource>(
    reader: &mut S,
    block_size: u32,
    partition_start: u32,
    ad_area: &[u8],
    total_len: u64,
) -> (r: Option<Vec<u8>>)
    requires
        64 <= block_size <= 4096,
    ensures
        same_source(*old(reader), *final(reader)),
        old(reader).reads_described() ==> match spec_extents(*old(reader), block_size, partition_start, ad_area@, 16, total_len as int) {
            None => r is None,
            Some(d) => r matches Some(v) && v@ == d,
        },
        r matches Some(d) ==> d@.len() == spec_min(
            total_len as int,
            spec_recorded_sum(ad_area@, 16, 0),
        ),
{
    read_extents(reader, block_size, partition_start, ad_area, total_len, 16)
}

/// The File Entry data `d` agrees with File Entry sector `s`: inline data is
/// the first `InformationLength` bytes of the area (all of it when shorter);
/// `short_ad` and `long_ad` data is as long as the recorded extents, cut at
/// `InformationLength`. Other allocation types have no data.
pub open spec fn spec_fe_data_fits(s: Seq<u8>, d: Seq<u8>) -> bool {
    match spec_fe_layout(s) {
        None => false,
        Some(l) => {
            let area = s.subrange(l.ad_start as int, l.ad_end as int);
            if l.alloc_type == ALLOC_INLINE {
                d == area.take(spec_min(l.info_len as int, area.len() as int))
            } else if l.alloc_type == ALLOC_SHORT {
                d.len() == spec_min(l.info_len as int, spec_recorded_sum(area, 8, 0))
            } else if l.alloc_type == ALLOC_LONG {
                d.len() == spec_min(l.info_len as int, spec_recorded_sum(area, 16, 0))
            } else {
                false
            }
        },
    }
}

/// Some File Entry sector of `bs` bytes agrees with the data `d`.
pub open spec fn spec_fe_data_explained(bs: u32, d: Seq<u8>) -> bool {
    exists|s: Seq<u8>| s.len() == bs && #[trigger] spec_fe_data_fits(s, d)
}

/// The data of the File Entry in sector `s`, read from `src`: inline data
/// is the first `InformationLength` bytes of the allocation area (all of it
/// when shorter); `short_ad` and `long_ad` data is what
/// [`spec_extents`] reads, up to `InformationLength`. `None` when `s` is
/// not a File Entry whose area fits the block, its allocation type is none
/// of these, or a read fails.
pub open spec fn spec_fe_data_in<S: UdfSource>(src: S, bs: u32, partition_start: u32, s: Seq<u8>) -> Option<
    Seq<u8>,
> {
    match spec_fe_layout(s) {
        None => None,
        Some(l) => {
            let area = s.subrange(l.ad_start as int, l.ad_end as int);
            if l.alloc_type == ALLOC_INLINE {
                Some(area.take(spec_min(l.info_len as int, area.len() as int)))
            } else if l.alloc_type == ALLOC_SHORT {
                spec_extents(src, bs, partition_start, area, 8, l.info_len as int)
            } else if l.alloc_type == ALLOC_LONG {
                spec_extents(src, bs, partition_start, area, 16, l.info_len as int)
            } else {
                None
            }
        },
    }
}

/// The data of the File Entry at `lba` in `src`.
pub open spec fn spec_fe_data_at<S: UdfSource>(src: S, bs: u32, partition_start: u32, lba: u32) -> Option<
    Seq<u8>,
> {
    match block_at(src, lba, bs) {
        None => None,
        Some(s) => spec_fe_data_in(src, bs, partition_start, s),
    }
}

/// Read the data of the File Entry at `fe_lba`: `None` when a read fails,
/// the sector is not a File Entry, its allocation area does not fit the
/// block, or its allocation type is not short, long or inline.
pub fn read_fe_data<S: UdfSource>(
    reader: &mut S,
    block_size: u32,
    partition_start: u32,
    fe_lba: u32,
) -> (r: Option<Vec<u8>>)
    requires
        64 <= block_size <= 4096,
    ensures
        same_source(*old(reader), *final(reader)),
        old(reader).reads_described() ==> match spec_fe_data_at(*old(reader), block_size, partition_start, fe_lba) {
            None => r is None,
            Some(d) => r matches Some(v) && v@ == d,
        },
        r matches Some(d) ==> spec_fe_data_explained(block_size, d@),
{
    proof {
        lemma_block_pos(fe_lba, block_size);
    }
    let ghost src = *reader;
    let sector = read_block(reader, fe_lba as u64 * block_size as u64, block_size as usize)?;
    let ghost cur = *reader;
    let layout = fe_layout(sector.as_slice())?;
    assert(spec_fe_layout(sector@) == Some(layout));
    let area = slice_subrange(sector.as_slice(), layout.ad_start, layout.ad_end);
    assert(area@ == sector@.subrange(layout.ad_start as int, layout.ad_end as int));
    let info_len = layout.info_len;
    proof {
        lemma_extents_same_source(src, cur, block_size, partition_start, area@, 8, 0, info_len as int, Seq::empty());
        lemma_extents_same_source(src, cur, block_size, partition_start, area@, 16, 0, info_len as int, Seq::empty());
    }
    let d = if layout.alloc_type == ALLOC_INLINE {
        let n: usize = if info_len < area.len() as u64 {
            info_len as usize
        } else {
            area.len()
        };
        let d = slice_to_vec(slice_subrange(area, 0, n));
        assert(d@ =~= area@.take(n as int));
        d
    } else if layout.alloc_type == ALLOC_SHORT {
        read_extents_short(reader, block_size, partition_start, area, info_len)?
    } else if layout.alloc_type == ALLOC_LONG {
        read_extents_long(reader, block_size, partition_start, area, info_len)?
    } else {
        return None;
    };
    assert(spec_fe_data_fits(sector@, d@));
    assert(spec_fe_data_explained(block_size, d@));
    Some(d)
}

} // verus!

verus! {

/// What `String::from_utf8_lossy` makes of `bytes`: the UTF-8 text they
/// encode, each invalid sequence replaced by U+FFFD.
pub uninterp spec fn spec_utf8_lossy(bytes: Seq<u8>) -> Seq<char>;

/// What `String::from_utf16_lossy` makes of `units`: the UTF-16 text they
/// encode, each invalid unit replaced by U+FFFD.
pub uninterp spec fn spec_utf16_lossy(units: Seq<u16>) -> Seq<char>;

/// `String::from_utf8_lossy`, made owned. The claim: the result is named by
/// [`spec_utf8_lossy`] of the bytes, and valid UTF-8 decodes unchanged (as
/// the function's documentation states).
#[verifier::external_body]
fn utf8_lossy(bytes: &[u8]) -> (r: String)
    ensures
        r@ == spec_utf8_lossy(bytes@),
        vstd::utf8::valid_utf8(bytes@) ==> r@ == vstd::utf8::decode_utf8(bytes@),
{
    String::from_utf8_lossy(bytes).into_owned()
}

/// `String::from_utf16_lossy`. The claim: the result is named by
/// [`spec_utf16_lossy`] of the code units, and code units none of which is
/// a surrogate (0xD800..=0xDFFF) decode one to one, each to the character
/// of that code point (as UTF-16 defines them).
#[verifier::external_body]
fn utf16_lossy(units: &[u16]) -> (r: String)
    ensures
        r@ == spec_utf16_lossy(units@),
        spec_no_surrogate(units@) ==> r@ == Seq::new(units@.len(), |i: int| units@[i] as char),
{
    String::from_utf16_lossy(units)
}

/// No code unit of `units` is a UTF-16 surrogate (0xD800..=0xDFFF).
pub open spec fn spec_no_surrogate(units: Seq<u16>) -> bool {
    forall|i: int| 0 <= i < units.len() ==> !(0xD800 <= #[trigger] units[i] <= 0xDFFF)
}

/// The big-endian 16-bit code units of `b`, pair by pair; a trailing odd
/// byte is dropped.
pub open spec fn spec_be_units(b: Seq<u8>) -> Seq<u16> {
    Seq::new(b.len() / 2, |i: int| (b[2 * i] as int * 256 + b[2 * i + 1] as int) as u16)
}

/// An OSTA CS0 identifier decoded: the first byte is the compression id (16
/// for UTF-16BE, otherwise UTF-8), the rest the character data. Code units
/// none of which is a surrogate decode one to one.
pub open spec fn spec_decode_cs0(bytes: Seq<u8>) -> Seq<char> {
    if bytes.len() == 0 {
        Seq::empty()
    } else if bytes[0] == 16 {
        let units = spec_be_units(bytes.drop_first());
        if spec_no_surrogate(units) {
            Seq::new(units.len(), |i: int| units[i] as char)
        } else {
            spec_utf16_lossy(units)
        }
    } else {
        spec_utf8_lossy(bytes.drop_first())
    }
}

/// Decode an OSTA CS0 encoded identifier.
pub fn decode_osta_cs0(bytes: &[u8]) -> (r: String)
    ensures
        r@ == spec_decode_cs0(bytes@),
{
    if bytes.len() == 0 {
        return String::new();
    }
    let comp_id = bytes[0];
    let payload = slice_subrange(bytes, 1, bytes.len());
    assert(payload@ =~= bytes@.drop_first());
    if comp_id == 16 {
        let mut units: Vec<u16> = Vec::new();
        let plen = payload.len();
        let n = plen / 2;
        let mut i: usize = 0;
        while i < n
            invariant
                plen == payload@.len(),
                n == plen / 2,
                i <= n,
                units@ =~= spec_be_units(payload@).take(i as int),
            decreases n - i,
        {
            let hi = payload[2 * i] as u16;
            let lo = payload[2 * i + 1] as u16;
            let u = hi * 256 + lo;
            units.push(u);
            i = i + 1;
        }
        assert(units@ =~= spec_be_units(payload@));
        utf16_lossy(units.as_slice())
    } else {
        utf8_lossy(payload)
    }
}

/// The FID tag size that `data` uses, scanning 4-byte steps from `off`: at
/// the first File Identifier Descriptor tag, 16 when the Information Control
/// Block logical block read at the standard offset is plausible (below
/// 65536), else 18 when it is plausible at the 2-byte-extended offset, else
/// 16; 16 when there is no such tag.
pub open spec fn spec_fid_tag_size_from(data: Seq<u8>, off: int) -> int
    decreases data.len() - off,
{
    if off < 0 || off + 28 > data.len() {
        16
    } else if spec_le16(data, off) == TAG_FID as int {
        if spec_le32(data, off + 22) < 0x10000 {
            16
        } else if spec_le32(data, off + 24) < 0x10000 {
            18
        } else {
            16
        }
    } else {
        spec_fid_tag_size_from(data, off + 4)
    }
}

/// The FID tag size of directory data `data`.
pub open spec fn spec_fid_tag_size(data: Seq<u8>) -> int {
    spec_fid_tag_size_from(data, 0)
}

/// Whether FIDs in `data` use the standard 16-byte ECMA-167 tag or an
/// 18-byte tag that some UDF tools write.
pub fn detect_fid_tag_size(data: &[u8]) -> (r: usize)
    ensures
        r == spec_fid_tag_size(data@),
        r == 16 || r == 18,
{
    let len = data.len();
    let mut off: usize = 0;
    while off <= len && len - off >= 28
        invariant
            len == data@.len(),
            off <= len,
            spec_fid_tag_size(data@) == spec_fid_tag_size_from(data@, off as int),
        decreases len - off,
    {
        if le16_at(data, off) == TAG_FID {
            if le32_at(data, off + 22) < 0x10000 {
                return 16;
            }
            if le32_at(data, off + 24) < 0x10000 {
                return 18;
            }
            return 16;
        }
        off = off + 4;
    }
    16
}

/// A non-parent child named by a File Identifier Descriptor.
pub struct FidRecord {
    /// The OSTA CS0 file identifier bytes.
    pub name_bytes: Seq<u8>,
    /// The Directory bit of the File Characteristics.
    pub is_dir: bool,
    /// Physical LBA of the child's File Entry.
    pub fe_lba: u32,
}

/// `x` rounded up to a multiple of 4.
pub open spec fn spec_round4(x: int) -> int {
    (x + 3) / 4 * 4
}

/// The children that the File Identifier Descriptors of `data` from `off`
/// on name, with tags of `ts` bytes, in partition `partition_start`.
///
/// Bytes that do not start a FID tag are skipped 4 at a time. A FID spans
/// its recorded CRC length past the 16-byte tag, rounded up to 4, and at
/// least `ts + 20` bytes; one that overruns the data ends the walk. The
/// parent entry (File Characteristics bit 3) is left out, and so is a child
/// whose File Entry LBA (`partition_start` plus the ICB logical block) would
/// pass `u32::MAX`.
pub open spec fn spec_fid_scan(data: Seq<u8>, ts: int, off: int, partition_start: u32) -> Seq<
    FidRecord,
>
    decreases data.len() - off,
{
    let min_fid = ts + 20;
    if off < 0 || ts < 16 || off + min_fid > data.len() {
        Seq::empty()
    } else if spec_le16(data, off) != TAG_FID as int {
        spec_fid_scan(data, ts, off + 4, partition_start)
    } else {
        let adv0 = spec_round4(16 + spec_le16(data, off + 10));
        let adv = if adv0 < min_fid {
            min_fid
        } else {
            adv0
        };
        if off + adv > data.len() {
            Seq::empty()
        } else {
            let chars = data[off + ts];
            let file_id_len = data[off + ts + 1] as int;
            let icb_lbn = spec_le32(data, off + ts + 6);
            let impl_use_len = spec_le16(data, off + ts + 18);
            let rest = spec_fid_scan(data, ts, off + adv, partition_start);
            if (chars / 8) % 2 == 1 || partition_start as int + icb_lbn > u32::MAX as int {
                rest
            } else {
                let id_start = off + ts + 20 + impl_use_len;
                let id_end = if id_start + file_id_len < data.len() {
                    id_start + file_id_len
                } else {
                    data.len() as int
                };
                let name_bytes = if id_end > id_start {
                    data.subrange(id_start, id_end)
                } else {
                    Seq::empty()
                };
                seq![
                    FidRecord {
                        name_bytes,
                        is_dir: (chars / 2) % 2 == 1,
                        fe_lba: (partition_start + icb_lbn) as u32,
                    },
                ] + rest
            }
        }
    }
}

/// A File Identifier Descriptor at `off` (tag 257, tag size `ts`) that is
/// not the parent entry (characteristics bit 3 clear) and addresses a File
/// Entry within range names the first child of the scan from `off`: its
/// name is the `L_FI` file identifier bytes (byte `ts + 1`) that follow the
/// fixed part and the `L_IU` implementation-use bytes (le16 at `ts + 18`),
/// it is a directory exactly when characteristics bit 1 is set, and its File
/// Entry is the partition start plus the ICB logical block (le32 at
/// `ts + 6`).
pub proof fn lemma_fid_first_child(data: Seq<u8>, ts: int, off: int, partition_start: u32)
    requires
        ts == 16 || ts == 18,
        0 <= off,
        spec_le16(data, off) == 257,
        off + ts + 20 <= data.len(),
        off + spec_round4(16 + spec_le16(data, off + 10)) <= data.len(),
        (data[off + ts] / 8) % 2 == 0,
        partition_start + spec_le32(data, off + ts + 6) <= u32::MAX,
        off + ts + 20 + spec_le16(data, off + ts + 18) + data[off + ts + 1] < data.len(),
        data[off + ts + 1] > 0,
    ensures
        ({
            let id_start = off + ts + 20 + spec_le16(data, off + ts + 18);
            let c = spec_fid_scan(data, ts, off, partition_start)[0];
            &&& spec_fid_scan(data, ts, off, partition_start).len() >= 1
            &&& c.name_bytes == data.subrange(id_start, id_start + data[off + ts + 1])
            &&& c.is_dir == ((data[off + ts] / 2) % 2 == 1)
            &&& c.fe_lba == partition_start + spec_le32(data, off + ts + 6)
        }),
{
}

/// Each record of a File Identifier Descriptor scan from `off` takes at
/// least 36 bytes of the data after `off`.
proof fn lemma_fid_scan_bound(data: Seq<u8>, ts: int, off: int, partition_start: u32)
    requires
        0 <= off,
    ensures
        36 * spec_fid_scan(data, ts, off, partition_start).len() <= if off <= data.len() {
            data.len() - off
        } else {
            0
        },
    decreases data.len() - off,
{
    let min_fid = ts + 20;
    if off < 0 || ts < 16 || off + min_fid > data.len() {
    } else if spec_le16(data, off) != TAG_FID as int {
        lemma_fid_scan_bound(data, ts, off + 4, partition_start);
    } else {
        let adv0 = spec_round4(16 + spec_le16(data, off + 10));
        let adv = if adv0 < min_fid {
            min_fid
        } else {
            adv0
        };
        if off + adv <= data.len() {
            lemma_fid_scan_bound(data, ts, off + adv, partition_start);
        }
    }
}

/// A directory's data of `n` bytes names at most `n / 36` children: each
/// File Identifier Descriptor takes at least 36 bytes.
pub proof fn lemma_fid_records_bound(data: Seq<u8>, partition_start: u32)
    ensures
        spec_fid_records(data, partition_start).len() <= data.len() / 36,
{
    lemma_fid_scan_bound(data, spec_fid_tag_size(data), 0, partition_start);
}

/// The children the File Identifier Descriptors of directory data `data`
/// name.
pub open spec fn spec_fid_records(data: Seq<u8>, partition_start: u32) -> Seq<FidRecord> {
    spec_fid_scan(data, spec_fid_tag_size(data), 0, partition_start)
}

/// `e` is the entry for child `rec` of a directory in `src`: its decoded
/// name, directory flag and File Entry, and, for a source that describes its
/// reads, the Information Length that File Entry records (0 when it cannot
/// be read or is no File Entry).
pub open spec fn spec_entry_for<S: UdfSource>(e: UdfFileEntry, rec: FidRecord, src: S, bs: u32) -> bool {
    &&& e.name@ == spec_decode_cs0(rec.name_bytes)
    &&& e.is_dir == rec.is_dir
    &&& e.fe_lba == rec.fe_lba
    &&& src.reads_described() ==> e.size == match spec_fe_info_len_at(src, bs, rec.fe_lba) {
        Some(n) => n,
        None => 0,
    }
}

/// Sources that agree on every read give a File Entry the same data, when
/// they describe their reads.
pub proof fn lemma_fe_data_same_source<S: UdfSource>(a: S, b: S, bs: u32, partition_start: u32, lba: u32)
    requires
        same_source(a, b),
    ensures
        a.reads_described() ==> (spec_fe_data_at(a, bs, partition_start, lba) == spec_fe_data_at(b, bs, partition_start, lba)),
{
    if a.reads_described() {
        assert(block_at(a, lba, bs) == block_at(b, lba, bs));
        match block_at(a, lba, bs) {
            None => {},
            Some(s) => match spec_fe_layout(s) {
                None => {},
                Some(l) => {
                    let area = s.subrange(l.ad_start as int, l.ad_end as int);
                    lemma_extents_same_source(a, b, bs, partition_start, area, 8, 0, l.info_len as int, Seq::empty());
                    lemma_extents_same_source(a, b, bs, partition_start, area, 16, 0, l.info_len as int, Seq::empty());
                },
            },
        }
    }
}

/// Parse the File Identifier Descriptors of directory data `data` into one
/// entry per non-parent child, reading each child's File Entry for its size.
pub fn parse_fids<S: UdfSource>(
    reader: &mut S,
    block_size: u32,
    partition_start: u32,
    data: &[u8],
) -> (r: Vec<UdfFileEntry>)
    requires
        64 <= block_size <= 4096,
    ensures
        same_source(*old(reader), *final(reader)),
        r@.len() == spec_fid_records(data@, partition_start).len(),
        forall|i: int|
            0 <= i < r@.len() ==> spec_entry_for(
                #[trigger] r@[i],
                spec_fid_records(data@, partition_start)[i],
                *old(reader),
                block_size,
            ),
{
    let ghost src = *reader;
    let tag_size = detect_fid_tag_size(data);
    let min_fid = tag_size + 20;
    let len = data.len();
    let ghost all = spec_fid_records(data@, partition_start);
    let ghost mut done: Seq<FidRecord> = Seq::empty();
    let mut entries: Vec<UdfFileEntry> = Vec::new();
    let mut off: usize = 0;
    let mut stop = false;
    while !stop && off <= len && len - off >= min_fid
        invariant
            len == data@.len(),
            tag_size == spec_fid_tag_size(data@),
            tag_size == 16 || tag_size == 18,
            min_fid == tag_size + 20,
            64 <= block_size <= 4096,
            off <= len,
            all == spec_fid_records(data@, partition_start),
            stop ==> spec_fid_scan(data@, tag_size as int, off as int, partition_start)
                =~= Seq::<FidRecord>::empty(),
            done + spec_fid_scan(data@, tag_size as int, off as int, partition_start) == all,
            entries@.len() == done.len(),
            src == *old(reader),
            same_source(src, *reader),
            forall|i: int|
                0 <= i < entries@.len() ==> spec_entry_for(
                    #[trigger] entries@[i],
                    done[i],
                    src,
                    block_size,
                ),
        decreases len - off, if stop {
            0int
        } else {
            1int
        },
    {
        if le16_at(data, off) != TAG_FID {
            off = off + 4;
            continue;
        }
        let crc_len = le16_at(data, off + 10) as usize;
        let adv0 = (16 + crc_len + 3) / 4 * 4;
        let fid_advance = if adv0 < min_fid {
            min_fid
        } else {
            adv0
        };
        if fid_advance > len - off {
            stop = true;
            continue;
        }
        let file_chars = data[off + tag_size];
        let file_id_len = data[off + tag_size + 1] as usize;
        let icb_lbn = le32_at(data, off + tag_size + 6);
        let impl_use_len = le16_at(data, off + tag_size + 18) as usize;
        let ghost rest = spec_fid_scan(data@, tag_size as int, (off + fid_advance) as int, partition_start);
        if (file_chars / 8) % 2 == 0 {
            match partition_start.checked_add(icb_lbn) {
                None => {},
                Some(fe_lba) => {
                    let is_dir = (file_chars / 2) % 2 == 1;
                    let base = off + tag_size + 20;
                    let (id_start, id_end): (usize, usize) = if impl_use_len >= len - base {
                        (len, len)
                    } else {
                        let st = base + impl_use_len;
                        if file_id_len < len - st {
                            (st, st + file_id_len)
                        } else {
                            (st, len)
                        }
                    };
                    let ghost name_bytes = if id_end > id_start {
                        data@.subrange(id_start as int, id_end as int)
                    } else {
                        Seq::empty()
                    };
                    let name = if id_end > id_start {
                        decode_osta_cs0(slice_subrange(data, id_start, id_end))
                    } else {
                        proof {
                            assert(spec_decode_cs0(Seq::<u8>::empty()) =~= Seq::<char>::empty());
                        }
                        String::new()
                    };
                    let size = match read_fe_info_len(reader, block_size, fe_lba) {
                        Some(s) => s,
                        None => 0,
                    };
                    let ghost rec = FidRecord { name_bytes, is_dir, fe_lba };
                    let e = UdfFileEntry { name, is_dir, size, fe_lba };
                    assert(spec_entry_for(e, rec, src, block_size));
                    proof {
                        assert(spec_fid_scan(data@, tag_size as int, off as int, partition_start)
                            == seq![rec] + rest);
                        assert(done.push(rec) + rest =~= done + (seq![rec] + rest));
                        done = done.push(rec);
                    }
                    entries.push(e);
                },
            }
        }
        off = off + fid_advance;
    }
    proof {
        assert(spec_fid_scan(data@, tag_size as int, off as int, partition_start) =~= Seq::<
            FidRecord,
        >::empty());
        assert(done + Seq::<FidRecord>::empty() =~= done);
    }
    entries
}

/// `entries` lists the children that directory data `d` of a directory in
/// `src` names, one entry per record of [`spec_fid_records`], in order.
pub open spec fn spec_listing_of<S: UdfSource>(
    d: Seq<u8>,
    partition_start: u32,
    block_size: u32,
    src: S,
    entries: Seq<UdfFileEntry>,
) -> bool {
    &&& entries.len() == spec_fid_records(d, partition_start).len()
    &&& forall|i: int|
        0 <= i < entries.len() ==> spec_entry_for(
            #[trigger] entries[i],
            spec_fid_records(d, partition_start)[i],
            src,
            block_size,
        )
}

/// Read the children of the directory whose File Entry is at `dir_fe_lba`:
/// `None` when its data cannot be read (see [`read_fe_data`]), otherwise
/// one entry per non-parent File Identifier Descriptor of that data.
pub fn read_dir_at_lba<S: UdfSource>(
    reader: &mut S,
    block_size: u32,
    partition_start: u32,
    dir_fe_lba: u32,
) -> (r: Option<Vec<UdfFileEntry>>)
    requires
        64 <= block_size <= 4096,
    ensures
        same_source(*old(reader), *final(reader)),
        old(reader).reads_described() ==> match spec_fe_data_at(*old(reader), block_size, partition_start, dir_fe_lba) {
            None => r is None,
            Some(d) => r matches Some(entries) && spec_listing_of(
                d,
                partition_start,
                block_size,
                *old(reader),
                entries@,
            ),
        },
{
    let ghost src = *reader;
    let dir_data = read_fe_data(reader, block_size, partition_start, dir_fe_lba)?;
    let ghost mid = *reader;
    let entries = parse_fids(reader, block_size, partition_start, dir_data.as_slice());
    proof {
        assert forall|i: int| 0 <= i < entries@.len() implies spec_entry_for(
            #[trigger] entries@[i],
            spec_fid_records(dir_data@, partition_start)[i],
            src,
            block_size,
        ) by {
            let rec = spec_fid_records(dir_data@, partition_start)[i];
            if src.reads_described() {
                assert(block_at(mid, rec.fe_lba, block_size) == block_at(
                    src,
                    rec.fe_lba,
                    block_size,
                ));
            }
        }
    }
    Some(entries)
}

} // verus!
