//! Final-block slack of a File Entry: the unused tail of the last logical
//! block after `InformationLength`, since a file occupies whole blocks.

use vstd::prelude::*;

use crate::bytes::{le32_at, spec_le16, spec_le32, spec_le64};
use crate::descriptor::slice_subrange;
use crate::directory::{
    fe_layout, lemma_block_pos, read_fe_info_len, spec_fe_info_len, spec_fe_info_len_at,
    spec_fe_layout,
    spec_recorded_len, ALLOC_LONG, ALLOC_SHORT,
};
use crate::source::{
    block_at, lemma_block_at_same_source, lemma_bytes_same_source, read_block, same_source, UdfSource,
};
use crate::volume::ceil_div;

verus! {

/// The physical byte position of the last block of the recorded extent
/// whose allocation descriptor sits at `pos` in `ad`: the partition start
/// plus the extent's logical block plus its length in whole blocks, less
/// one, times the block size.
pub open spec fn spec_extent_last_pos(ad: Seq<u8>, pos: int, bs: u32, partition_start: u32) -> int {
    (partition_start as int + spec_le32(ad, pos + 4) + ceil_div(
        spec_recorded_len(ad, pos),
        bs as int,
    ) - 1) * bs as int
}

/// The position of the last block of the last recorded extent among the
/// allocation descriptors of `stride` bytes in `ad` from `pos` on; `None`
/// when none of them records data.
pub open spec fn spec_last_extent_pos(
    ad: Seq<u8>,
    stride: int,
    pos: int,
    bs: u32,
    partition_start: u32,
) -> Option<u64>
    decreases ad.len() - pos,
{
    if pos < 0 || stride <= 0 || pos + stride > ad.len() {
        None
    } else {
        match spec_last_extent_pos(ad, stride, pos + stride, bs, partition_start) {
            Some(p) => Some(p),
            None => if spec_recorded_len(ad, pos) > 0 {
                Some(spec_extent_last_pos(ad, pos, bs, partition_start) as u64)
            } else {
                None
            },
        }
    }
}

/// The physical byte position of the last block that holds the data of the
/// File Entry in `s`, through its `short_ad` or `long_ad` allocation
/// descriptors; `None` when `s` is not a File Entry, its data is stored
/// inline (no allocated block), or no descriptor records an extent.
pub open spec fn spec_fe_last_block_pos(s: Seq<u8>, bs: u32, partition_start: u32) -> Option<u64> {
    match spec_fe_layout(s) {
        None => None,
        Some(l) => {
            let area = s.subrange(l.ad_start as int, l.ad_end as int);
            if l.alloc_type == ALLOC_SHORT {
                spec_last_extent_pos(area, 8, 0, bs, partition_start)
            } else if l.alloc_type == ALLOC_LONG {
                spec_last_extent_pos(area, 16, 0, bs, partition_start)
            } else {
                None
            }
        },
    }
}

/// Locate the last block of the data of the File Entry in `sector`.
pub fn last_block_pos(sector: &[u8], block_size: u32, partition_start: u32) -> (r: Option<u64>)
    requires
        sector@.len() >= 64,
        1 <= block_size <= 4096,
    ensures
        r == spec_fe_last_block_pos(sector@, block_size, partition_start),
{
    let _n = sector.len();
    let layout = fe_layout(sector)?;
    assert(spec_fe_layout(sector@) == Some(layout));
    let stride: usize = if layout.alloc_type == ALLOC_SHORT {
        8
    } else if layout.alloc_type == ALLOC_LONG {
        16
    } else {
        return None;
    };
    let ad = slice_subrange(sector, layout.ad_start, layout.ad_end);
    let len = ad.len();
    let ghost target = spec_fe_last_block_pos(sector@, block_size, partition_start);
    assert(target == spec_last_extent_pos(ad@, stride as int, 0, block_size, partition_start));
    let mut last: Option<u64> = None;
    let mut pos: usize = 0;
    while pos <= len && len - pos >= stride
        invariant
            len == ad@.len(),
            stride == 8 || stride == 16,
            1 <= block_size <= 4096,
            pos <= len,
            target == match spec_last_extent_pos(
                ad@,
                stride as int,
                pos as int,
                block_size,
                partition_start,
            ) {
                Some(p) => Some(p),
                None => last,
            },
        decreases len - pos,
    {
        let raw = le32_at(ad, pos);
        if raw > 0 && raw < 0x4000_0000 {
            let lbn = le32_at(ad, pos + 4);
            let bs = block_size as u64;
            let blocks: u64 = (raw as u64 + bs - 1) / bs;
            assert(blocks >= 1) by (nonlinear_arith)
                requires
                    raw >= 1,
                    bs >= 1,
                    blocks == (raw + bs - 1) as int / bs as int,
            ;
            assert(blocks <= 0x4000_0000) by (nonlinear_arith)
                requires
                    raw < 0x4000_0000,
                    bs >= 1,
                    bs <= 4096,
                    blocks == (raw + bs - 1) as int / bs as int,
            ;
            let last_lbn: u64 = partition_start as u64 + lbn as u64 + (blocks - 1);
            assert(last_lbn * bs <= 0x3_0000_0000 * 4096) by (nonlinear_arith)
                requires
                    last_lbn <= 0x3_0000_0000,
                    bs <= 4096,
            ;
            last = Some(last_lbn * bs);
            assert(last_lbn * bs == spec_extent_last_pos(
                ad@,
                pos as int,
                block_size,
                partition_start,
            ));
        }
        pos = pos + stride;
    }
    last
}

/// The position of the last block of the data of the File Entry at `lba`
/// in `src`: `None` when its block cannot be read, or as
/// [`spec_fe_last_block_pos`] gives it.
pub open spec fn spec_last_block_pos_at<S: UdfSource>(src: S, bs: u32, partition_start: u32, lba: u32) -> Option<u64> {
    match block_at(src, lba, bs) {
        None => None,
        Some(s) => spec_fe_last_block_pos(s, bs, partition_start),
    }
}

/// Locate the last block of the data of the File Entry at `fe_lba`: `None`
/// when the read fails, otherwise what [`spec_fe_last_block_pos`] gives for
/// the sector read.
pub fn fe_last_block_pos<S: UdfSource>(
    reader: &mut S,
    block_size: u32,
    partition_start: u32,
    fe_lba: u32,
) -> (r: Option<u64>)
    requires
        64 <= block_size <= 4096,
    ensures
        same_source(*old(reader), *final(reader)),
        old(reader).reads_described() ==> r == spec_last_block_pos_at(*old(reader), block_size, partition_start, fe_lba),
        r is Some ==> exists|s: Seq<u8>|
            s.len() == block_size && #[trigger] spec_fe_last_block_pos(
                s,
                block_size,
                partition_start,
            ) == r,
{
    proof {
        lemma_block_pos(fe_lba, block_size);
    }
    let sector = read_block(reader, fe_lba as u64 * block_size as u64, block_size as usize)?;
    let r = last_block_pos(sector.as_slice(), block_size, partition_start);
    assert(spec_fe_last_block_pos(sector@, block_size, partition_start) == r);
    r
}

/// The slack of a file of `info_len` bytes in blocks of `bs` bytes: the
/// unused bytes of its final block.
pub open spec fn spec_slack_len(info_len: int, bs: int) -> int {
    (bs - info_len % bs) % bs
}

/// The number of non-zero bytes in `s`.
pub open spec fn spec_nonzero_count(s: Seq<u8>) -> int
    decreases s.len(),
{
    if s.len() == 0 {
        0
    } else {
        spec_nonzero_count(s.drop_last()) + if s.last() != 0 {
            1int
        } else {
            0int
        }
    }
}

/// No more bytes are non-zero than there are bytes.
pub proof fn lemma_nonzero_count_bounds(s: Seq<u8>)
    ensures
        0 <= spec_nonzero_count(s) <= s.len(),
    decreases s.len(),
{
    if s.len() > 0 {
        lemma_nonzero_count_bounds(s.drop_last());
    }
}

/// A file leaves no slack exactly when its length is a whole number of
/// blocks; otherwise its slack is the block size less the remainder of its
/// length, fewer bytes than a block.
pub proof fn lemma_slack_len(info_len: int, bs: int)
    requires
        bs > 0,
        info_len >= 0,
    ensures
        0 <= info_len % bs < bs,
        spec_slack_len(info_len, bs) == if info_len % bs == 0 {
            0
        } else {
            bs - info_len % bs
        },
{
    let rem = info_len % bs;
    assert(0 <= rem < bs) by (nonlinear_arith)
        requires
            bs > 0,
            rem == info_len % bs,
    ;
    if rem == 0 {
        assert((bs - rem) % bs == 0) by (nonlinear_arith)
            requires
                bs > 0,
                rem == 0,
        ;
    } else {
        assert((bs - rem) % bs == bs - rem) by (nonlinear_arith)
            requires
                0 < bs - rem < bs,
        ;
    }
}

/// Count the non-zero bytes of `block` from `start` on.
fn count_nonzero_from(block: &[u8], start: usize) -> (r: u32)
    requires
        start <= block@.len() <= 4096,
    ensures
        r == spec_nonzero_count(block@.skip(start as int)),
{
    let len = block.len();
    let mut count: u32 = 0;
    let mut i: usize = start;
    while i < len
        invariant
            len == block@.len() <= 4096,
            start <= i <= len,
            count == spec_nonzero_count(block@.subrange(start as int, i as int)),
        decreases len - i,
    {
        proof {
            assert(block@.subrange(start as int, i + 1).drop_last() =~= block@.subrange(
                start as int,
                i as int,
            ));
            lemma_nonzero_count_bounds(block@.subrange(start as int, i as int));
        }
        if block[i] != 0 {
            count = count + 1;
        }
        i = i + 1;
    }
    assert(block@.subrange(start as int, len as int) =~= block@.skip(start as int));
    count
}

/// The slack of a File Entry is explained by the bytes read: the File Entry
/// sector `fe` records a non-zero `InformationLength` that leaves `slack`
/// bytes unused in its final block; the File Entry sector `fe_again` (the
/// same File Entry, read a second time) locates that final block; and
/// `nonzero` of the bytes of the final block `block` past the data are
/// non-zero.
pub open spec fn spec_slack_witness(
    fe: Seq<u8>,
    fe_again: Seq<u8>,
    block: Seq<u8>,
    bs: u32,
    partition_start: u32,
    nonzero: u32,
    slack: u32,
) -> bool {
    &&& fe.len() == bs
    &&& fe_again.len() == bs
    &&& block.len() == bs
    &&& spec_fe_info_len(fe) matches Some(info_len)
    &&& info_len != 0
    &&& slack == spec_slack_len(info_len as int, bs as int)
    &&& slack != 0
    &&& spec_fe_last_block_pos(fe_again, bs, partition_start) is Some
    &&& nonzero == spec_nonzero_count(block.skip(info_len as int % bs as int))
}

/// The slack count of the File Entry at `lba` in `src`: `None` when its
/// Information Length cannot be read, is 0 or fills its last block exactly,
/// when its last block cannot be located or read; otherwise the number of
/// non-zero bytes of that block past the data, and the slack length.
#[verifier::opaque]
pub open spec fn spec_slack_at<S: UdfSource>(src: S, bs: u32, partition_start: u32, lba: u32) -> Option<
    (u32, u32),
> {
    match spec_fe_info_len_at(src, bs, lba) {
        None => None,
        Some(info_len) => {
            let rem = info_len as int % bs as int;
            let slack = spec_slack_len(info_len as int, bs as int);
            if info_len == 0 || slack == 0 {
                None
            } else {
                match spec_last_block_pos_at(src, bs, partition_start, lba) {
                    None => None,
                    Some(p) => match src.bytes_at(p as int, bs as nat) {
                        None => None,
                        Some(b) => Some((spec_nonzero_count(b.skip(rem)) as u32, slack as u32)),
                    },
                }
            }
        },
    }
}

/// The slack count of a File Entry whose Information Length cannot be read,
/// is 0 or fills its last block exactly is `None`.
proof fn lemma_slack_at_no_slack<S: UdfSource>(src: S, bs: u32, partition_start: u32, lba: u32)
    requires
        match spec_fe_info_len_at(src, bs, lba) {
            None => true,
            Some(n) => n == 0 || spec_slack_len(n as int, bs as int) == 0,
        },
    ensures
        spec_slack_at(src, bs, partition_start, lba) is None,
{
    reveal(spec_slack_at);
}

/// The slack count of a File Entry with slack whose last block cannot be
/// located or read is `None`.
proof fn lemma_slack_at_no_block<S: UdfSource>(
    src: S,
    bs: u32,
    partition_start: u32,
    lba: u32,
    info_len: u64,
)
    requires
        spec_fe_info_len_at(src, bs, lba) == Some(info_len),
        match spec_last_block_pos_at(src, bs, partition_start, lba) {
            None => true,
            Some(p) => src.bytes_at(p as int, bs as nat) is None,
        },
    ensures
        spec_slack_at(src, bs, partition_start, lba) is None,
{
    reveal(spec_slack_at);
}

/// The slack count of a File Entry whose Information Length, last block
/// position and last block read as given.
proof fn lemma_slack_at_some<S: UdfSource>(
    src: S,
    bs: u32,
    partition_start: u32,
    lba: u32,
    info_len: u64,
    last_pos: u64,
    block: Seq<u8>,
)
    requires
        spec_fe_info_len_at(src, bs, lba) == Some(info_len),
        info_len != 0,
        spec_slack_len(info_len as int, bs as int) != 0,
        spec_last_block_pos_at(src, bs, partition_start, lba) == Some(last_pos),
        src.bytes_at(last_pos as int, bs as nat) == Some(block),
    ensures
        spec_slack_at(src, bs, partition_start, lba) == Some(
            (
                spec_nonzero_count(block.skip(info_len as int % bs as int)) as u32,
                spec_slack_len(info_len as int, bs as int) as u32,
            ),
        ),
{
    reveal(spec_slack_at);
}

/// Sources that agree on every read give a File Entry the same slack count,
/// when they describe their reads.
pub proof fn lemma_slack_at_same_source<S: UdfSource>(
    a: S,
    b: S,
    bs: u32,
    partition_start: u32,
    lba: u32,
)
    requires
        same_source(a, b),
    ensures
        a.reads_described() ==> spec_slack_at(a, bs, partition_start, lba) == spec_slack_at(
            b,
            bs,
            partition_start,
            lba,
        ),
{
    reveal(spec_slack_at);
    if a.reads_described() {
        lemma_block_at_same_source(a, b, lba, bs);
        match spec_last_block_pos_at(a, bs, partition_start, lba) {
            None => {},
            Some(p) => {
                lemma_bytes_same_source(a, b, p as int, bs as nat);
            },
        }
    }
}

/// The slack of a File Entry whose data is one short allocation descriptor
/// is counted in the last block of that extent on the partition. For a base
/// File Entry (tag 260) with short allocation descriptors (`le16(s, 34) % 8
/// == 0`), no extended attributes (`L_EA`, le32 at 168, is 0) and one
/// descriptor (`L_AD`, le32 at 172, is 8) recording `len` bytes (le32 at 176,
/// `0 < len < 2^30`) at logical block `lbn` (le32 at 180), and an
/// Information Length `L` (le64 at 56) that does not fill its last block:
/// the slack is `bs - L % bs` bytes, and the count is the non-zero bytes past
/// `L % bs` of the block at `(partition_start + lbn + ceil(len / bs) - 1) *
/// bs`.
pub proof fn lemma_slack_single_short_ad<S: UdfSource>(
    src: S,
    bs: u32,
    partition_start: u32,
    lba: u32,
    s: Seq<u8>,
    blk: Seq<u8>,
)
    requires
        64 <= bs <= 4096,
        block_at(src, lba, bs) == Some(s),
        s.len() >= 184,
        spec_le16(s, 0) == 260,
        spec_le16(s, 34) % 8 == 0,
        spec_le32(s, 168) == 0,
        spec_le32(s, 172) == 8,
        0 < spec_le32(s, 176) < 0x4000_0000,
        spec_le64(s, 56) % (bs as int) != 0,
        src.bytes_at(
            (partition_start + spec_le32(s, 180) + (spec_le32(s, 176) + bs - 1) / (bs as int) - 1) * bs,
            bs as nat,
        ) == Some(blk),
    ensures
        spec_slack_at(src, bs, partition_start, lba) == Some(
            (
                spec_nonzero_count(blk.skip(spec_le64(s, 56) % (bs as int))) as u32,
                (bs - spec_le64(s, 56) % (bs as int)) as u32,
            ),
        ),
{
    reveal(spec_slack_at);
    let area = s.subrange(176, 184);
    assert(spec_le32(area, 0) == spec_le32(s, 176)) by {
        assert(area[0] == s[176] && area[1] == s[177] && area[2] == s[178] && area[3] == s[179]);
    }
    assert(spec_le32(area, 4) == spec_le32(s, 180)) by {
        assert(area[4] == s[180] && area[5] == s[181] && area[6] == s[182] && area[7] == s[183]);
    }
    let len = spec_le32(s, 176);
    let lbn = spec_le32(s, 180);
    let q = (len + bs - 1) / (bs as int);
    assert(1 <= q <= 0x4000_0000) by (nonlinear_arith)
        requires
            0 < len < 0x4000_0000,
            64 <= bs,
            q == (len + bs - 1) / (bs as int),
    ;
    assert(0 <= lbn <= u32::MAX);
    assert(0 <= (partition_start + lbn + q - 1) * bs < 0x1_0000_0000_0000_0000) by (nonlinear_arith)
        requires
            0 <= partition_start <= u32::MAX,
            0 <= lbn <= u32::MAX,
            1 <= q <= 0x4000_0000,
            bs <= 4096,
    ;
    assert(spec_last_extent_pos(area, 8, 8, bs, partition_start) is None);
    lemma_slack_len(spec_le64(s, 56), bs as int);
    let l = spec_le64(s, 56);
    assert(0 <= spec_le32(s, 56) < 0x1_0000_0000 && 0 <= spec_le32(s, 60) < 0x1_0000_0000);
    assert(0 <= l < 0x1_0000_0000_0000_0000);
    assert(spec_fe_info_len_at(src, bs, lba) == Some(l as u64));
    let layout = spec_fe_layout(s)->0;
    assert(spec_fe_layout(s) is Some);
    assert(layout.ad_start == 176 && layout.ad_end == 184 && layout.alloc_type == 0);
    assert(s.subrange(layout.ad_start as int, layout.ad_end as int) == area);
    assert(spec_recorded_len(area, 0) == len);
    let p = (partition_start + lbn + q - 1) * bs;
    assert(spec_extent_last_pos(area, 0, bs, partition_start) == p);
    assert(spec_last_extent_pos(area, 8, 0, bs, partition_start) == Some(p as u64));
    assert(spec_fe_last_block_pos(s, bs, partition_start) == Some(p as u64));
    assert(spec_last_block_pos_at(src, bs, partition_start, lba) == Some(p as u64));
    assert((p as u64) as int == p);
    assert(p == (partition_start + spec_le32(s, 180) + (spec_le32(s, 176) + bs - 1) / (bs as int) - 1)
        * bs);
    assert(src.bytes_at(p, bs as nat) == Some(blk));
    assert(src.bytes_at((p as u64) as int, bs as nat) == Some(blk));
    assert(l != 0) by {
        if l == 0 {
            assert(0int % (bs as int) == 0) by (nonlinear_arith)
                requires
                    bs > 0,
            ;
        }
    }
    assert(spec_slack_len(l, bs as int) != 0);
    assert((l as u64) as int == l);
}

/// Count the non-zero bytes in the final-block slack of the File Entry at
/// `fe_lba`: `(nonzero_bytes, slack_bytes)`, or `None` when the file is
/// empty, fills its last block exactly, has its data inline (no allocated
/// block) or no recorded extent, or a read fails.
#[verifier::spinoff_prover]
pub fn fe_slack_nonzero<S: UdfSource>(
    reader: &mut S,
    block_size: u32,
    partition_start: u32,
    fe_lba: u32,
) -> (r: Option<(u32, u32)>)
    requires
        64 <= block_size <= 4096,
    ensures
        same_source(*old(reader), *final(reader)),
        old(reader).reads_described() ==> r == spec_slack_at(
            *old(reader),
            block_size,
            partition_start,
            fe_lba,
        ),
        r matches Some((nonzero, slack)) ==> {
            &&& nonzero <= slack
            &&& 0 < slack < block_size
            &&& exists|fe: Seq<u8>, fe_again: Seq<u8>, block: Seq<u8>|
                #[trigger] spec_slack_witness(
                    fe,
                    fe_again,
                    block,
                    block_size,
                    partition_start,
                    nonzero,
                    slack,
                )
        },
{
    let ghost src = *reader;
    let info_len = match read_fe_info_len(reader, block_size, fe_lba) {
        None => {
            proof {
                if src.reads_described() {
                    lemma_slack_at_no_slack(src, block_size, partition_start, fe_lba);
                }
            }
            return None;
        },
        Some(n) => n,
    };
    let ghost fe = choose|s: Seq<u8>|
        s.len() == block_size && #[trigger] spec_fe_info_len(s) == Some(info_len);
    let bs = block_size as u64;
    let rem: u64 = info_len % bs;
    let slack: u64 = (bs - rem) % bs;
    proof {
        lemma_slack_len(info_len as int, bs as int);
    }
    if info_len == 0 || slack == 0 {
        proof {
            if src.reads_described() {
                lemma_slack_at_no_slack(src, block_size, partition_start, fe_lba);
            }
        }
        return None;
    }
    let ghost cur = *reader;
    let last_pos = fe_last_block_pos(reader, block_size, partition_start, fe_lba);
    proof {
        lemma_block_at_same_source(src, cur, fe_lba, block_size);
    }
    let last_pos = match last_pos {
        None => {
            proof {
                if src.reads_described() {
                    lemma_slack_at_no_block(src, block_size, partition_start, fe_lba, info_len);
                }
            }
            return None;
        },
        Some(p) => p,
    };
    let ghost fe_again = choose|s: Seq<u8>|
        s.len() == block_size && #[trigger] spec_fe_last_block_pos(s, block_size, partition_start)
            == Some(last_pos);
    let ghost cur2 = *reader;
    let block = read_block(reader, last_pos, block_size as usize);
    proof {
        lemma_bytes_same_source(src, cur2, last_pos as int, block_size as nat);
    }
    proof {

    }
    let block = match block {
        None => {
            proof {
                if src.reads_described() {
                    lemma_slack_at_no_block(src, block_size, partition_start, fe_lba, info_len);
                }
            }
            return None;
        },
        Some(b) => b,
    };
    let nonzero = count_nonzero_from(block.as_slice(), rem as usize);
    proof {
        lemma_nonzero_count_bounds(block@.skip(rem as int));
        let sl = slack as u32;
        assert(exists|f: Seq<u8>, g: Seq<u8>, b: Seq<u8>|
            #[trigger] spec_slack_witness(f, g, b, block_size, partition_start, nonzero, sl)) by {
            assert(spec_slack_witness(
                fe,
                fe_again,
                block@,
                block_size,
                partition_start,
                nonzero,
                sl,
            ));
        }
        if src.reads_described() {
            lemma_slack_at_some(
                src,
                block_size,
                partition_start,
                fe_lba,
                info_len,
                last_pos,
                block@,
            );
        }
    }
    Some((nonzero, slack as u32))
}

} // verus!
