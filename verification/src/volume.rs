//! The bootstrap chain: logical block size, Anchor Volume Descriptor Pointer,
//! Volume Descriptor Sequence (Partition and Logical Volume Descriptors,
//! partition maps) and File Set Descriptor.

use std::collections::HashMap;
use vstd::prelude::*;

use crate::bytes::{le16_at, le32_at, spec_le16, spec_le32};
use crate::descriptor::{
    decode_timestamp, slice_subrange, spec_decode_timestamp, TAG_AVDP, TAG_FSD, TAG_LVD, TAG_PD,
    TAG_TERM,
};
use crate::source::{
    block_at, lemma_bytes_same_source, read_block_checked, same_source, ReadError, UdfSource,
};

verus! {

/// The kind of partition referenced by the logical volume's file set.
///
/// `Physical` (Type 1) partitions resolve as `partition_start + logical_block`.
/// `Virtual` (VAT), `Sparable` and `Metadata` are Type 2 partitions whose block
/// resolution needs structures this crate does not follow; they are detected
/// and reported rather than silently mis-read.
#[derive(Debug, Clone, Copy, PartialEq, Eq, Structural)]
pub enum UdfPartitionKind {
    /// Type 1 physical partition.
    Physical,
    /// Type 2 `*UDF Virtual Partition` (VAT-mapped, packet-written media).
    Virtual,
    /// Type 2 `*UDF Sparable Partition` (defect management).
    Sparable,
    /// Type 2 `*UDF Metadata Partition` (UDF 2.50+, Blu-ray).
    Metadata,
    /// Type 2 partition with an unrecognised identifier.
    Unknown,
}

/// A parsed partition map entry of the Logical Volume Descriptor.
#[derive(Debug, Clone, Copy, PartialEq, Eq)]
pub struct PartitionMap {
    /// The classified kind.
    pub kind: UdfPartitionKind,
    /// Partition number (Type 1 only); `None` for other maps.
    pub partition_number: Option<u16>,
}

/// The identifier bytes `*UDF Metadata Partition`.
pub open spec fn metadata_partition_id() -> Seq<u8> {
    seq![
        42u8, 85, 68, 70, 32, 77, 101, 116, 97, 100, 97, 116, 97, 32, 80, 97, 114, 116, 105, 116,
        105, 111, 110,
    ]
}

/// The identifier bytes `*UDF Virtual Partition`.
pub open spec fn virtual_partition_id() -> Seq<u8> {
    seq![
        42u8, 85, 68, 70, 32, 86, 105, 114, 116, 117, 97, 108, 32, 80, 97, 114, 116, 105, 116, 105,
        111, 110,
    ]
}

/// The identifier bytes `*UDF Sparable Partition`.
pub open spec fn sparable_partition_id() -> Seq<u8> {
    seq![
        42u8, 85, 68, 70, 32, 83, 112, 97, 114, 97, 98, 108, 101, 32, 80, 97, 114, 116, 105, 116,
        105, 111, 110,
    ]
}

/// `needle` occurs as a contiguous run somewhere in `hay`.
pub open spec fn spec_contains_window(hay: Seq<u8>, needle: Seq<u8>) -> bool {
    exists|i: int|
        0 <= i && i + needle.len() <= hay.len() && #[trigger] hay.subrange(i, i + needle.len())
            == needle
}

/// Classification of a Type 2 partition map by the OSTA entity string it
/// carries; the Metadata string wins over Virtual, Virtual over Sparable.
pub open spec fn spec_classify_type2(map: Seq<u8>) -> UdfPartitionKind {
    if spec_contains_window(map, metadata_partition_id()) {
        UdfPartitionKind::Metadata
    } else if spec_contains_window(map, virtual_partition_id()) {
        UdfPartitionKind::Virtual
    } else if spec_contains_window(map, sparable_partition_id()) {
        UdfPartitionKind::Sparable
    } else {
        UdfPartitionKind::Unknown
    }
}

/// Whether `needle` occurs as a contiguous run in `hay`.
fn contains_window(hay: &[u8], needle: &Vec<u8>) -> (r: bool)
    requires
        needle@.len() > 0,
    ensures
        r == spec_contains_window(hay@, needle@),
{
    let n = needle.len();
    let h = hay.len();
    if n > h {
        proof {
            assert forall|i: int|
                0 <= i && i + needle@.len() <= hay@.len() implies #[trigger] hay@.subrange(
                i,
                i + needle@.len(),
            ) != needle@ by {}
        }
        return false;
    }
    let mut i: usize = 0;
    while i <= h - n
        invariant
            n == needle@.len(),
            h == hay@.len(),
            0 < n <= h,
            i <= h - n + 1,
            forall|k: int|
                0 <= k < i ==> #[trigger] hay@.subrange(k, k + needle@.len()) != needle@,
        decreases h - n + 1 - i,
    {
        let mut j: usize = 0;
        let mut same = true;
        while j < n
            invariant
                n == needle@.len(),
                h == hay@.len(),
                i + n <= h,
                j <= n,
                same ==> forall|m: int| 0 <= m < j ==> hay@[i + m] == needle@[m],
                !same ==> hay@.subrange(i as int, i + n) != needle@,
            decreases n - j,
        {
            if hay[i + j] != needle[j] {
                same = false;
                proof {
                    assert(hay@.subrange(i as int, i + n)[j as int] != needle@[j as int]);
                }
            }
            j = j + 1;
        }
        if same {
            proof {
                assert(hay@.subrange(i as int, i + n) =~= needle@);
            }
            return true;
        }
        i = i + 1;
    }
    false
}

/// Classify a Type 2 partition map by scanning it for the OSTA UDF entity
/// strings.
pub fn classify_type2(map: &[u8]) -> (r: UdfPartitionKind)
    ensures
        r == spec_classify_type2(map@),
{
    let meta: Vec<u8> = vec![
        42u8, 85, 68, 70, 32, 77, 101, 116, 97, 100, 97, 116, 97, 32, 80, 97, 114, 116, 105, 116,
        105, 111, 110,
    ];
    let virt: Vec<u8> = vec![
        42u8, 85, 68, 70, 32, 86, 105, 114, 116, 117, 97, 108, 32, 80, 97, 114, 116, 105, 116, 105,
        111, 110,
    ];
    let spar: Vec<u8> = vec![
        42u8, 85, 68, 70, 32, 83, 112, 97, 114, 97, 98, 108, 101, 32, 80, 97, 114, 116, 105, 116,
        105, 111, 110,
    ];
    assert(meta@ =~= metadata_partition_id());
    assert(virt@ =~= virtual_partition_id());
    assert(spar@ =~= sparable_partition_id());
    if contains_window(map, &meta) {
        UdfPartitionKind::Metadata
    } else if contains_window(map, &virt) {
        UdfPartitionKind::Virtual
    } else if contains_window(map, &spar) {
        UdfPartitionKind::Sparable
    } else {
        UdfPartitionKind::Unknown
    }
}

/// The partition map entry of type `map_type` whose bytes are `map`.
pub open spec fn spec_map_entry(map: Seq<u8>, map_type: u8) -> PartitionMap {
    if map_type == 1 && map.len() >= 6 {
        PartitionMap {
            kind: UdfPartitionKind::Physical,
            partition_number: Some(spec_le16(map, 4) as u16),
        }
    } else if map_type == 2 {
        PartitionMap { kind: spec_classify_type2(map), partition_number: None }
    } else {
        PartitionMap { kind: UdfPartitionKind::Unknown, partition_number: None }
    }
}

/// The partition maps laid out from byte `off` of `lvd`, up to byte `end`,
/// taking at most `remaining` of them; the walk stops at the first map whose
/// recorded length is below 2 or runs past `end`.
pub open spec fn spec_maps_from(lvd: Seq<u8>, off: int, end: int, remaining: int) -> Seq<
    PartitionMap,
>
    decreases end - off,
{
    if remaining <= 0 || off < 0 || off + 2 > end || end > lvd.len() {
        Seq::empty()
    } else {
        let map_type = lvd[off];
        let map_len = lvd[off + 1] as int;
        if map_len < 2 || off + map_len > end {
            Seq::empty()
        } else {
            seq![spec_map_entry(lvd.subrange(off, off + map_len), map_type)] + spec_maps_from(
                lvd,
                off + map_len,
                end,
                remaining - 1,
            )
        }
    }
}

/// The partition maps of a Logical Volume Descriptor (ECMA-167 3/10.6):
/// their count `N_PM` at byte 268, the map table length at byte 264, the
/// maps from byte 440.
pub open spec fn spec_partition_maps(lvd: Seq<u8>) -> Seq<PartitionMap> {
    let table_end = 440 + spec_le32(lvd, 264);
    let end = if table_end < lvd.len() {
        table_end
    } else {
        lvd.len() as int
    };
    spec_maps_from(lvd, 440, end, spec_le32(lvd, 268))
}

/// Parse the partition maps of a Logical Volume Descriptor sector.
pub fn parse_partition_maps(lvd: &[u8]) -> (r: Vec<PartitionMap>)
    requires
        lvd@.len() >= 272,
    ensures
        r@ == spec_partition_maps(lvd@),
{
    let n_pm = le32_at(lvd, 268) as u64;
    let mt_l = le32_at(lvd, 264) as u64;
    let len = lvd.len();
    let maps_end: usize = if 440 + mt_l < len as u64 {
        (440 + mt_l) as usize
    } else {
        len
    };
    let ghost end = maps_end as int;
    let mut out: Vec<PartitionMap> = Vec::new();
    let mut off: usize = 440;
    let mut done = false;
    proof {
        assert(spec_partition_maps(lvd@) == spec_maps_from(lvd@, 440, end, n_pm as int));
    }
    while !done && (out.len() as u64) < n_pm && maps_end >= off && maps_end - off >= 2
        invariant
            len == lvd@.len(),
            maps_end <= len,
            end == maps_end as int,
            440 <= off,
            out@.len() <= n_pm,
            n_pm <= u32::MAX,
            done ==> spec_maps_from(lvd@, off as int, end, n_pm - out@.len()) == Seq::<
                PartitionMap,
            >::empty(),
            out@ + spec_maps_from(lvd@, off as int, end, n_pm - out@.len()) == spec_partition_maps(
                lvd@,
            ),
        decreases maps_end - off, if done { 0int } else { 1int },
    {
        let map_type = lvd[off];
        let map_len = lvd[off + 1] as usize;
        if map_len < 2 || map_len > maps_end - off {
            done = true;
        } else {
            let ghost map = lvd@.subrange(off as int, off + map_len);
            let pm = if map_type == 1 && map_len >= 6 {
                PartitionMap {
                    kind: UdfPartitionKind::Physical,
                    partition_number: Some(le16_at(lvd, off + 4)),
                }
            } else if map_type == 2 {
                let (head, _) = lvd.split_at(off + map_len);
                let (_, m) = head.split_at(off);
                assert(m@ =~= map);
                PartitionMap { kind: classify_type2(m), partition_number: None }
            } else {
                PartitionMap { kind: UdfPartitionKind::Unknown, partition_number: None }
            };
            proof {
                assert(pm == spec_map_entry(map, map_type));
                let rest = spec_maps_from(
                    lvd@,
                    (off + map_len) as int,
                    end,
                    n_pm - out@.len() - 1,
                );
                assert(spec_maps_from(lvd@, off as int, end, n_pm - out@.len()) == seq![pm] + rest);
                assert(out@.push(pm) + rest =~= out@ + (seq![pm] + rest));
            }
            out.push(pm);
            off = off + map_len;
        }
    }
    assert(spec_maps_from(lvd@, off as int, end, n_pm - out@.len()) =~= Seq::empty());
    assert(out@ + Seq::<PartitionMap>::empty() =~= out@);
    out
}

} // verus!

verus! {

/// The candidate logical block sizes, most common first: optical media use
/// 2048, hard-disk and USB media 512, Advanced-Format media 4096.
pub open spec fn is_block_size_candidate(bs: u32) -> bool {
    bs == 2048 || bs == 512 || bs == 1024 || bs == 4096
}

/// `ceil(a / b)`.
pub open spec fn ceil_div(a: int, b: int) -> int {
    (a + b - 1) / b
}

/// The descriptor tag read at logical sector 256 marks an Anchor Volume
/// Descriptor Pointer recorded for that location: tag identifier 2 and tag
/// location 256.
pub open spec fn spec_anchor_tag_ok(tag: Seq<u8>) -> bool {
    spec_le16(tag, 0) == TAG_AVDP as int && spec_le32(tag, 12) == 256
}

/// Whether a 16-byte descriptor tag is the anchor's.
pub fn anchor_tag_ok(tag: &[u8]) -> (r: bool)
    requires
        tag@.len() >= 16,
    ensures
        r == spec_anchor_tag_ok(tag@),
{
    le16_at(tag, 0) == TAG_AVDP && le32_at(tag, 12) == 256
}

/// The Main Volume Descriptor Sequence extent `(location, length in bytes)`
/// that an AVDP sector records, or `None` when the sector is not an AVDP.
pub open spec fn spec_avdp_extent(sector: Seq<u8>) -> Option<(u32, u32)> {
    if spec_le16(sector, 0) != TAG_AVDP as int {
        None
    } else {
        Some((spec_le32(sector, 20) as u32, spec_le32(sector, 16) as u32))
    }
}

/// Decode the Volume Descriptor Sequence extent of an AVDP sector.
pub fn avdp_extent(sector: &[u8]) -> (r: Option<(u32, u32)>)
    requires
        sector@.len() >= 24,
    ensures
        r == spec_avdp_extent(sector@),
{
    if le16_at(sector, 0) != TAG_AVDP {
        None
    } else {
        Some((le32_at(sector, 20), le32_at(sector, 16)))
    }
}

/// The root directory File Entry's logical block number that a File Set
/// Descriptor sector records (its Root Directory ICB at byte 400, logical
/// block number at 404), or `None` when the sector is not an FSD.
pub open spec fn spec_fsd_root_lbn(sector: Seq<u8>) -> Option<u32> {
    if spec_le16(sector, 0) != TAG_FSD as int {
        None
    } else {
        Some(spec_le32(sector, 404) as u32)
    }
}

/// Decode the root directory logical block of a File Set Descriptor sector.
pub fn fsd_root_lbn(sector: &[u8]) -> (r: Option<u32>)
    requires
        sector@.len() >= 408,
    ensures
        r == spec_fsd_root_lbn(sector@),
{
    if le16_at(sector, 0) != TAG_FSD {
        None
    } else {
        Some(le32_at(sector, 404))
    }
}

/// What a walk of the Volume Descriptor Sequence has gathered: the
/// starting location each partition number's last Partition Descriptor
/// records, and the last Logical Volume Descriptor's file-set location,
/// partition reference and partition maps.
pub struct VdsModel {
    /// Starting location by partition number (the last descriptor wins).
    pub pd_start: Map<u16, u32>,
    /// The File Set Descriptor's logical block, once an LVD was seen.
    pub fsd_lbn: Option<u32>,
    /// The partition map the File Set Descriptor's location refers to.
    pub fsd_part_ref: u16,
    /// The LVD's partition maps.
    pub maps: Seq<PartitionMap>,
}

/// The empty walk.
pub open spec fn vds_model_init() -> VdsModel {
    VdsModel { pd_start: Map::empty(), fsd_lbn: None, fsd_part_ref: 0, maps: Seq::empty() }
}

/// One Volume Descriptor Sequence sector folded into the walk; the flag is
/// set when the sector ends the sequence (a Terminating Descriptor, or a
/// sector whose tag identifier is 0).
pub open spec fn spec_vds_absorb(m: VdsModel, sector: Seq<u8>) -> (VdsModel, bool) {
    let id = spec_le16(sector, 0);
    if id == TAG_PD as int {
        (
            VdsModel {
                pd_start: m.pd_start.insert(spec_le16(sector, 22) as u16, spec_le32(sector, 188) as u32),
                ..m
            },
            false,
        )
    } else if id == TAG_LVD as int {
        (
            VdsModel {
                fsd_lbn: Some(spec_le32(sector, 252) as u32),
                fsd_part_ref: spec_le16(sector, 256) as u16,
                maps: spec_partition_maps(sector),
                ..m
            },
            false,
        )
    } else if id == TAG_TERM as int || id == 0 {
        (m, true)
    } else {
        (m, false)
    }
}

/// The walk over `sectors` in order, and whether it reached the end of the
/// sequence; sectors after the end are not looked at.
pub open spec fn spec_vds_run(sectors: Seq<Seq<u8>>) -> (VdsModel, bool)
    decreases sectors.len(),
{
    if sectors.len() == 0 {
        (vds_model_init(), false)
    } else {
        let (m, stopped) = spec_vds_run(sectors.drop_last());
        if stopped {
            (m, true)
        } else {
            spec_vds_absorb(m, sectors.last())
        }
    }
}

/// `v` is the smallest member of `s`.
pub open spec fn spec_is_min_of(s: Set<u32>, v: u32) -> bool {
    s.contains(v) && forall|w: u32| s.contains(w) ==> v <= w
}

/// The smallest starting location the Partition Descriptors record, or
/// `None` when none was seen.
pub open spec fn spec_pd_min(pd_start: Map<u16, u32>) -> Option<u32> {
    if pd_start.dom().len() == 0 {
        None
    } else {
        Some(choose|v: u32| spec_is_min_of(pd_start.values(), v))
    }
}

/// Resolved Volume Descriptor Sequence information.
#[derive(Debug, Clone, Copy)]
pub struct VdsInfo {
    /// Physical LBA where the file set's partition starts.
    pub partition_start: u32,
    /// Physical LBA of the File Set Descriptor.
    pub fsd_lba: u32,
    /// Kind of the partition map the file set references.
    pub partition_kind: UdfPartitionKind,
    /// Number of partition maps the Logical Volume Descriptor carries.
    pub map_count: u32,
}

/// Resolve the file set's partition from a finished walk.
///
/// No Logical Volume Descriptor: `None`. The partition start is the one the
/// Partition Descriptors record for the referenced Type 1 map's partition
/// number; when there is no such map or number (Type 2 maps carry none), it
/// falls back to the smallest recorded start; with no Partition Descriptor
/// at all, `None`. The File Set Descriptor sits at that start plus its
/// logical block; a sum past `u32::MAX` addresses nothing, so it is `None`.
pub open spec fn spec_vds_resolve(m: VdsModel) -> Option<VdsInfo> {
    match m.fsd_lbn {
        None => None,
        Some(fsd) => {
            let has_ref = (m.fsd_part_ref as int) < m.maps.len();
            let kind = if has_ref {
                m.maps[m.fsd_part_ref as int].kind
            } else {
                UdfPartitionKind::Unknown
            };
            let by_number = if has_ref {
                match m.maps[m.fsd_part_ref as int].partition_number {
                    Some(pn) => if m.pd_start.dom().contains(pn) {
                        Some(m.pd_start[pn])
                    } else {
                        None
                    },
                    None => None,
                }
            } else {
                None
            };
            let start = match by_number {
                Some(s) => Some(s),
                None => spec_pd_min(m.pd_start),
            };
            match start {
                None => None,
                Some(ps) => if ps as int + fsd as int > u32::MAX as int {
                    None
                } else {
                    Some(
                        VdsInfo {
                            partition_start: ps,
                            fsd_lba: (ps + fsd) as u32,
                            partition_kind: kind,
                            map_count: m.maps.len() as u32,
                        },
                    )
                },
            }
        },
    }
}

/// The Volume Descriptor Sequence walk as it runs.
pub struct VdsScan {
    /// Starting location by partition number (the last descriptor wins).
    pub pd_start: HashMap<u16, u32>,
    /// The File Set Descriptor's logical block, once an LVD was seen.
    pub fsd_lbn: Option<u32>,
    /// The partition map the File Set Descriptor's location refers to.
    pub fsd_part_ref: u16,
    /// The LVD's partition maps.
    pub maps: Vec<PartitionMap>,
}

impl VdsScan {
    /// What the walk has gathered.
    pub open spec fn model(&self) -> VdsModel {
        VdsModel {
            pd_start: self.pd_start@,
            fsd_lbn: self.fsd_lbn,
            fsd_part_ref: self.fsd_part_ref,
            maps: self.maps@,
        }
    }

    /// The empty walk.
    pub fn new() -> (r: VdsScan)
        ensures
            r.model() == vds_model_init(),
    {
        VdsScan { pd_start: HashMap::new(), fsd_lbn: None, fsd_part_ref: 0, maps: Vec::new() }
    }

    /// Fold one sector into the walk; true when it ends the sequence.
    pub fn absorb(&mut self, sector: &[u8]) -> (stop: bool)
        requires
            sector@.len() >= 512,
        ensures
            (final(self).model(), stop) == spec_vds_absorb(old(self).model(), sector@),
    {
        let id = le16_at(sector, 0);
        if id == TAG_PD {
            let part_num = le16_at(sector, 22);
            let psl = le32_at(sector, 188);
            self.pd_start.insert(part_num, psl);
            false
        } else if id == TAG_LVD {
            self.fsd_lbn = Some(le32_at(sector, 252));
            self.fsd_part_ref = le16_at(sector, 256);
            self.maps = parse_partition_maps(sector);
            false
        } else if id == TAG_TERM || id == 0 {
            true
        } else {
            false
        }
    }
}

/// The smallest starting location recorded, or `None` when none is.
fn pd_min(m: &HashMap<u16, u32>) -> (r: Option<u32>)
    ensures
        r == spec_pd_min(m@),
{
    broadcast use vstd::std_specs::hash::group_hash_axioms;

    let mut best: Option<u32> = None;
    let ghost total = m@.dom().len();
    let ghost mut seen: int = 0;
    for v in it: m.values()
        invariant
            seen == it.index(),
            total == m@.dom().len(),
            it.seq().len() == m@.dom().len(),
            forall|i: int|
                0 <= i < it.seq().len() ==> m@.values().contains(#[trigger] it.seq().unref()[i]),
            forall|w: u32|
                m@.values().contains(w) ==> exists|i: int|
                    0 <= i < it.seq().len() && *it.seq()[i] == w,
            best is None <==> it.index() == 0,
            best matches Some(b) ==> m@.values().contains(b),
            best matches Some(b) ==> (exists|i: int| 0 <= i < it.index() && *it.seq()[i] == b) && (
            forall|i: int| 0 <= i < it.index() ==> b <= *it.seq()[i]),
    {
        proof {
            assert(it.seq().unref()[it.index() as int] == *v);
        }
        best = match best {
            None => Some(*v),
            Some(b) => Some(
                if *v < b {
                    *v
                } else {
                    b
                },
            ),
        };
        proof {
            seen = seen + 1;
        }
    }
    proof {
        assert(seen == total);
        if let Some(b) = best {
            assert(spec_is_min_of(m@.values(), b));
            let c = choose|x: u32| spec_is_min_of(m@.values(), x);
            assert(spec_is_min_of(m@.values(), c));
            assert(c <= b && b <= c);
        }
    }
    best
}

/// Resolve the file set's partition from the walk.
pub fn vds_resolve(scan: &VdsScan) -> (r: Option<VdsInfo>)
    ensures
        r == spec_vds_resolve(scan.model()),
{
    let fsd = match scan.fsd_lbn {
        None => return None,
        Some(f) => f,
    };
    let has_ref = (scan.fsd_part_ref as usize) < scan.maps.len();
    let kind = if has_ref {
        scan.maps[scan.fsd_part_ref as usize].kind
    } else {
        UdfPartitionKind::Unknown
    };
    let by_number = if has_ref {
        match scan.maps[scan.fsd_part_ref as usize].partition_number {
            Some(pn) => match scan.pd_start.get(&pn) {
                Some(v) => Some(*v),
                None => None,
            },
            None => None,
        }
    } else {
        None
    };
    let start = match by_number {
        Some(s) => Some(s),
        None => pd_min(&scan.pd_start),
    };
    match start {
        None => None,
        Some(ps) => match ps.checked_add(fsd) {
            None => None,
            Some(fsd_lba) => Some(
                VdsInfo {
                    partition_start: ps,
                    fsd_lba,
                    partition_kind: kind,
                    map_count: scan.maps.len() as u32,
                },
            ),
        },
    }
}

} // verus!

verus! {

/// The parsed bootstrap chain: what directory traversal and the analyzer
/// need to address the volume.
#[derive(Debug)]
pub struct UdfState {
    /// Physical LBA where the file set's partition starts.
    pub partition_start: u32,
    /// Physical LBA of the root directory's File Entry.
    pub root_fe_lba: u32,
    /// Kind of the partition map the file set references.
    pub partition_kind: UdfPartitionKind,
    /// Number of partition maps the Logical Volume Descriptor carries.
    pub partition_map_count: u32,
    /// The medium's logical block size in bytes (512, 1024, 2048 or 4096),
    /// detected from the Anchor Volume Descriptor Pointer location.
    pub block_size: u32,
    /// Physical LBA of the File Set Descriptor.
    pub fsd_lba: u32,
    /// Logical sector where the Volume Descriptor Sequence begins.
    pub vds_loc: u32,
    /// Length of the Volume Descriptor Sequence in whole logical blocks.
    pub vds_len_sectors: u32,
}

/// The candidate block size at probe index `i`.
pub open spec fn spec_candidate(i: int) -> u32 {
    if i == 0 {
        2048
    } else if i == 1 {
        512
    } else if i == 2 {
        1024
    } else {
        4096
    }
}

/// How the anchor probes over `src` end when each probe reads as `src`
/// says. The probes go through the candidates in order; a probe that finds
/// the anchor decides, a probe that hits the end of the source is skipped,
/// and one that fails otherwise stops the search.
pub enum AnchorSearch {
    /// The probe of this candidate block size found the anchor.
    Found(u32),
    /// Some probe read, none found the anchor, and every other probe hit the
    /// end of the source.
    NotFound,
    /// Every probe hit the end of the source: an image truncated before any
    /// possible anchor.
    Truncated,
    /// A probe failed other than by the source ending, before any probe
    /// found the anchor.
    Fault,
}

/// The anchor search over `src` from candidate index `k` on, `any_read`
/// telling whether an earlier probe read its 16 bytes.
pub open spec fn spec_anchor_search_from<S: UdfSource>(src: S, k: int, any_read: bool) -> AnchorSearch
    decreases 4 - k,
{
    if k < 0 || k >= 4 {
        if any_read {
            AnchorSearch::NotFound
        } else {
            AnchorSearch::Truncated
        }
    } else {
        let pos = 256 * spec_candidate(k) as int;
        match src.bytes_at(pos, 16) {
            None => if src.ends_before(pos, 16) {
                spec_anchor_search_from(src, k + 1, any_read)
            } else {
                AnchorSearch::Fault
            },
            Some(t) => if spec_anchor_tag_ok(t) {
                AnchorSearch::Found(spec_candidate(k))
            } else {
                spec_anchor_search_from(src, k + 1, true)
            },
        }
    }
}

/// The anchor search over `src`.
pub open spec fn spec_anchor_search<S: UdfSource>(src: S) -> AnchorSearch {
    spec_anchor_search_from(src, 0, false)
}

/// The byte position of the anchor probe for candidate `k`.
pub open spec fn spec_probe_pos(k: int) -> int {
    256 * spec_candidate(k) as int
}

/// The anchor search keeps a read failure apart from "not UDF": when every
/// probe hits the end of the source the search is a truncation; a first
/// probe that fails otherwise is a fault; the search ends "not found" only
/// when some probe read its bytes, and is a fault only when some probe
/// failed other than by the end of the source.
pub proof fn lemma_anchor_search_laws<S: UdfSource>(src: S)
    ensures
        (forall|k: int|
            0 <= k < 4 ==> src.bytes_at(#[trigger] spec_probe_pos(k), 16) is None && src.ends_before(
                spec_probe_pos(k),
                16,
            )) ==> spec_anchor_search(src) == AnchorSearch::Truncated,
        src.bytes_at(spec_probe_pos(0), 16) is None && !src.ends_before(spec_probe_pos(0), 16)
            ==> spec_anchor_search(src) == AnchorSearch::Fault,
        spec_anchor_search(src) == AnchorSearch::NotFound ==> exists|k: int|
            0 <= k < 4 && src.bytes_at(#[trigger] spec_probe_pos(k), 16) is Some,
        spec_anchor_search(src) == AnchorSearch::Fault ==> exists|k: int|
            0 <= k < 4 && src.bytes_at(#[trigger] spec_probe_pos(k), 16) is None
                && !src.ends_before(spec_probe_pos(k), 16),
{
    reveal_with_fuel(spec_anchor_search_from, 5);
    assert(spec_probe_pos(0) == 256 * 2048);
    assert(spec_probe_pos(1) == 256 * 512);
    assert(spec_probe_pos(2) == 256 * 1024);
    assert(spec_probe_pos(3) == 256 * 4096);
}

/// Detect the medium's logical block size by locating the Anchor Volume
/// Descriptor Pointer: for each candidate `bs` (2048, 512, 1024, 4096) the
/// anchor is at byte `256 * bs`, and a candidate is accepted when the tag
/// read there is an AVDP recorded for location 256.
///
/// The first accepted candidate is `Ok(Some(bs))`. A probe that fails other
/// than by EOF is `Err` at once; a probe that hits EOF is skipped. When no
/// probe read anything (an image truncated before any possible anchor) the
/// EOF surfaces as `Err`; when some probe read but none matched, `Ok(None)`.
pub fn detect_block_size<S: UdfSource>(reader: &mut S) -> (r: Result<Option<u32>, ReadError>)
    ensures
        same_source(*old(reader), *final(reader)),
        old(reader).reads_described() ==> match spec_anchor_search(*old(reader)) {
            AnchorSearch::Found(bs) => r matches Ok(Some(b)) && b == bs,
            AnchorSearch::NotFound => r matches Ok(None),
            AnchorSearch::Truncated => r matches Err(ReadError::Eof(_)),
            AnchorSearch::Fault => r matches Err(ReadError::Fault(_)),
        },
        r matches Ok(Some(bs)) ==> is_block_size_candidate(bs),
{
    let candidates: [u32; 4] = [2048, 512, 1024, 4096];
    let mut last_eof: Option<ReadError> = None;
    let mut any_read_ok = false;
    let ghost src = *reader;
    let mut k: usize = 0;
    while k < 4
        invariant
            k <= 4,
            src == *old(reader),
            same_source(src, *reader),
            src.reads_described() ==> spec_anchor_search(src) == spec_anchor_search_from(
                src,
                k as int,
                any_read_ok,
            ),
            candidates@ == seq![2048u32, 512, 1024, 4096],
            last_eof matches Some(e) ==> e is Eof,
            !any_read_ok && k > 0 ==> last_eof is Some,
        decreases 4 - k,
    {
        let bs = candidates[k];
        let ghost cur = *reader;
        let probe = read_block_checked(reader, 256 * bs as u64, 16);
        proof {
            assert(bs == spec_candidate(k as int));
            lemma_bytes_same_source(src, cur, 256 * bs as int, 16);
        }
        match probe {
            Ok(tag) => {
                any_read_ok = true;
                if anchor_tag_ok(tag.as_slice()) {
                    return Ok(Some(bs));
                }
            },
            Err(e) => {
                if e.is_eof() {
                    last_eof = Some(e);
                } else {
                    return Err(e);
                }
            },
        }
        k = k + 1;
    }
    if !any_read_ok {
        if let Some(e) = last_eof {
            return Err(e);
        }
    }
    Ok(None)
}

/// Read the AVDP at logical sector 256: `Err` on a read failure, otherwise
/// what [`spec_avdp_extent`] decodes from the sector read.
fn read_avdp_checked<S: UdfSource>(reader: &mut S, block_size: u32) -> (r: Result<
    Option<(u32, u32)>,
    ReadError,
>)
    requires
        is_block_size_candidate(block_size),
    ensures
        same_source(*old(reader), *final(reader)),
        old(reader).reads_described() ==> match block_at(*old(reader), 256, block_size) {
            None => r is Err,
            Some(s) => r == Ok::<Option<(u32, u32)>, ReadError>(spec_avdp_extent(s)),
        },
        r matches Ok(x) ==> exists|s: Seq<u8>|
            s.len() == block_size && #[trigger] spec_avdp_extent(s) == x,
{
    let sector = read_block_checked(reader, 256 * block_size as u64, block_size as usize)?;
    let x = avdp_extent(sector.as_slice());
    assert(spec_avdp_extent(sector@) == x);
    Ok(x)
}

/// A Volume Descriptor Sequence read as the walk reads it: at most `n`
/// sectors of `bs` bytes each, fewer only when the walk reached the end of
/// the sequence.
pub open spec fn spec_vds_reads(sectors: Seq<Seq<u8>>, bs: u32, n: int) -> bool {
    &&& sectors.len() <= n
    &&& sectors.len() < n ==> spec_vds_run(sectors).1
    &&& forall|i: int| 0 <= i < sectors.len() ==> (#[trigger] sectors[i]).len() == bs
}

/// The Volume Descriptor Sequence sectors the walk reads from `src`, after
/// `seen`: from logical sector `loc + i` on, up to sector `n`, stopping after
/// the one that ends the sequence; `None` when a read fails.
pub open spec fn spec_vds_sectors<S: UdfSource>(
    src: S,
    bs: u32,
    loc: u32,
    n: int,
    i: int,
    seen: Seq<Seq<u8>>,
) -> Option<Seq<Seq<u8>>>
    decreases n - i,
{
    if i >= n || spec_vds_run(seen).1 {
        Some(seen)
    } else {
        match src.bytes_at((loc + i) * bs, bs as nat) {
            None => None,
            Some(sector) => spec_vds_sectors(src, bs, loc, n, i + 1, seen.push(sector)),
        }
    }
}

/// The sectors of the Volume Descriptor Sequence of `vds_len` bytes at
/// `loc` that the walk reads from `src`.
pub open spec fn spec_vds_read<S: UdfSource>(src: S, bs: u32, loc: u32, vds_len: u32) -> Option<
    Seq<Seq<u8>>,
> {
    spec_vds_sectors(src, bs, loc, ceil_div(vds_len as int, bs as int), 0, Seq::empty())
}

/// Walk the Volume Descriptor Sequence (`vds_len` bytes from logical sector
/// `vds_loc`) and resolve the file set's partition through its map: `Err`
/// on a read failure, otherwise what [`spec_vds_resolve`] gives for the
/// sectors read.
fn read_vds_checked<S: UdfSource>(
    reader: &mut S,
    block_size: u32,
    vds_loc: u32,
    vds_len: u32,
) -> (r: Result<Option<VdsInfo>, ReadError>)
    requires
        is_block_size_candidate(block_size),
    ensures
        same_source(*old(reader), *final(reader)),
        old(reader).reads_described() ==> match spec_vds_read(*old(reader), block_size, vds_loc, vds_len) {
            None => r is Err,
            Some(sectors) => r == Ok::<Option<VdsInfo>, ReadError>(
                spec_vds_resolve(spec_vds_run(sectors).0),
            ),
        },
        r matches Ok(x) ==> exists|sectors: Seq<Seq<u8>>|
            spec_vds_reads(sectors, block_size, ceil_div(vds_len as int, block_size as int))
                && #[trigger] spec_vds_resolve(spec_vds_run(sectors).0) == x,
{
    let sectors: u64 = vds_len as u64 / block_size as u64 + if vds_len as u64 % block_size as u64
        != 0 {
        1
    } else {
        0
    };
    assert(sectors == ceil_div(vds_len as int, block_size as int)) by (nonlinear_arith)
        requires
            block_size > 0,
            sectors == vds_len as int / block_size as int + if vds_len as int % block_size as int
                != 0 {
                1int
            } else {
                0
            },
    ;
    assert(vds_len as u64 / block_size as u64 <= 0x80_0000) by (nonlinear_arith)
        requires
            block_size >= 512,
    ;
    let ghost src = *reader;
    let ghost whole = spec_vds_read(src, block_size, vds_loc, vds_len);
    let mut scan = VdsScan::new();
    let ghost mut seen: Seq<Seq<u8>> = Seq::empty();
    let mut i: u64 = 0;
    let mut stopped = false;
    while i < sectors && !stopped
        invariant
            is_block_size_candidate(block_size),
            i <= sectors,
            sectors <= 0x80_0001,
            seen.len() == i,
            spec_vds_run(seen) == (scan.model(), stopped),
            stopped ==> seen.len() <= sectors,
            src == *old(reader),
            same_source(src, *reader),
            sectors == ceil_div(vds_len as int, block_size as int),
            whole == spec_vds_read(src, block_size, vds_loc, vds_len),
            src.reads_described() ==> whole == spec_vds_sectors(
                src,
                block_size,
                vds_loc,
                sectors as int,
                i as int,
                seen,
            ),
            forall|j: int| 0 <= j < seen.len() ==> (#[trigger] seen[j]).len() == block_size,
        decreases sectors - i, if stopped {
            0int
        } else {
            1int
        },
    {
        assert((vds_loc as u64 + i) * block_size as u64 <= 0x1_0100_0000 * 4096) by (nonlinear_arith)
            requires
                i <= 0x80_0001,
                block_size <= 4096,
        ;
        let pos = (vds_loc as u64 + i) * block_size as u64;
        let ghost cur = *reader;
        let sector = read_block_checked(reader, pos, block_size as usize);
        proof {
            if src.reads_described() {
                assert(cur.bytes_at(pos as int, block_size as nat) == src.bytes_at(
                    pos as int,
                    block_size as nat,
                ));
            }
            assert(pos as int == (vds_loc + i) * block_size);
        }
        let sector = match sector {
            Err(e) => return Err(e),
            Ok(v) => v,
        };
        let ghost prev = seen;
        let stop = scan.absorb(sector.as_slice());
        proof {
            seen = seen.push(sector@);
            assert(seen.drop_last() =~= prev);
        }
        stopped = stop;
        i = i + 1;
    }
    let x = vds_resolve(&scan);
    assert(spec_vds_reads(seen, block_size, sectors as int));
    assert(spec_vds_resolve(spec_vds_run(seen).0) == x);
    Ok(x)
}

/// The root directory File Entry's physical LBA from a File Set Descriptor
/// sector: the partition start plus the recorded logical block, `None` when
/// the sector is not an FSD or the sum passes `u32::MAX`.
pub open spec fn spec_fsd_root_lba(sector: Seq<u8>, partition_start: u32) -> Option<u32> {
    match spec_fsd_root_lbn(sector) {
        None => None,
        Some(l) => if partition_start as int + l as int > u32::MAX as int {
            None
        } else {
            Some((partition_start + l) as u32)
        },
    }
}

/// Read the File Set Descriptor at `fsd_lba`: `Err` on a read failure,
/// otherwise what [`spec_fsd_root_lba`] decodes from the sector read.
fn read_fsd_checked<S: UdfSource>(
    reader: &mut S,
    block_size: u32,
    fsd_lba: u32,
    partition_start: u32,
) -> (r: Result<Option<u32>, ReadError>)
    requires
        is_block_size_candidate(block_size),
    ensures
        same_source(*old(reader), *final(reader)),
        old(reader).reads_described() ==> match block_at(*old(reader), fsd_lba, block_size) {
            None => r is Err,
            Some(s) => r == Ok::<Option<u32>, ReadError>(spec_fsd_root_lba(s, partition_start)),
        },
        r matches Ok(x) ==> exists|s: Seq<u8>|
            s.len() == block_size && #[trigger] spec_fsd_root_lba(s, partition_start) == x,
{
    assert(fsd_lba as u64 * block_size as u64 <= 0x1_0000_0000 * 4096) by (nonlinear_arith)
        requires
            block_size <= 4096,
    ;
    let sector = read_block_checked(reader, fsd_lba as u64 * block_size as u64, block_size as usize)?;
    let x = match fsd_root_lbn(sector.as_slice()) {
        None => None,
        Some(lbn) => partition_start.checked_add(lbn),
    };
    assert(spec_fsd_root_lba(sector@, partition_start) == x);
    Ok(x)
}

/// The recording time of a File Set Descriptor sector (its 12-byte
/// timestamp at byte 16), `None` when the sector is not an FSD or the time
/// is unset or implausible.
pub open spec fn spec_fsd_recording_time(sector: Seq<u8>) -> Option<Seq<char>> {
    if spec_le16(sector, 0) != TAG_FSD as int {
        None
    } else {
        spec_decode_timestamp(sector.subrange(16, 28))
    }
}

/// Read the recording time of the File Set Descriptor at `fsd_lba`: `Err` on
/// a read failure, otherwise what [`spec_fsd_recording_time`] decodes from
/// the sector read.
pub fn fsd_recording_time<S: UdfSource>(reader: &mut S, block_size: u32, fsd_lba: u32) -> (r:
    Result<Option<String>, ReadError>)
    requires
        64 <= block_size <= 4096,
    ensures
        same_source(*old(reader), *final(reader)),
        old(reader).reads_described() ==> match block_at(*old(reader), fsd_lba, block_size) {
            None => r is Err,
            Some(s) => r matches Ok(t) && spec_fsd_recording_time(s) == match t {
                Some(x) => Some(x@),
                None => None,
            },
        },
        r matches Ok(t) ==> exists|s: Seq<u8>|
            s.len() == block_size && #[trigger] spec_fsd_recording_time(s) == match t {
                Some(x) => Some(x@),
                None => None,
            },
{
    assert(fsd_lba as u64 * block_size as u64 <= 0x1_0000_0000 * 4096) by (nonlinear_arith)
        requires
            block_size <= 4096,
    ;
    let sector = read_block_checked(reader, fsd_lba as u64 * block_size as u64, block_size as usize)?;
    if le16_at(sector.as_slice(), 0) != TAG_FSD {
        assert(spec_fsd_recording_time(sector@) is None);
        return Ok(None);
    }
    let t = decode_timestamp(slice_subrange(sector.as_slice(), 16, 28));
    assert(spec_fsd_recording_time(sector@) == match t {
        Some(x) => Some(x@),
        None => None::<Seq<char>>,
    });
    Ok(t)
}

/// The bootstrap state that the sectors read give, at block size `bs`:
/// the anchor `anchor`, the Volume Descriptor Sequence sectors `vds`, and the
/// File Set Descriptor sector `fsd`.
pub open spec fn spec_bootstrap(bs: u32, anchor: Seq<u8>, vds: Seq<Seq<u8>>, fsd: Seq<u8>) -> Option<
    UdfState,
> {
    match spec_avdp_extent(anchor) {
        None => None,
        Some((vds_loc, vds_len)) => match spec_vds_resolve(spec_vds_run(vds).0) {
            None => None,
            Some(info) => match spec_fsd_root_lba(fsd, info.partition_start) {
                None => None,
                Some(root) => Some(
                    UdfState {
                        partition_start: info.partition_start,
                        root_fe_lba: root,
                        partition_kind: info.partition_kind,
                        partition_map_count: info.map_count,
                        block_size: bs,
                        fsd_lba: info.fsd_lba,
                        vds_loc,
                        vds_len_sectors: ceil_div(vds_len as int, bs as int) as u32,
                    },
                ),
            },
        },
    }
}

/// The sectors of a bootstrap as it reads them: each one block long, the
/// Volume Descriptor Sequence read as [`spec_vds_reads`] describes.
pub open spec fn spec_bootstrap_reads(bs: u32, anchor: Seq<u8>, vds: Seq<Seq<u8>>, fsd: Seq<u8>) -> bool {
    &&& anchor.len() == bs
    &&& fsd.len() == bs
    &&& spec_avdp_extent(anchor) matches Some((_, vds_len)) && spec_vds_reads(
        vds,
        bs,
        ceil_div(vds_len as int, bs as int),
    )
}

/// Some sectors, read as the bootstrap reads them at the state's
/// (candidate) block size, decode to exactly `st`.
pub open spec fn spec_state_decodes(st: UdfState) -> bool {
    &&& is_block_size_candidate(st.block_size)
    &&& exists|anchor: Seq<u8>, vds: Seq<Seq<u8>>, fsd: Seq<u8>|
        spec_bootstrap_reads(st.block_size, anchor, vds, fsd) && #[trigger] spec_bootstrap(
            st.block_size,
            anchor,
            vds,
            fsd,
        ) == Some(st)
}

/// The bootstrap chain at block size `bs` as read from `src`: `None` when a
/// read of the anchor, the Volume Descriptor Sequence or the File Set
/// Descriptor fails; otherwise the state the sectors decode to, `None`
/// inside when they are not valid UDF.
pub open spec fn spec_bootstrap_at<S: UdfSource>(src: S, bs: u32) -> Option<Option<UdfState>> {
    match block_at(src, 256, bs) {
        None => None,
        Some(anchor) => match spec_avdp_extent(anchor) {
            None => Some(None),
            Some((loc, len)) => match spec_vds_read(src, bs, loc, len) {
                None => None,
                Some(sectors) => match spec_vds_resolve(spec_vds_run(sectors).0) {
                    None => Some(None),
                    Some(info) => match block_at(src, info.fsd_lba, bs) {
                        None => None,
                        Some(fsd) => Some(spec_bootstrap(bs, anchor, sectors, fsd)),
                    },
                },
            },
        },
    }
}

/// Sources that agree on every read read the same Volume Descriptor
/// Sequence, when they describe their reads.
pub proof fn lemma_vds_sectors_same_source<S: UdfSource>(
    a: S,
    b: S,
    bs: u32,
    loc: u32,
    n: int,
    i: int,
    seen: Seq<Seq<u8>>,
)
    requires
        same_source(a, b),
    ensures
        a.reads_described() ==> (spec_vds_sectors(a, bs, loc, n, i, seen) == spec_vds_sectors(b, bs, loc, n, i, seen)),
    decreases n - i,
{
    if a.reads_described() {
        if !(i >= n || spec_vds_run(seen).1) {
            assert(a.bytes_at((loc + i) * bs, bs as nat) == b.bytes_at((loc + i) * bs, bs as nat));
            match a.bytes_at((loc + i) * bs, bs as nat) {
                None => {},
                Some(sector) => lemma_vds_sectors_same_source(a, b, bs, loc, n, i + 1, seen.push(sector)),
            }
        }
    }
}

/// Sources that agree on every read read the same Volume Descriptor
/// Sequence, when they describe their reads.
pub proof fn lemma_vds_read_same_source<S: UdfSource>(a: S, b: S, bs: u32, loc: u32, len: u32)
    requires
        same_source(a, b),
    ensures
        a.reads_described() ==> (spec_vds_read(a, bs, loc, len) == spec_vds_read(b, bs, loc, len)),
{
    if a.reads_described() {
        lemma_vds_sectors_same_source(a, b, bs, loc, ceil_div(len as int, bs as int), 0, Seq::empty());
    }
}

/// Sources that agree on every read give the same bootstrap, when they
/// describe their reads.
pub proof fn lemma_bootstrap_same_source<S: UdfSource>(a: S, b: S, bs: u32)
    requires
        same_source(a, b),
    ensures
        a.reads_described() ==> (spec_bootstrap_at(a, bs) == spec_bootstrap_at(b, bs)),
{
    if a.reads_described() {
        assert(block_at(a, 256, bs) == block_at(b, 256, bs));
        match block_at(a, 256, bs) {
            None => {},
            Some(anchor) => match spec_avdp_extent(anchor) {
                None => {},
                Some((loc, len)) => {
                    lemma_vds_read_same_source(a, b, bs, loc, len);
                    match spec_vds_read(a, bs, loc, len) {
                        None => {},
                        Some(sectors) => match spec_vds_resolve(spec_vds_run(sectors).0) {
                            None => {},
                            Some(info) => {
                                assert(block_at(a, info.fsd_lba, bs) == block_at(b, info.fsd_lba, bs));
                            },
                        },
                    }
                },
            },
        }
    }
}

/// Read the bootstrap chain at block size `block_size`, which the anchor
/// probes accepted: `Err` when a read fails, otherwise the state the chain
/// decodes to, or `None` when it is not valid UDF.
fn read_bootstrap<S: UdfSource>(reader: &mut S, block_size: u32) -> (r: Result<
    Option<UdfState>,
    ReadError,
>)
    requires
        is_block_size_candidate(block_size),
    ensures
        same_source(*old(reader), *final(reader)),
        old(reader).reads_described() ==> match spec_bootstrap_at(*old(reader), block_size) {
            None => r is Err,
            Some(x) => r matches Ok(y) && y == x,
        },
        r matches Ok(Some(st)) ==> spec_state_decodes(st),
{
    let ghost src = *reader;
    let (vds_loc, vds_len) = match read_avdp_checked(reader, block_size)? {
        None => {
            return Ok(None);
        },
        Some(x) => x,
    };
    let ghost anchor = choose|s: Seq<u8>|
        s.len() == block_size && #[trigger] spec_avdp_extent(s) == Some((vds_loc, vds_len));
    let ghost real_anchor = block_at(src, 256, block_size)->0;
    assert(src.reads_described() ==> spec_avdp_extent(real_anchor) == Some((vds_loc, vds_len)));
    let ghost cur1 = *reader;
    let vds = read_vds_checked(reader, block_size, vds_loc, vds_len);
    proof {
        lemma_vds_read_same_source(src, cur1, block_size, vds_loc, vds_len);
    }
    let vds = match vds? {
        None => {
            return Ok(None);
        },
        Some(v) => v,
    };
    let ghost vsecs = choose|sectors: Seq<Seq<u8>>|
        spec_vds_reads(sectors, block_size, ceil_div(vds_len as int, block_size as int))
            && #[trigger] spec_vds_resolve(spec_vds_run(sectors).0) == Some(vds);
    let ghost real_secs = spec_vds_read(src, block_size, vds_loc, vds_len)->0;
    assert(src.reads_described() ==> spec_vds_resolve(spec_vds_run(real_secs).0) == Some(vds));
    let ghost cur2 = *reader;
    let fsd_read = read_fsd_checked(reader, block_size, vds.fsd_lba, vds.partition_start);
    proof {
        if src.reads_described() {
            assert(block_at(cur2, vds.fsd_lba, block_size) == block_at(
                src,
                vds.fsd_lba,
                block_size,
            ));
        }
    }
    let root_fe_lba = match fsd_read? {
        None => {
            return Ok(None);
        },
        Some(x) => x,
    };
    let ghost fsd = choose|s: Seq<u8>|
        s.len() == block_size && #[trigger] spec_fsd_root_lba(s, vds.partition_start) == Some(
            root_fe_lba,
        );
    assert(vds_len / block_size <= 0x80_0000) by (nonlinear_arith)
        requires
            block_size >= 512,
    ;
    let vds_len_sectors = vds_len / block_size + if vds_len % block_size != 0 {
        1
    } else {
        0
    };
    assert(vds_len_sectors == ceil_div(vds_len as int, block_size as int)) by (nonlinear_arith)
        requires
            block_size > 0,
            vds_len_sectors == vds_len as int / block_size as int + if vds_len as int
                % block_size as int != 0 {
                1int
            } else {
                0
            },
    ;
    let st = UdfState {
        partition_start: vds.partition_start,
        root_fe_lba,
        partition_kind: vds.partition_kind,
        partition_map_count: vds.map_count,
        block_size,
        fsd_lba: vds.fsd_lba,
        vds_loc,
        vds_len_sectors,
    };
    assert(spec_bootstrap(block_size, anchor, vsecs, fsd) == Some(st));
    assert(spec_bootstrap_reads(block_size, anchor, vsecs, fsd));
    proof {
        if src.reads_described() {
            let real_fsd = block_at(src, vds.fsd_lba, block_size)->0;
            assert(spec_fsd_root_lba(real_fsd, vds.partition_start) == Some(root_fe_lba));
            assert(spec_bootstrap(block_size, real_anchor, real_secs, real_fsd) == Some(st));
        }
    }
    Ok(Some(st))
}


/// What parsing the bootstrap chain of `src` may return, as `r`: the
/// anchor search decides the block size, or ends the parse as not UDF
/// (`Ok(None)`), as a truncation ([`ReadError::Eof`]) or as a fault
/// ([`ReadError::Fault`]); at the block size found, a failed read of the
/// chain is `Err`, otherwise the state it decodes to, if any.
pub open spec fn spec_parse_result<S: UdfSource>(src: S, r: Result<Option<UdfState>, ReadError>) -> bool {
    match spec_anchor_search(src) {
        AnchorSearch::Found(bs) => match spec_bootstrap_at(src, bs) {
            None => r is Err,
            Some(x) => r matches Ok(y) && y == x,
        },
        AnchorSearch::NotFound => r matches Ok(None),
        AnchorSearch::Truncated => r matches Err(ReadError::Eof(_)),
        AnchorSearch::Fault => r matches Err(ReadError::Fault(_)),
    }
}

/// The state the bootstrap chain of `src` decodes to: `None` when the anchor
/// is not found, a read fails or the chain is not valid UDF.
pub open spec fn spec_parse_state<S: UdfSource>(src: S) -> Option<UdfState> {
    match spec_anchor_search(src) {
        AnchorSearch::Found(bs) => match spec_bootstrap_at(src, bs) {
            Some(Some(st)) => Some(st),
            _ => None,
        },
        _ => None,
    }
}

/// Parse the AVDP → VDS → FSD bootstrap chain, telling a read failure from a
/// structural negative.
///
/// - `Err(ReadError::Eof)`: the image is truncated before every possible
///   anchor (`UnexpectedEof`), or a later read of the chain ran past its end.
/// - `Err(ReadError::Fault)`: a read failed otherwise.
/// - `Ok(None)`: every read succeeded but the structure is not valid UDF.
/// - `Ok(Some(state))`: a valid UDF structure.
pub fn parse_udf_state_checked<S: UdfSource>(reader: &mut S) -> (r: Result<
    Option<UdfState>,
    ReadError,
>)
    ensures
        same_source(*old(reader), *final(reader)),
        old(reader).reads_described() ==> spec_parse_result(*old(reader), r),
        r matches Ok(Some(st)) ==> spec_state_decodes(st),
{
    let ghost src = *reader;
    let block_size = match detect_block_size(reader) {
        Err(e) => return Err(e),
        Ok(None) => return Ok(None),
        Ok(Some(bs)) => bs,
    };
    let ghost cur = *reader;
    let r = read_bootstrap(reader, block_size);
    proof {
        lemma_bootstrap_same_source(src, cur, block_size);
    }
    r
}

/// Parse the bootstrap chain; a read failure is folded into `None`, like a
/// structural "not UDF". Use [`parse_udf_state_checked`] to tell them apart.
pub fn parse_udf_state<S: UdfSource>(reader: &mut S) -> (r: Option<UdfState>)
    ensures
        same_source(*old(reader), *final(reader)),
        old(reader).reads_described() ==> r == spec_parse_state(*old(reader)),
        r matches Some(st) ==> spec_state_decodes(st),
{
    match parse_udf_state_checked(reader) {
        Ok(Some(st)) => Some(st),
        _ => None,
    }
}

/// The lenient parse is the checked one with every error folded into
/// `None`: whatever the checked parse of a source returns, the lenient
/// parse of that source gives its state, or `None` for `Ok(None)` and for
/// every error.
pub proof fn lemma_lenient_parse<S: UdfSource>(src: S, r: Result<Option<UdfState>, ReadError>)
    requires
        spec_parse_result(src, r),
    ensures
        spec_parse_state(src) == match r {
            Ok(Some(st)) => Some(st),
            _ => None::<UdfState>,
        },
{
}

/// Sources that agree on every read give the anchor search from candidate
/// `k` on the same outcome, when they describe their reads.
pub proof fn lemma_anchor_search_from_same_source<S: UdfSource>(a: S, b: S, k: int, any_read: bool)
    requires
        same_source(a, b),
        a.reads_described(),
    ensures
        spec_anchor_search_from(a, k, any_read) == spec_anchor_search_from(b, k, any_read),
    decreases 4 - k,
{
    if 0 <= k < 4 {
        lemma_bytes_same_source(a, b, 256 * spec_candidate(k) as int, 16);
        lemma_anchor_search_from_same_source(a, b, k + 1, any_read);
        lemma_anchor_search_from_same_source(a, b, k + 1, true);
    }
}

/// Sources that agree on every read end the anchor search alike, when they
/// describe their reads.
pub proof fn lemma_anchor_search_same_source<S: UdfSource>(a: S, b: S)
    requires
        same_source(a, b),
        a.reads_described(),
    ensures
        spec_anchor_search(a) == spec_anchor_search(b),
{
    lemma_anchor_search_from_same_source(a, b, 0, false);
}

/// The lenient parse of one source is the checked parse of another that
/// serves the same reads with every error folded into `None`: whatever the
/// checked parse of `b` returns, the lenient parse of `a` gives its state,
/// or `None` for `Ok(None)` and for every error.
pub proof fn lemma_lenient_parse_same_reads<S: UdfSource>(
    a: S,
    b: S,
    r: Result<Option<UdfState>, ReadError>,
)
    requires
        same_source(a, b),
        a.reads_described(),
        spec_parse_result(b, r),
    ensures
        spec_parse_state(a) == match r {
            Ok(Some(st)) => Some(st),
            _ => None::<UdfState>,
        },
{
    lemma_anchor_search_same_source(a, b);
    match spec_anchor_search(a) {
        AnchorSearch::Found(bs) => {
            lemma_bootstrap_same_source(a, b, bs);
        },
        _ => {},
    }
    lemma_lenient_parse(b, r);
}

/// The recognition scan accepts both UDF marks and stops at the
/// terminator: when the identifier `b` read at byte 1 of 2048-byte sector
/// `k` (16 to 31) spells `NSR02` or `NSR03` (bytes 78 83 82 48, then 50 or
/// 51) the scan from `k` finds UDF; when it spells `TEA01` (84 69 65 48 49),
/// or the read fails, it does not; any other identifier hands the scan on to
/// sector `k + 1`.
pub proof fn lemma_recognition_marks<S: UdfSource>(src: S, k: int, b: Seq<u8>)
    requires
        16 <= k < 32,
    ensures
        src.bytes_at(k * 2048 + 1, 6) is None ==> !spec_vrs_from(src, k),
        src.bytes_at(k * 2048 + 1, 6) == Some(b) && b.len() == 6 && b[0] == 78 && b[1] == 83 && b[2]
            == 82 && b[3] == 48 && (b[4] == 50 || b[4] == 51) ==> spec_vrs_from(src, k),
        src.bytes_at(k * 2048 + 1, 6) == Some(b) && b.len() == 6 && b[0] == 84 && b[1] == 69 && b[2]
            == 65 && b[3] == 48 && b[4] == 49 ==> !spec_vrs_from(src, k),
        src.bytes_at(k * 2048 + 1, 6) == Some(b) && b.len() == 6 && !(b[0] == 78 && b[1] == 83 && b[2]
            == 82 && b[3] == 48 && (b[4] == 50 || b[4] == 51)) && !(b[0] == 84 && b[1] == 69 && b[2]
            == 65 && b[3] == 48 && b[4] == 49) ==> spec_vrs_from(src, k) == spec_vrs_from(src, k + 1),
{
}

/// The file set's partition kind is that of the partition map its File Set
/// Descriptor's location references: once a Logical Volume Descriptor `lvd`
/// (tag 6) is folded into the walk, a resolved partition counts that
/// descriptor's maps, and has the kind of map number `le16(lvd, 256)` when
/// there is such a map (whatever map 0 is), `Unknown` otherwise.
pub proof fn lemma_vds_kind_is_referenced_map(m: VdsModel, lvd: Seq<u8>)
    requires
        spec_le16(lvd, 0) == 6,
    ensures
        ({
            let maps = spec_partition_maps(lvd);
            let r = spec_le16(lvd, 256);
            spec_vds_resolve(spec_vds_absorb(m, lvd).0) matches Some(info) ==> {
                &&& info.map_count == maps.len() as u32
                &&& r < maps.len() ==> info.partition_kind == maps[r].kind
                &&& r >= maps.len() ==> info.partition_kind == UdfPartitionKind::Unknown
                &&& info.fsd_lba == info.partition_start + spec_le32(lvd, 252)
                &&& r < maps.len() && maps[r].partition_number is Some && m.pd_start.dom().contains(
                    maps[r].partition_number->0,
                ) ==> info.partition_start == m.pd_start[maps[r].partition_number->0]
            }
        }),
{
}

/// A Partition Descriptor (tag 5) folded into the walk records its starting
/// location (le32 at byte 188) for its partition number (le16 at byte 22),
/// replacing an earlier one for that number and keeping the others.
pub proof fn lemma_vds_pd_recorded(m: VdsModel, pd: Seq<u8>, k: u16)
    requires
        spec_le16(pd, 0) == 5,
    ensures
        ({
            let m2 = spec_vds_absorb(m, pd).0;
            &&& !spec_vds_absorb(m, pd).1
            &&& m2.pd_start.dom().contains(spec_le16(pd, 22) as u16)
            &&& m2.pd_start[spec_le16(pd, 22) as u16] == spec_le32(pd, 188) as u32
            &&& k != spec_le16(pd, 22) as u16 ==> (m2.pd_start.dom().contains(k)
                == m.pd_start.dom().contains(k) && m2.pd_start[k] == m.pd_start[k])
            &&& m2.fsd_lbn == m.fsd_lbn && m2.maps == m.maps
        }),
{
}

/// A bootstrap that decodes to a state ties it to the sectors read: the
/// anchor carries tag 2 and records the Volume Descriptor Sequence at its
/// location (le32 at byte 20) and length (le32 at byte 16, in whole blocks);
/// the File Set Descriptor carries tag 256, and the root File Entry is the
/// partition start plus the root ICB's logical block (le32 at byte 404).
pub proof fn lemma_bootstrap_fields(bs: u32, anchor: Seq<u8>, vds: Seq<Seq<u8>>, fsd: Seq<u8>)
    requires
        bs > 0,
        spec_bootstrap(bs, anchor, vds, fsd) is Some,
    ensures
        ({
            let st = spec_bootstrap(bs, anchor, vds, fsd)->0;
            &&& spec_le16(anchor, 0) == 2
            &&& st.vds_loc == spec_le32(anchor, 20) as u32
            &&& st.vds_len_sectors == ((spec_le32(anchor, 16) as u32 + bs - 1) / (bs as int)) as u32
            &&& spec_le16(fsd, 0) == 256
            &&& st.root_fe_lba == st.partition_start + spec_le32(fsd, 404)
            &&& st.block_size == bs
        }),
{
}

} // verus!

verus! {

/// The 5-byte Volume Structure Descriptor identifier `b[0..5]` is the UDF
/// mark `NSR02` or `NSR03`.
pub open spec fn spec_is_nsr(b: Seq<u8>) -> bool {
    b[0] == 78 && b[1] == 83 && b[2] == 82 && b[3] == 48 && (b[4] == 50 || b[4] == 51)
}

/// The identifier `b[0..5]` is `TEA01`, the Terminating Extended Area
/// Descriptor.
pub open spec fn spec_is_tea(b: Seq<u8>) -> bool {
    b[0] == 84 && b[1] == 69 && b[2] == 65 && b[3] == 48 && b[4] == 49
}

/// The recognition scan of `src` from 2048-byte sector `lba` on: true at
/// the first `NSR02` / `NSR03` identifier (6 bytes read at byte 1 of the
/// sector), false at a `TEA01` terminator, a failed read or sector 32.
pub open spec fn spec_vrs_from<S: UdfSource>(src: S, lba: int) -> bool
    decreases 32 - lba,
{
    if lba >= 32 {
        false
    } else {
        match src.bytes_at(lba * 2048 + 1, 6) {
            None => false,
            Some(b) => if spec_is_nsr(b) {
                true
            } else if spec_is_tea(b) {
                false
            } else {
                spec_vrs_from(src, lba + 1)
            },
        }
    }
}

/// True if the image carries a UDF recognition sequence: scanning the
/// Volume Structure Descriptors of 2048-byte sectors 16 to 31 (identifier at
/// byte 1), an `NSR02` or `NSR03` is found before a `TEA01` terminator or a
/// failed read.
pub fn detect_udf<S: UdfSource>(reader: &mut S) -> (r: bool)
    ensures
        same_source(*old(reader), *final(reader)),
        old(reader).reads_described() ==> r == spec_vrs_from(*old(reader), 16),
{
    let ghost src = *reader;
    let mut lba: u64 = 16;
    while lba < 32
        invariant
            16 <= lba <= 32,
            src == *old(reader),
            same_source(src, *reader),
            src.reads_described() ==> spec_vrs_from(src, 16) == spec_vrs_from(src, lba as int),
        decreases 32 - lba,
    {
        let ghost cur = *reader;
        let read = read_block_checked(reader, lba * 2048 + 1, 6);
        proof {
            lemma_bytes_same_source(src, cur, lba * 2048 + 1, 6);
        }
        let buf = match read {
            Ok(b) => b,
            Err(_) => {
                return false;
            },
        };
        if buf[0] == 78 && buf[1] == 83 && buf[2] == 82 && buf[3] == 48 && (buf[4] == 50 || buf[4]
            == 51) {
            return true;
        }
        if buf[0] == 84 && buf[1] == 69 && buf[2] == 65 && buf[3] == 48 && buf[4] == 49 {
            return false;
        }
        lba = lba + 1;
    }
    false
}

} // verus!
