//! A mounted UDF volume addressed node by node, the way a virtual file
//! system walks it.
//!
//! Nodes are addressed by the physical LBA of their File Entry (`fe_lba`),
//! UDF's node identity. UDF carries a node's directory flag in its parent's
//! File Identifier Descriptor, not in the node's own File Entry, and has no
//! inode table, so the volume keeps a per-File-Entry cache: the root is
//! seeded as a directory when the volume is opened, every directory listing
//! records its children, and a File Entry met for the first time is
//! classified from its ICB Tag File Type. A sector that is not a File Entry
//! is a loud decode error, never a guess.

use std::collections::HashMap;
use vstd::prelude::*;
use vstd::slice::slice_to_vec;
use vstd::utf8::encode_utf8;

use crate::descriptor::slice_subrange;
use crate::bytes::{spec_le16, spec_le64};
use crate::directory::{
    lemma_fe_data_same_source, read_dir_at_lba, read_fe_data, read_fe_file_type,
    read_fe_info_len, spec_entry_for, spec_fe_data_at, spec_fe_file_type_at, spec_fe_info_len_at,
    spec_fid_records, spec_listing_of, UdfFileEntry, FILE_TYPE_DIRECTORY,
};
use crate::source::{block_at, same_source, ReadError, UdfSource};
use crate::text::{push_decimal, spec_decimal};
use crate::volume::{
    is_block_size_candidate, parse_udf_state_checked, spec_anchor_search, spec_bootstrap_at, spec_parse_result,
    spec_state_decodes,
    AnchorSearch,
    UdfState,
};

verus! {

broadcast use vstd::std_specs::hash::group_hash_axioms;

/// What the volume knows of a node: whether it is a directory, and its size.
#[derive(Clone, Copy, Debug, PartialEq, Eq, Structural)]
pub struct FeMeta {
    /// The node is a directory.
    pub is_dir: bool,
    /// The node's size in bytes (its Information Length).
    pub size: u64,
}

/// Why an operation on a mounted volume failed.
#[derive(Debug)]
pub enum UdfVfsError {
    /// A read of the bootstrap chain failed; the error of that read.
    Io(ReadError),
    /// The source holds no valid UDF AVDP → VDS → FSD chain.
    NotUdf,
    /// A node could not be decoded.
    Decode {
        /// The byte offset of the node's File Entry.
        offset: u64,
        /// What went wrong.
        detail: String,
    },
}

/// The error is a decode error at `offset` that says `detail`.
pub open spec fn spec_is_decode(e: UdfVfsError, offset: int, detail: Seq<char>) -> bool {
    e matches UdfVfsError::Decode { offset: o, detail: d } && o == offset && d@ == detail
}

/// The detail of a node whose sector is not a File Entry.
pub open spec fn spec_no_fe_detail(fe_lba: u32) -> Seq<char> {
    "no File Entry at LBA "@ + spec_decimal(fe_lba as nat)
        + "; enumerate its parent directory first"@
}

/// The detail of a node listed as a directory that is not one.
pub open spec fn spec_not_dir_detail(fe_lba: u32) -> Seq<char> {
    "File Entry at LBA "@ + spec_decimal(fe_lba as nat) + " is not a directory"@
}

/// The detail of a directory whose data cannot be read.
pub open spec fn spec_unreadable_dir_detail(fe_lba: u32) -> Seq<char> {
    "directory File Entry at LBA "@ + spec_decimal(fe_lba as nat) + " could not be read"@
}

/// The record of the File Entry at `lba` in `src`: a directory exactly when
/// its ICB Tag File Type is 4, and its Information Length (0 when that
/// cannot be read); `None` when its block cannot be read or is no File
/// Entry.
pub open spec fn spec_fe_meta_at<S: UdfSource>(src: S, bs: u32, lba: u32) -> Option<FeMeta> {
    match spec_fe_file_type_at(src, bs, lba) {
        None => None,
        Some(ft) => Some(
            FeMeta {
                is_dir: ft == FILE_TYPE_DIRECTORY,
                size: match spec_fe_info_len_at(src, bs, lba) {
                    Some(n) => n,
                    None => 0,
                },
            },
        ),
    }
}

/// Resolving `fe_lba` against the cache `before`, reading from `src`, gave
/// `r` and left the cache `after`: a cached node gives its record and leaves
/// the cache as it is; an uncached one is classified from its File Entry
/// (see [`spec_fe_meta_at`]) and recorded, or, when that is no File Entry,
/// is a decode error that leaves the cache as it is. (From a source that
/// does not describe its reads, an uncached node is recorded with the
/// record returned, or is that decode error.)
pub open spec fn spec_resolve_outcome<S: UdfSource>(
    before: Map<u32, FeMeta>,
    after: Map<u32, FeMeta>,
    src: S,
    fe_lba: u32,
    bs: u32,
    r: Result<FeMeta, UdfVfsError>,
) -> bool {
    if before.contains_key(fe_lba) {
        r == Ok::<FeMeta, UdfVfsError>(before[fe_lba]) && after == before
    } else if !src.reads_described() {
        match r {
            Ok(m) => after == before.insert(fe_lba, m),
            Err(e) => after == before && spec_is_decode(
                e,
                fe_lba as int * bs as int,
                spec_no_fe_detail(fe_lba),
            ),
        }
    } else {
        match spec_fe_meta_at(src, bs, fe_lba) {
            Some(m) => r == Ok::<FeMeta, UdfVfsError>(m) && after == before.insert(fe_lba, m),
            None => after == before && match r {
                Err(e) => spec_is_decode(e, fe_lba as int * bs as int, spec_no_fe_detail(fe_lba)),
                Ok(_) => false,
            },
        }
    }
}

/// The cache `m` with the records of the children `cs` added in order (a
/// later child with the same File Entry wins).
pub open spec fn spec_cache_children(m: Map<u32, FeMeta>, cs: Seq<UdfFileEntry>) -> Map<
    u32,
    FeMeta,
>
    decreases cs.len(),
{
    if cs.len() == 0 {
        m
    } else {
        spec_cache_children(m, cs.drop_last()).insert(
            cs.last().fe_lba,
            FeMeta { is_dir: cs.last().is_dir, size: cs.last().size },
        )
    }
}

/// `children` is the listing the data of the directory at `lba` in `src`
/// gives; false when that data cannot be read.
pub open spec fn spec_dir_listing<S: UdfSource>(
    src: S,
    bs: u32,
    partition_start: u32,
    lba: u32,
    children: Seq<UdfFileEntry>,
) -> bool {
    match spec_fe_data_at(src, bs, partition_start, lba) {
        Some(d) => spec_listing_of(d, partition_start, bs, src, children),
        None => false,
    }
}

/// Listing the directory at `lba` against the cache `before`, reading from
/// `src`, succeeded with `children` and left the cache `after`: the node
/// resolved as a directory, `children` is its listing (for a source that
/// describes its reads), and the cache holds their records too.
pub open spec fn spec_dir_ok<S: UdfSource>(
    before: Map<u32, FeMeta>,
    after: Map<u32, FeMeta>,
    src: S,
    lba: u32,
    bs: u32,
    partition_start: u32,
    children: Seq<UdfFileEntry>,
) -> bool {
    exists|m: FeMeta, mid: Map<u32, FeMeta>|
        #[trigger] spec_resolve_outcome(before, mid, src, lba, bs, Ok(m)) && m.is_dir && (
        src.reads_described() ==> spec_dir_listing(src, bs, partition_start, lba, children))
            && after == spec_cache_children(mid, children)
}

/// Listing the directory at `lba` against the cache `before`, reading from
/// `src`, failed with `e` and left the cache `after`: the node does not
/// resolve; or it resolves but is not a directory; or it is a directory
/// whose data cannot be read (as far as a source that describes its reads
/// tells).
pub open spec fn spec_dir_error<S: UdfSource>(
    before: Map<u32, FeMeta>,
    after: Map<u32, FeMeta>,
    src: S,
    lba: u32,
    bs: u32,
    partition_start: u32,
    e: UdfVfsError,
) -> bool {
    let at = lba as int * bs as int;
    ||| spec_resolve_outcome(before, after, src, lba, bs, Err(e))
    ||| exists|m: FeMeta|
        #[trigger] spec_resolve_outcome(before, after, src, lba, bs, Ok(m)) && if m.is_dir {
            (src.reads_described() ==> spec_fe_data_at(src, bs, partition_start, lba) is None)
                && spec_is_decode(
                e,
                at,
                spec_unreadable_dir_detail(lba),
            )
        } else {
            spec_is_decode(e, at, spec_not_dir_detail(lba))
        }
}

/// The ASCII lower-case form of a byte.
pub open spec fn spec_ascii_lower(b: u8) -> u8 {
    if 65 <= b <= 90 {
        (b + 32) as u8
    } else {
        b
    }
}

/// `a` and `b` are equal bytes once ASCII letters are lower-cased.
pub open spec fn spec_eq_ignore_ascii_case(a: Seq<u8>, b: Seq<u8>) -> bool {
    &&& a.len() == b.len()
    &&& forall|i: int| 0 <= i < a.len() ==> spec_ascii_lower(a[i]) == spec_ascii_lower(b[i])
}

/// The File Entry of the first child of `cs` whose UTF-8 name equals `name`
/// ignoring ASCII case.
pub open spec fn spec_first_named(cs: Seq<UdfFileEntry>, name: Seq<u8>) -> Option<u32>
    decreases cs.len(),
{
    if cs.len() == 0 {
        None
    } else if spec_eq_ignore_ascii_case(name, encode_utf8(cs[0].name@)) {
        Some(cs[0].fe_lba)
    } else {
        spec_first_named(cs.drop_first(), name)
    }
}

/// The bytes a read of `max` bytes at `off` gets from data `d`: none past
/// the end, otherwise up to `max` bytes from `off` on.
pub open spec fn spec_window(d: Seq<u8>, off: int, max: int) -> Seq<u8> {
    if off >= d.len() {
        Seq::empty()
    } else if d.len() - off < max {
        d.subrange(off, d.len() as int)
    } else {
        d.subrange(off, off + max)
    }
}

/// Sources that agree on every read agree on which listing a directory's
/// data gives, when they describe their reads.
proof fn lemma_listing_same_source<S: UdfSource>(
    a: S,
    b: S,
    bs: u32,
    partition_start: u32,
    lba: u32,
    children: Seq<UdfFileEntry>,
)
    requires
        same_source(a, b),
        spec_fe_data_at(a, bs, partition_start, lba) == spec_fe_data_at(b, bs, partition_start, lba),
        spec_dir_listing(b, bs, partition_start, lba, children),
    ensures
        a.reads_described() ==> (spec_dir_listing(a, bs, partition_start, lba, children)),
{
    if a.reads_described() {
        let d = spec_fe_data_at(b, bs, partition_start, lba)->0;
        assert forall|i: int| 0 <= i < children.len() implies spec_entry_for(
            #[trigger] children[i],
            spec_fid_records(d, partition_start)[i],
            a,
            bs,
        ) by {
            let rec = spec_fid_records(d, partition_start)[i];
            assert(block_at(a, rec.fe_lba, bs) == block_at(b, rec.fe_lba, bs));
            assert(spec_entry_for(children[i], rec, b, bs));
        }
    }
}

/// Lower-case an ASCII letter.
fn ascii_lower(b: u8) -> (r: u8)
    ensures
        r == spec_ascii_lower(b),
{
    if 65 <= b && b <= 90 {
        b + 32
    } else {
        b
    }
}

/// Whether `a` and `b` are equal bytes once ASCII letters are lower-cased.
pub fn eq_ignore_ascii_case(a: &[u8], b: &[u8]) -> (r: bool)
    ensures
        r == spec_eq_ignore_ascii_case(a@, b@),
{
    if a.len() != b.len() {
        return false;
    }
    let n = a.len();
    let mut i: usize = 0;
    while i < n
        invariant
            n == a@.len(),
            n == b@.len(),
            i <= n,
            forall|j: int| 0 <= j < i ==> spec_ascii_lower(a@[j]) == spec_ascii_lower(b@[j]),
        decreases n - i,
    {
        if ascii_lower(a[i]) != ascii_lower(b[i]) {
            return false;
        }
        i = i + 1;
    }
    true
}

/// The File Entry LBA an opaque node number names: the number itself when
/// it fits a `u32`, otherwise none.
pub fn fe_lba_from_opaque(n: u64) -> (r: Option<u32>)
    ensures
        r == (if n <= u32::MAX {
            Some(n as u32)
        } else {
            None::<u32>
        }),
{
    if n <= u32::MAX as u64 {
        Some(n as u32)
    } else {
        None
    }
}

/// A decode error at the File Entry of `fe_lba` saying `head`, the LBA in
/// decimal, then `tail`.
fn decode_error(fe_lba: u32, bs: u32, head: &str, tail: &str) -> (e: UdfVfsError)
    requires
        bs <= 4096,
    ensures
        spec_is_decode(e, fe_lba as int * bs as int, head@ + spec_decimal(fe_lba as nat) + tail@),
{
    let mut detail = String::from_str(head);
    push_decimal(&mut detail, fe_lba as u64);
    detail.append(tail);
    assert(fe_lba as u64 * bs as u64 <= 0x1_0000_0000 * 4096) by (nonlinear_arith)
        requires
            bs <= 4096,
    ;
    UdfVfsError::Decode { offset: fe_lba as u64 * bs as u64, detail }
}

/// The parse result a mount stands for: the mounted state, "not UDF", or
/// the bootstrap's read error that [`UdfVfsError::Io`] carries.
pub open spec fn spec_open_as_parse<S>(r: Result<UdfVfs<S>, UdfVfsError>) -> Result<
    Option<UdfState>,
    ReadError,
> {
    match r {
        Ok(v) => Ok(Some(v.mounted())),
        Err(UdfVfsError::Io(e)) => Err(e),
        Err(_) => Ok(None),
    }
}

/// A mounted UDF volume over a source of image bytes.
pub struct UdfVfs<S> {
    reader: S,
    cache: HashMap<u32, FeMeta>,
    state: UdfState,
}

impl<S> UdfVfs<S> {
    /// The per-File-Entry records the volume holds.
    pub closed spec fn cache(&self) -> Map<u32, FeMeta> {
        self.cache@
    }

    /// The bootstrap state the volume was mounted with.
    pub closed spec fn mounted(&self) -> UdfState {
        self.state
    }

    /// The source the volume reads.
    pub closed spec fn source(&self) -> S {
        self.reader
    }

    /// The volume is well formed: it was mounted with one of the candidate
    /// block sizes (as every volume [`UdfVfs::open`] mounts is).
    pub open spec fn wf(&self) -> bool {
        is_block_size_candidate(self.mounted().block_size)
    }
}

impl<S: UdfSource> UdfVfs<S> {
    /// Mount the volume in `reader`: parse the AVDP → VDS → FSD bootstrap
    /// chain and seed the cache with the root directory.
    ///
    /// - `Err(Io)`: a read of the chain failed.
    /// - `Err(NotUdf)`: every read succeeded but the chain is not valid UDF.
    pub fn open(reader: S) -> (r: Result<UdfVfs<S>, UdfVfsError>)
        ensures
            r matches Ok(v) ==> {
                &&& v.wf()
                &&& spec_state_decodes(v.mounted())
                &&& same_source(reader, v.source())
                &&& v.cache() == Map::<u32, FeMeta>::empty().insert(
                    v.mounted().root_fe_lba,
                    FeMeta { is_dir: true, size: 0 },
                )
            },
            reader.reads_described() ==> match spec_anchor_search(reader) {
                AnchorSearch::Found(bs) => match spec_bootstrap_at(reader, bs) {
                    None => r matches Err(UdfVfsError::Io(_)),
                    Some(None) => r matches Err(UdfVfsError::NotUdf),
                    Some(Some(st)) => r matches Ok(v) && v.mounted() == st,
                },
                AnchorSearch::NotFound => r matches Err(UdfVfsError::NotUdf),
                AnchorSearch::Truncated => r matches Err(UdfVfsError::Io(ReadError::Eof(_))),
                AnchorSearch::Fault => r matches Err(UdfVfsError::Io(ReadError::Fault(_))),
            },
            reader.reads_described() ==> spec_parse_result(reader, spec_open_as_parse(r)),
            !(r matches Err(UdfVfsError::Decode { .. })),
    {
        let mut reader = reader;
        let state = match parse_udf_state_checked(&mut reader) {
            Err(e) => return Err(UdfVfsError::Io(e)),
            Ok(None) => return Err(UdfVfsError::NotUdf),
            Ok(Some(st)) => st,
        };
        let mut cache: HashMap<u32, FeMeta> = HashMap::new();
        cache.insert(state.root_fe_lba, FeMeta { is_dir: true, size: 0 });
        Ok(UdfVfs { reader, cache, state })
    }

    /// The bootstrap state the volume was mounted with.
    pub fn state(&self) -> (r: &UdfState)
        ensures
            *r == self.mounted(),
    {
        &self.state
    }

    /// The record of the node at `fe_lba`: the cached one, or, for a node
    /// met for the first time, its File Entry's classification (a directory
    /// when its ICB Tag File Type is 4) and size, which are then cached.
    pub fn resolve(&mut self, fe_lba: u32) -> (r: Result<FeMeta, UdfVfsError>)
        requires
            old(self).wf(),
        ensures
            final(self).mounted() == old(self).mounted(),
            same_source(old(self).source(), final(self).source()),
            spec_resolve_outcome(
                old(self).cache(),
                final(self).cache(),
                old(self).source(),
                fe_lba,
                old(self).mounted().block_size,
                r,
            ),
    {
        let bs = self.state.block_size;
        match self.cache.get(&fe_lba) {
            Some(m) => return Ok(*m),
            None => {},
        }
        match read_fe_file_type(&mut self.reader, bs, fe_lba) {
            Some(ft) => {
                let is_dir = ft == FILE_TYPE_DIRECTORY;
                let size = match read_fe_info_len(&mut self.reader, bs, fe_lba) {
                    Some(n) => n,
                    None => 0,
                };
                let m = FeMeta { is_dir, size };
                self.cache.insert(fe_lba, m);
                Ok(m)
            },
            None => Err(
                decode_error(fe_lba, bs, "no File Entry at LBA ", "; enumerate its parent directory first"),
            ),
        }
    }

    /// List the children of the directory at `dir_fe_lba`, recording each
    /// child in the cache.
    ///
    /// - `Err`: the node does not resolve (see [`UdfVfs::resolve`]), is not a
    ///   directory, or its data cannot be read.
    /// - `Ok(children)`: a listing of the directory's data, whose records
    ///   the cache now holds.
    pub fn dir_children(&mut self, dir_fe_lba: u32) -> (r: Result<Vec<UdfFileEntry>, UdfVfsError>)
        requires
            old(self).wf(),
        ensures
            final(self).mounted() == old(self).mounted(),
            same_source(old(self).source(), final(self).source()),
            match r {
                Ok(children) => spec_dir_ok(
                    old(self).cache(),
                    final(self).cache(),
                    old(self).source(),
                    dir_fe_lba,
                    old(self).mounted().block_size,
                    old(self).mounted().partition_start,
                    children@,
                ),
                Err(e) => spec_dir_error(
                    old(self).cache(),
                    final(self).cache(),
                    old(self).source(),
                    dir_fe_lba,
                    old(self).mounted().block_size,
                    old(self).mounted().partition_start,
                    e,
                ),
            },
    {
        let bs = self.state.block_size;
        let ps = self.state.partition_start;
        let ghost src = self.reader;
        let ghost before = self.cache@;
        let meta = match self.resolve(dir_fe_lba) {
            Err(e) => return Err(e),
            Ok(m) => m,
        };
        let ghost mid = self.cache@;
        assert(spec_resolve_outcome(before, mid, src, dir_fe_lba, bs, Ok(meta)));
        if !meta.is_dir {
            return Err(decode_error(dir_fe_lba, bs, "File Entry at LBA ", " is not a directory"));
        }
        let ghost cur = self.reader;
        let children = match read_dir_at_lba(&mut self.reader, bs, ps, dir_fe_lba) {
            None => {
                proof {
                    lemma_fe_data_same_source(src, cur, bs, ps, dir_fe_lba);
                }
                return Err(
                    decode_error(dir_fe_lba, bs, "directory File Entry at LBA ", " could not be read"),
                )
            },
            Some(c) => c,
        };
        proof {
            if src.reads_described() {
                lemma_fe_data_same_source(src, cur, bs, ps, dir_fe_lba);
                lemma_listing_same_source(src, cur, bs, ps, dir_fe_lba, children@);
                assert(spec_dir_listing(src, bs, ps, dir_fe_lba, children@));
            }
        }
        let n = children.len();
        let mut k: usize = 0;
        while k < n
            invariant
                n == children@.len(),
                k <= n,
                self.state == old(self).state,
                same_source(src, self.reader),
                src == old(self).source(),
                self.cache@ == spec_cache_children(mid, children@.take(k as int)),
            decreases n - k,
        {
            let c_lba = children[k].fe_lba;
            let c_dir = children[k].is_dir;
            let c_size = children[k].size;
            self.cache.insert(c_lba, FeMeta { is_dir: c_dir, size: c_size });
            proof {
                assert(children@.take(k + 1).drop_last() =~= children@.take(k as int));
            }
            k = k + 1;
        }
        assert(children@.take(n as int) =~= children@);
        assert(spec_resolve_outcome(old(self).cache(), mid, src, dir_fe_lba, bs, Ok(meta)));
        Ok(children)
    }

    /// The File Entry of the first child of the directory at `parent_fe_lba`
    /// named `name`, ignoring ASCII case; `None` when no child is. `Err` as
    /// [`UdfVfs::dir_children`] fails.
    pub fn lookup(&mut self, parent_fe_lba: u32, name: &[u8]) -> (r: Result<Option<u32>, UdfVfsError>)
        requires
            old(self).wf(),
        ensures
            final(self).mounted() == old(self).mounted(),
            same_source(old(self).source(), final(self).source()),
            match r {
                Ok(found) => exists|children: Seq<UdfFileEntry>|
                    spec_dir_ok(
                        old(self).cache(),
                        final(self).cache(),
                        old(self).source(),
                        parent_fe_lba,
                        old(self).mounted().block_size,
                        old(self).mounted().partition_start,
                        children,
                    ) && #[trigger] spec_first_named(children, name@) == found,
                Err(e) => spec_dir_error(
                    old(self).cache(),
                    final(self).cache(),
                    old(self).source(),
                    parent_fe_lba,
                    old(self).mounted().block_size,
                    old(self).mounted().partition_start,
                    e,
                ),
            },
    {
        let children = self.dir_children(parent_fe_lba)?;
        let n = children.len();
        let mut i: usize = 0;
        assert(children@.skip(0) =~= children@);
        while i < n
            invariant
                n == children@.len(),
                i <= n,
                self.mounted() == old(self).mounted(),
                same_source(old(self).source(), self.source()),
                spec_dir_ok(
                    old(self).cache(),
                    self.cache(),
                    old(self).source(),
                    parent_fe_lba,
                    old(self).mounted().block_size,
                    old(self).mounted().partition_start,
                    children@,
                ),
                spec_first_named(children@, name@) == spec_first_named(
                    children@.skip(i as int),
                    name@,
                ),
            decreases n - i,
        {
            proof {
                assert(children@.skip(i as int).drop_first() =~= children@.skip(i + 1));
            }
            if eq_ignore_ascii_case(name, children[i].name.as_str().as_bytes()) {
                assert(children@.skip(i as int)[0] == children@[i as int]);
                assert(spec_first_named(children@, name@) == Some(children@[i as int].fe_lba));
                return Ok(Some(children[i].fe_lba));
            }
            i = i + 1;
        }
        assert(children@.skip(n as int) =~= Seq::<UdfFileEntry>::empty());
        assert(spec_first_named(children@, name@) == None::<u32>);
        Ok(None)
    }

    /// The length of the single logical run of the node at `fe_lba`: none
    /// for an empty node, otherwise its whole size. `Err` as
    /// [`UdfVfs::resolve`] fails.
    pub fn extent_len(&mut self, fe_lba: u32) -> (r: Result<Option<u64>, UdfVfsError>)
        requires
            old(self).wf(),
        ensures
            final(self).mounted() == old(self).mounted(),
            same_source(old(self).source(), final(self).source()),
            r matches Err(e) ==> spec_resolve_outcome(
                old(self).cache(),
                final(self).cache(),
                old(self).source(),
                fe_lba,
                old(self).mounted().block_size,
                Err(e),
            ),
            r matches Ok(x) ==> exists|m: FeMeta|
                #[trigger] spec_resolve_outcome(
                    old(self).cache(),
                    final(self).cache(),
                    old(self).source(),
                    fe_lba,
                    old(self).mounted().block_size,
                    Ok(m),
                ) && x == (if m.size == 0 {
                    None
                } else {
                    Some(m.size)
                }),
    {
        let m = self.resolve(fe_lba)?;
        if m.size == 0 {
            Ok(None)
        } else {
            Ok(Some(m.size))
        }
    }

    /// Read up to `max` bytes of the data of the node at `fe_lba` from byte
    /// `off` on. The node must resolve (see [`UdfVfs::resolve`]); data that
    /// cannot be read, and an offset at or past its end, read as no bytes.
    pub fn read_at(&mut self, fe_lba: u32, off: u64, max: usize) -> (r: Result<Vec<u8>, UdfVfsError>)
        requires
            old(self).wf(),
        ensures
            final(self).mounted() == old(self).mounted(),
            same_source(old(self).source(), final(self).source()),
            r matches Err(e) ==> spec_resolve_outcome(
                old(self).cache(),
                final(self).cache(),
                old(self).source(),
                fe_lba,
                old(self).mounted().block_size,
                Err(e),
            ),
            r matches Ok(v) ==> {
                &&& exists|m: FeMeta|
                    #[trigger] spec_resolve_outcome(
                        old(self).cache(),
                        final(self).cache(),
                        old(self).source(),
                        fe_lba,
                        old(self).mounted().block_size,
                        Ok(m),
                    )
                &&& old(self).source().reads_described() ==> v@ == match spec_fe_data_at(
                    old(self).source(),
                    old(self).mounted().block_size,
                    old(self).mounted().partition_start,
                    fe_lba,
                ) {
                    None => Seq::empty(),
                    Some(d) => spec_window(d, off as int, max as int),
                }
            },
    {
        let bs = self.state.block_size;
        let ps = self.state.partition_start;
        let ghost src = self.reader;
        let meta = self.resolve(fe_lba)?;
        let ghost resolved = self.cache@;
        let ghost cur = self.reader;
        let data = read_fe_data(&mut self.reader, bs, ps, fe_lba);
        proof {
            lemma_fe_data_same_source(src, cur, bs, ps, fe_lba);
        }
        assert(self.cache() == resolved);
        assert(spec_resolve_outcome(old(self).cache(), self.cache(), src, fe_lba, bs, Ok(meta)));
        let data = match data {
            None => return Ok(Vec::new()),
            Some(d) => d,
        };
        let len = data.len();
        if off >= len as u64 {
            return Ok(Vec::new());
        }
        let start = off as usize;
        let n: usize = if len - start < max {
            len - start
        } else {
            max
        };
        let v = slice_to_vec(slice_subrange(data.as_slice(), start, start + n));
        assert(v@ == spec_window(data@, off as int, max as int));
        Ok(v)
    }
}

} // verus!

verus! {

/// The root a volume is mounted with resolves as a directory from the
/// seeded cache, without a read and without changing the cache.
pub proof fn lemma_seeded_root_resolves<S: UdfSource>(
    src: S,
    cache: Map<u32, FeMeta>,
    after: Map<u32, FeMeta>,
    root: u32,
    bs: u32,
    r: Result<FeMeta, UdfVfsError>,
)
    requires
        cache == Map::<u32, FeMeta>::empty().insert(root, FeMeta { is_dir: true, size: 0 }),
        spec_resolve_outcome(cache, after, src, root, bs, r),
    ensures
        r == Ok::<FeMeta, UdfVfsError>(FeMeta { is_dir: true, size: 0 }),
        after == cache,
{
}

/// Once a node resolves, resolving it again gives the same record and
/// leaves the cache as it is.
pub proof fn lemma_resolve_stable<S: UdfSource>(
    src: S,
    c0: Map<u32, FeMeta>,
    c1: Map<u32, FeMeta>,
    c2: Map<u32, FeMeta>,
    fe_lba: u32,
    bs: u32,
    m: FeMeta,
    r: Result<FeMeta, UdfVfsError>,
)
    requires
        spec_resolve_outcome(c0, c1, src, fe_lba, bs, Ok(m)),
        spec_resolve_outcome(c1, c2, src, fe_lba, bs, r),
    ensures
        r == Ok::<FeMeta, UdfVfsError>(m),
        c2 == c1,
{
}

/// The cache `m` with the records of `cs` added holds a record for every
/// File Entry of `cs`: the record of the last child listed with it.
proof fn lemma_cache_children_holds(m: Map<u32, FeMeta>, cs: Seq<UdfFileEntry>)
    ensures
        forall|i: int|
            0 <= i < cs.len() ==> spec_cache_children(m, cs).contains_key(#[trigger] cs[i].fe_lba),
        forall|i: int|
            0 <= i < cs.len() && (forall|j: int| i < j < cs.len() ==> cs[j].fe_lba != cs[i].fe_lba)
                ==> spec_cache_children(m, cs)[#[trigger] cs[i].fe_lba] == (FeMeta {
                is_dir: cs[i].is_dir,
                size: cs[i].size,
            }),
    decreases cs.len(),
{
    if cs.len() > 0 {
        lemma_cache_children_holds(m, cs.drop_last());
        assert forall|i: int|
            0 <= i < cs.len() && (forall|j: int| i < j < cs.len() ==> cs[j].fe_lba != cs[i].fe_lba)
                implies spec_cache_children(m, cs)[#[trigger] cs[i].fe_lba] == (FeMeta {
            is_dir: cs[i].is_dir,
            size: cs[i].size,
        }) by {
            if i < cs.len() - 1 {
                assert(cs[i] == cs.drop_last()[i]);
                assert(cs.last().fe_lba != cs[i].fe_lba);
                assert forall|j: int| i < j < cs.drop_last().len() implies cs.drop_last()[j].fe_lba
                    != cs.drop_last()[i].fe_lba by {
                    assert(cs.drop_last()[j] == cs[j]);
                }
            }
        }
        assert forall|i: int| 0 <= i < cs.len() implies spec_cache_children(m, cs).contains_key(
            #[trigger] cs[i].fe_lba,
        ) by {
            if i < cs.len() - 1 {
                assert(cs[i] == cs.drop_last()[i]);
            }
        }
    }
}

/// A directory listed records each child: afterwards every child's File
/// Entry resolves from the cache, without a read and without changing the
/// cache, to the listed record (a directory exactly when the child is one,
/// and its size) of the last child listed with that File Entry.
pub proof fn lemma_children_cached<S: UdfSource, T: UdfSource>(
    before: Map<u32, FeMeta>,
    after: Map<u32, FeMeta>,
    src: S,
    lba: u32,
    bs: u32,
    partition_start: u32,
    children: Seq<UdfFileEntry>,
    other: T,
    i: int,
    r: Result<FeMeta, UdfVfsError>,
    later: Map<u32, FeMeta>,
)
    requires
        spec_dir_ok(before, after, src, lba, bs, partition_start, children),
        0 <= i < children.len(),
        spec_resolve_outcome(after, later, other, children[i].fe_lba, bs, r),
    ensures
        r == Ok::<FeMeta, UdfVfsError>(after[children[i].fe_lba]),
        later == after,
        (forall|j: int| i < j < children.len() ==> children[j].fe_lba != children[i].fe_lba) ==> r
            == Ok::<FeMeta, UdfVfsError>(
            FeMeta { is_dir: children[i].is_dir, size: children[i].size },
        ),
{
    let (m, mid) = choose|m: FeMeta, mid: Map<u32, FeMeta>|
        #[trigger] spec_resolve_outcome(before, mid, src, lba, bs, Ok(m)) && m.is_dir && (
        src.reads_described() ==> spec_dir_listing(src, bs, partition_start, lba, children))
            && after == spec_cache_children(mid, children);
    lemma_cache_children_holds(mid, children);
}

/// A node met for the first time is classified from its File Entry. When
/// the block read at `lba` carries a File Entry tag (260, 261 or 266), the
/// node resolves to a directory exactly when the ICB Tag File Type (byte 27)
/// is 4, with the Information Length (bytes 56..64) as its size, and is
/// recorded so; any other block is a decode error that records nothing.
pub proof fn lemma_resolve_classifies<S: UdfSource>(
    before: Map<u32, FeMeta>,
    after: Map<u32, FeMeta>,
    src: S,
    lba: u32,
    bs: u32,
    r: Result<FeMeta, UdfVfsError>,
    s: Seq<u8>,
)
    requires
        !before.contains_key(lba),
        src.reads_described(),
        block_at(src, lba, bs) == Some(s),
        spec_resolve_outcome(before, after, src, lba, bs, r),
    ensures
        spec_le16(s, 0) == 260 || spec_le16(s, 0) == 261 || spec_le16(s, 0) == 266 ==> {
            &&& r == Ok::<FeMeta, UdfVfsError>(
                FeMeta { is_dir: s[27] == 4, size: spec_le64(s, 56) as u64 },
            )
            &&& after == before.insert(lba, FeMeta { is_dir: s[27] == 4, size: spec_le64(s, 56) as u64 })
        },
        !(spec_le16(s, 0) == 260 || spec_le16(s, 0) == 261 || spec_le16(s, 0) == 266) ==> {
            &&& r is Err
            &&& after == before
        },
{
}

} // verus!
