//! Positioned reads from the source that holds the image.
//!
//! A source may describe its reads: then [`UdfSource::bytes_at`] says what
//! each read gets, and the reader functions below, like everything built on
//! them, say exactly what they return for it. The cursors over bytes in
//! memory describe their reads; a source that does not (a file, a device)
//! promises nothing of what its reads get, beyond the buffer's length.

use std::io::{Read, Seek, SeekFrom};
use vstd::prelude::*;

verus! {

/// `std::io::Error`, carried through unchanged from the source.
#[verifier::external_type_specification]
#[verifier::external_body]
pub struct ExIoError(std::io::Error);

/// Why a read failed; each variant carries the source's own error.
#[derive(Debug)]
pub enum ReadError {
    /// The source ended before the read was filled (`UnexpectedEof`).
    Eof(std::io::Error),
    /// Any other failure of the source.
    Fault(std::io::Error),
}

/// The source's error that `e` carries.
pub open spec fn spec_read_error_io(e: ReadError) -> std::io::Error {
    match e {
        ReadError::Eof(x) => x,
        ReadError::Fault(x) => x,
    }
}

impl ReadError {
    /// The source's error.
    pub fn into_io(self) -> (r: std::io::Error)
        ensures
            r == spec_read_error_io(self),
    {
        match self {
            ReadError::Eof(e) => e,
            ReadError::Fault(e) => e,
        }
    }

    /// Whether the read failed because the source ended first.
    pub fn is_eof(&self) -> (r: bool)
        ensures
            r == (*self is Eof),
    {
        match self {
            ReadError::Eof(_) => true,
            ReadError::Fault(_) => false,
        }
    }
}

/// A source of image bytes addressed by absolute byte position: what the
/// reader functions of this crate read from. `std::io::Cursor` over a byte
/// vector or slice is one; any `Read + Seek` type becomes one by seeking to
/// the position and reading exactly the buffer's length.
///
/// A source that describes its reads ([`UdfSource::reads_described`]) has
/// [`UdfSource::bytes_at`] say what a read gets: the bytes, or `None` when
/// that read fails, and [`UdfSource::ends_before`] say whether such a
/// failure is the source ending first; a read does not change what later
/// reads get.
pub trait UdfSource: Sized {
    /// Whether [`UdfSource::bytes_at`] describes this source's reads. A
    /// source that leaves it `false` promises nothing of what they get.
    closed spec fn reads_described(&self) -> bool {
        false
    }

    /// The `len` bytes a read at byte `pos` gets, or `None` when it fails;
    /// meaningful only for a source that describes its reads.
    closed spec fn bytes_at(&self, pos: int, len: nat) -> Option<Seq<u8>> {
        vstd::pervasive::arbitrary()
    }

    /// Whether a read of `len` bytes at `pos` that fails does so because the
    /// source ends first; meaningful only for a source that describes its
    /// reads.
    closed spec fn ends_before(&self, pos: int, len: nat) -> bool {
        vstd::pervasive::arbitrary()
    }

    /// Fill `buf` with the bytes that start at `byte_pos`; an `Err` when they
    /// cannot all be read: [`ReadError::Eof`] when the source ends first,
    /// [`ReadError::Fault`] on any other failure.
    fn read_exact_at(&mut self, byte_pos: u64, buf: &mut Vec<u8>) -> (r: Result<(), ReadError>)
        ensures
            final(buf)@.len() == old(buf)@.len(),
            final(self).reads_described() == old(self).reads_described(),
            old(self).reads_described() ==> forall|pos: int, len: nat| #[trigger]
                old(self).bytes_at(pos, len) == final(self).bytes_at(pos, len),
            old(self).reads_described() ==> forall|pos: int, len: nat| #[trigger]
                old(self).ends_before(pos, len) == final(self).ends_before(pos, len),
            old(self).reads_described() ==> match old(self).bytes_at(
                byte_pos as int,
                old(buf)@.len(),
            ) {
                Some(b) => r is Ok && final(buf)@ == b,
                None => r matches Err(e) && (e is Eof) == old(self).ends_before(
                    byte_pos as int,
                    old(buf)@.len(),
                ),
            },
    ;
}

/// `a` and `b` describe their reads alike and, when they describe them,
/// give every read the same outcome.
pub open spec fn same_source<S: UdfSource>(a: S, b: S) -> bool {
    &&& a.reads_described() == b.reads_described()
    &&& a.reads_described() ==> forall|pos: int, len: nat| #[trigger]
        a.bytes_at(pos, len) == b.bytes_at(pos, len)
    &&& a.reads_described() ==> forall|pos: int, len: nat| #[trigger]
        a.ends_before(pos, len) == b.ends_before(pos, len)
}

/// A read of `len` bytes at `pos` fails in `src`, and fails by the source
/// ending first exactly when `eof`.
pub open spec fn read_fails<S: UdfSource>(src: S, pos: int, len: nat, e: ReadError) -> bool {
    src.bytes_at(pos, len) is None && (e is Eof) == src.ends_before(pos, len)
}

/// The logical block `lba` of `bs` bytes as a read of `src` gets it.
pub open spec fn block_at<S: UdfSource>(src: S, lba: u32, bs: u32) -> Option<Seq<u8>> {
    src.bytes_at(lba as int * bs as int, bs as nat)
}

/// Sources that agree on their reads give a read the same outcome, when
/// they describe them.
pub proof fn lemma_bytes_same_source<S: UdfSource>(a: S, b: S, pos: int, len: nat)
    requires
        same_source(a, b),
    ensures
        a.reads_described() ==> a.bytes_at(pos, len) == b.bytes_at(pos, len) && a.ends_before(
            pos,
            len,
        ) == b.ends_before(pos, len),
{
}

/// Sources that agree on their reads give a block the same bytes, when
/// they describe them.
pub proof fn lemma_block_at_same_source<S: UdfSource>(a: S, b: S, lba: u32, bs: u32)
    requires
        same_source(a, b),
    ensures
        a.reads_described() ==> block_at(a, lba, bs) == block_at(b, lba, bs),
{
}

/// What a read of `len` bytes at `pos` gets from a cursor over `data`: an
/// empty read always succeeds; otherwise the bytes, when they all lie in
/// `data`.
pub open spec fn cursor_bytes(data: Seq<u8>, pos: int, len: nat) -> Option<Seq<u8>> {
    if len == 0 {
        Some(Seq::empty())
    } else if 0 <= pos && pos + len <= data.len() {
        Some(data.subrange(pos, pos + len))
    } else {
        None
    }
}

/// `std::io::Cursor`, read through its `Seek` and `Read` impls.
#[verifier::external_type_specification]
#[verifier::external_body]
#[verifier::reject_recursive_types(T)]
pub struct ExCursor<T>(std::io::Cursor<T>);

/// The bytes a cursor over a byte vector holds (`Cursor::get_ref`).
pub uninterp spec fn spec_vec_cursor_data(c: std::io::Cursor<Vec<u8>>) -> Seq<u8>;

/// The position of a cursor over a byte vector (`Cursor::position`).
pub uninterp spec fn spec_vec_cursor_pos(c: std::io::Cursor<Vec<u8>>) -> u64;

/// The bytes a cursor over a byte slice holds (`Cursor::get_ref`).
pub uninterp spec fn spec_slice_cursor_data(c: std::io::Cursor<&[u8]>) -> Seq<u8>;

/// The position of a cursor over a byte slice (`Cursor::position`).
pub uninterp spec fn spec_slice_cursor_pos(c: std::io::Cursor<&[u8]>) -> u64;

/// `Seek::seek` of a cursor over a byte vector to `SeekFrom::Start(pos)`.
/// The claim: it succeeds (a cursor may be positioned anywhere, past its
/// end too), sets the position to `pos`, and leaves the bytes as they are.
#[verifier::external_body]
fn vec_cursor_seek(c: &mut std::io::Cursor<Vec<u8>>, pos: u64) -> (r: Result<u64, std::io::Error>)
    ensures
        r is Ok,
        spec_vec_cursor_pos(*final(c)) == pos,
        spec_vec_cursor_data(*final(c)) == spec_vec_cursor_data(*old(c)),
{
    c.seek(SeekFrom::Start(pos))
}

/// `Read::read_exact` of a cursor over a byte vector into `buf`. The claim:
/// the buffer keeps its length and the cursor its bytes; the read succeeds,
/// with the bytes from the cursor's position on, exactly when the buffer is
/// empty or those bytes lie in the cursor's data; otherwise the cursor's
/// read ends first, `read_exact` reports `UnexpectedEof`, and the error is
/// passed on as [`ReadError::Eof`] (a cursor's own reads never fail, so
/// `read_exact` reports no other kind).
#[verifier::external_body]
fn vec_cursor_read_exact(c: &mut std::io::Cursor<Vec<u8>>, buf: &mut Vec<u8>) -> (r: Result<
    (),
    ReadError,
>)
    ensures
        final(buf)@.len() == old(buf)@.len(),
        spec_vec_cursor_data(*final(c)) == spec_vec_cursor_data(*old(c)),
        match cursor_bytes(
            spec_vec_cursor_data(*old(c)),
            spec_vec_cursor_pos(*old(c)) as int,
            old(buf)@.len(),
        ) {
            Some(b) => r is Ok && final(buf)@ == b,
            None => r matches Err(ReadError::Eof(_)),
        },
{
    match c.read_exact(buf.as_mut_slice()) {
        Ok(()) => Ok(()),
        Err(e) => if e.kind() == std::io::ErrorKind::UnexpectedEof {
            Err(ReadError::Eof(e))
        } else {
            Err(ReadError::Fault(e))
        },
    }
}

/// `Seek::seek` of a cursor over a byte slice to `SeekFrom::Start(pos)`.
/// The claim: as for a cursor over a byte vector.
#[verifier::external_body]
fn slice_cursor_seek(c: &mut std::io::Cursor<&[u8]>, pos: u64) -> (r: Result<u64, std::io::Error>)
    ensures
        r is Ok,
        spec_slice_cursor_pos(*final(c)) == pos,
        spec_slice_cursor_data(*final(c)) == spec_slice_cursor_data(*old(c)),
{
    c.seek(SeekFrom::Start(pos))
}

/// `Read::read_exact` of a cursor over a byte slice into `buf`. The claim:
/// as for a cursor over a byte vector.
#[verifier::external_body]
fn slice_cursor_read_exact(c: &mut std::io::Cursor<&[u8]>, buf: &mut Vec<u8>) -> (r: Result<
    (),
    ReadError,
>)
    ensures
        final(buf)@.len() == old(buf)@.len(),
        spec_slice_cursor_data(*final(c)) == spec_slice_cursor_data(*old(c)),
        match cursor_bytes(
            spec_slice_cursor_data(*old(c)),
            spec_slice_cursor_pos(*old(c)) as int,
            old(buf)@.len(),
        ) {
            Some(b) => r is Ok && final(buf)@ == b,
            None => r matches Err(ReadError::Eof(_)),
        },
{
    match c.read_exact(buf.as_mut_slice()) {
        Ok(()) => Ok(()),
        Err(e) => if e.kind() == std::io::ErrorKind::UnexpectedEof {
            Err(ReadError::Eof(e))
        } else {
            Err(ReadError::Fault(e))
        },
    }
}

impl UdfSource for std::io::Cursor<Vec<u8>> {
    open spec fn reads_described(&self) -> bool {
        true
    }

    open spec fn bytes_at(&self, pos: int, len: nat) -> Option<Seq<u8>> {
        cursor_bytes(spec_vec_cursor_data(*self), pos, len)
    }

    open spec fn ends_before(&self, pos: int, len: nat) -> bool {
        true
    }

    fn read_exact_at(&mut self, byte_pos: u64, buf: &mut Vec<u8>) -> (r: Result<(), ReadError>) {
        let _ = vec_cursor_seek(self, byte_pos);
        vec_cursor_read_exact(self, buf)
    }
}

impl<'a> UdfSource for std::io::Cursor<&'a [u8]> {
    open spec fn reads_described(&self) -> bool {
        true
    }

    open spec fn bytes_at(&self, pos: int, len: nat) -> Option<Seq<u8>> {
        cursor_bytes(spec_slice_cursor_data(*self), pos, len)
    }

    open spec fn ends_before(&self, pos: int, len: nat) -> bool {
        true
    }

    fn read_exact_at(&mut self, byte_pos: u64, buf: &mut Vec<u8>) -> (r: Result<(), ReadError>) {
        let _ = slice_cursor_seek(self, byte_pos);
        slice_cursor_read_exact(self, buf)
    }
}

/// Seek to `byte_pos` and fill `buf` from there, surfacing the source's
/// error (a truncated image reports [`ReadError::Eof`]).
pub(crate) fn seek_read_checked<S: UdfSource>(reader: &mut S, byte_pos: u64, buf: &mut Vec<u8>) -> (r:
    Result<(), ReadError>)
    ensures
        final(buf)@.len() == old(buf)@.len(),
        same_source(*old(reader), *final(reader)),
        old(reader).reads_described() ==> match old(reader).bytes_at(byte_pos as int, old(buf)@.len()) {
            Some(b) => r is Ok && final(buf)@ == b,
            None => r matches Err(e) && read_fails(*old(reader), byte_pos as int, old(buf)@.len(), e),
        },
{
    reader.read_exact_at(byte_pos, buf)
}

/// Seek to `byte_pos` and fill `buf` from there; `None` on any error.
pub(crate) fn seek_read<S: UdfSource>(reader: &mut S, byte_pos: u64, buf: &mut Vec<u8>) -> (r: Option<
    (),
>)
    ensures
        final(buf)@.len() == old(buf)@.len(),
        same_source(*old(reader), *final(reader)),
        old(reader).reads_described() ==> match old(reader).bytes_at(byte_pos as int, old(buf)@.len()) {
            Some(b) => r is Some && final(buf)@ == b,
            None => r is None,
        },
{
    match seek_read_checked(reader, byte_pos, buf) {
        Ok(()) => Some(()),
        Err(_) => None,
    }
}

/// Read `len` bytes starting at `byte_pos`: the bytes, or the source's
/// error.
pub(crate) fn read_block_checked<S: UdfSource>(reader: &mut S, byte_pos: u64, len: usize) -> (r: Result<
    Vec<u8>,
    ReadError,
>)
    ensures
        same_source(*old(reader), *final(reader)),
        old(reader).reads_described() ==> match old(reader).bytes_at(byte_pos as int, len as nat) {
            Some(b) => r matches Ok(v) && v@ == b,
            None => r matches Err(e) && read_fails(*old(reader), byte_pos as int, len as nat, e),
        },
        r matches Ok(v) ==> v@.len() == len,
{
    let mut buf: Vec<u8> = vec![0u8; len];
    match seek_read_checked(reader, byte_pos, &mut buf) {
        Ok(()) => Ok(buf),
        Err(e) => Err(e),
    }
}

/// Read `len` bytes starting at `byte_pos`; `None` on any error.
pub(crate) fn read_block<S: UdfSource>(reader: &mut S, byte_pos: u64, len: usize) -> (r: Option<
    Vec<u8>,
>)
    ensures
        same_source(*old(reader), *final(reader)),
        old(reader).reads_described() ==> match old(reader).bytes_at(byte_pos as int, len as nat) {
            Some(b) => r matches Some(v) && v@ == b,
            None => r is None,
        },
        r matches Some(v) ==> v@.len() == len,
{
    let mut buf: Vec<u8> = vec![0u8; len];
    seek_read(reader, byte_pos, &mut buf)?;
    Some(buf)
}

} // verus!
