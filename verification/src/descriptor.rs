//! ECMA-167 descriptor tags: identifiers, the tag checksum, the descriptor
//! CRC, and the 12-byte timestamp.

use vstd::prelude::*;
use vstd::string::*;

use crate::bytes::{le16_at, spec_le16};
use crate::text::{push_padded, spec_padded};

verus! {

/// Anchor Volume Descriptor Pointer.
pub const TAG_AVDP: u16 = 2;
/// Partition Descriptor.
pub const TAG_PD: u16 = 5;
/// Logical Volume Descriptor.
pub const TAG_LVD: u16 = 6;
/// Terminating Descriptor.
pub const TAG_TERM: u16 = 8;
/// File Set Descriptor.
pub const TAG_FSD: u16 = 256;
/// File Identifier Descriptor.
pub const TAG_FID: u16 = 257;
/// File Entry.
pub const TAG_FE: u16 = 260;
/// File Entry as some implementations (older genisoimage) write it.
pub const TAG_FE_ALT: u16 = 261;
/// Extended File Entry.
pub const TAG_EFE: u16 = 266;

/// The sum that the tag checksum reduces: bytes `0..n` of `tag` except byte 4.
pub open spec fn spec_tag_sum(tag: Seq<u8>, n: int) -> int
    decreases n,
{
    if n <= 0 {
        0
    } else {
        spec_tag_sum(tag, n - 1) + if n - 1 == 4 {
            0int
        } else {
            tag[n - 1] as int
        }
    }
}

/// The ECMA-167 descriptor-tag checksum (3/7.2): the mod-256 sum of the
/// first 16 bytes (fewer when `tag` is shorter) except byte 4, which holds the
/// checksum itself.
pub open spec fn spec_tag_checksum(tag: Seq<u8>) -> u8 {
    let n = if tag.len() < 16 {
        tag.len() as int
    } else {
        16
    };
    (spec_tag_sum(tag, n) % 256) as u8
}

/// Compute the descriptor-tag checksum of `tag`.
pub fn tag_checksum(tag: &[u8]) -> (r: u8)
    ensures
        r == spec_tag_checksum(tag@),
{
    let n: usize = if tag.len() < 16 {
        tag.len()
    } else {
        16
    };
    let mut sum: u32 = 0;
    let mut i: usize = 0;
    while i < n
        invariant
            n <= tag@.len(),
            n <= 16,
            i <= n,
            sum as int == spec_tag_sum(tag@, i as int),
            sum <= 255 * i,
        decreases n - i,
    {
        if i != 4 {
            sum = sum + tag[i] as u32;
        }
        i = i + 1;
    }
    (sum % 256) as u8
}

/// The tag checksum does not depend on byte 4, the field that records it.
pub proof fn lemma_tag_checksum_ignores_byte_4(tag: Seq<u8>, v: u8)
    requires
        tag.len() > 4,
    ensures
        spec_tag_checksum(tag.update(4, v)) == spec_tag_checksum(tag),
{
    let t2 = tag.update(4, v);
    let n = if tag.len() < 16 {
        tag.len() as int
    } else {
        16
    };
    assert forall|k: int| 0 <= k <= n implies spec_tag_sum(t2, k) == spec_tag_sum(tag, k) by {
        lemma_tag_sum_update(tag, v, k);
    }
}

proof fn lemma_tag_sum_update(tag: Seq<u8>, v: u8, k: int)
    requires
        tag.len() > 4,
        k <= tag.len(),
    ensures
        spec_tag_sum(tag.update(4, v), k) == spec_tag_sum(tag, k),
    decreases k,
{
    if k > 0 {
        lemma_tag_sum_update(tag, v, k - 1);
    }
}

/// One bit step of CRC-CCITT (polynomial `0x1021`, no reflection).
pub open spec fn crc_bit(c: u16) -> u16 {
    if c & 0x8000 != 0 {
        ((c << 1u16) ^ 0x1021u16) as u16
    } else {
        (c << 1u16) as u16
    }
}

/// `n` bit steps of CRC-CCITT.
pub open spec fn crc_bits(c: u16, n: nat) -> u16
    decreases n,
{
    if n == 0 {
        c
    } else {
        crc_bits(crc_bit(c), (n - 1) as nat)
    }
}

/// Feed one byte into a CRC-CCITT register.
pub open spec fn crc_byte(c: u16, b: u8) -> u16 {
    crc_bits((c ^ ((b as u16) << 8u16)) as u16, 8)
}

/// The ECMA-167 descriptor CRC (3/7.2) of `body`: CRC-CCITT with polynomial
/// `0x1021`, initial value 0, no reflection and no final XOR.
pub open spec fn spec_crc(body: Seq<u8>) -> u16
    decreases body.len(),
{
    if body.len() == 0 {
        0
    } else {
        crc_byte(spec_crc(body.drop_last()), body.last())
    }
}

/// One CRC-CCITT bit step is linear over exclusive or.
proof fn lemma_crc_bit_xor(x: u16, y: u16)
    ensures
        crc_bit(x ^ y) == crc_bit(x) ^ crc_bit(y),
{
    assert(crc_bit(x ^ y) == crc_bit(x) ^ crc_bit(y)) by (bit_vector);
}

/// `n` CRC-CCITT bit steps are linear over exclusive or.
proof fn lemma_crc_bits_xor(x: u16, y: u16, n: nat)
    ensures
        crc_bits(x ^ y, n) == crc_bits(x, n) ^ crc_bits(y, n),
    decreases n,
{
    if n > 0 {
        lemma_crc_bit_xor(x, y);
        lemma_crc_bits_xor(crc_bit(x), crc_bit(y), (n - 1) as nat);
    }
}

/// The zero register stays zero under CRC-CCITT bit steps.
proof fn lemma_crc_bits_zero(n: nat)
    ensures
        crc_bits(0, n) == 0,
    decreases n,
{
    if n > 0 {
        assert(crc_bit(0) == 0) by (bit_vector);
        lemma_crc_bits_zero((n - 1) as nat);
    }
}

/// The bytes of `a` and `b`, position by position, combined by exclusive or.
pub open spec fn spec_xor_bytes(a: Seq<u8>, b: Seq<u8>) -> Seq<u8> {
    Seq::new(a.len(), |i: int| a[i] ^ b[i])
}

/// The descriptor CRC is linear: the CRC of two equally long bodies
/// combined by exclusive or is the exclusive or of their CRCs.
pub proof fn lemma_crc_linear(a: Seq<u8>, b: Seq<u8>)
    requires
        a.len() == b.len(),
    ensures
        spec_crc(spec_xor_bytes(a, b)) == spec_crc(a) ^ spec_crc(b),
    decreases a.len(),
{
    if a.len() == 0 {
        assert(0u16 ^ 0u16 == 0u16) by (bit_vector);
    } else {
        let (a0, b0) = (a.drop_last(), b.drop_last());
        lemma_crc_linear(a0, b0);
        assert(spec_xor_bytes(a, b).drop_last() =~= spec_xor_bytes(a0, b0));
        let (c1, c2) = (spec_crc(a0), spec_crc(b0));
        let (p, q) = (a.last(), b.last());
        assert(((c1 ^ c2) ^ (((p ^ q) as u16) << 8u16)) as u16 == ((c1 ^ ((p as u16) << 8u16)) as u16)
            ^ ((c2 ^ ((q as u16) << 8u16)) as u16)) by (bit_vector);
        lemma_crc_bits_xor(
            (c1 ^ ((p as u16) << 8u16)) as u16,
            (c2 ^ ((q as u16) << 8u16)) as u16,
            8,
        );
    }
}

/// A leading zero byte does not change the descriptor CRC (its register
/// starts at zero).
pub proof fn lemma_crc_leading_zero(m: Seq<u8>)
    ensures
        spec_crc(seq![0u8] + m) == spec_crc(m),
    decreases m.len(),
{
    if m.len() == 0 {
        assert(seq![0u8] + m =~= seq![0u8]);
        assert(seq![0u8].drop_last() =~= Seq::<u8>::empty());
        assert((0u16 ^ ((0u8 as u16) << 8u16)) as u16 == 0u16) by (bit_vector);
        lemma_crc_bits_zero(8);
        assert(spec_crc(Seq::<u8>::empty()) == 0);
        assert(crc_byte(0, 0) == 0);
        assert(spec_crc(seq![0u8]) == crc_byte(spec_crc(seq![0u8].drop_last()), 0));
    } else {
        let z = seq![0u8] + m;
        assert(z.drop_last() =~= seq![0u8] + m.drop_last());
        assert(z.last() == m.last());
        lemma_crc_leading_zero(m.drop_last());
        assert(spec_crc(z) == crc_byte(spec_crc(z.drop_last()), z.last()));
    }
}

/// Eight CRC-CCITT bit steps shift a register below 256 up by a byte.
proof fn lemma_crc_bits_low_byte(x: u16)
    requires
        x < 256,
    ensures
        crc_bits(x, 8) == (x << 8u16) as u16,
{
    reveal_with_fuel(crc_bits, 9);
    assert(crc_bit(crc_bit(crc_bit(crc_bit(crc_bit(crc_bit(crc_bit(crc_bit(x)))))))) == (x
        << 8u16) as u16) by (bit_vector)
        requires
            x < 256,
    ;
}

/// A body followed by its CRC, high byte first, has CRC zero.
pub proof fn lemma_crc_residue(m: Seq<u8>)
    ensures
        spec_crc(m + seq![(spec_crc(m) >> 8u16) as u8, (spec_crc(m) & 0xffu16) as u8]) == 0,
{
    let c = spec_crc(m);
    let hi = (c >> 8u16) as u8;
    let lo = (c & 0xffu16) as u8;
    let m1 = m.push(hi);
    let m2 = m1.push(lo);
    assert(m + seq![hi, lo] =~= m2);
    assert(m2.drop_last() =~= m1);
    assert(m1.drop_last() =~= m);
    let x = (c & 0xffu16) as u16;
    assert((c ^ ((hi as u16) << 8u16)) as u16 == x && x < 256) by (bit_vector)
        requires
            hi == (c >> 8u16) as u8,
            x == c & 0xffu16,
    ;
    lemma_crc_bits_low_byte(x);
    assert(((x << 8u16) as u16 ^ ((lo as u16) << 8u16)) as u16 == 0u16) by (bit_vector)
        requires
            x == c & 0xffu16,
            lo == (c & 0xffu16) as u8,
    ;
    lemma_crc_bits_zero(8);
    assert(spec_crc(m1) == crc_byte(spec_crc(m), hi));
    assert(crc_byte(c, hi) == crc_bits(x, 8));
    assert(spec_crc(m1) == (x << 8u16) as u16);
    assert(spec_crc(m2) == crc_byte(spec_crc(m1), lo));
    assert(crc_byte((x << 8u16) as u16, lo) == crc_bits(0, 8));
}

/// Compute the ECMA-167 descriptor CRC of `body`.
pub fn ecma167_crc(body: &[u8]) -> (r: u16)
    ensures
        r == spec_crc(body@),
{
    let mut crc: u16 = 0;
    let mut i: usize = 0;
    while i < body.len()
        invariant
            i <= body@.len(),
            crc == spec_crc(body@.take(i as int)),
        decreases body@.len() - i,
    {
        let b = body[i];
        let mut c: u16 = crc ^ ((b as u16) << 8u16);
        let ghost c0 = c;
        let mut j: usize = 0;
        while j < 8
            invariant
                j <= 8,
                crc_bits(c0, 8) == crc_bits(c, (8 - j) as nat),
            decreases 8 - j,
        {
            if c & 0x8000 != 0 {
                c = (c << 1u16) ^ 0x1021;
            } else {
                c = c << 1u16;
            }
            j = j + 1;
        }
        proof {
            assert(body@.take(i + 1).drop_last() =~= body@.take(i as int));
            assert(body@.take(i + 1).last() == b);
        }
        crc = c;
        i = i + 1;
    }
    proof {
        assert(body@.take(body@.len() as int) =~= body@);
    }
    crc
}

/// The name of the descriptor that tag identifier `id` denotes, or `None`
/// for an identifier this crate does not recognise.
pub open spec fn spec_descriptor_label(id: u16) -> Option<Seq<char>> {
    if id == TAG_AVDP {
        Some("AVDP"@)
    } else if id == TAG_PD {
        Some("PartitionDescriptor"@)
    } else if id == TAG_LVD {
        Some("LogicalVolumeDescriptor"@)
    } else if id == TAG_TERM {
        Some("TerminatingDescriptor"@)
    } else if id == TAG_FSD {
        Some("FileSetDescriptor"@)
    } else if id == TAG_FID {
        Some("FileIdentifierDescriptor"@)
    } else if id == TAG_FE || id == TAG_FE_ALT {
        Some("FileEntry"@)
    } else if id == TAG_EFE {
        Some("ExtendedFileEntry"@)
    } else if id == 1 {
        Some("PrimaryVolumeDescriptor"@)
    } else if id == 3 {
        Some("VolumeDescriptorPointer"@)
    } else if id == 4 {
        Some("ImplementationUseVolumeDescriptor"@)
    } else if id == 7 {
        Some("UnallocatedSpaceDescriptor"@)
    } else if id == 9 {
        Some("LogicalVolumeIntegrityDescriptor"@)
    } else if id == 258 {
        Some("AllocationExtentDescriptor"@)
    } else if id == 259 {
        Some("IndirectEntry"@)
    } else if id == 262 {
        Some("SpaceBitmapDescriptor"@)
    } else if id == 263 {
        Some("PartitionIntegrityEntry"@)
    } else if id == 264 {
        Some("ExtendedAttributeHeaderDescriptor"@)
    } else if id == 265 {
        Some("UnallocatedSpaceEntry"@)
    } else {
        None
    }
}

/// Human-readable label for a descriptor tag identifier.
pub fn descriptor_label(tag_ident: u16) -> (r: Option<&'static str>)
    ensures
        r matches Some(s) ==> spec_descriptor_label(tag_ident) == Some(s@),
        r is None ==> spec_descriptor_label(tag_ident) is None,
{
    if tag_ident == TAG_AVDP {
        Some("AVDP")
    } else if tag_ident == TAG_PD {
        Some("PartitionDescriptor")
    } else if tag_ident == TAG_LVD {
        Some("LogicalVolumeDescriptor")
    } else if tag_ident == TAG_TERM {
        Some("TerminatingDescriptor")
    } else if tag_ident == TAG_FSD {
        Some("FileSetDescriptor")
    } else if tag_ident == TAG_FID {
        Some("FileIdentifierDescriptor")
    } else if tag_ident == TAG_FE || tag_ident == TAG_FE_ALT {
        Some("FileEntry")
    } else if tag_ident == TAG_EFE {
        Some("ExtendedFileEntry")
    } else if tag_ident == 1 {
        Some("PrimaryVolumeDescriptor")
    } else if tag_ident == 3 {
        Some("VolumeDescriptorPointer")
    } else if tag_ident == 4 {
        Some("ImplementationUseVolumeDescriptor")
    } else if tag_ident == 7 {
        Some("UnallocatedSpaceDescriptor")
    } else if tag_ident == 9 {
        Some("LogicalVolumeIntegrityDescriptor")
    } else if tag_ident == 258 {
        Some("AllocationExtentDescriptor")
    } else if tag_ident == 259 {
        Some("IndirectEntry")
    } else if tag_ident == 262 {
        Some("SpaceBitmapDescriptor")
    } else if tag_ident == 263 {
        Some("PartitionIntegrityEntry")
    } else if tag_ident == 264 {
        Some("ExtendedAttributeHeaderDescriptor")
    } else if tag_ident == 265 {
        Some("UnallocatedSpaceEntry")
    } else {
        None
    }
}

/// The year field of a timestamp, a signed 16-bit value.
pub open spec fn spec_timestamp_year(b: Seq<u8>) -> int {
    let raw = spec_le16(b, 2);
    if raw >= 0x8000 {
        raw - 0x1_0000
    } else {
        raw
    }
}

/// Decode an ECMA-167 timestamp (1/7.3, 12 bytes) to `YYYY-MM-DD HH:MM:SS`;
/// `None` when fewer than 12 bytes are given, the year is outside
/// 1970..=2200, the month outside 1..=12, or the day outside 1..=31.
pub open spec fn spec_decode_timestamp(b: Seq<u8>) -> Option<Seq<char>> {
    if b.len() < 12 {
        None
    } else if !(1970 <= spec_timestamp_year(b) <= 2200) {
        None
    } else if !(1 <= b[4] <= 12) || !(1 <= b[5] <= 31) {
        None
    } else {
        Some(
            spec_padded(spec_timestamp_year(b) as nat, 4) + seq!['-'] + spec_padded(b[4] as nat, 2)
                + seq!['-'] + spec_padded(b[5] as nat, 2) + seq![' '] + spec_padded(
                b[6] as nat,
                2,
            ) + seq![':'] + spec_padded(b[7] as nat, 2) + seq![':'] + spec_padded(b[8] as nat, 2),
        )
    }
}

/// Decode an ECMA-167 timestamp to `YYYY-MM-DD HH:MM:SS`.
pub fn decode_timestamp(b: &[u8]) -> (r: Option<String>)
    ensures
        r matches Some(s) ==> spec_decode_timestamp(b@) == Some(s@),
        r is None ==> spec_decode_timestamp(b@) is None,
{
    if b.len() < 12 {
        return None;
    }
    let raw = le16_at(b, 2);
    // A negative i16 year has its top bit set, which puts `raw` above 2200.
    if raw < 1970 || raw > 2200 {
        return None;
    }
    let (month, day, hour, minute, second) = (b[4], b[5], b[6], b[7], b[8]);
    if month < 1 || month > 12 || day < 1 || day > 31 {
        return None;
    }
    proof {
        reveal_strlit("-");
        reveal_strlit(" ");
        reveal_strlit(":");
    }
    let mut s = String::new();
    push_padded(&mut s, raw as u64, 4);
    s.append("-");
    push_padded(&mut s, month as u64, 2);
    s.append("-");
    push_padded(&mut s, day as u64, 2);
    s.append(" ");
    push_padded(&mut s, hour as u64, 2);
    s.append(":");
    push_padded(&mut s, minute as u64, 2);
    s.append(":");
    push_padded(&mut s, second as u64, 2);
    Some(s)
}

/// The Modification Time of a File Entry: at offset 84 in a base File Entry,
/// at offset 92 in an Extended File Entry (whose Object Size and Creation
/// Time fields come first).
pub open spec fn spec_fe_modification_time(sector: Seq<u8>, is_efe: bool) -> Option<Seq<char>> {
    let off: int = if is_efe {
        92
    } else {
        84
    };
    if off + 12 <= sector.len() {
        spec_decode_timestamp(sector.subrange(off, off + 12))
    } else {
        None
    }
}

/// The Modification Time of the File Entry in `sector`.
pub fn fe_modification_time(sector: &[u8], is_efe: bool) -> (r: Option<String>)
    ensures
        r matches Some(s) ==> spec_fe_modification_time(sector@, is_efe) == Some(s@),
        r is None ==> spec_fe_modification_time(sector@, is_efe) is None,
{
    let off: usize = if is_efe {
        92
    } else {
        84
    };
    if sector.len() < off + 12 {
        return None;
    }
    let field = slice_subrange(sector, off, off + 12);
    decode_timestamp(field)
}

/// The bytes `from..to` of `s`.
pub fn slice_subrange(s: &[u8], from: usize, to: usize) -> (r: &[u8])
    requires
        from <= to <= s@.len(),
    ensures
        r@ == s@.subrange(from as int, to as int),
{
    let (head, _) = s.split_at(to);
    let (_, tail) = head.split_at(from);
    assert(tail@ =~= s@.subrange(from as int, to as int));
    tail
}

} // verus!
