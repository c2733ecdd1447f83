//! Forensic findings: graded anomalies over the parsed ECMA-167 / OSTA
//! structures.
//!
//! Every anomaly's severity, category, stable code and note are derived from
//! its [`UdfAnomalyKind`], so they cannot drift. The analyzer reports only
//! what the reader observes:
//!
//! - [`UdfAnomalyKind::TagCrcMismatch`] / [`UdfAnomalyKind::TagChecksumBad`]:
//!   a visited descriptor whose recorded CRC-CCITT or tag checksum differs
//!   from the recomputed one.
//! - [`UdfAnomalyKind::FileAfterVolume`]: a File Entry modified later than the
//!   File Set Descriptor's recording time.
//! - [`UdfAnomalyKind::SlackData`]: non-zero bytes in a file's final-block
//!   slack (past `InformationLength`).
//!
//! Findings are observations, never conclusions: the notes say "consistent
//! with".

use vstd::prelude::*;
use vstd::string::*;

use crate::bytes::{le16_at, spec_le16};
use crate::descriptor::{
    spec_decode_timestamp, spec_timestamp_year,
    descriptor_label, ecma167_crc, fe_modification_time, slice_subrange, spec_crc,
    spec_descriptor_label, spec_fe_modification_time, spec_tag_checksum, tag_checksum, TAG_EFE,
    TAG_FE, TAG_FE_ALT, TAG_TERM,
};
use crate::directory::{
    lemma_block_pos, lemma_fe_data_same_source, read_dir_at_lba, spec_fe_data_at, spec_fid_records,
    spec_is_fe_tag, FidRecord,
};
use crate::volume::{
    fsd_recording_time, parse_udf_state_checked, spec_fsd_recording_time, spec_anchor_search, spec_bootstrap_at,
    AnchorSearch, UdfState,
};
use std::collections::HashSet;
use crate::slack::{fe_slack_nonzero, lemma_slack_at_same_source, spec_slack_at, spec_slack_witness};
use crate::source::{
    block_at, lemma_block_at_same_source, read_block_checked, read_fails, same_source, ReadError,
    UdfSource,
};
use crate::text::{hex_char, push_decimal, push_hex4, spec_decimal, spec_hex4, spec_padded};

verus! {

/// Severity of a finding (`Info` < `Low` < `Medium` < `High` < `Critical`).
#[derive(Debug, Clone, Copy, PartialEq, Eq, Structural, PartialOrd, Ord, Hash)]
pub enum Severity {
    /// Informational: context, not suspicious on its own.
    Info,
    /// Minor irregularity with a common benign explanation.
    Low,
    /// Notable irregularity worth examiner attention.
    Medium,
    /// Strong indicator of tampering or concealment.
    High,
    /// Structural contradiction: the medium cannot be trusted as-is.
    Critical,
}

/// The upper-case label of a severity.
pub open spec fn spec_severity_label(s: Severity) -> Seq<char> {
    match s {
        Severity::Info => "INFO"@,
        Severity::Low => "LOW"@,
        Severity::Medium => "MEDIUM"@,
        Severity::High => "HIGH"@,
        Severity::Critical => "CRITICAL"@,
    }
}

impl Severity {
    /// The upper-case label (`INFO`, `LOW`, `MEDIUM`, `HIGH`, `CRITICAL`).
    pub fn label(&self) -> (r: &'static str)
        ensures
            r@ == spec_severity_label(*self),
    {
        match self {
            Severity::Info => "INFO",
            Severity::Low => "LOW",
            Severity::Medium => "MEDIUM",
            Severity::High => "HIGH",
            Severity::Critical => "CRITICAL",
        }
    }
}

/// The forensic lens a finding belongs to.
#[derive(Debug, Clone, Copy, PartialEq, Eq, Structural, Hash)]
pub enum Category {
    /// Integrity / authenticity (CRC, checksum, completeness).
    Integrity,
    /// Structural contradiction.
    Structure,
    /// Residue / recoverability (slack, hidden data).
    Residue,
    /// Provenance / attribution.
    Provenance,
    /// History: the medium's biography.
    History,
    /// Concealment / anti-forensics.
    Concealment,
    /// Malicious code or behavior.
    Threat,
}

/// Classification of a UDF anomaly, with the evidence that reproduces it.
#[derive(Debug, Clone, PartialEq, Eq)]
#[allow(inconsistent_fields)]
pub enum UdfAnomalyKind {
    /// A descriptor's recorded `DescriptorCRC` disagrees with the CRC-CCITT
    /// recomputed over its body.
    TagCrcMismatch {
        /// Descriptor kind (e.g. `AVDP`, `FileSetDescriptor`, `FileEntry`).
        descriptor: String,
        /// Physical LBA of the descriptor.
        lba: u32,
        /// CRC recorded in the tag.
        stored: u16,
        /// CRC recomputed over the body.
        computed: u16,
    },
    /// A descriptor tag's recorded checksum disagrees with the recomputed
    /// mod-256 sum of its other bytes.
    TagChecksumBad {
        /// Descriptor kind.
        descriptor: String,
        /// Physical LBA of the descriptor.
        lba: u32,
        /// Checksum recorded in the tag.
        stored: u8,
        /// Checksum recomputed over the tag.
        computed: u8,
    },
    /// A File Entry's modification time is later than the File Set
    /// Descriptor's recording time.
    FileAfterVolume {
        /// Physical LBA of the File Entry.
        lba: u32,
        /// The File Entry modification time (`YYYY-MM-DD HH:MM:SS`).
        file_time: String,
        /// The File Set Descriptor recording time (`YYYY-MM-DD HH:MM:SS`).
        volume_time: String,
    },
    /// A file's final logical block has non-zero bytes past
    /// `InformationLength`.
    SlackData {
        /// Physical LBA of the File Entry.
        lba: u32,
        /// Number of non-zero bytes in the final-block slack.
        nonzero_bytes: u32,
        /// Total slack bytes in the final block.
        slack_bytes: u32,
    },
}

/// An anomaly kind with its text fields taken by their characters (the
/// variants and fields of [`UdfAnomalyKind`]).
#[allow(inconsistent_fields)]
pub enum KindModel {
    /// See [`UdfAnomalyKind::TagCrcMismatch`].
    TagCrcMismatch { descriptor: Seq<char>, lba: u32, stored: u16, computed: u16 },
    /// See [`UdfAnomalyKind::TagChecksumBad`].
    TagChecksumBad { descriptor: Seq<char>, lba: u32, stored: u8, computed: u8 },
    /// See [`UdfAnomalyKind::FileAfterVolume`].
    FileAfterVolume { lba: u32, file_time: Seq<char>, volume_time: Seq<char> },
    /// See [`UdfAnomalyKind::SlackData`].
    SlackData { lba: u32, nonzero_bytes: u32, slack_bytes: u32 },
}

impl View for UdfAnomalyKind {
    type V = KindModel;

    open spec fn view(&self) -> KindModel {
        match self {
            UdfAnomalyKind::TagCrcMismatch { descriptor, lba, stored, computed } =>
                KindModel::TagCrcMismatch {
                descriptor: descriptor@,
                lba: *lba,
                stored: *stored,
                computed: *computed,
            },
            UdfAnomalyKind::TagChecksumBad { descriptor, lba, stored, computed } =>
                KindModel::TagChecksumBad {
                descriptor: descriptor@,
                lba: *lba,
                stored: *stored,
                computed: *computed,
            },
            UdfAnomalyKind::FileAfterVolume { lba, file_time, volume_time } =>
                KindModel::FileAfterVolume {
                lba: *lba,
                file_time: file_time@,
                volume_time: volume_time@,
            },
            UdfAnomalyKind::SlackData { lba, nonzero_bytes, slack_bytes } => KindModel::SlackData {
                lba: *lba,
                nonzero_bytes: *nonzero_bytes,
                slack_bytes: *slack_bytes,
            },
        }
    }
}

/// The severity of a kind: a broken CRC or checksum is High, a file newer
/// than its volume Medium, slack data Low.
pub open spec fn spec_severity(k: KindModel) -> Severity {
    match k {
        KindModel::TagCrcMismatch { .. } => Severity::High,
        KindModel::TagChecksumBad { .. } => Severity::High,
        KindModel::FileAfterVolume { .. } => Severity::Medium,
        KindModel::SlackData { .. } => Severity::Low,
    }
}

/// The category of a kind: tag mismatches are Integrity, slack data
/// Residue, a file newer than its volume History.
pub open spec fn spec_category(k: KindModel) -> Category {
    match k {
        KindModel::TagCrcMismatch { .. } => Category::Integrity,
        KindModel::TagChecksumBad { .. } => Category::Integrity,
        KindModel::FileAfterVolume { .. } => Category::History,
        KindModel::SlackData { .. } => Category::Residue,
    }
}

/// The stable machine-readable code of a kind.
pub open spec fn spec_code(k: KindModel) -> Seq<char> {
    match k {
        KindModel::TagCrcMismatch { .. } => "UDF-TAG-CRC-MISMATCH"@,
        KindModel::TagChecksumBad { .. } => "UDF-TAG-CHECKSUM-BAD"@,
        KindModel::FileAfterVolume { .. } => "UDF-TIME-AFTER-VOLUME"@,
        KindModel::SlackData { .. } => "UDF-SLACK-DATA"@,
    }
}

/// The human-readable note of a kind.
pub open spec fn spec_note(k: KindModel) -> Seq<char> {
    match k {
        KindModel::TagCrcMismatch { descriptor, lba, stored, computed } => descriptor
            + " descriptor at LBA "@ + spec_decimal(lba as nat) + ": recorded DescriptorCRC "@
            + spec_hex4(stored)
            + " disagrees with the CRC-CCITT recomputed over its body ("@ + spec_hex4(computed)
            + ") — ECMA-167 mandates a valid CRC on every descriptor, so a mismatch is consistent with the descriptor body having been edited without recomputing the CRC, or with corruption"@,
        KindModel::TagChecksumBad { descriptor, lba, stored, computed } => descriptor
            + " descriptor at LBA "@ + spec_decimal(lba as nat) + ": recorded tag checksum "@
            + spec_decimal(stored as nat)
            + " disagrees with the recomputed mod-256 sum of the tag bytes ("@ + spec_decimal(
            computed as nat,
        )
            + ") — ECMA-167 mandates a valid descriptor-tag checksum, so a mismatch is consistent with the 16-byte tag header having been edited, or with corruption"@,
        KindModel::FileAfterVolume { lba, file_time, volume_time } => "File Entry at LBA "@
            + spec_decimal(lba as nat) + " has modification time "@ + file_time
            + ", after the volume File Set Descriptor recording time "@ + volume_time
            + " — files normally predate volume finalization, so this is consistent with a post-authoring addition/touch or a backdated volume recording time"@,
        KindModel::SlackData { lba, nonzero_bytes, slack_bytes } => "File Entry at LBA "@
            + spec_decimal(lba as nat) + " has "@ + spec_decimal(nonzero_bytes as nat)
            + " non-zero byte(s) in its "@ + spec_decimal(slack_bytes as nat)
            + "-byte final-block slack — data unaccounted for by InformationLength; consistent with buffer/RAM fragments leaked by the authoring host (often benign: not zero-filled) or with hidden bytes"@,
    }
}

impl UdfAnomalyKind {
    /// Severity of this kind: the single source of truth.
    pub fn severity(&self) -> (r: Severity)
        ensures
            r == spec_severity(self@),
    {
        match self {
            UdfAnomalyKind::TagCrcMismatch { .. } => Severity::High,
            UdfAnomalyKind::TagChecksumBad { .. } => Severity::High,
            UdfAnomalyKind::FileAfterVolume { .. } => Severity::Medium,
            UdfAnomalyKind::SlackData { .. } => Severity::Low,
        }
    }

    /// Analytical lens of this kind.
    pub fn category(&self) -> (r: Category)
        ensures
            r == spec_category(self@),
    {
        match self {
            UdfAnomalyKind::TagCrcMismatch { .. } => Category::Integrity,
            UdfAnomalyKind::TagChecksumBad { .. } => Category::Integrity,
            UdfAnomalyKind::FileAfterVolume { .. } => Category::History,
            UdfAnomalyKind::SlackData { .. } => Category::Residue,
        }
    }

    /// Stable machine-readable code (a published contract: never reused or
    /// renamed).
    pub fn code(&self) -> (r: &'static str)
        ensures
            r@ == spec_code(self@),
    {
        match self {
            UdfAnomalyKind::TagCrcMismatch { .. } => "UDF-TAG-CRC-MISMATCH",
            UdfAnomalyKind::TagChecksumBad { .. } => "UDF-TAG-CHECKSUM-BAD",
            UdfAnomalyKind::FileAfterVolume { .. } => "UDF-TIME-AFTER-VOLUME",
            UdfAnomalyKind::SlackData { .. } => "UDF-SLACK-DATA",
        }
    }

    /// Human-readable description (an observation, not a conclusion).
    pub fn note(&self) -> (r: String)
        ensures
            r@ == spec_note(self@),
    {
        match self {
            UdfAnomalyKind::TagCrcMismatch { descriptor, lba, stored, computed } => {
                let mut s = descriptor.clone();
                s.append(" descriptor at LBA ");
                push_decimal(&mut s, *lba as u64);
                s.append(": recorded DescriptorCRC ");
                push_hex4(&mut s, *stored);
                s.append(" disagrees with the CRC-CCITT recomputed over its body (");
                push_hex4(&mut s, *computed);
                s.append(
                    ") — ECMA-167 mandates a valid CRC on every descriptor, so a mismatch is consistent with the descriptor body having been edited without recomputing the CRC, or with corruption",
                );
                s
            },
            UdfAnomalyKind::TagChecksumBad { descriptor, lba, stored, computed } => {
                let mut s = descriptor.clone();
                s.append(" descriptor at LBA ");
                push_decimal(&mut s, *lba as u64);
                s.append(": recorded tag checksum ");
                push_decimal(&mut s, *stored as u64);
                s.append(" disagrees with the recomputed mod-256 sum of the tag bytes (");
                push_decimal(&mut s, *computed as u64);
                s.append(
                    ") — ECMA-167 mandates a valid descriptor-tag checksum, so a mismatch is consistent with the 16-byte tag header having been edited, or with corruption",
                );
                s
            },
            UdfAnomalyKind::FileAfterVolume { lba, file_time, volume_time } => {
                let mut s = String::from_str("File Entry at LBA ");
                push_decimal(&mut s, *lba as u64);
                s.append(" has modification time ");
                s.append(file_time.as_str());
                s.append(", after the volume File Set Descriptor recording time ");
                s.append(volume_time.as_str());
                s.append(
                    " — files normally predate volume finalization, so this is consistent with a post-authoring addition/touch or a backdated volume recording time",
                );
                s
            },
            UdfAnomalyKind::SlackData { lba, nonzero_bytes, slack_bytes } => {
                let mut s = String::from_str("File Entry at LBA ");
                push_decimal(&mut s, *lba as u64);
                s.append(" has ");
                push_decimal(&mut s, *nonzero_bytes as u64);
                s.append(" non-zero byte(s) in its ");
                push_decimal(&mut s, *slack_bytes as u64);
                s.append(
                    "-byte final-block slack — data unaccounted for by InformationLength; consistent with buffer/RAM fragments leaked by the authoring host (often benign: not zero-filled) or with hidden bytes",
                );
                s
            },
        }
    }
}

/// A single UDF anomaly with its derived severity, code and note.
#[derive(Debug, Clone)]
pub struct UdfAnomaly {
    /// Severity, derived from `kind`.
    pub severity: Severity,
    /// Stable machine-readable code, derived from `kind`.
    pub code: &'static str,
    /// The classified anomaly with its evidence.
    pub kind: UdfAnomalyKind,
    /// Human-readable note, derived from `kind`.
    pub note: String,
}

impl UdfAnomaly {
    /// The severity, code and note are the ones `kind` derives.
    pub open spec fn derived(&self) -> bool {
        &&& self.severity == spec_severity(self.kind@)
        &&& self.code@ == spec_code(self.kind@)
        &&& self.note@ == spec_note(self.kind@)
    }

    /// Build an anomaly, deriving severity, code and note from `kind`.
    pub fn new(kind: UdfAnomalyKind) -> (r: UdfAnomaly)
        ensures
            r.kind@ == kind@,
            r.derived(),
    {
        let severity = kind.severity();
        let code = kind.code();
        let note = kind.note();
        UdfAnomaly { severity, code, kind, note }
    }

    /// The display form `[SEVERITY] code: note`.
    pub fn display_string(&self) -> (r: String)
        ensures
            r@ == "["@ + spec_severity_label(self.severity) + "] "@ + self.code@ + ": "@
                + self.note@,
    {
        let mut s = String::from_str("[");
        s.append(self.severity.label());
        s.append("] ");
        s.append(self.code);
        s.append(": ");
        s.append(self.note.as_str());
        s
    }
}

} // verus!

verus! {

/// `a` sorts after `b`, character by character (for UTF-8 text this is the
/// byte-wise order of `str`).
pub open spec fn spec_seq_gt(a: Seq<char>, b: Seq<char>) -> bool
    decreases a.len(),
{
    if a.len() == 0 {
        false
    } else if b.len() == 0 {
        true
    } else if a[0] != b[0] {
        (a[0] as u32) > (b[0] as u32)
    } else {
        spec_seq_gt(a.drop_first(), b.drop_first())
    }
}

proof fn lemma_seq_gt_skip(a: Seq<char>, b: Seq<char>, i: int)
    requires
        0 <= i <= a.len(),
        i <= b.len(),
        forall|j: int| 0 <= j < i ==> a[j] == b[j],
    ensures
        spec_seq_gt(a, b) == spec_seq_gt(a.skip(i), b.skip(i)),
    decreases i,
{
    if i > 0 {
        assert(a.drop_first().skip(i - 1) =~= a.skip(i));
        assert(b.drop_first().skip(i - 1) =~= b.skip(i));
        lemma_seq_gt_skip(a.drop_first(), b.drop_first(), i - 1);
    } else {
        assert(a.skip(0) =~= a);
        assert(b.skip(0) =~= b);
    }
}

/// Comparing `p1 + r1` with `p2 + r2`, where the prefixes are equally
/// long: the prefixes decide when they differ, the rests otherwise.
proof fn lemma_seq_gt_split(p1: Seq<char>, r1: Seq<char>, p2: Seq<char>, r2: Seq<char>)
    requires
        p1.len() == p2.len(),
    ensures
        spec_seq_gt(p1 + r1, p2 + r2) == if p1 == p2 {
            spec_seq_gt(r1, r2)
        } else {
            spec_seq_gt(p1, p2)
        },
    decreases p1.len(),
{
    if p1.len() == 0 {
        assert(p1 + r1 =~= r1);
        assert(p2 + r2 =~= r2);
        assert(p1 =~= p2);
    } else {
        assert((p1 + r1).drop_first() =~= p1.drop_first() + r1);
        assert((p2 + r2).drop_first() =~= p2.drop_first() + r2);
        lemma_seq_gt_split(p1.drop_first(), r1, p2.drop_first(), r2);
        if p1[0] == p2[0] && p1.drop_first() == p2.drop_first() {
            assert forall|i: int| 0 <= i < p1.len() implies p1[i] == p2[i] by {
                if i > 0 {
                    assert(p1[i] == p1.drop_first()[i - 1]);
                    assert(p2[i] == p2.drop_first()[i - 1]);
                }
            }
            assert(p1 =~= p2);
        }
        if p1 =~= p2 {
            assert(p1.drop_first() =~= p2.drop_first());
        }
    }
}

/// The character code of the decimal digit `d`.
proof fn lemma_digit_code(d: int)
    requires
        0 <= d < 10,
    ensures
        hex_char(d) as u32 == 48 + d,
{
}

/// A number below 100, padded to two digits: its tens digit, then its
/// units digit.
proof fn lemma_padded2(n: nat)
    requires
        n < 100,
    ensures
        spec_padded(n, 2) == seq![hex_char((n / 10) as int), hex_char((n % 10) as int)],
{
    reveal_with_fuel(spec_decimal, 3);
    if n < 10 {
        assert(spec_decimal(n) == seq![hex_char(n as int)]);
        assert(spec_padded(n, 2) =~= seq!['0', hex_char(n as int)]);
    } else {
        assert(spec_decimal(n / 10) == seq![hex_char((n / 10) as int)]);
        assert(spec_decimal(n) =~= seq![hex_char((n / 10) as int), hex_char((n % 10) as int)]);
    }
}

/// Two numbers below 100, padded to two digits, sort as the numbers do.
proof fn lemma_padded2_order(n: nat, m: nat)
    requires
        n < 100,
        m < 100,
    ensures
        (spec_padded(n, 2) == spec_padded(m, 2)) == (n == m),
        spec_seq_gt(spec_padded(n, 2), spec_padded(m, 2)) == (n > m),
{
    lemma_padded2(n);
    lemma_padded2(m);
    lemma_digit_code((n / 10) as int);
    lemma_digit_code((m / 10) as int);
    lemma_digit_code((n % 10) as int);
    lemma_digit_code((m % 10) as int);
    let a = spec_padded(n, 2);
    let b = spec_padded(m, 2);
    reveal_with_fuel(spec_seq_gt, 3);
    assert(a.drop_first() =~= seq![hex_char((n % 10) as int)]);
    assert(b.drop_first() =~= seq![hex_char((m % 10) as int)]);
    assert(a.drop_first().drop_first() =~= Seq::<char>::empty());
    if a == b {
        assert(a[0] == b[0] && a[1] == b[1]);
    }
}

/// A four-digit number, padded to four digits: its hundreds, then the
/// rest, each padded to two digits.
proof fn lemma_padded4(y: nat)
    requires
        1000 <= y < 10000,
    ensures
        spec_padded(y, 4) == spec_padded(y / 100, 2) + spec_padded(y % 100, 2),
{
    reveal_with_fuel(spec_decimal, 5);
    let (a, b, c, d) = (y / 1000, y / 100 % 10, y / 10 % 10, y % 10);
    assert(y / 100 / 10 == a && (y / 100) % 10 == b && (y % 100) / 10 == c && y % 100 % 10 == d
        && y / 10 / 10 == y / 100 && (y / 10) % 10 == c && 10 <= y / 100 < 100);
    assert(spec_decimal(y / 100) =~= seq![hex_char(a as int), hex_char(b as int)]);
    assert(spec_decimal(y / 10) =~= seq![hex_char(a as int), hex_char(b as int), hex_char(c as int)]);
    assert(spec_decimal(y) =~= seq![
        hex_char(a as int),
        hex_char(b as int),
        hex_char(c as int),
        hex_char(d as int),
    ]);
    lemma_padded2(y / 100);
    lemma_padded2(y % 100);
    assert(spec_padded(y, 4) =~= spec_padded(y / 100, 2) + spec_padded(y % 100, 2));
}

/// Comparing two texts that start with a field of `w` digits (2, or 4
/// for a year from 1000 on): the fields decide when they differ, the rests
/// otherwise.
proof fn lemma_field_step(n: nat, m: nat, w: nat, ra: Seq<char>, rb: Seq<char>)
    requires
        w == 2 ==> n < 100 && m < 100,
        w == 4 ==> 1000 <= n < 10000 && 1000 <= m < 10000,
        w == 2 || w == 4,
    ensures
        spec_seq_gt(spec_padded(n, w) + ra, spec_padded(m, w) + rb) == if n == m {
            spec_seq_gt(ra, rb)
        } else {
            n > m
        },
{
    if w == 2 {
        lemma_padded2_order(n, m);
        lemma_padded2(n);
        lemma_padded2(m);
        lemma_seq_gt_split(spec_padded(n, 2), ra, spec_padded(m, 2), rb);
    } else {
        lemma_padded4(n);
        lemma_padded4(m);
        let (hn, ln, hm, lm) = (n / 100, n % 100, m / 100, m % 100);
        lemma_padded2_order(hn, hm);
        lemma_padded2_order(ln, lm);
        lemma_padded2(hn);
        lemma_padded2(hm);
        lemma_padded2(ln);
        lemma_padded2(lm);
        let (pa, pb) = (spec_padded(n, 4), spec_padded(m, 4));
        lemma_seq_gt_split(pa, ra, pb, rb);
        lemma_seq_gt_split(spec_padded(hn, 2), spec_padded(ln, 2), spec_padded(hm, 2), spec_padded(lm, 2));
        if pa == pb {
            assert(pa.subrange(0, 2) =~= spec_padded(hn, 2));
            assert(pb.subrange(0, 2) =~= spec_padded(hm, 2));
            assert(pa.subrange(2, 4) =~= spec_padded(ln, 2));
            assert(pb.subrange(2, 4) =~= spec_padded(lm, 2));
        }
        assert(n == hn * 100 + ln && m == hm * 100 + lm);
    }
}

/// Comparing two texts that start with the same character: the rests
/// decide.
proof fn lemma_sep_step(c: char, ra: Seq<char>, rb: Seq<char>)
    ensures
        spec_seq_gt(seq![c] + ra, seq![c] + rb) == spec_seq_gt(ra, rb),
{
    lemma_seq_gt_split(seq![c], ra, seq![c], rb);
}

/// `(y1, mo1, d1, h1, mi1, s1)` comes after `(y2, ...)` in the order of
/// the calendar: year first, then month, day, hour, minute and second.
pub open spec fn spec_time_after(a: (int, int, int, int, int, int), b: (int, int, int, int, int, int)) -> bool {
    if a.0 != b.0 {
        a.0 > b.0
    } else if a.1 != b.1 {
        a.1 > b.1
    } else if a.2 != b.2 {
        a.2 > b.2
    } else if a.3 != b.3 {
        a.3 > b.3
    } else if a.4 != b.4 {
        a.4 > b.4
    } else {
        a.5 > b.5
    }
}

/// The fields of an ECMA-167 timestamp: year, month, day, hour, minute,
/// second.
pub open spec fn spec_timestamp_fields(b: Seq<u8>) -> (int, int, int, int, int, int) {
    (spec_timestamp_year(b), b[4] as int, b[5] as int, b[6] as int, b[7] as int, b[8] as int)
}

/// The text of timestamp fields `f`, as [`spec_decode_timestamp`] spells
/// them, grouped from the right.
pub open spec fn spec_ts_text(f: (int, int, int, int, int, int)) -> Seq<char> {
    spec_padded(f.0 as nat, 4) + (seq!['-'] + (spec_padded(f.1 as nat, 2) + (seq!['-'] + (
    spec_padded(f.2 as nat, 2) + (seq![' '] + (spec_padded(f.3 as nat, 2) + (seq![':'] + (
    spec_padded(f.4 as nat, 2) + (seq![':'] + spec_padded(f.5 as nat, 2))))))))))
}

/// A timestamp that decodes spells its fields.
proof fn lemma_ts_text(a: Seq<u8>)
    requires
        spec_decode_timestamp(a) is Some,
    ensures
        spec_decode_timestamp(a)->0 == spec_ts_text(spec_timestamp_fields(a)),
{
    let f = spec_timestamp_fields(a);
    let x = seq![
        spec_padded(f.0 as nat, 4),
        seq!['-'],
        spec_padded(f.1 as nat, 2),
        seq!['-'],
        spec_padded(f.2 as nat, 2),
        seq![' '],
        spec_padded(f.3 as nat, 2),
        seq![':'],
        spec_padded(f.4 as nat, 2),
        seq![':'],
        spec_padded(f.5 as nat, 2),
    ];
    let l1 = x[0] + x[1];
    let l2 = l1 + x[2];
    let l3 = l2 + x[3];
    let l4 = l3 + x[4];
    let l5 = l4 + x[5];
    let l6 = l5 + x[6];
    let l7 = l6 + x[7];
    let l8 = l7 + x[8];
    let l9 = l8 + x[9];
    let r9 = x[9] + x[10];
    let r8 = x[8] + r9;
    let r7 = x[7] + r8;
    let r6 = x[6] + r7;
    let r5 = x[5] + r6;
    let r4 = x[4] + r5;
    let r3 = x[3] + r4;
    let r2 = x[2] + r3;
    let r1 = x[1] + r2;
    assert(spec_decode_timestamp(a)->0 == l9 + x[10]);
    lemma_seq_assoc(l8, x[9], x[10]);
    lemma_seq_assoc(l7, x[8], r9);
    lemma_seq_assoc(l6, x[7], r8);
    lemma_seq_assoc(l5, x[6], r7);
    lemma_seq_assoc(l4, x[5], r6);
    lemma_seq_assoc(l3, x[4], r5);
    lemma_seq_assoc(l2, x[3], r4);
    lemma_seq_assoc(l1, x[2], r3);
    lemma_seq_assoc(x[0], x[1], r2);
    assert(spec_ts_text(f) == x[0] + r1);
}

/// Concatenation of sequences is associative.
proof fn lemma_seq_assoc(x: Seq<char>, y: Seq<char>, z: Seq<char>)
    ensures
        (x + y) + z == x + (y + z),
{
    assert((x + y) + z =~= x + (y + z));
}

/// Texts of timestamp fields with two-digit times and four-digit years sort
/// as the times.
proof fn lemma_ts_text_order(fa: (int, int, int, int, int, int), fb: (int, int, int, int, int, int))
    requires
        1000 <= fa.0 < 10000 && 1000 <= fb.0 < 10000,
        0 <= fa.1 < 100 && 0 <= fa.2 < 100 && 0 <= fa.3 < 100 && 0 <= fa.4 < 100 && 0 <= fa.5 < 100,
        0 <= fb.1 < 100 && 0 <= fb.2 < 100 && 0 <= fb.3 < 100 && 0 <= fb.4 < 100 && 0 <= fb.5 < 100,
    ensures
        spec_seq_gt(spec_ts_text(fa), spec_ts_text(fb)) == spec_time_after(fa, fb),
{
    let e = Seq::<char>::empty();
    let t5a = seq![':'] + spec_padded(fa.5 as nat, 2);
    let t5b = seq![':'] + spec_padded(fb.5 as nat, 2);
    let s4a = seq![':'] + (spec_padded(fa.4 as nat, 2) + t5a);
    let s4b = seq![':'] + (spec_padded(fb.4 as nat, 2) + t5b);
    let s3a = seq![' '] + (spec_padded(fa.3 as nat, 2) + s4a);
    let s3b = seq![' '] + (spec_padded(fb.3 as nat, 2) + s4b);
    let s2a = seq!['-'] + (spec_padded(fa.2 as nat, 2) + s3a);
    let s2b = seq!['-'] + (spec_padded(fb.2 as nat, 2) + s3b);
    let s1a = seq!['-'] + (spec_padded(fa.1 as nat, 2) + s2a);
    let s1b = seq!['-'] + (spec_padded(fb.1 as nat, 2) + s2b);
    assert(spec_padded(fa.5 as nat, 2) + e =~= spec_padded(fa.5 as nat, 2));
    assert(spec_padded(fb.5 as nat, 2) + e =~= spec_padded(fb.5 as nat, 2));
    lemma_field_step(fa.5 as nat, fb.5 as nat, 2, e, e);
    lemma_sep_step(':', spec_padded(fa.5 as nat, 2), spec_padded(fb.5 as nat, 2));
    lemma_field_step(fa.4 as nat, fb.4 as nat, 2, t5a, t5b);
    lemma_sep_step(':', spec_padded(fa.4 as nat, 2) + t5a, spec_padded(fb.4 as nat, 2) + t5b);
    lemma_field_step(fa.3 as nat, fb.3 as nat, 2, s4a, s4b);
    lemma_sep_step(' ', spec_padded(fa.3 as nat, 2) + s4a, spec_padded(fb.3 as nat, 2) + s4b);
    lemma_field_step(fa.2 as nat, fb.2 as nat, 2, s3a, s3b);
    lemma_sep_step('-', spec_padded(fa.2 as nat, 2) + s3a, spec_padded(fb.2 as nat, 2) + s3b);
    lemma_field_step(fa.1 as nat, fb.1 as nat, 2, s2a, s2b);
    lemma_sep_step('-', spec_padded(fa.1 as nat, 2) + s2a, spec_padded(fb.1 as nat, 2) + s2b);
    lemma_field_step(fa.0 as nat, fb.0 as nat, 4, s1a, s1b);
    assert(!spec_seq_gt(e, e));
}

/// Decoded timestamps sort as the times they record: when both decode and
/// their hours, minutes and seconds are below 100 (two digits each), one
/// text sorts after the other exactly when its time is later.
pub proof fn lemma_timestamp_order(a: Seq<u8>, b: Seq<u8>)
    requires
        spec_decode_timestamp(a) is Some,
        spec_decode_timestamp(b) is Some,
        a[6] < 100 && a[7] < 100 && a[8] < 100,
        b[6] < 100 && b[7] < 100 && b[8] < 100,
    ensures
        spec_seq_gt(spec_decode_timestamp(a)->0, spec_decode_timestamp(b)->0) == spec_time_after(
            spec_timestamp_fields(a),
            spec_timestamp_fields(b),
        ),
{
    lemma_ts_text(a);
    lemma_ts_text(b);
    lemma_ts_text_order(spec_timestamp_fields(a), spec_timestamp_fields(b));
}

/// Whether `a` sorts after `b`.
pub fn str_after(a: &str, b: &str) -> (r: bool)
    ensures
        r == spec_seq_gt(a@, b@),
{
    let la = a.unicode_len();
    let lb = b.unicode_len();
    let mut i: usize = 0;
    while i < la && i < lb
        invariant
            la == a@.len(),
            lb == b@.len(),
            i <= la,
            i <= lb,
            forall|j: int| 0 <= j < i ==> a@[j] == b@[j],
        decreases la - i,
    {
        let ca = a.get_char(i);
        let cb = b.get_char(i);
        if ca != cb {
            proof {
                lemma_seq_gt_skip(a@, b@, i as int);
                assert(a@.skip(i as int)[0] == ca);
                assert(b@.skip(i as int)[0] == cb);
            }
            return (ca as u32) > (cb as u32);
        }
        i = i + 1;
    }
    proof {
        lemma_seq_gt_skip(a@, b@, i as int);
    }
    la > lb
}

/// What a kind claims holds of the bytes it reports: a CRC or checksum
/// anomaly records two different values; a file-after-volume anomaly a file
/// time that sorts after the volume time; a slack anomaly at least one
/// non-zero byte among its slack bytes, fewer than a 4096-byte block.
pub open spec fn spec_kind_sound(k: KindModel) -> bool {
    match k {
        KindModel::TagCrcMismatch { stored, computed, .. } => stored != computed,
        KindModel::TagChecksumBad { stored, computed, .. } => stored != computed,
        KindModel::FileAfterVolume { file_time, volume_time, .. } => spec_seq_gt(
            file_time,
            volume_time,
        ),
        KindModel::SlackData { nonzero_bytes, slack_bytes, .. } => 0 < nonzero_bytes
            <= slack_bytes < 4096,
    }
}

/// The LBA an anomaly kind reports.
pub open spec fn spec_kind_lba(k: KindModel) -> u32 {
    match k {
        KindModel::TagCrcMismatch { lba, .. } => lba,
        KindModel::TagChecksumBad { lba, .. } => lba,
        KindModel::FileAfterVolume { lba, .. } => lba,
        KindModel::SlackData { lba, .. } => lba,
    }
}

/// An anomaly is sound: its severity, code and note are the derived ones,
/// and its kind is sound.
pub open spec fn spec_anomaly_sound(a: UdfAnomaly) -> bool {
    &&& a.derived()
    &&& spec_kind_sound(a.kind@)
}

/// `after` is `before` with sound anomalies appended.
pub open spec fn spec_sound_extension(before: Seq<UdfAnomaly>, after: Seq<UdfAnomaly>) -> bool {
    &&& before.len() <= after.len()
    &&& after.take(before.len() as int) == before
    &&& forall|i: int| before.len() <= i < after.len() ==> spec_anomaly_sound(#[trigger] after[i])
}

proof fn lemma_sound_extension_trans(a: Seq<UdfAnomaly>, b: Seq<UdfAnomaly>, c: Seq<UdfAnomaly>)
    requires
        spec_sound_extension(a, b),
        spec_sound_extension(b, c),
    ensures
        spec_sound_extension(a, c),
{
    assert(c.take(a.len() as int) =~= b.take(a.len() as int));
    assert forall|i: int| a.len() <= i < c.len() implies spec_anomaly_sound(#[trigger] c[i]) by {
        if i < b.len() {
            assert(c[i] == c.take(b.len() as int)[i]);
        }
    }
}

proof fn lemma_sound_extension_refl(a: Seq<UdfAnomaly>)
    ensures
        spec_sound_extension(a, a),
{
    assert(a.take(a.len() as int) =~= a);
}

/// The anomalies of one descriptor tag read at `lba`, and its tag
/// identifier. An identifier of 0 or one this crate does not recognise is
/// not validated. Otherwise a recorded tag checksum (byte 4) that differs
/// from the recomputed one is a checksum anomaly, and a recorded CRC (bytes
/// 8..10) that differs from the CRC of the `DescriptorCRCLength` (bytes
/// 10..12) body bytes after the tag is a CRC anomaly; the CRC is not checked
/// when that body runs past the sector.
pub open spec fn spec_tag_audit(s: Seq<u8>, lba: u32) -> (Seq<KindModel>, u16) {
    let id = spec_le16(s, 0) as u16;
    if id == 0 {
        (Seq::empty(), 0)
    } else {
        match spec_descriptor_label(id) {
            None => (Seq::empty(), id),
            Some(label) => {
                let stored_ck = s[4];
                let computed_ck = spec_tag_checksum(s.take(16));
                let a = if stored_ck != computed_ck {
                    seq![
                        KindModel::TagChecksumBad {
                            descriptor: label,
                            lba,
                            stored: stored_ck,
                            computed: computed_ck,
                        },
                    ]
                } else {
                    Seq::empty()
                };
                let stored_crc = spec_le16(s, 8) as u16;
                let body_end = 16 + spec_le16(s, 10);
                let b = if body_end <= s.len() && stored_crc != spec_crc(s.subrange(16, body_end)) {
                    seq![
                        KindModel::TagCrcMismatch {
                            descriptor: label,
                            lba,
                            stored: stored_crc,
                            computed: spec_crc(s.subrange(16, body_end)),
                        },
                    ]
                } else {
                    Seq::empty()
                };
                (a + b, id)
            },
        }
    }
}

/// `after` is `before` with derived anomalies of the kinds `ks` appended.
pub open spec fn spec_appended(before: Seq<UdfAnomaly>, after: Seq<UdfAnomaly>, ks: Seq<KindModel>) -> bool {
    &&& after.len() == before.len() + ks.len()
    &&& after.take(before.len() as int) == before
    &&& forall|i: int|
        0 <= i < ks.len() ==> (#[trigger] after[before.len() + i]).kind@ == ks[i] && after[before.len()
            + i].derived()
}

/// Validate the descriptor tag in `sector` (read at `lba`), appending its
/// anomalies to `out`; returns its tag identifier.
pub fn tag_audit(sector: &[u8], lba: u32, out: &mut Vec<UdfAnomaly>) -> (id: u16)
    requires
        sector@.len() >= 16,
    ensures
        spec_appended(old(out)@, final(out)@, spec_tag_audit(sector@, lba).0),
        id == spec_tag_audit(sector@, lba).1,
{
    let ghost start = out@;
    let tag_ident = le16_at(sector, 0);
    if tag_ident == 0 {
        assert(out@.take(start.len() as int) =~= start);
        return 0;
    }
    let label = match descriptor_label(tag_ident) {
        None => {
            assert(out@.take(start.len() as int) =~= start);
            return tag_ident;
        },
        Some(l) => l,
    };
    let stored_cksum = sector[4];
    let computed_cksum = tag_checksum(slice_subrange(sector, 0, 16));
    assert(sector@.subrange(0, 16) =~= sector@.take(16));
    if stored_cksum != computed_cksum {
        out.push(
            UdfAnomaly::new(
                UdfAnomalyKind::TagChecksumBad {
                    descriptor: String::from_str(label),
                    lba,
                    stored: stored_cksum,
                    computed: computed_cksum,
                },
            ),
        );
    }
    let ghost mid = out@;
    let stored_crc = le16_at(sector, 8);
    let crc_len = le16_at(sector, 10) as usize;
    if crc_len <= sector.len() - 16 {
        let computed_crc = ecma167_crc(slice_subrange(sector, 16, 16 + crc_len));
        if stored_crc != computed_crc {
            out.push(
                UdfAnomaly::new(
                    UdfAnomalyKind::TagCrcMismatch {
                        descriptor: String::from_str(label),
                        lba,
                        stored: stored_crc,
                        computed: computed_crc,
                    },
                ),
            );
        }
    }
    proof {
        let ks = spec_tag_audit(sector@, lba).0;
        assert(out@.take(start.len() as int) =~= start);
        assert forall|i: int| 0 <= i < ks.len() implies (#[trigger] out@[start.len() + i]).kind@
            == ks[i] && out@[start.len() + i].derived() by {}
    }
    tag_ident
}

/// Read the descriptor at `lba` and validate its tag, appending its
/// anomalies to `out`: `Err` on a read failure (nothing appended), otherwise
/// the tag identifier, with the anomalies [`spec_tag_audit`] gives for the
/// sector read.
pub fn audit_tag_at<S: UdfSource>(
    reader: &mut S,
    bs: u32,
    lba: u32,
    out: &mut Vec<UdfAnomaly>,
) -> (r: Result<u16, ReadError>)
    requires
        64 <= bs <= 4096,
    ensures
        same_source(*old(reader), *final(reader)),
        old(reader).reads_described() ==> match block_at(*old(reader), lba, bs) {
            None => r matches Err(e) && read_fails(
                *old(reader),
                lba as int * bs as int,
                bs as nat,
                e,
            ),
            Some(s) => r matches Ok(id) && id == spec_tag_audit(s, lba).1 && spec_appended(
                old(out)@,
                final(out)@,
                spec_tag_audit(s, lba).0,
            ),
        },
        r is Err ==> final(out)@ == old(out)@,
        r matches Ok(id) ==> exists|s: Seq<u8>|
            s.len() == bs && spec_appended(old(out)@, final(out)@, spec_tag_audit(s, lba).0)
                && #[trigger] spec_tag_audit(s, lba).1 == id,
        spec_sound_extension(old(out)@, final(out)@),
        forall|i: int|
            old(out)@.len() <= i < final(out)@.len() ==> spec_kind_lba(
                #[trigger] final(out)@[i].kind@,
            ) == lba,
{
    proof {
        lemma_block_pos(lba, bs);
        lemma_sound_extension_refl(out@);
    }
    let ghost start = out@;
    let sector = match read_block_checked(reader, lba as u64 * bs as u64, bs as usize) {
        Err(e) => return Err(e),
        Ok(v) => v,
    };
    let id = tag_audit(sector.as_slice(), lba, out);
    proof {
        let ks = spec_tag_audit(sector@, lba).0;
        lemma_tag_audit_kinds(sector@, lba);
        lemma_appended_sound(start, out@, ks);
        assert forall|i: int| start.len() <= i < out@.len() implies spec_kind_lba(
            #[trigger] out@[i].kind@,
        ) == lba by {
            assert(out@[start.len() + (i - start.len())].kind@ == ks[i - start.len()]);
        }
    }
    Ok(id)
}

/// Derived anomalies of sound kinds appended make a sound extension.
proof fn lemma_appended_sound(before: Seq<UdfAnomaly>, after: Seq<UdfAnomaly>, ks: Seq<KindModel>)
    requires
        spec_appended(before, after, ks),
        forall|i: int| 0 <= i < ks.len() ==> spec_kind_sound(#[trigger] ks[i]),
    ensures
        spec_sound_extension(before, after),
{
    assert forall|i: int| before.len() <= i < after.len() implies spec_anomaly_sound(
        #[trigger] after[i],
    ) by {
        let j = i - before.len();
        assert(after[before.len() + j].kind@ == ks[j]);
    }
}

/// Appending `ks1` and then `ks2` appends `ks1 + ks2`.
proof fn lemma_appended_concat(
    a: Seq<UdfAnomaly>,
    b: Seq<UdfAnomaly>,
    c: Seq<UdfAnomaly>,
    ks1: Seq<KindModel>,
    ks2: Seq<KindModel>,
)
    requires
        spec_appended(a, b, ks1),
        spec_appended(b, c, ks2),
    ensures
        spec_appended(a, c, ks1 + ks2),
{
    assert(c.take(a.len() as int) =~= b.take(a.len() as int));
    assert forall|i: int| 0 <= i < (ks1 + ks2).len() implies (#[trigger] c[a.len() + i]).kind@
        == (ks1 + ks2)[i] && c[a.len() + i].derived() by {
        if i < ks1.len() {
            assert(c[a.len() + i] == c.take(b.len() as int)[a.len() + i]);
            assert(b[a.len() + i].kind@ == ks1[i]);
        } else {
            assert(c[b.len() + (i - ks1.len())].kind@ == ks2[i - ks1.len()]);
        }
    }
}

/// Appending nothing leaves the sequence as it is.
proof fn lemma_appended_none(a: Seq<UdfAnomaly>)
    ensures
        spec_appended(a, a, Seq::empty()),
{
    assert(a.take(a.len() as int) =~= a);
}

/// The kinds a tag audit reports are sound and report the audited LBA.
proof fn lemma_tag_audit_kinds(s: Seq<u8>, lba: u32)
    ensures
        forall|i: int|
            0 <= i < spec_tag_audit(s, lba).0.len() ==> spec_kind_sound(
                #[trigger] spec_tag_audit(s, lba).0[i],
            ) && spec_kind_lba(spec_tag_audit(s, lba).0[i]) == lba,
{
}

} // verus!

verus! {

/// The text an optional string holds.
pub open spec fn spec_opt_text(o: Option<&str>) -> Option<Seq<char>> {
    match o {
        Some(t) => Some(t@),
        None => None,
    }
}

/// A slack count as [`fe_slack_nonzero`] may give it: none, or a count of
/// non-zero bytes among the slack bytes of a final block of `bs` bytes that
/// the sectors read explain.
pub open spec fn spec_slack_outcome(slack: Option<(u32, u32)>, bs: u32, partition_start: u32) -> bool {
    match slack {
        None => true,
        Some((nonzero, slack_bytes)) => {
            &&& nonzero <= slack_bytes
            &&& 0 < slack_bytes < bs
            &&& exists|fe: Seq<u8>, fe_again: Seq<u8>, block: Seq<u8>|
                #[trigger] spec_slack_witness(
                    fe,
                    fe_again,
                    block,
                    bs,
                    partition_start,
                    nonzero,
                    slack_bytes,
                )
        },
    }
}

/// The anomalies of the File Entry sector `fe` read at `lba`, given the
/// volume recording time and the slack count: none when `fe` is not a File
/// Entry; otherwise a file-after-volume anomaly when both times are known
/// and the modification time (at byte 84, or 92 in an Extended File Entry)
/// sorts after the volume time, then a slack anomaly when the slack holds a
/// non-zero byte.
pub open spec fn spec_fe_findings(
    fe: Seq<u8>,
    lba: u32,
    volume_time: Option<Seq<char>>,
    slack: Option<(u32, u32)>,
) -> Seq<KindModel> {
    let id = spec_le16(fe, 0);
    if !spec_is_fe_tag(id) {
        Seq::empty()
    } else {
        let late = match volume_time {
            None => Seq::empty(),
            Some(v) => match spec_fe_modification_time(fe, id == TAG_EFE as int) {
                None => Seq::empty(),
                Some(m) => if spec_seq_gt(m, v) {
                    seq![KindModel::FileAfterVolume { lba, file_time: m, volume_time: v }]
                } else {
                    Seq::empty()
                },
            },
        };
        let residue = match slack {
            None => Seq::empty(),
            Some((nonzero, slack_bytes)) => if nonzero > 0 {
                seq![KindModel::SlackData { lba, nonzero_bytes: nonzero, slack_bytes }]
            } else {
                Seq::empty()
            },
        };
        late + residue
    }
}

/// The audit of the File Entry at `lba` appended to `before` to make
/// `after` the anomalies of its descriptor tag (as read in `tag`) and of
/// its contents (as read in `fe`, with the slack count `slack`).
pub open spec fn spec_file_audit(
    tag: Seq<u8>,
    fe: Seq<u8>,
    slack: Option<(u32, u32)>,
    bs: u32,
    partition_start: u32,
    lba: u32,
    volume_time: Option<Seq<char>>,
    before: Seq<UdfAnomaly>,
    after: Seq<UdfAnomaly>,
) -> bool {
    &&& tag.len() == bs
    &&& fe.len() == bs
    &&& spec_slack_outcome(slack, bs, partition_start)
    &&& spec_appended(
        before,
        after,
        spec_tag_audit(tag, lba).0 + spec_fe_findings(fe, lba, volume_time, slack),
    )
}

/// The kinds a File Entry audit reports are sound.
proof fn lemma_fe_findings_sound(
    fe: Seq<u8>,
    lba: u32,
    volume_time: Option<Seq<char>>,
    slack: Option<(u32, u32)>,
    bs: u32,
    partition_start: u32,
)
    requires
        bs <= 4096,
        spec_slack_outcome(slack, bs, partition_start),
    ensures
        forall|i: int|
            0 <= i < spec_fe_findings(fe, lba, volume_time, slack).len() ==> spec_kind_sound(
                #[trigger] spec_fe_findings(fe, lba, volume_time, slack)[i],
            ),
{
}

/// Append the anomalies of the File Entry sector `sector` read at `lba`:
/// a file-after-volume anomaly when its modification time sorts after
/// `volume_time`, then a slack anomaly when `slack` counts a non-zero byte
/// (see [`spec_fe_findings`]); nothing when `sector` is not a File Entry.
pub fn fe_findings(
    sector: &[u8],
    lba: u32,
    volume_time: Option<&str>,
    slack: Option<(u32, u32)>,
    out: &mut Vec<UdfAnomaly>,
)
    requires
        sector@.len() >= 2,
    ensures
        spec_appended(
            old(out)@,
            final(out)@,
            spec_fe_findings(sector@, lba, spec_opt_text(volume_time), slack),
        ),
{
    let ghost start = out@;
    let ghost vol = spec_opt_text(volume_time);
    proof {
        lemma_appended_none(start);
    }
    let tag_ident = le16_at(sector, 0);
    if tag_ident != TAG_FE && tag_ident != TAG_FE_ALT && tag_ident != TAG_EFE {
        return;
    }
    let is_efe = tag_ident == TAG_EFE;
    let ghost late: Seq<KindModel> = match vol {
        None => Seq::empty(),
        Some(v) => match spec_fe_modification_time(sector@, is_efe) {
            None => Seq::empty(),
            Some(m) => if spec_seq_gt(m, v) {
                seq![KindModel::FileAfterVolume { lba, file_time: m, volume_time: v }]
            } else {
                Seq::empty()
            },
        },
    };
    let mtime = fe_modification_time(sector, is_efe);
    match volume_time {
        None => {},
        Some(vol_text) => match mtime {
            None => {},
            Some(m) => {
                if str_after(m.as_str(), vol_text) {
                    out.push(
                        UdfAnomaly::new(
                            UdfAnomalyKind::FileAfterVolume {
                                lba,
                                file_time: m,
                                volume_time: String::from_str(vol_text),
                            },
                        ),
                    );
                    proof {
                        assert(out@.take(start.len() as int) =~= start);
                        assert(out@[start.len() as int].kind@ == late[0]);
                    }
                }
            },
        },
    }
    let ghost mid = out@;
    assert(spec_appended(start, mid, late));
    let ghost residue: Seq<KindModel> = match slack {
        None => Seq::empty(),
        Some((nonzero, slack_bytes)) => if nonzero > 0 {
            seq![KindModel::SlackData { lba, nonzero_bytes: nonzero, slack_bytes }]
        } else {
            Seq::empty()
        },
    };
    proof {
        lemma_appended_none(mid);
    }
    match slack {
        None => {},
        Some((nonzero, slack_bytes)) => {
            if nonzero > 0 {
                out.push(
                    UdfAnomaly::new(
                        UdfAnomalyKind::SlackData { lba, nonzero_bytes: nonzero, slack_bytes },
                    ),
                );
                proof {
                    assert(out@.take(mid.len() as int) =~= mid);
                    assert(out@[mid.len() as int].kind@ == residue[0]);
                }
            }
        },
    }
    proof {
        assert(spec_appended(mid, out@, residue));
        lemma_appended_concat(start, mid, out@, late, residue);
        assert(spec_fe_findings(sector@, lba, vol, slack) == late + residue);
    }
}

/// The anomalies the audit of the File Entry at `lba` of `src` appends:
/// those of its descriptor tag, then those of its contents against
/// `volume_time`, with the slack count [`spec_slack_at`] gives when the
/// block holds a File Entry; `None` when its block cannot be read.
pub open spec fn spec_file_audit_at<S: UdfSource>(
    src: S,
    bs: u32,
    partition_start: u32,
    lba: u32,
    volume_time: Option<Seq<char>>,
) -> Option<Seq<KindModel>> {
    match block_at(src, lba, bs) {
        None => None,
        Some(s) => {
            let slack = if spec_is_fe_tag(spec_le16(s, 0)) {
                spec_slack_at(src, bs, partition_start, lba)
            } else {
                None
            };
            Some(spec_tag_audit(s, lba).0 + spec_fe_findings(s, lba, volume_time, slack))
        },
    }
}

/// A descriptor tag audit reports only tag anomalies.
proof fn lemma_tag_audit_no_slack(s: Seq<u8>, lba: u32)
    ensures
        forall|i: int|
            0 <= i < spec_tag_audit(s, lba).0.len() ==> !(#[trigger] spec_tag_audit(s, lba).0[i] is SlackData),
{
}

/// The slack finding of a File Entry audit is the slack count of that File
/// Entry over the volume's partition: for a block read at `lba` that holds
/// a File Entry (tag 260, 261 or 266), the audit reports
/// `SlackData { lba, nonzero_bytes: n, slack_bytes: z }` exactly when
/// [`spec_slack_at`] with the volume's partition start counts `(n, z)` with
/// `n > 0`; and it reports no slack finding for another LBA.
pub proof fn lemma_file_audit_slack<S: UdfSource>(
    src: S,
    bs: u32,
    partition_start: u32,
    lba: u32,
    volume_time: Option<Seq<char>>,
    s: Seq<u8>,
    n: u32,
    z: u32,
    other: u32,
)
    requires
        block_at(src, lba, bs) == Some(s),
        spec_le16(s, 0) == 260 || spec_le16(s, 0) == 261 || spec_le16(s, 0) == 266,
        other != lba,
    ensures
        spec_file_audit_at(src, bs, partition_start, lba, volume_time) matches Some(ks) && (ks.contains(
            KindModel::SlackData { lba, nonzero_bytes: n, slack_bytes: z },
        ) <==> (spec_slack_at(src, bs, partition_start, lba) == Some((n, z)) && n > 0)) && !ks.contains(
            KindModel::SlackData { lba: other, nonzero_bytes: n, slack_bytes: z },
        ),
{
    let slack = spec_slack_at(src, bs, partition_start, lba);
    let t = spec_tag_audit(s, lba).0;
    let f = spec_fe_findings(s, lba, volume_time, slack);
    let ks = t + f;
    lemma_tag_audit_no_slack(s, lba);
    let late = match volume_time {
        None => Seq::empty(),
        Some(v) => match spec_fe_modification_time(s, spec_le16(s, 0) == TAG_EFE as int) {
            None => Seq::empty(),
            Some(m) => if spec_seq_gt(m, v) {
                seq![KindModel::FileAfterVolume { lba, file_time: m, volume_time: v }]
            } else {
                Seq::empty()
            },
        },
    };
    let residue = match slack {
        None => Seq::empty(),
        Some((nz, sb)) => if nz > 0 {
            seq![KindModel::SlackData { lba, nonzero_bytes: nz, slack_bytes: sb }]
        } else {
            Seq::empty()
        },
    };
    assert(f == late + residue);
    let x = KindModel::SlackData { lba, nonzero_bytes: n, slack_bytes: z };
    let y = KindModel::SlackData { lba: other, nonzero_bytes: n, slack_bytes: z };
    assert forall|i: int| 0 <= i < ks.len() && (ks[i] == x || ks[i] == y) implies i >= t.len() + late.len()
        && ks[i] == residue[i - t.len() - late.len()] by {
        if i < t.len() {
            assert(ks[i] == t[i]);
        } else if i < t.len() + late.len() {
            assert(ks[i] == f[i - t.len()]);
            assert(f[i - t.len()] == late[i - t.len()]);
        } else {
            assert(ks[i] == f[i - t.len()]);
            assert(f[i - t.len()] == residue[i - t.len() - late.len()]);
        }
    }
    if slack == Some((n, z)) && n > 0 {
        assert(ks[t.len() + late.len() as int] == x) by {
            assert(ks[t.len() + late.len() as int] == f[late.len() as int]);
            assert(f[late.len() as int] == residue[0]);
        }
    }
}

/// A descriptor tag audit reports no time anomaly.
proof fn lemma_tag_audit_no_time(s: Seq<u8>, lba: u32)
    ensures
        forall|i: int|
            0 <= i < spec_tag_audit(s, lba).0.len() ==> !(#[trigger] spec_tag_audit(
                s,
                lba,
            ).0[i] is FileAfterVolume),
{
}

/// The time finding of a File Entry audit compares the File Entry's
/// modification time with the volume's recording time: for a block read at
/// `lba` that holds a File Entry (tag 260, 261 or 266), with the volume time
/// `v` known, the audit reports `FileAfterVolume { lba, file_time: mt,
/// volume_time: v }` exactly when the timestamp at byte 84 (byte 92 in an
/// Extended File Entry, tag 266) decodes to `mt` and `mt` sorts after `v`.
pub proof fn lemma_file_audit_time<S: UdfSource>(
    src: S,
    bs: u32,
    partition_start: u32,
    lba: u32,
    v: Seq<char>,
    s: Seq<u8>,
    mt: Seq<char>,
)
    requires
        block_at(src, lba, bs) == Some(s),
        s.len() >= 104,
        spec_le16(s, 0) == 260 || spec_le16(s, 0) == 261 || spec_le16(s, 0) == 266,
    ensures
        ({
            let off: int = if spec_le16(s, 0) == 266 {
                92
            } else {
                84
            };
            spec_file_audit_at(src, bs, partition_start, lba, Some(v)) matches Some(ks) && (ks.contains(
                KindModel::FileAfterVolume { lba, file_time: mt, volume_time: v },
            ) <==> (spec_decode_timestamp(s.subrange(off, off + 12)) == Some(mt) && spec_seq_gt(
                mt,
                v,
            )))
        }),
{
    let slack = if spec_is_fe_tag(spec_le16(s, 0)) {
        spec_slack_at(src, bs, partition_start, lba)
    } else {
        None
    };
    let t = spec_tag_audit(s, lba).0;
    let f = spec_fe_findings(s, lba, Some(v), slack);
    let ks = t + f;
    lemma_tag_audit_no_time(s, lba);
    let late = match spec_fe_modification_time(s, spec_le16(s, 0) == TAG_EFE as int) {
        None => Seq::empty(),
        Some(m) => if spec_seq_gt(m, v) {
            seq![KindModel::FileAfterVolume { lba, file_time: m, volume_time: v }]
        } else {
            Seq::empty()
        },
    };
    let residue = match slack {
        None => Seq::empty(),
        Some((nz, sb)) => if nz > 0 {
            seq![KindModel::SlackData { lba, nonzero_bytes: nz, slack_bytes: sb }]
        } else {
            Seq::empty()
        },
    };
    assert(f == late + residue);
    let x = KindModel::FileAfterVolume { lba, file_time: mt, volume_time: v };
    assert forall|i: int| 0 <= i < ks.len() && ks[i] == x implies t.len() <= i < t.len()
        + late.len() && ks[i] == late[i - t.len()] by {
        if i < t.len() {
            assert(ks[i] == t[i]);
        } else if i < t.len() + late.len() {
            assert(ks[i] == f[i - t.len()]);
            assert(f[i - t.len()] == late[i - t.len()]);
        } else {
            assert(ks[i] == f[i - t.len()]);
            assert(f[i - t.len()] == residue[i - t.len() - late.len()]);
        }
    }
    if late.len() > 0 && late[0] == x {
        assert(ks[t.len() as int] == x) by {
            assert(ks[t.len() as int] == f[0]);
            assert(f[0] == late[0]);
        }
    }
}

/// Validate the File Entry at `fe_lba`: audit its descriptor tag, then
/// report a modification time later than `volume_time` and non-zero bytes
/// in its final-block slack. `Err` when a read of its sector fails; the
/// anomalies appended until then stay.
pub fn audit_file_entry<S: UdfSource>(
    reader: &mut S,
    bs: u32,
    partition_start: u32,
    fe_lba: u32,
    volume_time: Option<&str>,
    out: &mut Vec<UdfAnomaly>,
) -> (r: Result<(), ReadError>)
    requires
        64 <= bs <= 4096,
    ensures
        same_source(*old(reader), *final(reader)),
        old(reader).reads_described() ==> match spec_file_audit_at(
            *old(reader),
            bs,
            partition_start,
            fe_lba,
            spec_opt_text(volume_time),
        ) {
            None => r is Err && final(out)@ == old(out)@,
            Some(ks) => r is Ok && spec_appended(old(out)@, final(out)@, ks),
        },
        spec_sound_extension(old(out)@, final(out)@),
        r is Ok ==> exists|tag: Seq<u8>, fe: Seq<u8>, slack: Option<(u32, u32)>|
            #[trigger] spec_file_audit(
                tag,
                fe,
                slack,
                bs,
                partition_start,
                fe_lba,
                spec_opt_text(volume_time),
                old(out)@,
                final(out)@,
            ),
{
    let ghost start = out@;
    let ghost src = *reader;
    let id = match audit_tag_at(reader, bs, fe_lba, out) {
        Err(e) => return Err(e),
        Ok(id) => id,
    };
    let ghost cur1 = *reader;
    let ghost mid = out@;
    let ghost tag = choose|s: Seq<u8>|
        s.len() == bs && spec_appended(start, mid, spec_tag_audit(s, fe_lba).0)
            && #[trigger] spec_tag_audit(s, fe_lba).1 == id;
    let ghost vol = spec_opt_text(volume_time);
    proof {
        lemma_block_pos(fe_lba, bs);
    }
    let sector = match read_block_checked(reader, fe_lba as u64 * bs as u64, bs as usize) {
        Err(e) => {
            proof {
                lemma_block_at_same_source(src, cur1, fe_lba, bs);
            }
            return Err(e);
        },
        Ok(v) => v,
    };
    proof {
        lemma_block_at_same_source(src, cur1, fe_lba, bs);
    }
    let ghost cur2 = *reader;
    let tag_ident = le16_at(sector.as_slice(), 0);
    let slack = if tag_ident == TAG_FE || tag_ident == TAG_FE_ALT || tag_ident == TAG_EFE {
        fe_slack_nonzero(reader, bs, partition_start, fe_lba)
    } else {
        None
    };
    proof {
        lemma_slack_at_same_source(src, cur2, bs, partition_start, fe_lba);
        assert(spec_is_fe_tag(spec_le16(sector@, 0)) == (tag_ident == TAG_FE || tag_ident
            == TAG_FE_ALT || tag_ident == TAG_EFE));
    }
    fe_findings(sector.as_slice(), fe_lba, volume_time, slack, out);
    proof {
        let ks = spec_tag_audit(tag, fe_lba).0;
        let fs = spec_fe_findings(sector@, fe_lba, vol, slack);
        lemma_appended_concat(start, mid, out@, ks, fs);
        assert(spec_file_audit(tag, sector@, slack, bs, partition_start, fe_lba, vol, start, out@));
        if src.reads_described() {
            assert(block_at(src, fe_lba, bs) == Some(sector@));
            lemma_appended_concat(start, mid, out@, spec_tag_audit(sector@, fe_lba).0, fs);
        }
        lemma_tag_audit_kinds(tag, fe_lba);
        lemma_fe_findings_sound(sector@, fe_lba, vol, slack, bs, partition_start);
        assert forall|i: int| 0 <= i < (ks + fs).len() implies spec_kind_sound(#[trigger] (ks + fs)[i]) by {
            if i >= ks.len() {
                assert((ks + fs)[i] == fs[i - ks.len()]);
            }
        }
        lemma_appended_sound(start, out@, ks + fs);
    }
    Ok(())
}

} // verus!

verus! {

/// `lba` is one the bootstrap audit visits: the anchor at logical sector
/// 256, a sector of the Volume Descriptor Sequence, or the File Set
/// Descriptor.
pub open spec fn spec_bootstrap_lba(st: UdfState, lba: u32) -> bool {
    ||| lba == 256
    ||| lba == st.fsd_lba
    ||| st.vds_loc <= lba < st.vds_loc + st.vds_len_sectors
}

/// Every anomaly from index `from` of `v` on reports a bootstrap LBA.
pub open spec fn spec_at_bootstrap_lbas(st: UdfState, v: Seq<UdfAnomaly>, from: int) -> bool {
    forall|i: int| from <= i < v.len() ==> spec_bootstrap_lba(st, spec_kind_lba(#[trigger] v[i].kind@))
}

/// One more audit of a bootstrap LBA keeps the appended anomalies sound and
/// at bootstrap LBAs.
proof fn lemma_bootstrap_step(
    st: UdfState,
    start: Seq<UdfAnomaly>,
    before: Seq<UdfAnomaly>,
    after: Seq<UdfAnomaly>,
    lba: u32,
)
    requires
        spec_sound_extension(start, before),
        spec_sound_extension(before, after),
        spec_bootstrap_lba(st, lba),
        spec_at_bootstrap_lbas(st, before, start.len() as int),
        forall|i: int| before.len() <= i < after.len() ==> spec_kind_lba(#[trigger] after[i].kind@) == lba,
    ensures
        spec_sound_extension(start, after),
        spec_at_bootstrap_lbas(st, after, start.len() as int),
{
    lemma_sound_extension_trans(start, before, after);
    assert forall|i: int| start.len() <= i < after.len() implies spec_bootstrap_lba(
        st,
        spec_kind_lba(#[trigger] after[i].kind@),
    ) by {
        if i < before.len() {
            assert(after[i] == after.take(before.len() as int)[i]);
        }
    }
}

/// `a + i`, saturated at `u32::MAX`.
pub open spec fn spec_sat_add(a: u32, i: int) -> u32 {
    if a + i > u32::MAX {
        u32::MAX
    } else {
        (a + i) as u32
    }
}

/// The tag audits of the Volume Descriptor Sequence of `st` in `src` from
/// its sector `i` on: each sector's anomalies, up to and including the first
/// sector whose tag identifier is a Terminating Descriptor or zero; `None`
/// when a read fails first.
pub open spec fn spec_vds_tag_audits<S: UdfSource>(src: S, st: UdfState, i: int) -> Option<
    Seq<KindModel>,
>
    decreases st.vds_len_sectors - i,
{
    if i < 0 || i >= st.vds_len_sectors {
        Some(Seq::empty())
    } else {
        let lba = spec_sat_add(st.vds_loc, i);
        match block_at(src, lba, st.block_size) {
            None => None,
            Some(s) => {
                let (ks, id) = spec_tag_audit(s, lba);
                if id == TAG_TERM || id == 0 {
                    Some(ks)
                } else {
                    match spec_vds_tag_audits(src, st, i + 1) {
                        None => None,
                        Some(rest) => Some(ks + rest),
                    }
                }
            },
        }
    }
}

/// The anomalies the bootstrap tag audit of `st` in `src` reports: those of
/// the anchor at logical sector 256, of the Volume Descriptor Sequence (see
/// [`spec_vds_tag_audits`]) and of the File Set Descriptor, in that order;
/// `None` when a read fails.
pub open spec fn spec_bootstrap_audit<S: UdfSource>(src: S, st: UdfState) -> Option<Seq<KindModel>> {
    match block_at(src, 256, st.block_size) {
        None => None,
        Some(a) => match spec_vds_tag_audits(src, st, 0) {
            None => None,
            Some(v) => match block_at(src, st.fsd_lba, st.block_size) {
                None => None,
                Some(f) => Some(spec_tag_audit(a, 256).0 + v + spec_tag_audit(f, st.fsd_lba).0),
            },
        },
    }
}

/// `whole` is `acc` followed by what `rest` gives: `None` when it is `None`.
pub open spec fn spec_then(acc: Seq<KindModel>, rest: Option<Seq<KindModel>>) -> Option<Seq<KindModel>> {
    match rest {
        None => None,
        Some(r) => Some(acc + r),
    }
}

/// Validate the descriptor tags of the bootstrap chain: the anchor at
/// logical sector 256, each sector of the Volume Descriptor Sequence up to
/// a Terminating Descriptor or a zero tag, and the File Set Descriptor.
/// `Err` when a read fails; the anomalies appended until then stay.
pub fn audit_bootstrap_tags<S: UdfSource>(
    reader: &mut S,
    state: &UdfState,
    out: &mut Vec<UdfAnomaly>,
) -> (r: Result<(), ReadError>)
    requires
        64 <= state.block_size <= 4096,
    ensures
        same_source(*old(reader), *final(reader)),
        old(reader).reads_described() ==> match spec_bootstrap_audit(*old(reader), *state) {
            None => r is Err,
            Some(ks) => r is Ok && spec_appended(old(out)@, final(out)@, ks),
        },
        spec_sound_extension(old(out)@, final(out)@),
        spec_at_bootstrap_lbas(*state, final(out)@, old(out)@.len() as int),
{
    let bs = state.block_size;
    let ghost src = *reader;
    let ghost start = out@;
    proof {
        lemma_sound_extension_refl(start);
    }
    let ghost before = out@;
    let r0 = audit_tag_at(reader, bs, 256, out);
    proof {
        lemma_bootstrap_step(*state, start, before, out@, 256);
    }
    r0?;
    let ghost anchor_ks = match block_at(src, 256, bs) {
        Some(a) => spec_tag_audit(a, 256).0,
        None => Seq::empty(),
    };
    let ghost mut vacc: Seq<KindModel> = Seq::empty();
    proof {
        assert(anchor_ks + vacc =~= anchor_ks);
    }
    let mut i: u32 = 0;
    let mut done = false;
    while i < state.vds_len_sectors && !done
        invariant
            64 <= bs <= 4096,
            bs == state.block_size,
            i <= state.vds_len_sectors,
            start == old(out)@,
            src == *old(reader),
            same_source(src, *reader),
            spec_sound_extension(start, out@),
            spec_at_bootstrap_lbas(*state, out@, start.len() as int),
            src.reads_described() ==> block_at(src, 256, bs) is Some,
            src.reads_described() ==> spec_appended(start, out@, anchor_ks + vacc),
            src.reads_described() && done ==> spec_vds_tag_audits(src, *state, 0) == Some(vacc),
            src.reads_described() && !done ==> spec_vds_tag_audits(src, *state, 0) == spec_then(
                vacc,
                spec_vds_tag_audits(src, *state, i as int),
            ),
        decreases state.vds_len_sectors - i, if done {
            0int
        } else {
            1int
        },
    {
        let lba = state.vds_loc.saturating_add(i);
        let ghost before = out@;
        let ghost cur = *reader;
        let ri = audit_tag_at(reader, bs, lba, out);
        proof {
            lemma_bootstrap_step(*state, start, before, out@, lba);
            lemma_block_at_same_source(src, cur, lba, bs);
            assert(lba == spec_sat_add(state.vds_loc, i as int));
        }
        let tag = match ri {
            Err(e) => return Err(e),
            Ok(t) => t,
        };
        proof {
            if src.reads_described() {
                let s = block_at(src, lba, bs)->0;
                let ks = spec_tag_audit(s, lba).0;
                lemma_appended_concat(start, before, out@, anchor_ks + vacc, ks);
                assert(anchor_ks + vacc + ks =~= anchor_ks + (vacc + ks));
                let rest = spec_vds_tag_audits(src, *state, i + 1);
                if !(tag == TAG_TERM || tag == 0) && rest is Some {
                    assert(vacc + (ks + rest->0) =~= (vacc + ks) + rest->0);
                }
            }
            vacc = vacc + match block_at(src, lba, bs) {
                Some(s) => spec_tag_audit(s, lba).0,
                None => Seq::empty(),
            };
        }
        if tag == TAG_TERM || tag == 0 {
            done = true;
        } else {
            i = i + 1;
        }
    }
    proof {
        if src.reads_described() && !done {
            assert(spec_vds_tag_audits(src, *state, i as int) == Some(Seq::<KindModel>::empty()));
            assert(vacc + Seq::<KindModel>::empty() =~= vacc);
        }
    }
    let ghost before = out@;
    let ghost cur = *reader;
    let rf = audit_tag_at(reader, bs, state.fsd_lba, out);
    proof {
        lemma_bootstrap_step(*state, start, before, out@, state.fsd_lba);
        lemma_block_at_same_source(src, cur, state.fsd_lba, bs);
    }
    match rf {
        Err(e) => return Err(e),
        Ok(_) => {},
    }
    proof {
        if src.reads_described() {
            let f = block_at(src, state.fsd_lba, bs)->0;
            lemma_appended_concat(start, before, out@, anchor_ks + vacc, spec_tag_audit(f, state.fsd_lba).0);
        }
    }
    Ok(())
}

/// A finite set of `u32` values has at most 2^32 members.
pub proof fn lemma_u32_set_len(s: Set<u32>)
    requires
        s.finite(),
    ensures
        s.len() <= 0x1_0000_0000,
{
    let below = Set::<u32>::new(|x: u32| 0 <= x < u32::MAX);
    let all = below.insert(u32::MAX);
    <u32 as vstd::set_lib::FiniteRange>::range_properties(0, u32::MAX);
    assert(below == <u32 as vstd::set_lib::FiniteRange>::range_set(0, u32::MAX));
    assert(s.subset_of(all));
    vstd::set_lib::lemma_len_subset(s, all);
}

/// The audits of the children `recs` of a directory in `src`, in order:
/// each file's File Entry audit (see [`spec_file_audit_at`]), and the File
/// Entries of the subdirectories, to be walked; `None` when a file's audit
/// fails to read.
pub open spec fn spec_children_audit<S: UdfSource>(
    src: S,
    st: UdfState,
    volume_time: Option<Seq<char>>,
    recs: Seq<FidRecord>,
) -> Option<(Seq<KindModel>, Seq<u32>)>
    decreases recs.len(),
{
    if recs.len() == 0 {
        Some((Seq::empty(), Seq::empty()))
    } else {
        match spec_children_audit(src, st, volume_time, recs.drop_last()) {
            None => None,
            Some((ks, dirs)) => {
                let c = recs.last();
                if c.is_dir {
                    Some((ks, dirs.push(c.fe_lba)))
                } else {
                    match spec_file_audit_at(
                        src,
                        st.block_size,
                        st.partition_start,
                        c.fe_lba,
                        volume_time,
                    ) {
                        None => None,
                        Some(fk) => Some((ks + fk, dirs)),
                    }
                }
            },
        }
    }
}

/// The anomalies the walk of the directory tree of `src` reports from the
/// stack of directory File Entries `stack` (the last one next), once those
/// in `visited` are done: a directory already visited is skipped; otherwise
/// its File Entry is audited, and, when its data can be read, its children
/// are audited (see [`spec_children_audit`]) and its subdirectories pushed.
/// `None` when a read of an audit fails.
pub open spec fn spec_walk<S: UdfSource>(
    src: S,
    st: UdfState,
    volume_time: Option<Seq<char>>,
    stack: Seq<u32>,
    visited: Set<u32>,
) -> Option<Seq<KindModel>>
    decreases 0x1_0000_0000 - visited.len(), stack.len(),
    when visited.finite() && visited.len() <= 0x1_0000_0000
{
    if stack.len() == 0 {
        Some(Seq::empty())
    } else {
        let d = stack.last();
        let rest = stack.drop_last();
        if visited.contains(d) {
            spec_walk(src, st, volume_time, rest, visited)
        } else {
            proof {
                lemma_u32_set_len(visited.insert(d));
            }
            match spec_file_audit_at(src, st.block_size, st.partition_start, d, volume_time) {
                None => None,
                Some(ks) => match spec_fe_data_at(src, st.block_size, st.partition_start, d) {
                    None => spec_then(ks, spec_walk(src, st, volume_time, rest, visited.insert(d))),
                    Some(data) => match spec_children_audit(
                        src,
                        st,
                        volume_time,
                        spec_fid_records(data, st.partition_start),
                    ) {
                        None => None,
                        Some((fks, dirs)) => spec_then(
                            ks + fks,
                            spec_walk(src, st, volume_time, rest + dirs, visited.insert(d)),
                        ),
                    },
                },
            }
        }
    }
}

/// Appending `a` and then `b` before what `w` gives appends `a + b`.
proof fn lemma_then_assoc(a: Seq<KindModel>, b: Seq<KindModel>, w: Option<Seq<KindModel>>)
    ensures
        spec_then(a, spec_then(b, w)) == spec_then(a + b, w),
{
    if w is Some {
        assert(a + (b + w->0) =~= (a + b) + w->0);
    }
}

/// A failed audit among the first `j` children fails the audit of them all.
proof fn lemma_children_audit_none<S: UdfSource>(
    src: S,
    st: UdfState,
    volume_time: Option<Seq<char>>,
    recs: Seq<FidRecord>,
    j: int,
)
    requires
        0 <= j <= recs.len(),
        spec_children_audit(src, st, volume_time, recs.take(j)) is None,
    ensures
        spec_children_audit(src, st, volume_time, recs) is None,
    decreases recs.len() - j,
{
    if j < recs.len() {
        assert(recs.take(j + 1).drop_last() =~= recs.take(j));
        lemma_children_audit_none(src, st, volume_time, recs, j + 1);
    } else {
        assert(recs.take(j) =~= recs);
    }
}

/// Sources that agree on every read give a File Entry the same audit, when
/// they describe their reads.
proof fn lemma_file_audit_same_source<S: UdfSource>(
    a: S,
    b: S,
    bs: u32,
    partition_start: u32,
    lba: u32,
    volume_time: Option<Seq<char>>,
)
    requires
        same_source(a, b),
    ensures
        a.reads_described() ==> spec_file_audit_at(a, bs, partition_start, lba, volume_time)
            == spec_file_audit_at(b, bs, partition_start, lba, volume_time),
{
    lemma_block_at_same_source(a, b, lba, bs);
    lemma_slack_at_same_source(a, b, bs, partition_start, lba);
}

/// The walk expands each directory once: a directory File Entry on top of
/// the stack that was already visited is dropped without a read and without
/// a finding, and a directory visited for the first time is recorded as
/// visited for the rest of the walk.
pub proof fn lemma_walk_skips_visited<S: UdfSource>(
    src: S,
    st: UdfState,
    volume_time: Option<Seq<char>>,
    stack: Seq<u32>,
    visited: Set<u32>,
    d: u32,
)
    requires
        visited.finite(),
        visited.len() <= 0x1_0000_0000,
    ensures
        visited.contains(d) ==> spec_walk(src, st, volume_time, stack.push(d), visited) == spec_walk(
            src,
            st,
            volume_time,
            stack,
            visited,
        ),
        !visited.contains(d) ==> spec_walk(src, st, volume_time, stack.push(d), visited) == match spec_file_audit_at(
            src,
            st.block_size,
            st.partition_start,
            d,
            volume_time,
        ) {
            None => None,
            Some(ks) => match spec_fe_data_at(src, st.block_size, st.partition_start, d) {
                None => spec_then(ks, spec_walk(src, st, volume_time, stack, visited.insert(d))),
                Some(data) => match spec_children_audit(
                    src,
                    st,
                    volume_time,
                    spec_fid_records(data, st.partition_start),
                ) {
                    None => None,
                    Some((fks, dirs)) => spec_then(
                        ks + fks,
                        spec_walk(src, st, volume_time, stack + dirs, visited.insert(d)),
                    ),
                },
            },
        },
{
    let s1 = stack.push(d);
    assert(s1.drop_last() =~= stack);
    assert(s1.last() == d);
    if !visited.contains(d) {
        lemma_u32_set_len(visited.insert(d));
        match spec_file_audit_at(src, st.block_size, st.partition_start, d, volume_time) {
            None => {},
            Some(ks) => match spec_fe_data_at(src, st.block_size, st.partition_start, d) {
                None => {},
                Some(data) => match spec_children_audit(
                    src,
                    st,
                    volume_time,
                    spec_fid_records(data, st.partition_start),
                ) {
                    None => {},
                    Some((fks, dirs)) => {
                        assert(s1.drop_last() + dirs =~= stack + dirs);
                    },
                },
            },
        }
    }
}

/// Walk the directory tree depth-first from the root File Entry, auditing
/// each directory's File Entry and each file's, and descending into each
/// subdirectory. A directory File Entry already audited is not walked again,
/// so a directory cycle ends the walk instead of looping. `Err` when a read
/// fails; the anomalies appended until then stay.
pub fn walk_directory_tree<S: UdfSource>(
    reader: &mut S,
    state: &UdfState,
    volume_time: Option<&str>,
    out: &mut Vec<UdfAnomaly>,
) -> (r: Result<(), ReadError>)
    requires
        64 <= state.block_size <= 4096,
    ensures
        same_source(*old(reader), *final(reader)),
        old(reader).reads_described() ==> match spec_walk(
            *old(reader),
            *state,
            spec_opt_text(volume_time),
            seq![state.root_fe_lba],
            Set::empty(),
        ) {
            None => r is Err,
            Some(ks) => r is Ok && spec_appended(old(out)@, final(out)@, ks),
        },
        spec_sound_extension(old(out)@, final(out)@),
{
    broadcast use vstd::std_specs::hash::group_hash_axioms;

    let bs = state.block_size;
    let part_start = state.partition_start;
    let ghost src = *reader;
    let ghost vt = spec_opt_text(volume_time);
    let ghost whole = spec_walk(src, *state, vt, seq![state.root_fe_lba], Set::empty());
    let ghost start = out@;
    let ghost mut acc: Seq<KindModel> = Seq::empty();
    proof {
        lemma_sound_extension_refl(start);
        lemma_appended_none(start);
        assert(whole == spec_then(acc, whole)) by {
            if whole is Some {
                assert(acc + whole->0 =~= whole->0);
            }
        }
    }
    let mut queue: Vec<u32> = Vec::new();
    queue.push(state.root_fe_lba);
    let mut visited: HashSet<u32> = HashSet::new();
    proof {
        assert(queue@ =~= seq![state.root_fe_lba]);
        assert(visited@ =~= Set::<u32>::empty());
    }
    loop
        invariant
            64 <= bs <= 4096,
            bs == state.block_size,
            part_start == state.partition_start,
            visited@.finite(),
            visited@.len() <= 0x1_0000_0000,
            start == old(out)@,
            src == *old(reader),
            same_source(src, *reader),
            vt == spec_opt_text(volume_time),
            whole == spec_walk(src, *state, vt, seq![state.root_fe_lba], Set::empty()),
            spec_sound_extension(start, out@),
            src.reads_described() ==> spec_appended(start, out@, acc),
            src.reads_described() ==> whole == spec_then(
                acc,
                spec_walk(src, *state, vt, queue@, visited@),
            ),
        decreases 0x1_0000_0000 - visited@.len(), queue@.len(),
    {
        let ghost q0 = queue@;
        let ghost v0 = visited@;
        let dir_fe_lba = match queue.pop() {
            None => {
                proof {
                    if src.reads_described() {
                        assert(acc + Seq::<KindModel>::empty() =~= acc);
                    }
                }
                return Ok(());
            },
            Some(l) => l,
        };
        let ghost rest = queue@;
        proof {
            assert(rest =~= q0.drop_last());
        }
        let fresh = visited.insert(dir_fe_lba);
        proof {
            assert(q0.last() == dir_fe_lba);
        }
        if !fresh {
            proof {
                assert(visited@ =~= v0);
                assert(spec_walk(src, *state, vt, q0, v0) == spec_walk(src, *state, vt, rest, v0));
            }
            continue;
        }
        proof {
            lemma_u32_set_len(visited@);
        }
        let ghost before = out@;
        let ghost cur = *reader;
        let ra = audit_file_entry(reader, bs, part_start, dir_fe_lba, volume_time, out);
        proof {
            lemma_sound_extension_trans(start, before, out@);
            lemma_file_audit_same_source(src, cur, bs, part_start, dir_fe_lba, vt);
        }
        match ra {
            Err(e) => {
                proof {
                    if src.reads_described() {
                        assert(spec_file_audit_at(src, bs, part_start, dir_fe_lba, vt) is None);
                        assert(spec_walk(src, *state, vt, q0, v0) is None);
                    }
                }
                return Err(e);
            },
            Ok(()) => {},
        }
        let ghost ks = spec_file_audit_at(src, bs, part_start, dir_fe_lba, vt)->0;
        let ghost acc0 = acc;
        proof {
            if src.reads_described() {
                lemma_appended_concat(start, before, out@, acc0, ks);
            }
            acc = acc0 + ks;
        }
        let ghost cur2 = *reader;
        let listed = read_dir_at_lba(reader, bs, part_start, dir_fe_lba);
        proof {
            lemma_fe_data_same_source(src, cur2, bs, part_start, dir_fe_lba);
        }
        let children = match listed {
            None => {
                proof {
                    if src.reads_described() {
                        lemma_then_assoc(acc0, ks, spec_walk(src, *state, vt, rest, visited@));
                    }
                }
                continue;
            },
            Some(c) => c,
        };
        let ghost data = spec_fe_data_at(src, bs, part_start, dir_fe_lba)->0;
        let ghost recs = spec_fid_records(data, part_start);
        let ghost dir_acc = acc;
        let ghost mut fks: Seq<KindModel> = Seq::empty();
        let ghost mut dirs: Seq<u32> = Seq::empty();
        let n = children.len();
        let mut k: usize = 0;
        proof {
            if src.reads_described() {
                assert(recs.take(0) =~= Seq::<FidRecord>::empty());
                assert(dir_acc + fks =~= dir_acc);
                assert(rest + dirs =~= rest);
                assert(spec_walk(src, *state, vt, q0, v0) == match spec_children_audit(
                    src,
                    *state,
                    vt,
                    recs,
                ) {
                    None => None,
                    Some((f, d)) => spec_then(
                        ks + f,
                        spec_walk(src, *state, vt, rest + d, v0.insert(dir_fe_lba)),
                    ),
                });
            }
        }
        while k < n
            invariant
                64 <= bs <= 4096,
                bs == state.block_size,
                part_start == state.partition_start,
                n == children@.len(),
                k <= n,
                start == old(out)@,
                src == *old(reader),
                same_source(src, *reader),
                vt == spec_opt_text(volume_time),
                spec_sound_extension(start, out@),
                src.reads_described() ==> recs.len() == n,
                src.reads_described() ==> forall|i: int|
                    0 <= i < n ==> (#[trigger] children@[i]).is_dir == recs[i].is_dir
                        && children@[i].fe_lba == recs[i].fe_lba,
                src.reads_described() ==> spec_children_audit(src, *state, vt, recs.take(k as int))
                    == Some((fks, dirs)),
                src.reads_described() ==> spec_appended(start, out@, dir_acc + fks),
                queue@ == rest + dirs,
                whole == spec_walk(src, *state, vt, seq![state.root_fe_lba], Set::empty()),
                src.reads_described() ==> whole == spec_then(acc0, spec_walk(src, *state, vt, q0, v0)),
                src.reads_described() ==> spec_walk(src, *state, vt, q0, v0) == match spec_children_audit(
                    src,
                    *state,
                    vt,
                    recs,
                ) {
                    None => None,
                    Some((f, d)) => spec_then(
                        ks + f,
                        spec_walk(src, *state, vt, rest + d, v0.insert(dir_fe_lba)),
                    ),
                },
                dir_acc == acc0 + ks,
                visited@ == v0.insert(dir_fe_lba),
                visited@.finite(),
                visited@.len() <= 0x1_0000_0000,
            decreases n - k,
        {
            let is_dir = children[k].is_dir;
            let child_lba = children[k].fe_lba;
            proof {
                if src.reads_described() {
                    assert(recs.take(k + 1).drop_last() =~= recs.take(k as int));
                    assert(recs.take(k + 1).last() == recs[k as int]);
                }
            }
            if is_dir {
                queue.push(child_lba);
                proof {
                    dirs = dirs.push(child_lba);
                    assert(queue@ =~= rest + dirs);
                }
            } else {
                let ghost before = out@;
                let ghost cur3 = *reader;
                let rc = audit_file_entry(reader, bs, part_start, child_lba, volume_time, out);
                proof {
                    lemma_sound_extension_trans(start, before, out@);
                    lemma_file_audit_same_source(src, cur3, bs, part_start, child_lba, vt);
                }
                match rc {
                    Err(e) => {
                        proof {
                            if src.reads_described() {
                                lemma_children_audit_none(src, *state, vt, recs, k as int + 1);
                                assert(spec_walk(src, *state, vt, q0, v0) is None);
                            }
                        }
                        return Err(e);
                    },
                    Ok(()) => {},
                }
                proof {
                    let fk = spec_file_audit_at(src, bs, part_start, child_lba, vt)->0;
                    if src.reads_described() {
                        lemma_appended_concat(start, before, out@, dir_acc + fks, fk);
                        assert(dir_acc + fks + fk =~= dir_acc + (fks + fk));
                    }
                    fks = fks + fk;
                }
            }
            k = k + 1;
        }
        proof {
            if src.reads_described() {
                assert(recs.take(n as int) =~= recs);
                let w = spec_walk(src, *state, vt, rest + dirs, visited@);
                assert(spec_walk(src, *state, vt, q0, v0) == spec_then(ks + fks, w));
                lemma_then_assoc(acc0, ks + fks, w);
                assert(acc0 + ks + fks =~= acc0 + (ks + fks));
                assert(acc0 + (ks + fks) =~= dir_acc + fks);
            }
            acc = dir_acc + fks;
        }
    }
}

/// Sources that agree on every read audit a directory's children alike,
/// when they describe their reads.
proof fn lemma_children_audit_same_source<S: UdfSource>(
    a: S,
    b: S,
    st: UdfState,
    volume_time: Option<Seq<char>>,
    recs: Seq<FidRecord>,
)
    requires
        same_source(a, b),
        a.reads_described(),
    ensures
        spec_children_audit(a, st, volume_time, recs) == spec_children_audit(b, st, volume_time, recs),
    decreases recs.len(),
{
    if recs.len() > 0 {
        lemma_children_audit_same_source(a, b, st, volume_time, recs.drop_last());
        lemma_file_audit_same_source(
            a,
            b,
            st.block_size,
            st.partition_start,
            recs.last().fe_lba,
            volume_time,
        );
    }
}

/// Sources that agree on every read walk the directory tree alike, when
/// they describe their reads.
proof fn lemma_walk_same_source<S: UdfSource>(
    a: S,
    b: S,
    st: UdfState,
    volume_time: Option<Seq<char>>,
    stack: Seq<u32>,
    visited: Set<u32>,
)
    requires
        same_source(a, b),
        a.reads_described(),
        visited.finite(),
        visited.len() <= 0x1_0000_0000,
    ensures
        spec_walk(a, st, volume_time, stack, visited) == spec_walk(b, st, volume_time, stack, visited),
    decreases 0x1_0000_0000 - visited.len(), stack.len(),
{
    if stack.len() > 0 {
        let d = stack.last();
        let rest = stack.drop_last();
        if visited.contains(d) {
            lemma_walk_same_source(a, b, st, volume_time, rest, visited);
        } else {
            lemma_u32_set_len(visited.insert(d));
            lemma_file_audit_same_source(a, b, st.block_size, st.partition_start, d, volume_time);
            lemma_fe_data_same_source(a, b, st.block_size, st.partition_start, d);
            match spec_fe_data_at(a, st.block_size, st.partition_start, d) {
                None => {
                    lemma_walk_same_source(a, b, st, volume_time, rest, visited.insert(d));
                },
                Some(data) => {
                    let recs = spec_fid_records(data, st.partition_start);
                    lemma_children_audit_same_source(a, b, st, volume_time, recs);
                    match spec_children_audit(a, st, volume_time, recs) {
                        None => {},
                        Some((fks, dirs)) => {
                            lemma_walk_same_source(
                                a,
                                b,
                                st,
                                volume_time,
                                rest + dirs,
                                visited.insert(d),
                            );
                        },
                    }
                },
            }
        }
    }
}

/// Sources that agree on every read audit the Volume Descriptor Sequence's
/// tags alike, when they describe their reads.
proof fn lemma_vds_tag_audits_same_source<S: UdfSource>(a: S, b: S, st: UdfState, i: int)
    requires
        same_source(a, b),
        a.reads_described(),
    ensures
        spec_vds_tag_audits(a, st, i) == spec_vds_tag_audits(b, st, i),
    decreases st.vds_len_sectors - i,
{
    if 0 <= i < st.vds_len_sectors {
        lemma_block_at_same_source(a, b, spec_sat_add(st.vds_loc, i), st.block_size);
        lemma_vds_tag_audits_same_source(a, b, st, i + 1);
    }
}

/// The anomalies the analysis of the volume of state `st` in `src`
/// reports: the bootstrap tag audit (see [`spec_bootstrap_audit`]), then
/// the walk of the directory tree from the root File Entry (see
/// [`spec_walk`]) against the recording time of the File Set Descriptor;
/// `None` when a read fails.
pub open spec fn spec_volume_audit<S: UdfSource>(src: S, st: UdfState) -> Option<Seq<KindModel>> {
    match spec_bootstrap_audit(src, st) {
        None => None,
        Some(b) => match block_at(src, st.fsd_lba, st.block_size) {
            None => None,
            Some(f) => spec_then(
                b,
                spec_walk(
                    src,
                    st,
                    spec_fsd_recording_time(f),
                    seq![st.root_fe_lba],
                    Set::empty(),
                ),
            ),
        },
    }
}

/// Run the full anomaly analysis over `reader`: the descriptor tags of the
/// bootstrap chain, then every File Entry the directory walk reaches,
/// against the File Set Descriptor's recording time.
///
/// - `Err`: a read failed, including a truncation before the anchor, so the
///   bootstrap could not be validated.
/// - `Ok(v)`: the findings, each sound; empty when clean, and empty for a
///   source that reads but holds no UDF structure.
pub fn analyze<S: UdfSource>(reader: &mut S) -> (r: Result<Vec<UdfAnomaly>, ReadError>)
    ensures
        r matches Ok(v) ==> forall|i: int| 0 <= i < v@.len() ==> spec_anomaly_sound(#[trigger] v@[i]),
        old(reader).reads_described() ==> match spec_anchor_search(*old(reader)) {
            AnchorSearch::Found(bs) => match spec_bootstrap_at(*old(reader), bs) {
                None => r is Err,
                Some(None) => r matches Ok(v) && v@.len() == 0,
                Some(Some(st)) => match spec_volume_audit(*old(reader), st) {
                    None => r is Err,
                    Some(ks) => r matches Ok(v) && spec_appended(Seq::empty(), v@, ks),
                },
            },
            AnchorSearch::NotFound => r matches Ok(v) && v@.len() == 0,
            AnchorSearch::Truncated => r matches Err(ReadError::Eof(_)),
            AnchorSearch::Fault => r matches Err(ReadError::Fault(_)),
        },
{
    let ghost src = *reader;
    let mut out: Vec<UdfAnomaly> = Vec::new();
    let state = match parse_udf_state_checked(reader) {
        Err(e) => return Err(e),
        Ok(None) => return Ok(out),
        Ok(Some(st)) => st,
    };
    let bs = state.block_size;
    let ghost s0 = out@;
    let ghost cur1 = *reader;
    match audit_bootstrap_tags(reader, &state, &mut out) {
        Err(e) => {
            proof {
                if src.reads_described() {
                    lemma_bootstrap_audit_same_source(src, cur1, state);
                }
            }
            return Err(e);
        },
        Ok(()) => {},
    }
    proof {
        if src.reads_described() {
            lemma_bootstrap_audit_same_source(src, cur1, state);
        }
    }
    let ghost s1 = out@;
    let ghost cur2 = *reader;
    let fsd_read = fsd_recording_time(reader, bs, state.fsd_lba);
    proof {
        lemma_block_at_same_source(src, cur2, state.fsd_lba, bs);
    }
    let volume_time = match fsd_read {
        Err(e) => return Err(e),
        Ok(t) => t,
    };
    let vt: Option<&str> = match &volume_time {
        Some(t) => Some(t.as_str()),
        None => None,
    };
    let ghost cur3 = *reader;
    let walked = walk_directory_tree(reader, &state, vt, &mut out);
    proof {
        if src.reads_described() {
            lemma_walk_same_source(
                src,
                cur3,
                state,
                spec_opt_text(vt),
                seq![state.root_fe_lba],
                Set::empty(),
            );
        }
    }
    match walked {
        Err(e) => return Err(e),
        Ok(()) => {},
    }
    proof {
        lemma_sound_extension_trans(s0, s1, out@);
        assert forall|i: int| 0 <= i < out@.len() implies spec_anomaly_sound(#[trigger] out@[i]) by {
            assert(s0.len() == 0);
        }
        if src.reads_described() {
            let b = spec_bootstrap_audit(src, state)->0;
            let w = spec_walk(src, state, spec_opt_text(vt), seq![state.root_fe_lba], Set::empty())->0;
            lemma_appended_concat(s0, s1, out@, b, w);
        }
    }
    Ok(out)
}

/// Sources that agree on every read audit the bootstrap's tags alike, when
/// they describe their reads.
proof fn lemma_bootstrap_audit_same_source<S: UdfSource>(a: S, b: S, st: UdfState)
    requires
        same_source(a, b),
        a.reads_described(),
    ensures
        spec_bootstrap_audit(a, st) == spec_bootstrap_audit(b, st),
{
    lemma_block_at_same_source(a, b, 256, st.block_size);
    lemma_block_at_same_source(a, b, st.fsd_lba, st.block_size);
    lemma_vds_tag_audits_same_source(a, b, st, 0);
}

} // verus!

verus! {

/// `a` and `b` are the same variant of anomaly kind.
pub open spec fn spec_same_variant(a: KindModel, b: KindModel) -> bool {
    match (a, b) {
        (KindModel::TagCrcMismatch { .. }, KindModel::TagCrcMismatch { .. }) => true,
        (KindModel::TagChecksumBad { .. }, KindModel::TagChecksumBad { .. }) => true,
        (KindModel::FileAfterVolume { .. }, KindModel::FileAfterVolume { .. }) => true,
        (KindModel::SlackData { .. }, KindModel::SlackData { .. }) => true,
        _ => false,
    }
}

/// Each kind of anomaly has its own code: two kinds share a code exactly
/// when they are the same variant, so a code names its kind.
pub proof fn lemma_code_names_kind(a: KindModel, b: KindModel)
    ensures
        (spec_code(a) == spec_code(b)) == spec_same_variant(a, b),
{
    reveal_strlit("UDF-TAG-CRC-MISMATCH");
    reveal_strlit("UDF-TAG-CHECKSUM-BAD");
    reveal_strlit("UDF-TIME-AFTER-VOLUME");
    reveal_strlit("UDF-SLACK-DATA");
    let ca = spec_code(a);
    let cb = spec_code(b);
    if !spec_same_variant(a, b) {
        assert(ca.len() != cb.len() || ca[9] != cb[9]);
    }
}

/// A recognised descriptor tag is audited clean exactly when its recorded
/// checksum equals the recomputed one and, where its CRC-covered body fits
/// the sector, its recorded CRC equals the recomputed one; a zero or
/// unrecognised tag identifier is never audited.
pub proof fn lemma_tag_audit_clean(s: Seq<u8>, lba: u32)
    requires
        s.len() >= 16,
    ensures
        ({
            let id = spec_le16(s, 0) as u16;
            let body_end = 16 + spec_le16(s, 10);
            (spec_tag_audit(s, lba).0.len() == 0) == (id == 0 || spec_descriptor_label(id) is None
                || (s[4] == spec_tag_checksum(s.take(16)) && (body_end <= s.len() ==> spec_le16(
                s,
                8,
            ) as u16 == spec_crc(s.subrange(16, body_end)))))
        }),
{
}

} // verus!
