//! UDF (Universal Disk Format, ECMA-167 / OSTA) reader and forensic analyzer.
//!
//! The recognition sequence starts at sector 16; the bootstrap chain runs
//! AVDP (logical sector 256) → Volume Descriptor Sequence → Partition
//! Descriptor + Logical Volume Descriptor → File Set Descriptor → root File
//! Entry → File Identifier Descriptors. Every physical LBA is
//! `partition_start + logical_block_num`.

pub mod bytes;
pub mod source;
pub mod descriptor;
pub mod directory;
pub mod findings;
pub mod slack;
pub mod text;
pub mod volume;
pub mod vfs;

use vstd::prelude::*;

verus! {

} // verus!
