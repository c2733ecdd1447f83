# udf_forensic

A forensic reader and anomaly analyzer for UDF (ECMA-167 / OSTA) volumes,
written in Verus: every function of the library carries a `requires` /
`ensures` contract that Verus proves.

## Layout

- `src/` — the verified library.
  - `bytes.rs`: little-endian fields.
  - `source.rs`: the `UdfSource` trait every reader function reads through
    (positioned reads; implemented for `std::io::Cursor`).
  - `descriptor.rs`: descriptor tags (checksum, CRC-CCITT), labels,
    timestamps.
  - `volume.rs`: block-size detection, the AVDP → VDS → FSD bootstrap chain,
    partition maps, the recognition sequence.
  - `directory.rs`: File Entries, their data, File Identifier Descriptors,
    OSTA CS0 names.
  - `slack.rs`: the last block of a file's data and its final-block slack.
  - `findings.rs`: anomaly kinds, their derived severity / category / code /
    note, and the analyzer (bootstrap tags, directory walk, File Entry
    audits).
  - `vfs.rs`: a mounted volume with a per-File-Entry cache, node by node.
  - `text.rs`: decimal and hexadecimal formatting with exact specifications.
- `tests/` — tests over hand-built images.
- `app/` — ordinary Rust around the library: `Read + Seek` sources, the
  `forensicnomicon` report vocabulary and serde copies, and the
  `forensic-vfs` `FileSystem` mount.

A source may describe its reads (`UdfSource::reads_described`,
`UdfSource::bytes_at`, `UdfSource::ends_before`); the cursors over bytes in
memory do. For such a source every function that reads states exactly what
it returns, as a function of what each read gets: the block-size probes
(an end-of-data probe is skipped, a fault is `ReadError::Fault`, an image
truncated before every anchor is `ReadError::Eof`), the bootstrap chain,
the recognition scan, the tag and File Entry audits, the directory walk
and the whole analysis. For any source they also state what holds of every
outcome (some sectors, read as the function reads them, decode to the
result); the decoding itself is done by verified functions with exact
contracts over the bytes.

The `Read + Seek` adapter in `app/` (`IoSource`, over a file or a device)
describes none of its reads: what a real file or device hands back is not
stated, so for such a source only the clauses that hold of every outcome
apply (for example, that a state returned decodes from sectors read as the
bootstrap reads them, or that a slack count is explained by the bytes
read).
