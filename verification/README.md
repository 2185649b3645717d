# tzip

A parallel ZIP packer. The library under `src/` is the part that decides and
computes: what goes into an archive and under which name, how it is compressed
and encrypted, and every byte of the archive around it. It is written in Verus
and proved against its contracts. The program under `app/` is ordinary Rust
around it: the command line, threads, files, the screen.

## Layout

- `zipwriter.rs`, `reader.rs`, `bytes.rs`: the archive, byte by byte, and the
  law that a reader finds in it what was written.
- `crypto.rs`, `crc.rs`, `compress.rs`: encryption (WinZip AE-2), the checksum,
  and the codecs.
- `pipeline.rs`, `reorder.rs`: from a file to an entry, from entries to an
  archive; tuning and layout of a run.
- `walker.rs`, `bulk_walker.rs`, `dostime.rs`, `path.rs`, `names.rs`,
  `sort.rs`: the scan, names and patterns, times, order.
- `block_cache.rs`, `raw_reader.rs`, `raw_apfs.rs`: reading a volume from its
  raw device.
- `cli.rs`, `platform.rs`, `progress.rs`, `sevenz.rs`, `tui.rs`: settings and
  what is shown.
- `usb_info.rs`, `contention.rs`, `text.rs`: diagnosis of drives from the output
  of system tools.

Proof functions named `law_*` state what holds across functions. What is taken
on trust of outside crates stands in small functions marked
`#[verifier::external_body]`, each with a comment that says what is claimed.
