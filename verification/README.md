# dv2_dnt_fix

A patcher for the Polish release of *Divinity II: Developer's Cut*. It replaces the
`DO NOT TRANSLATE` placeholders that stand before a few item names in the zlib-packed
slot of `Data\Win32\Packed\MainDataStreaming.dv2`, recompresses the slot so that it
still fits, and writes it back after making a backup.

## Layout

- `src/` is the library, verified with Verus:
  - `search.rs`: finding every occurrence of a byte pattern; printable context.
  - `patch.rs`: the patch sets and replacing the nearest free placeholder 16 to 80
    bytes before each occurrence of a name.
  - `count.rs`: counting the placeholders that remain before the target names.
  - `codec.rs`: zlib candidates from flate2 and Zopfli, sorted by size, and the
    round-trip check.
  - `select.rs`: trying the patch sets in order and choosing the smallest candidate
    that fits the slot.
  - `pipeline.rs`: checking the slot, preparing the patch, splicing it into the file,
    checking what was written, and the run's messages.
  - `steam.rs`, `files.rs`: Steam manifests and library lists; file and folder names.
  - `gui.rs`: the window's state and what its buttons decide.
  - `log.rs`, `text.rs`, `error.rs`: the stamped run log, numerals, errors.
- `app/` is the program around it: the egui window, file I/O, the registry and
  environment lookups, and opening files.
- `tests/` exercises the library on concrete data.
