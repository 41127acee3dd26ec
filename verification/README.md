# symblib

Symbolization of sampled profiles against symbol ranges and return pads,
verified with Verus.

- `src/profile.rs` — the parts of a profile (samples, locations, mappings,
  attributes, strings) and of an export request that symbolization reads.
- `src/records.rs` — symbol records (ranges with line tables, return pads),
  line lookup by virtual address, indexing records by address, gathering the
  records of several files, and ordering return pads by address.
- `src/symbolize.rs` — the symbolizer: attribute reading, the process filter,
  location resolution through the mapping table, range and return-pad
  matching; the conditions under which it runs to completion; and the laws
  it obeys.
- `src/text.rs` — character-level string equality and substring search.
- `app/` — decoding of the protobuf messages, reading of profile and request
  files and request directories, printing of the results, and the sample
  program that was profiled. Symbol files are handed to it as records: the
  reader of the symbol-file format is not part of this crate.
