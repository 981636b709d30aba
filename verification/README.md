# regxmllib

A RegXML toolkit (SMPTE ST 2001-1) written in Verus: the library's functions
are verified against their contracts, except for a small set of trusted
wrappers around the outside crates it calls (quick-xml, roxmltree,
encoding_rs, uuid) and a few std string functions, whose contracts are
taken as given.

- `src/types`: ULs, UUIDs, AUIDs and UMIDs, with their URN forms.
- `src/klv`: BER lengths, KLV triplets and local sets over an in-memory reader.
- `src/mxf`: partition packs, primer packs, random index packs, fill items,
  and locating the header and footer partitions.
- `src/dict`: metadictionary definitions, reading and writing metadictionary
  XML, importing SMPTE Types/Elements/Groups registers, Labels registers.
- `src/xml`: parsed XML documents as plain values, and XML output as events.
- `src/regxml`: RegXML fragments of MXF header metadata (Rules 3–5), the
  MXF-to-RegXML pipeline, and XML Schema generation.
- `src/cli`: the decisions of the command-line tools that involve no I/O.
- `app/`: the `regxmllib-rs` command line (argument parsing, files, and the
  text of floating-point values).
- `tests/`: tests of the library on small hand-built inputs.
