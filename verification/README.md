# nbt

Named Binary Tag (NBT) values, as Minecraft stores them, with the library's logic verified
by Verus. The few calls into std and into the `uuid` crate stand behind small wrappers whose
contracts are stated, not proved.

- `src/binary/`: the binary format in either byte order, read and written, with the
  proof that what is written reads back (`roundtrip.rs`, `bedrock.rs`) and that what is
  read is well formed.
- `src/compound.rs`: compounds, whose keys stay in strictly increasing order (the type's
  invariant), and the map laws of `insert`.
- `src/snbt/read/`: SNBT text: tokenizer, parser, and the conversion of the syntax tree
  into values, with the proof that converted values are well formed.
- `src/snbt/write.rs`: SNBT text of a value.
- `src/diagnostics.rs`: labelled spans that explain SNBT errors.
- `src/structures.rs`: names of structure templates in a Bedrock world database.
- `app/`: the `nbt-cli` and `extract-structures` programs: argument handling, files,
  terminal output, and the floating-point arithmetic that the library leaves outside.
