# rfvp_patch

The string patch table of the Sakura Moyu Chinese patch (`patch.dat`), and the command line of the
program that uses it.

- `src/` is the verified library. `StringPatchTable::from_bytes` reads a file; `format.rs` says what
  a file is, `laws.rs` and `args_laws.rs` state what holds of files and of command lines as a whole.
- The library relies on `flate2` for zlib (`zlib.rs`) and on `encoding_rs` for GBK (`gbk.rs`). What
  it takes from them without proof stands in the doc comments there.
- `app/` is the program around it: arguments, files, output.
- `tests/` runs the library on concrete files and command lines.
