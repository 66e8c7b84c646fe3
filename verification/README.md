# typst_cnd

The CND exporter's core, verified with Verus: the document model, the
conversion that builds, orders and cross-links the node tree, the text
and source-snippet handling, `sys.inputs` handling, the font-file guard,
and the editor session's image library.

- `src/` is the verified library. Each module states its operations over
  mathematical models (sequences, sets, maps) and proves them; calls into
  outside crates go through a few trusted wrappers, each documented where
  it stands.
- `tests/` runs the library on concrete values.
- `app/` is the program around it: the command line, reading files, the
  JSON form of the manifest, and the glue that reads typst's compiled
  documents into the plain values the library works on.
