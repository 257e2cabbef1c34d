# stl

A verified parser of STL files (triangle meshes), ASCII and binary.

- `src/lexeme.rs`: the whitespace that separates words, and the number words.
- `src/utf8_slice.rs`: character positions of a `&str` and their byte offsets.
- `src/text.rs`: `StrParser`, the ASCII format, each step stated by a spec function.
- `src/binary.rs`: the binary format.
- `src/model.rs`: `Coord`, `Facet`, `Solid`, `ParseError` and their models.
- `src/laws.rs`: properties that span the steps, among them that a solid written
  in either format reads back.
- `src/splitting.rs`: a text as whitespace gaps and words; repeated `take_word`
  lists the words, and a facet reads the same whatever whitespace separates them.
- `src/lib.rs`: `parse_stl`, which picks the format.
- `app/`: a viewer that draws the solid with raylib (through the `rl` crate).

Coordinates are kept as the file holds them: the number word of an ASCII file,
the IEEE-754 bit pattern of a binary file. `app/` turns them into `f32`.
