# collada_converter

A converter from COLLADA documents to the model format of a game engine,
written in Verus: the library under `src/` is verified, the command line
program under `app/` reads files and runs it.

Layout of the library:

- `xml`, `collada`: the events of an XML document, read from its bytes with
  `xml-rs` (`parse_document`), and the reads over them (`Parser`, `skip`,
  `waitStartTag`, `waitEndTag`, `checkCollada`).
- `reader`: reading the `<mesh>` of a geometry (`MeshReader`), its
  `<vertices>` and its `<polylist>`s, into vertex data.
- `source_content`: reading the parameters and values of a `<source>`.
- `convert`: the walk through a document to its geometries (`ModelReader`).
- `geometry`: the triangle vertex data (`Geometry::constructTriangles`).
- `lexer`, `semantics`: the vertex semantics text, such as
  `VERTEX(X:float,Y:float,Z:float) NORMAL&(X:float,Y:float,Z:float)`.
- `numbers`, `polylist`, `text`: numbers, `<vcount>`/`<p>` contents, strings.
- `ieee`: conversions between `i32` and single-precision bit patterns.
- `document`, `source`, `layer`, `lod`, `mesh`: the data of a document and of
  the model assembled from it.

The program reads the bytes of the file, hands them to the library, and turns
the text of floating-point source values into bit patterns, which is all the
library leaves to it besides the loop over the steps of the readers.
