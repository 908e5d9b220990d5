# plato_room

Knowledge rooms of tiles — markdown notes with a front matter of
dependencies, status and confidence — with the logic proved in Verus.

- `src/` is the verified library:
  - `text.rs`: white space, trimming, lines, comma lists, joining, all
    specified over character sequences;
  - `tile.rs`: tile kinds and statuses, the front-matter reader, reading
    and writing a tile as markdown, and the proof that writing then
    reading gives the tile back;
  - `room.rs`: lookups and insertion, failures, frontier, gaps, the next
    suggestion, and the shape of the dependency graph;
  - `knowledge_base.rs`: rooms together, block-diagonal composition of
    their graphs, and the pairing of badly aligned rooms.
- A tile's confidence is generic in the library (`Tile<C>`): the verified
  code only carries it. `app/` instantiates it with `f64` and holds what is
  floating point (Jacobi eigenvalues, conservation ratios, alignment) and
  reading rooms from a directory.
- `tests/` runs the library on concrete values.
