# seiren

Entity-relationship diagrams written in a small text language, laid out on
a plane and drawn as SVG.

```text
erd {
    users { id int PK; name text }
    posts { id int PK; created_by int FK }
    posts.created_by o--o users.id
}
```

## Layout

- `src/` is the verified library (Verus):
  - `parser` — the text syntax, read position by position as a parsing
    expression grammar, with its syntax tree and its printed form;
    `parser::read_back` proves that printed definitions parse back, and
    `parser::diagram` turns a syntax tree into a diagram;
  - `erd` — the diagram model and its compilation into a document;
  - `mir` — the document of shapes and edges (on a `petgraph` graph);
  - `algorithm` — articulation points and bridges (the search is pinned
    down as the depth-first forest it builds, and `separation` proves that
    the reported points and bridges are exactly those that separate the
    graph), making a graph biconnected (connected, with no articulation
    point), and cheapest routes (Dijkstra's algorithm);
  - `grid` — a graph whose nodes sit on the cells of a grid;
  - `color`, `geometry`, `layout`, `render`, `text` — colors, directions and
    corner turns, route graph edges, renderer choices, string building.
- `app/` is the command line program: it reads a file or standard input,
  reports parse errors, lays the document out and writes SVG. Positions are
  floating-point numbers, so the layout engine and the SVG drawing live
  there and call the library for every decision that needs none.
- `tests/` runs the library on concrete diagrams, graphs and texts.
