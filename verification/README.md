# pycg_rs

Static call graphs for Python programs, written in Verus.

The library builds a directed graph of *defines* and *uses* relations
between the modules, classes, functions and methods of a set of Python
source files, and answers queries over it (callers, callees, paths,
summaries) or renders it (DOT, TGF, text, JSON, visual graph model).
The executable code carries `requires` / `ensures` contracts that Verus
proves.

## Layout

- `src/` — the verified library.
  - `pyast.rs` — the syntax tree the analysis walks.
  - `intern.rs`, `node.rs`, `scope.rs`, `text.rs`, `paths.rs` — interned
    symbols, graph nodes, value sets and name scopes, character-level
    text helpers, module paths.
  - `analyzer/` — the analysis: the pre-pass that collects scopes
    (`prepass.rs`), the syntax-tree walk (`visit.rs`, `binding.rs`),
    name and attribute resolution (`resolution.rs`), method resolution
    order by C3 linearization (`mro.rs`), postprocessing of the graph
    (`postprocess.rs`), the session state (`session.rs`, `state.rs`)
    and the graph itself (`graph.rs`, `modgraph.rs`).
  - `query.rs`, `query_text.rs`, `search.rs`, `order.rs` — graph queries
    and their text rendering.
  - `visgraph.rs`, `writer.rs`, `json.rs` — the visual graph model and
    the DOT / TGF / text / JSON writers.
- `app/` — the command-line program: argument handling, reading files,
  parsing Python with ruff's parser and converting its tree to the
  library's syntax tree, and printing.
- `tests/` — tests of the library.

## What is proved

Beyond well-formedness of the graph and session state, the contracts
state, among others:

- symbol interning: a lookup finds the first (and only) id of a string;
- scopes: binding adds exactly the given values to the first definition
  of a name; a value set's union appends the new values in order;
  container facts are copied and merged as documented; merging a module's
  scopes keeps every value and an existing `__all__`, and adds the
  incoming values;
- node lookup: an existing key returns its id, the flavor only becomes
  more specific, and nothing but the graph changes;
- uses edges: adding an edge removes exactly the first matching wildcard
  edge;
- analysis: every module and every top-level class or function is a
  defined node; with no files the graph is empty; a loaded name resolves
  to the values and container facts bound to it;
- method resolution order: on an acyclic hierarchy each list is the C3
  linearization of its class, whatever order the classes come in;
- postprocessing, step by step: wildcard edges gain exactly their
  expansions; edges are redirected through a mapping of imported items,
  each sent to a value that its module's scope binds to its name where
  there is one;
  after contraction no uses edge leads to an undefined node with a known
  namespace: each contracted edge is replaced by one to the unknown node
  of the same name, and one to an import or module is recorded as an
  external reference; exactly the inherited uses edges are culled;
  inner scopes are undefined and their parents gain their uses;
- the visual graph has each edge once, and safe labels hold no `.`, `-`
  or `*`;
- queries and renderers: the answers and the rendered text are fixed by
  the graph.
