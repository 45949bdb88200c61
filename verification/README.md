# dotnet_dependency_parser

Dependency graphs of .NET solutions, with their contracts proved by Verus.

- `src/graph`: the graph of projects and NuGet packages and the relations
  between them under target frameworks; merging graphs; a serialisable form
  that reads back to the same graph. Nodes and edges live in a petgraph
  `StableGraph` (`src/graph/stable.rs` holds the trusted contracts of the
  petgraph methods it calls).
- `src/parsing`: building a graph from a `nuget.dgspec.json` document and
  from a `project.assets.json` document, both given as plain values.
- `src/viewer`: what the graph viewer decides: the reader for a file name,
  package search, grouping and filtering of packages, selection events,
  which edges to draw, the file dialog, and text metrics.
- `src/legacy`: the graphs of the first version of the dgspec reader.
- `src/dependency.rs`: the small dependency editor's rules.
- `src/text.rs`: string helpers (trimming, splitting, ordering).
- `app/`: a command-line front end: reads files, decodes JSON with serde,
  prints graphs and Sugiyama layouts, saves and loads graphs.
