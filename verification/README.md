# quine

A personal knowledge graph that compiles files into a queryable SQLite
database: it walks source trees, hashes files, extracts `[[links]]`,
`@region`/`@end` spans with their `//|` prose, and YAML frontmatter, and
stores nodes, edges, regions and attributes.

The library in `src/` is written in Verus and verified:

- `text`, `paths`: the character-level model (lines, trimming, searching,
  UTF-8 offsets) and the lexical path model (`Path::components`, cleaning,
  `join`, `starts_with`).
- `types`: node identity (`NodePath`) and the graph primitives.
- `extract`: the extraction engine, parameterized by an extractor
  definition: links (whole text or comments only), regions with prose, and
  frontmatter; link ordering and deduplication.
- `walk`: the walker as a state machine (it says what it needs to know of
  the file system, the caller answers), glob exclusion, content hashes, and
  the diff against the previous collection.
- `collect`, `db`, `init`: what the collect pipeline decides (what to
  extract, what broke, which writes, in which order, what is reported), the
  rows the store keeps, and the text `quine init` writes.

Each public function states its result in its contract; the laws (proof
functions named `law_*` and `lemma_*` under the same modules) state what
holds across calls, such as that a walk never visits a root twice or that a
diff partitions the walk.

`app/` holds the program around the library: the command line, the file
system, the SQLite store, and the `serde`/`thiserror` derives.
