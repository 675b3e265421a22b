# liwe

The core of a markdown knowledge base, in Verus: markdown documents are read into blocks,
blocks are turned into a graph of sections, lists, quotes, code and references, and an index
records which nodes refer to which documents. The contracts state what each step gives:
the blocks and hashtags read from the events of a parse, and, for the graph, the node each
block makes, the title and lines of each section, and how sections nest by header level
and list items become sections. The deeper contents of a section are stated through the
same contracts one level at a time.

- `src/model/`: documents (blocks and inlines), graph nodes, trees of nodes, and the
  operations that build and copy documents.
- `src/markdown/`: reading a document from the events of a markdown parse (line starts,
  positions, hashtags, the reader's state machine).
- `src/graph/`: the graph, its builder, the builder of sections and the reference index.
- `app/`: the markdown parse itself, with pulldown-cmark, and the conversion of its events
  into the events that the reader takes.
- `tests/`: tests that run the library on parsed markdown and on blocks built by hand.
