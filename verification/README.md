# postcss

A CSS parser, tree and stringifier with source maps, written in Verus:
the behaviour of each public function is stated in its `requires` and
`ensures` and proved.

## Layout

- `src/text.rs`, `src/list.rs`, `src/vlq.rs`: character and list helpers,
  comma and space splitting, the base64 VLQ codec.
- `src/input.rs`, `src/error.rs`: an input's text, offsets to line and
  column, syntax errors and their source excerpts.
- `src/tokenize.rs`, `src/parser.rs`: the tokenizer and the parser that
  builds a `Tree`.
- `src/node.rs`, `src/tree.rs`: node kinds and raws, and the arena tree
  with its parent and child links.
- `src/edit.rs`, `src/visit.rs`, `src/position.rs`: inserting, moving,
  replacing and sorting nodes; walking a tree while it changes; positions
  and errors of nodes.
- `src/stringifier.rs`: writing a tree back to CSS, with the raws it was
  parsed with or those inferred from its other nodes.
- `src/source_map.rs`, `src/previous_map.rs`, `src/paths.rs`,
  `src/map_generator.rs`, `src/options.rs`: reading and writing source
  maps, the mappings of a stringified tree, and the whole map of a run:
  earlier maps chained, sources embedded, the annotation comment.
- `src/processor.rs`, `src/result.rs`: plugins, the loop that visits dirty
  nodes until the tree settles, and what a run leaves behind (CSS, map,
  warnings and other messages).
- `src/json.rs`: a tree as JSON values and back.
- `tests/`: tests run against the compiled library.
- `app/`: what the library leaves to its host: reading map files, the
  working directory and the environment, and JSON text (with serde) for
  source maps and trees.
