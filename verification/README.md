# emmylua_formatter

A formatter for Lua source with EmmyLua documentation comments, written in Verus: the
formatting logic is executable Rust whose behaviour is stated in `requires` / `ensures`
contracts and proved.

Source is parsed with `emmylua_parser`; the library reads the parser's preorder walk into a
syntax tree of its own (`syntax.rs`) and does all of its work on that tree.

## Layout

- `src/parse.rs` — the one call into the parser, and the walk it returns.
- `src/syntax.rs` — the syntax tree: nodes and tokens in preorder, their extents and text;
  the tree built from a walk is well formed and its subtrees nest.
- `src/spacing.rs` — the spacing plan: how many spaces stand left and right of each token,
  and which comment prefixes are rewritten.
- `src/layout.rs` — the layout plan: which statements `-- fmt: off` / `-- fmt: on` leave as
  written, and where comments stand in statements, headers and lists.
- `src/comment.rs`, `src/doc_tags.rs` — normalizing comments and doc comment blocks, with
  column alignment of tag lines.
- `src/align.rs` — column alignment of `=` signs and trailing comments.
- `src/lists.rs` — which argument lists, parameter lists and tables are written one item
  per line.
- `src/strings.rs` — rewriting the quotes of short strings.
- `src/render.rs` — writing the formatted text.
- `src/range_format.rs` — turning the edits of a whole document into those of a range.
- `app/` — the conversions to and from the language server's types.

## What is proved, and what is not

Besides the contract of each function, laws stated as public proof functions: spacing is
symmetric around operators and inside brackets; the last spacing write to a token wins;
`fmt: off` covers the nodes that follow it up to `fmt: on`, also in nested blocks; the range
edits touch only the requested lines and the merging of edits never adds one; requoting a
string twice changes nothing; doc tag columns align.

Of the formatted text, the contracts state: every code token is written, in source order;
each node under `fmt: off` is kept as it stands; between two code tokens that follow each
other in the source stand exactly the spaces that the spacing plan asks for (more only
before an aligned `=`), unless the second token starts a line, which it then does after a
whole number of indentation levels; non-empty output ends with a line break when the options
ask for it. They do not fix where lines are broken, how deep each line is indented, nor which
alignment each group receives: those are tested, not proved.
