# assistant_message_parser

A streaming parser for assistant messages that mix plain text with XML-like
tool calls such as `<read_file><path>src/lib.rs</path></read_file>`, verified
with Verus.

Chunks are fed with `AssistantMessageParser::process_chunk`; the parser keeps
a list of content blocks (text and tool calls, each marked partial until it is
complete), streams the text that is safe to display with `next_text_chunk`,
and refuses messages larger than 1 MiB.

## Layout

- `src/model.rs`: the abstract parser state (`ParserView`) and the reading of
  one character (`step`) and of a chunk (`feed`), with the invariant that every
  reachable state keeps.
- `src/parser.rs`: the executable parser, whose contracts are stated over the
  model.
- `src/blocks.rs`: content blocks, tool parameters and their XML rendering.
- `src/text.rs`: UTF-8 byte lengths, trimming and the text buffer.
- `src/tools.rs`: the built-in tool table and the sorted tag prefixes.
- `src/laws.rs`: properties that span calls (chunking does not matter,
  earlier blocks are never rewritten, finalizing is idempotent, and so on).
- `app/`: JavaScript bindings for a WebAssembly build.
