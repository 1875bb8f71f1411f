# neomark parser, verified

The front end of a Neomark parser, written and proved in Verus.

- `src/parser/reader.rs` — character normalisation (`normalize`).
- `src/parser/line.rs` — splitting text into `Line`s at LF / CRLF, with
  indentation, content and blankness of a line.
- `src/parser/header.rs` — parsing the `::name key=value ...` header of an
  invocation block, over the characters of the line's content.
- `src/parser/block.rs` — splitting lines into natural and invocation blocks.
- `src/parser/text.rs` — UTF-8 facts used by the other modules, and the one
  trusted item (`push_char`, around `String::push`).

Each public function's `ensures` states its result exactly through spec
functions over character and byte sequences (`normalized`, `lines_of`,
`header_of`, `blocks_from`, ...). The `law_*` proof functions state
properties of the library as a whole: idempotent normalisation, lines that
join back to the text, the same lines for LF and CRLF endings, the escape
round trip of quoted parts and of whole headers, the shape of every block
and the partition of the non-blank lines among the blocks.

The crate is a library named `lib`; the tests under `tests/` use it by that
name.
