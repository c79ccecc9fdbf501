# wikipedia_article_transform

Extracts clean prose from Wikipedia article HTML: one text segment per paragraph, with
the section heading path it stands under and its inline bold, italic and link structure.
Navigation, infoboxes, references, hatnotes, scripts and styles are skipped. Segments can
be rendered as plain text, Markdown, or a semantic section tree (serialised as JSON).

The library is written in Verus. Its logic is proved against its contracts; the calls
into tree-sitter (building the HTML parser and listing the parsed nodes) and into std
(`str::get`, `String::push`, `str::to_lowercase`) stand behind small trusted wrappers whose
contracts state what those functions are documented to do.

- `src/syntax.rs` — the HTML syntax tree as tree-sitter reports it (a preorder listing
  of nodes) and its decoding into a tree.
- `src/html.rs` — tag names, attributes, element text, class tokens, heading levels and
  link resolution.
- `src/page.rs` — `WikiPage`: the walk over the tree that collects segments and tracks
  open section headings.
- `src/segment.rs` — `TextSegment` and `InlineNode`.
- `src/formatters.rs` — plain text and Markdown output, `ArticleFormat`.
- `src/outline.rs` — the section tree behind JSON output.
- `src/request.rs` — checking the language and title of an article request.
- `src/text.rs` — character-level helpers: whitespace, trimming, searching, joining.
- `app/` — the command-line tool and HTTP API: fetching articles, reading stdin, JSON
  serialisation.
