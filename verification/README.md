# taskini

Markdown notes with tasks, and a small shared task board.

The library in `src/` is written in Verus; every function in it carries a contract that Verus
proves, except two small trusted wrappers whose contracts are taken as given: `task::new_id`, which
draws a random id with `uuid::Uuid::new_v4`, and `text::push_char`, which calls `String::push`.

- `text` — strings as character sequences: splitting, joining, repeating, leading spaces.
- `element`, `md_parse`, `to_md`, `to_html` — a note as an element tree: reading it from
  markdown (comments threads included), and writing it back as markdown or HTML.
- `task`, `page`, `page_parse` — a note as a page of titles, lines, list items, task references
  and code blocks; reading a note finds its tasks and gives each a fresh id.
- `organization` — the pages and tasks of a directory of notes, and where they are exported.
- `board`, `client` — the state of the task-board server and of its terminal client, and what
  each does with a message or a key.
- `note_laws`, `md_laws` — the proofs that a written page, and a written element tree, read back
  as what was written; that text in the written form writes back as itself; and that lines after
  `# Comments` leave the page tree alone.

`app/` holds what needs files, the network or the terminal: the command-line front end, the
JSON forms of the library's types, the board server and the board client.
