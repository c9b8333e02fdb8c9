# obsidian_tag_replacer

Bulk replacement of a tag across the notes of an Obsidian vault, in the
`tags:` list of the YAML frontmatter (bare, `"quoted"` or `'quoted'` items;
list items under other keys are left alone) and in inline `#tags` of the
note body, leaving fenced code blocks and URL anchors (`/#tag`) alone.

The library under `src/` is written in Verus: every function carries a
contract over a byte-level model of the text, and Verus proves it.

- `text` – occurrences, lines (as `str::lines` splits them), UTF-8 cut points
- `boundary` – which characters end an inline tag, the `/` before one
- `code_blocks` – fenced code blocks as byte ranges
- `frontmatter` – where the frontmatter of a note lies (opened by `---\n`
  or `---\r\n`), and the text between its delimiter lines
- `yaml` – the `tags:` list and its item grammar, counting, preview entries,
  rewriting
- `inline` – inline tags: positions, counting, preview entries, rewriting
- `note` – the per-note search, preview and replacement
- `search` – ordering the search results by path
- `paths` – skipped folders, note extension, relative paths
- `run` – the per-note steps of a replacement run: what a read, backup or
  write outcome means for the result, and what to do next with the note
- `model` – the records handed back to the caller
- `laws` – properties across the steps (search, preview and replacement
  agree; rewritten list items keep their quotes and the frontmatter keeps its
  lines; code blocks and URL anchors are never touched; each inline preview
  entry shows its own line of the text; replacing changes the length by the
  tags' difference once per tag; replacing an inline tag by itself changes no
  body text; replacing inline tags and then replacing back gives the body
  back, with the same count; the rewritten note is the rewritten frontmatter
  followed by the body with its inline tags replaced)

`app/` is the command-line front end: the vault walk, file reading and
writing, backups, settings and JSON output; it reports each file outcome to
the `run` step and does what the step says. `tests/` holds the tests,
including a cross-check of the tag grammar against the `regex` crate.
