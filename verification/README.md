# bookmark_shelf

Browser bookmarks as a directory tree: a Netscape bookmark file (the export format of
Edge, Chrome, Firefox and Safari) becomes folders and `.url` shortcut files, the
directory becomes a bookmark file again, and the links can be checked.

- `src/` is the library, written in Verus and verified: the import plan
  (`importer`, over the parsed document of `dom`), the export (`exporter`), shortcut
  files (`shortcut`), the tree view (`tree`), link checking (`checker`), the model of a
  directory and its order (`fs`), settings (`config`), text utilities (`text`), and what
  an import followed by an export keeps (`roundtrip`).
- `app/` performs what the library decides: it reads and writes files, fetches links,
  stores settings as TOML and answers the user interface's commands.
- `tests/` runs the library on concrete values.
