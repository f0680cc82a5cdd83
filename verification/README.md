# picweaver

A static image gallery site generator. The library (`src/`) holds what the
generator computes, verified with Verus; `app/` is the command-line program
that reads and writes the project's files.

- `text`: characters of a string, and the code-point order on strings.
- `replace`: `str::replace` semantics, with laws.
- `order`: sorted sequences, their uniqueness, and the stable order by name.
- `placeholders`: an ordered map of placeholders and their replacement in a template.
- `tags`: the whitespace-separated tags of a tags file.
- `index`: entries grouped by tag.
- `pages`: the HTML of galleries, entry pages, tag pages and index pages.
- `command`: the command line.
