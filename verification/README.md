# dumbo_rs

`dumbo` condenses a code base into one Markdown file: a tree of the project,
then every gathered source file in a fenced code block (`dumbo run`), or the
changes since a git commit with the current state of the changed files
(`dumbo diff`).

- `src/` is the library, verified with Verus: language table and
  configuration (`lang`, `config`), file names and extensions (`path`),
  the project tree (`tree`), the text of the output (`run`, `diff`), the
  reading of `Dumbo.toml` (`dumbo_toml`), the command line (`cli`), shared
  string work (`text`) and the properties proved of them (`laws`).
- `app/` is the command-line program: it reads directories, files and git
  output, writes the Markdown file and uses the clipboard.
- `tests/` runs the library on concrete inputs.
