# my_shell

A small Unix shell. The library under `src/` holds everything the shell
decides, each function with a contract checked by Verus:

- `text` — character classes (`char::is_whitespace`, `char::is_ascii_whitespace`)
  and small string helpers.
- `tokenizer` — splits a line into words and operators, with quoting and
  backslash escapes.
- `parser` — splits tokens at `&&`, `||`, `;` and `|`, reads names, arguments
  and redirections, expands `~`, and classifies commands.
- `builtins` — what `cd`, `pwd` and `export` ask for.
- `executor` — where each command of a pipeline reads from and writes to.
- `completer` — the word under the cursor, matching candidates, and their order.

`app/` is the interactive program: line editing, signals, the environment,
files and processes.
