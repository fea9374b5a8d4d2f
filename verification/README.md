# sqlrunner

A handy tool for running SQL queries: it lists the `.sql` files of a directory
with the psql variables (`:'name'`) each one uses, and runs one of them with
psql after printing the command line it uses.

The logic is a library verified with Verus, under `src/`:

- `scan`: the scanner finding the `:'name'` references that psql
  interpolates, skipping comments, string literals, dollar-quoted strings and
  quoted identifiers; the names come out sorted and deduplicated.
- `order`: the byte-wise order of names and sorted insertion.
- `table`, `listing`: which files are listed, their description (a first-line
  `--` comment) and the FILE / VARIABLES / DESCRIPTION table.
- `command`: the `NAME=VALUE` assignments, their check against the variables
  a file uses, the variables left to ask for in interactive mode, the psql
  argument vector (always with `--quiet`) and the exit code.
- `complete`: what a shell completion asks for, and its candidates.
- `shell`: quoting for a POSIX shell and the rendering of the command line,
  with the proof that a shell reads the rendering back as the command.
- `text`: string building.

`app/` holds the program around it: the command line (clap), the directory
and file reading, the prompts, the completion scripts, the terminal check and
the psql process.
