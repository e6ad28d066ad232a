# globstar

A glob library whose matching is proved correct with Verus.

- `src/` is the library. `engine::lang` defines what a program of match
  instructions matches; the parser, the lowering of syntax trees to programs,
  and every engine are proved against their definitions.
- `app/` is the command line around it: a walk over the file system, a loop that
  answers requests of the line protocol in `wire`, and tables of how much memory
  compiled patterns take next to `globset` and `wax`.
- `tests/` runs the library.

The dialect: `*`, `?`, `**`, `[a-z]`, `[!a-z]`, `{a,b}`, `\` escapes, and leading
`!` for negation. Patterns are text; paths are bytes.
