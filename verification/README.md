# sentinel

A terminal log highlighter. It reads a byte stream (piped stdin, or the
output of a command it runs inside a PTY), passes every line through
unchanged, and highlights lines that contain one of its patterns – matched
as case-insensitive substrings, with the line's own ANSI escape sequences
ignored – in a colour for the pattern's severity, ringing the terminal bell
for errors and critical lines.

## Layout

- `src/` – the verified library (Verus):
  - `scan` – byte search specifications and the `memchr` wrappers;
  - `parser` – escape-sequence lengths and the text/escape tokenizer;
  - `runtime` – the ring-buffer line assembler, its events, and the
    processor that turns chunks into terminal output;
  - `matcher` – severities, the pattern database and the matchers (one
    pattern via `memchr::memmem`, several via an `aho_corasick` automaton);
  - `renderer` – escape stripping and highlighting;
  - `config` – built-in filters, parsing a TOML configuration text (through
    the `toml` crate) and choosing among the configuration sources;
  - `terminal` – the window size given to the child's terminal.
- `app/` – the program: argument handling, reading the configuration files
  and the environment, the PTY session, and the read/write loop around the
  library.
- `tests/` – tests of the library.

## Patterns

Patterns are plain substrings. Regular-expression patterns (a `regex` build
feature) are not offered: this crate has no feature flags, and the `regex`
crate is not among its dependencies.
