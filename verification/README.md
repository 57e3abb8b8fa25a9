# brainfuck

An interpreter for an extended Brainfuck dialect (functions in `( )`,
scopes with shared cells in `{ }`, backtick comments), and a small compiler
of the plain subset to Rust source text.

A byte that is not a command is a comment, and a backtick makes the byte
after it one, also where a `(`, `{` or `[` looks for the bracket that
closes it. A `[` on a zero cell jumps past its `]`.

- `src/` is the library, verified with Verus:
  - `error.rs`: the bracket check and the text of an error report;
  - `interp.rs`: the interpreter as a step function (`Machine::step`) over
    an explicit stack of frames and banks of cells, with its invariant and
    laws;
  - `comments.rs`: why a byte that is not a command is a comment: a program
    with one inserted runs step for step like the program without it;
  - `compiler.rs`, `scan.rs`, `lang.rs`: tokenizing, merging of `+`/`-`
    runs, and the Rust templates;
  - `cli.rs`: reading the command line and typed lines;
  - `bridge.rs`: the calls into `strfmt` and std whose contracts are
    trusted; `text.rs`: small text helpers.
- `app/main.rs` does the input and output: files, the `rustyline` prompt,
  printing, and the loop that drives `Machine::step`.
