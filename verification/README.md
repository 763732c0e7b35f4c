# syntxt

The language side of syn.txt, a text-based synthesizer: rational note
lengths, the lexer, parser and evaluator of the song description language,
the melody notation, and the small prefix expressions used for automation.
Everything under `src/` is verified with Verus.

Layout of `src/`:

- `arith`, `rational`, `rational_order`, `rational_laws`: normalized
  rationals over `i64`, with the algebraic laws of their operations.
- `text`: characters, decimal integers and UTF-8 byte offsets.
- `note`, `notation`, `melody`, `sequence`: notes, note and duration
  notation, the melody parser, and musical sequences.
- `lexer`, `line_map`, `ast`, `grammar`, `parser`: the syntax of the
  language; `grammar` states when a tree is well-formed for a text, and
  `Parser::parse` proves that an error-free parse yields such a tree.
- `eval`: the evaluator, which builds objects and evaluates their attributes
  lazily.
- `automation`, `wave`: prefix-notation parameter expressions and stereo
  pairs.

`app/` holds the command-line debugger, which reads a file, parses and
evaluates it and prints the result, and the floating-point evaluation of
automation expressions.
