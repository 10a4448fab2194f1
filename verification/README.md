# advanced_calculator

A command-line calculator whose core is verified with Verus.

- `src/` is the verified library:
  - `text.rs`: whitespace and digit classes, `trim`, small string helpers;
  - `calculator.rs`: the operators and their precedence;
  - `tokenizer.rs`: splitting an expression into tokens, with warnings;
  - `postfix.rs`: the infix-to-postfix conversion;
  - `evaluation.rs`: the decisions of a postfix evaluation;
  - `expression.rs`: expression trees, the postfix and expression evaluators that take
    the caller's arithmetic, and the laws that tie tokenizing, conversion
    and evaluation to what an expression means;
  - `history.rs`: the calculation history and its display;
  - `session.rs`: the decisions of the interactive session.
- `app/` is the program: terminal I/O, the JSON data file, and the
  floating-point arithmetic.
- `tests/` runs the library on concrete inputs.
