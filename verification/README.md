# interpreter_starter_rust

A tree-walking interpreter for the Lox language, written in Verus: the
scanner, parser, resolver and interpreter carry contracts that Verus proves.

Layout:

- `src/scanner.rs`: turns source text into tokens; `spec_scan` states the
  token stream of a text, and the cursor produces exactly it.
- `src/number.rs`, `src/rounding.rs`, `src/bignum.rs`: Lox numbers as
  binary64 bit patterns; decimal literals of up to 800 significant digits
  are read with correct rounding, and `+ - * /` are stated as the exactly
  rounded results. Printing is stated for special values and integers
  below `2^53`.
- `src/parser.rs`: the grammar as spec functions over the token stream
  (`spec_expression`, `spec_declaration`, `spec_program`), each step
  also telling whether an error was reported on the way (an invalid
  assignment target is reported without failing); each parsing function
  is proved to follow them; the syntax-tree printer is stated for
  trees whose number literals are integers below `2^53` (printed with
  `.0`), and open for other number literals.
- `src/resolver.rs`: the scope resolution, stated as `reports`, with the
  law that resolving keeps the scope depth and context.
- `src/environment.rs`: scopes as a store of frames, with laws relating
  `define`, `assign` and lookups (an assignment reaches the nearest
  definition).
- `src/interpreter.rs`: evaluation and execution, stated as the relations
  `evaluates`, `executes` and `program_runs`, indexed by the depth budget
  the interpreter counts down (a spent budget is a stack overflow). They
  cover calls of Lox functions and classes (`call_runs`,
  `function_runs`), closures, method binding, `super` and class
  declarations, and the built-ins `env` (exactly) and `clock` (what holds
  of every reading of the clock). `run` and `evaluate` are stated through
  them, and succeed exactly when the program runs and its reading
  reported no error. Laws over the relations: `and`/`or` short-circuit,
  equality, `!`, a `return` ending statements and loops.
- `src/scoping.rs`: which scopes a step can give new names, and the law
  that a block's declarations stay inside it.
- `src/errors.rs`, `src/text.rs`, `src/utils.rs`: error values and their
  printed text, character helpers, and a stop-at-first-error iterator.
- `app/main.rs`: the command line (`tokenize`, `parse`, `evaluate`, `run`),
  file reading and printing.
- `tests/`: the scenarios, run against the compiled library.
