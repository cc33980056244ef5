# compiler

A compiler for a small subset of C (functions without parameters, `int` variables,
arithmetic, comparison and logical expressions, `return`) to x86-64 assembly in AT&T
syntax, written in Verus. The lexer, the recursive-descent parser, the pretty printer and
the code generator are verified against contracts over mathematical models.

## Layout

- `src/lexer.rs`: tokens and the lexer. The token grammar is a regular expression run by
  the `regex` crate; turning its matches into tokens is verified. `Lexer::try_lex` reports
  an integer literal out of range, and `Lexer::lex` takes text that has none.
- `src/parser.rs`: the grammar as spec functions over token sequences, a parser whose every
  function takes tokens that the grammar accepts and returns exactly what the grammar gives,
  and `Parser::check_program`, which tells whether the tokens form a program and otherwise
  gives the grammar's error.
- `src/ast.rs`: the syntax tree and its pretty-printed form.
- `src/generator.rs`: the code of expressions and function bodies as spec functions over
  an instruction type, a generator that emits exactly their text for a program that compiles,
  and `Generator::check_program`, which tells whether it compiles and otherwise gives the
  error (an undeclared or redeclared variable, or a counter out of range).
- `src/semantics.rs`: a model of the part of the machine that the generated code uses, and
  the proof that the code of an expression computes its value and that the code of a
  function body returns the body's value when run with the stack pointer just above the slot
  of its first declaration. The generator does not reset the stack index between functions,
  so this holds in the real frame of a function only where no earlier function of the
  program declares a variable.
- `src/layout.rs`: where the labels and stack slots of generated code lie; no label is
  placed twice in a program.
- `src/text.rs`: decimal text of integers.
- `app/main.rs`: the command line program: reads a `.c` file, compiles it to
  `temp/temp.s`, assembles and links it with `gcc` and runs the result.
