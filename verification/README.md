# dougterpreter

An interpreter for the Doug language, written in Verus: the library is
verified, and a small program around it reads a file and runs it.

## Layout

- `src/parsing/`: the lexer (lines of bytes to tokens: whitespace splitting,
  word merging, keywords, literals) and the recursive-descent parser (tokens
  to a tree of nodes), each with a specification of what it returns and of
  the position it leaves the source at.
- `src/values/tape/`: the tape's memory: blocks of lines, the hole search,
  bump allocation, a heap that records what it allocates, tagged words, the
  tape that maps cell indices to words, and the read-only data in which the
  lexer keeps the text literals of the source.
- `src/interpreter.rs`: the interpreter as a state machine. Each call of
  `Interpreter::step` does one step of the program and says what it needs from
  outside (a number read as `f64`, an operator applied, a value printed); its
  contract is the step function `step_spec`.
- `app/`: `main`, which reads the source file, does the floating-point work
  and the printing the interpreter asks for, and the error types with their
  messages.

Numbers are kept as bit patterns in the library; all floating point is in
`app/`.
