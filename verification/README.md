# argparse

A command-line argument parser: variables with initial values, options
(`-x`, `--name`, `--name=value`, combined short flags `-abc`, attached
values `-xvalue`), positional arguments, a catch-all argument, environment
variables that preset variables, required variables, and the usage and help
texts.  The library is verified with Verus.

Layout:

- `src/action.rs`: the values of variables, parse results, actions.
- `src/generic.rs`: `Store`, `StoreConst`, `StoreOption`, `List`, `Collect`
  and the actions they become once bound to a variable.
- `src/parser.rs`: the parser, its well-formedness, the operations that
  build it (`ArgumentParser`, `Ref`).
- `src/context.rs`: parsing a command line, specified phase by phase.
- `src/help.rs`: usage line, help text, error text.
- `src/text.rs`: string helpers, word wrapping.
- `src/laws.rs`: properties of parsing that hold for every parser.
- `tests/`: tests run against the compiled library.
- `app/`: reading the process's command line and environment and printing
  what a parse asks to print.
