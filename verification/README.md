# sal

A verified library for the SAL language of transition systems and for model checking.

- Front end: `lexer`, `parser`, `printer` (over `token`, `ast`, `span`, `dup`; how printed
  operators and expressions are read back stands in `spelling` and `reread`), semantic types (`types`),
  symbol tables (`env`, `prelude`), name resolution and type checking (`wfc`, by the rules of
  `judgement`), contexts and their instances (`library`).
- Flat systems: `num`, `value`, `fexpr`, `formula`, `flat`, `temporal`, with the meaning of
  expressions, runs and temporal formulas.
- From modules to flat systems: finite types and their values (`ctype`), symbolic values (`sval`), the
  operators and functions on them (`operators`, `builtins`), evaluation (`eval`, `calc`, by
  the rules of `meaning`), and flattening (`flatten`, by the rules of `elaboration`, over `skel`,
  `compose` and `blocks`). What follows from the rules of flattening stands in `laws`.
- Engines: decision diagrams (`bdd`, `tables`) and the symbolic engine (`symbolic`, `reach`, `fair`,
  `ltl`, `ordering` and `arrange`), the explicit engine (`explicit`, `partial`), and bounded model checking and
  induction over clauses (`cnf`, `unroll`, `bounded`, `bmc`, `sat`), or over integers and reals with a
  solver that is run outside (`smt`, `smtlib`, `reply`).
- Which check a property asks for (`property`), and test generation (`atg`).
- `args`, `goals` and `show` read options and goals files and write paths as text.
- `app/` holds the programs: `sal-wfc`, `sal-smc`, `sal-bmc`, `sal-inf-bmc`, `sal-deadlock-checker`,
  `sal-path-finder` and `sal-atg`. They read files, call the library and print.

The rules of `judgement`, `meaning` and `elaboration` refer to each other through a record for syntax of
smaller nesting depth; the lemmas `judge_rules`, `evaluation_rules` and `build_rules` unfold it.

From a text to an engine the path is: `SalEnv::parse_file`, `SalEnv::check_instance`,
`Flattener::flatten_module` or `Flattener::flatten_assertion`, and then `Explicit`, `Symbolic` or
`bmc_search` on the flat module. `FlatModule::is_plain` tells whether the first two take it.

The contracts say what the results are and when there is none. Some things they leave open: the origins
of commands (for printing only), in what order the explicit engine lists states, and how far below its
former size reordering takes a diagram.
Arbitrary-precision numbers, the hash of the tables and the clause solver come from other crates; what
is relied on of them stands in `num`, `tables` and `sat`.
