# llzk_spec

A verified library for `llzk-spec`, a specification language for circuits compiled to LLZK IR:
contracts, predicates and loop invariants written against the symbols of an LLZK module.

- `src/parser.rs`, `src/parser/lexer.rs`: tokens and recursive-descent parsing into the AST
  (`src/ast.rs`); every node of a parsed tree stands at a span of the source and spells its
  names and literals as the source does.
- `src/ir/llzk.rs`: the metadata of an LLZK module (contract targets, visible names, member
  paths, loops and their generated names), derived from the module's operations in walk order
  and stated exactly as a model (`model_upto`).
- `src/ir/type_text.rs`: member types read from their printed form (`!struct.type<...>`,
  `!pod.type<[...]>`, `!array.type<...>`), struct types followed into the module's
  definitions (`reads_type`).
- `src/verify.rs`: the structural checks of a document against that metadata; what they report
  is stated by spec functions (`document_diags`), with laws for the main rules.
- `src/type_analysis/`: type inference by unification, with the solved constraints stated; a
  checked document is well typed node by node under one substitution (`type_analysis/typed.rs`).
  Unification is most general on the constraints described in `type_analysis/mgu.rs`.
- `src/ir/verif/lower.rs`: lowering of a checked document into a plan of `verif`-dialect
  operations (SSA values numbered as they are defined, regions nested); every operation of the
  plan is well formed on the types of its operands. Each item of the document becomes one
  operation of the module, in order (`items_lowered`): a contract a `verif.contract` whose
  region reads the template parameters and members and then holds its statements' operations
  (`contract_lowered`), a predicate a `function.def` (`predicate_lowered`); each statement's
  operations are stated by `stmt_lowers`. When lowering succeeds is stated in
  `src/ir/verif/outcome.rs`, over the shapes of the scopes. Building the plan with an MLIR
  builder is left to the caller.
- `src/cli.rs`: the checks the command line runs between reading and reporting.
- `app/`: the command-line driver: arguments, files, AST dumps, and reading LLZK IR through
  melior.
