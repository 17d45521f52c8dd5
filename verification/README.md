# engine

A compiler and step-by-step interpreter for the LOOP and WHILE languages, verified with
Verus.

A source program is parsed into a module (imports, function declarations and
statements), its imports are resolved against a directory of modules and a library, its
macros (`x := y`, `x := n`, `x := y op z`, `IF ... THEN ... ELSE ... END`) are expanded
and its function calls inlined into core LOOP/WHILE code, which is flattened and handed to
a runtime that runs it one step at a time.

## Layout

- `src/` — the verified library.
  - `uint`, `vars`: natural numbers of any size and variables.
  - `expr`, `hir`, `verbs`, `flags`: the core program, the source program, the compile flags.
  - `parser`: sources to modules.
  - `fs`, `names`, `modctx`, `modmap`, `resolve`: directories, module names and module
    resolution.
  - `context`, `lower`, `lowering`, `func`: macro expansion, function inlining, the
    constant check and flattening.
  - `eval`, `exec`, `runtime`: the step machine.
  - `semantics`: what programs compute, and the laws that tie the step machine, the
    flattening and the assignment macros to it.
  - `builder`: the entry points.
- `tests/` — tests of the library.
- `app/` — the command line that writes the JSON schema of the values the engine exchanges
  with its front end.
