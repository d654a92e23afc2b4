# eoti — structural type inference for EO, over XMIR

A type inferencer and pre-run type checker for EO programs, reading the XMIR
that EO's parser writes. It infers a type for every object and refuses what
would otherwise fail at run time, such as dispatching `.plus` on a `string`.

The library is written in Verus: every function carries a contract, and the
contracts are proved. The contracts state refusals that show in a program's
shape — an unbound name in a strict check, a plain dispatch on a maybe-`⊥`
value, an attribute a known record lacks, a part of a request refused at its
first step — and the programs accepted because they only record a demand: a
dispatch, application, recovery or optional chain on unknowns nothing bounds
from below yet, a formation that only demands something of its parameters, an
object with nothing in it, and a locator naming such an object, which
resolves. A request that lands at once on an unknown is stated exactly, with
the one bound it adds. Whether a program that goes through the built-ins,
such as `"hi".plus 1`, is refused rests on the solver's full walk over their
bounds, which the contracts do not state; the tests under `tests/` show that
verdict.

Maps and sets keyed by text (the locator index, the memo of resolutions, the
counts of unmodelled names, the scope, the known formas) are lists of pairs
whose invariants are stated: no locator twice, the last entry for a name
wins. Verus proves nothing of a lookup in a standard map keyed by a `String`,
so a list is what lets those lookups carry a contract.

## Layout

- `src/types.rs` — the arena of types: unknowns with levels and bounds,
  records, functions, maybe-`⊥` values; and what it means for an arena to grow.
- `src/solver.rs` — constraining one type to be usable as another, with
  levels, extrusion and instantiation, every walk bounded.
- `src/xmir.rs` — the XMIR reader: from a document's nodes to the syntax tree,
  with the reading of every element stated exactly; the locator index; and the
  survey behind the dangling-forma lint.
- `src/resolve.rs` — forma resolution through `@loc`: memoized, cycle-guarded,
  best-effort.
- `src/infer.rs` — the walker, and the hand-modelled built-ins.
- `src/diag.rs` — what a report is made of: the tally a build gates on, the
  directory the inputs share, the ranking of unmodelled atoms.
- `app/main.rs` — the command line: reading files, printing, exit codes.
- `tests/` — the accept and reject examples, and tests of every module.

XML itself is parsed by `roxmltree`; the library states what it takes from it
and nothing more.
