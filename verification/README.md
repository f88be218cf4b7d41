# systole

A project engine for tile-based RPG worlds, written in Verus. A project is a
directory of canonical JSON files (regions, layers, entities, a manifest and
a lock). Every change is an operation: it is planned against a revision,
previewed with the findings of the module validators, and committed through
a two-phase transaction that appends a hash-chained audit entry. Any head
entry can be rolled back by a compensating transaction; `doctor` resolves an
interrupted commit and can absorb a hand edit.

## Layout

- `src/` — the verified library. Each public function states in its
  contract what it returns or changes, over spec functions on plain values
  (`Seq`, `Map`, JSON views); laws that span several functions are public
  proof functions named `law_*`.
  - `json`, `text`, `civil`: canonical JSON text, digits and hex, dates.
  - `ids`, `ir`, `schema`, `reference`: stable ids, project paths, the
    file layout and reference grammar.
  - `revision`, `audit`, `chain`: digests, the project hash and integrity
    check, audit ids and entries, chain verification.
  - `op`, `ops`, `fixture`, `edits`, `paint`, `layers`, `collision`,
    `regions`, `query`: the operations and what they stage.
  - `integrity`, `reachability`, `corridor`, `walk`, `finding`, `select`:
    the validators, their findings and suggested fixes.
  - `capability`, `catalog`, `engine`, `commit`, `prepare`, `tx`,
    `rollback`, `doctor`, `observed`: the capability gate, plan checks,
    commit planning, rollback and crash recovery decisions.
- `tests/` — tests run against the compiled library.
- `app/` — the command-line program: argument parsing, file I/O, serde
  types and the loops that perform what the library decides.

SHA-256 comes from the `sha2` crate, behind one trusted wrapper whose
contract names its result; the clock is read through one trusted wrapper
with no claim on its value.
