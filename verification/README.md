# kasuari

A constraint solver using the Cassowary algorithm, written in Rust and proved with Verus.

Constraints are linear equations and inequalities with strengths. The solver keeps values for their
variables; edit variables can be moved by suggesting values for them. Its choices depend on what it
was told and never on the order in which a table is walked: the same calls give the same values.

## Layout

`src/` is the verified library.

- `number` holds doubles as their bits, with arithmetic that is proved to round as IEEE 754 asks.
- `index` and `table` are maps on top of a hash index; `worklist` hands out the smallest symbol.
- `symbol`, `row`, `choice`, `simplex` and `tableau` are the tableau: `simplex` says what each step
  of the simplex method makes of a tableau, and `tableau` carries it out. `count` counts its steps,
  of which there may be any number.
- `expression`, `constraint` and `error` are what callers work with.
- `system` says what each operation makes of a system of constraints; `solver` and `edits` carry it
  out.
- `order`, `fingerprint`, `catalog` and `semantic` tell which constraints say the same.
- `batch` and `reconcile` apply many changes at once.
- `soundness` proves what every operation keeps.
- `solver_laws`, `fingerprint_laws`, `batch_laws` and `reconcile_laws` state what holds of several
  calls together; `history` states what holds of any calls one after the other, `fetch_laws` what
  a fetch lists after them, and `identity_laws` that no value depends on the identities of
  constraints.

`tests/` runs the library. `app/` is ordinary Rust around it: numbering of variables and
constraints, conversion from and to `f64`, and errors with messages.
