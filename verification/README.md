# expr_minimizer

A minimizer for expressions over one binary primitive, `f(a, b) = exp(a) - ln(b)`, complex
constants and one variable. The library under `src/` is written and proved in Verus: every public
function has a contract, and the laws that relate several functions are public proof functions
whose names begin with `law_`.

## Layout

| Where | What |
|---|---|
| `src/arena.rs`, `src/expr.rs`, `src/graph.rs` | hash-consed arenas, the expressions they stand for, walks over them |
| `src/parser.rs`, `src/render.rs`, `src/text.rs`, `src/roundtrip.rs` | reading and writing expressions, and that what was written is read back |
| `src/plan.rs`, `src/fingerprint.rs` | evaluation as a list of steps, values at sample points, fingerprints |
| `src/saturate.rs` | terms for equality saturation, tables and folding of constants, costs |
| `src/equiv.rs` | collapsing of subexpressions with the same fingerprint |
| `src/stochastic.rs` | search by mutation and crossover |
| `src/minimize.rs` | all of it put together |
| `src/symbolic.rs`, `src/catalog.rs` | simplification of constants, catalogs of constant subexpressions |
| `src/listing.rs`, `src/readback.rs`, `src/subtree.rs`, `src/curve.rs` | reading catalogs back, plotting their entries |
| `src/float.rs`, `src/complex.rs`, `src/fx.rs`, `src/chance.rs`, `src/parallel.rs` | numbers as bit patterns, and what is taken from other crates |
| `app/` | the command line: files, clocks, drawing, saturation with `egg`, evaluation with `rug` |
| `tests/` | tests of the compiled library |

Binary64 numbers are held as their bit patterns. What the arithmetic of the machine gives for them
is named and not described; the contracts say what is done with it. Evaluation at extended
precision and equality saturation are handed in as functions, and the contracts hold whatever
those functions return.
