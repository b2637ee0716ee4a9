# redosaur_core

A ReDoS analysis engine: it parses a regular expression, runs an
instrumented backtracking matcher that counts every step, flags repeats
whose bodies can match the same input in more than one way, generates a
worst-case input, classifies the pattern as Safe, Suspicious or
Catastrophic from the measured step growth, and suggests a rewrite that
removes the ambiguity.

The library's functions are verified with Verus against a mathematical
model of regular expressions (`src/model.rs`). The one trusted item is the
wrapper around std's `String::push` in `src/parser.rs`.

## Layout

- `src/model.rs` — the model: a regex as a tree of `Seq`s, and what it means
  for a tree to match a span of the input. A repetition consumes input,
  except that an empty first repetition of a repeat that needs one stands
  for all the required ones (so `(a?){2}` does not match `a`; see the
  module doc of `src/engine.rs` for why).
- `src/grammar.rs` — the grammar, its length and depth caps, and the
  renderer, as spec functions.
- `src/parser.rs` — `parse` and `to_pattern`, proved equal to the grammar and
  the renderer.
- `src/roundtrip.rs`, `src/shape.rs` — parsing reads back what rendering
  wrote, for every tree in the grammar's shape whose text is within the
  caps, and every parsed tree has that shape.
- `src/engine.rs` — the step-counting matcher, proved equal to a step-level
  model of backtracking; `src/engine_laws.rs` proves that below its ceiling
  it answers exactly whether the pattern matches the whole input, that a
  verdict stands under any higher ceiling, and that a run cut off at a
  ceiling needs at least that many steps under a higher one.
- `src/generator.rs` — worst-case inputs, and the proof that one ending in a
  near-miss character never matches.
- `src/analyzer.rs` — the structural pre-filter and the growth-based verdict.
- `src/rewrite.rs`, `src/rewrite_laws.rs` — the two rewrite rules (a
  rewrite is suggested only if it does not classify Catastrophic), and the
  proofs that a rewrite matches exactly the strings the pattern matches and
  reads back through the parser as the rewritten tree.
- `app/lib.rs` — the `wasm-bindgen` bridge for the browser front end.
