# als-core

The core of a bounded relational model finder: relation bounds over a finite
atom universe, a three-sorted relational IR, the concrete relational algebra
an instance is evaluated with, and the boolean-circuit (CNF) encoding of every
relational and two's-complement integer operator, with symmetry breaking.

The library under `src/` is written in Verus. Each encoding function states
what its result denotes under every assignment that satisfies the circuit it
built, and that meaning is the same set-level specification the concrete
evaluator is proved against.

Layout:

- `src/bounds.rs`, `src/tuple_map.rs`, `src/lex.rs`: tuples, tuple sets and
  tuple-keyed maps in lexicographic order; relation bounds.
- `src/relspec.rs`, `src/eval.rs`, `src/paths.rs`: set-level meaning of the
  relational operators and their concrete implementation.
- `src/evaluator.rs`: the direct evaluator. A formula, relation expression
  or integer expression of the IR is evaluated over one concrete instance,
  grounding quantifiers, comprehensions and `sum` over their bounds'
  tuples; `holds`, `denote` and `int_value` state the result, and the walk
  is proved to compute them.
- `src/ir.rs`, `src/sharing.rs`, `src/occurs.rs`, `src/encode/freevars.rs`: the IR and analyses
  over it.
- `src/circuit.rs`, `src/matrix.rs`, `src/encode/`: gates, boolean matrices,
  the relational, integer and symmetry-breaking encodings, and the walk
  (`src/encode/walk.rs`) that encodes a relation expression or formula of
  the IR, grounding quantifiers over their bound's candidate tuples.
- `src/hierarchy.rs`: the atom bounds (lower and upper) of each signature
  over the signature hierarchy.
- `src/lower.rs`, `src/bounds_builder.rs`, `src/numeral.rs`, `src/instrument.rs`,
  `src/error.rs`: helpers of lowering and bounds construction, decimal
  numerals, measurement records, errors.
- `tests/`: executable tests of the library.
- `app/`: the error type with its `std::error::Error` implementation.

What the library does not hold:

- Lowering from the parsed syntax tree, bounds computation over a resolved
  world, and solving rest on the front end, the type resolver and the SAT
  back end, which are separate crates; the library takes their results as
  plain values (`SigInfo`, `Bounds`, `Instance`).
- The forbid-mode overflow guard's classification of which comparisons an
  overflow may exclude is not part of the library; the evaluator computes
  values with overflow allowed, and each integer value carries its overflow
  flag.
- In the walk that encodes a formula into a circuit (`src/encode/walk.rs`),
  shifts (which the evaluator does not compute either) and negation at bit
  width 1 (where the two overflow flags part) are refused with a typed
  error. Every other relation expression, formula and integer expression is
  encoded, and each encoding is proved to agree with the evaluator under
  every satisfying assignment.

Collections: tuple sets, bounds and tuple-keyed maps are sorted vectors kept
strictly increasing, not `BTreeSet`/`BTreeMap`. vstd's specifications of
those collections hold only for keys whose `Ord` is specified (`obeys_cmp`),
and a key type of this library (`Tuple`, `RelId`) can only derive `Ord`,
which Verus does not read; the iteration order (lexicographic) is also part
of what the contracts promise.
