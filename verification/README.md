# jolt_core linear combinations

Linear combinations of R1CS variables (`LC`), their terms (`Term`) and
variables (`Variable`), with contracts and proofs checked by Verus.

- `src/ops.rs`: the types, the `ConstraintInput` trait, and the operations on
  linear combinations: building (ordering terms by variable), reading terms,
  counting variables, duplicate detection, conversion of coefficients to field
  elements and evaluation.
- `src/arith.rs`: `+`, `-`, negation, multiplication and conversions between
  variables, terms and linear combinations.
- `src/field.rs`: the `JoltField` interface that evaluation needs, and the
  Goldilocks prime field as one implementation of it.
- `src/model.rs`: the mathematical model used by the contracts (order of
  variables, ordering of terms, merging of terms, evaluation).
- `src/laws.rs`: properties that span operations, such as the value of a sum
  being the sum of the values.
- `src/algebra.rs`: coefficients per variable under `+` and `-`, and the
  identity, commutativity and associativity of `+`.
- `src/text.rs`: the `LC(t1 + t2 + ...)` text of a linear combination from
  the texts of its terms.
- `app/lib.rs`: text forms of terms and linear combinations.
