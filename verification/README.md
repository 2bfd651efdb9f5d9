# negacyclic_rings

Arithmetic in the negacyclic rings `Z_q[x]/(x^N + 1)`, verified with Verus.

- `src/params.rs` finds negacyclic roots of unity and builds the twiddle
  tables, Shoup companions and Montgomery constants of a ring.
- `src/poly/ntt32.rs`, `src/poly/ntt64.rs`: the 32- and 64-bit number
  theoretic transforms (Shoup butterflies, Montgomery products), pointwise
  products and multiply-accumulate, and residue number system chains with
  Garner reconstruction.
- `src/poly/transform.rs`, `src/poly/evaluation.rs`: the transform as a
  mathematical object and the proofs that it inverts and turns pointwise
  products into negacyclic products.
- `src/poly/arithmetic.rs`: signed `i32` polynomial helpers, a schoolbook
  product, reference transforms, hashing and sampling steps.
- `src/poly/decomposition.rs`: base-`b` digit decomposition and Horner
  recomposition.
- `src/poly/modular.rs`: the integer facts behind the reductions, including
  Fermat's little theorem.
- `app/` drives random generators through the rejection loops and formats
  coefficients; the decisions it takes are the verified functions above.
