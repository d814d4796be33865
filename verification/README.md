# cpc — Constrained Path Commitment, verified with Verus

CPC commits to a path `v_0, ..., v_L` of elements of `R_q = Z_q[x]/(x^256 + 1)`
(`q = 8380417`) whose steps `d_i = v_i - v_{i-1}` are short, with a 32-byte
Merkle root, and proves knowledge of one short step with a lattice
Sigma-protocol made non-interactive by Fiat-Shamir with aborts.

## Layout

- `src/` — the library, verified by Verus:
  - `ring_ct`, `ring`: branch-free reductions, the NTT and ring arithmetic,
    proved equal to the schoolbook negacyclic product (their timing is not
    verified);
  - `ring_spec`, `ntt_spec`, `ntt_layers`, `ring_laws`: the mathematical model
    (evaluation at the roots of `x^256 + 1`) and the ring laws;
  - `merkle`: the SHA3-256 Merkle tree and path completeness;
  - `params`, `commitment`, `prove`, `verify`: `Setup`, `Commit`, the
    challenge and one `Prove` attempt, `Verify`, and the completeness theorem
    (`verify::lemma_completeness`);
  - `hashing`: the calls into the `sha3` crate, the only trusted items.
- `app/` — plain Rust around the library: the floating-point Gaussian table and
  rejection step with `rand`, the panicking `commit`/`prove`/`verify` entry
  points, and serde forms of the library's types.
- `tests/` — tests of the library, including end-to-end runs.
