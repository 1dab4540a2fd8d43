# qlsa_stark_stwo

ML-DSA-65 signature verification, and what STARK proofs of it state.

The library in `src/` is verified with Verus. It holds the arithmetic of the ring
`Z_q[X]/(X^256 + 1)`, the encodings of keys and signatures, the samplers, and the
verification itself; the constraint systems of the circuits and the traces that satisfy
them; the short commitments that accompany proofs; and, for every proof, the statement:
which inputs are refused, what comes out, what is committed to, and what the
Fiat-Shamir transcript is seeded with.

| Part | Modules |
| --- | --- |
| Arithmetic and transforms | `mldsa::{zq, field, transform, ntt, ring, poly, polyvec, rounding}` |
| Keys and signatures | `mldsa::{bits, encoding, hints, sampling, xof, verify}` |
| Constraint systems | `constraint`, `cells`, `columns`, `air`, `mldsa_*_air` |
| Commitments and transcripts | `commitment`, `transcript`, `hexcode`, `digest` |
| Statements | `statement_ring`, `statement_batch`, `statement_full`, `statement_witness`, `statement_chain`, `statement_laws` |
| Batches | `node_hash`, `batch_tree`, `batch_input`, `signature_witness`, `base64`, `shape` |

`app/` is the program around the library: it reads and writes JSON, runs the Stwo prover
and verifier on what the statements set out, and offers the functions to Python. `tests/`
runs the library on concrete values.

Hash functions (SHAKE, BLAKE2s, SHA3), the hexadecimal coder and the ordering of trace
columns are those of outside crates; each is called in one small function whose contract
says what is believed of it.

Some circuits have their statements in the library and no trace: the chains and Merkle roots
of Poseidon2 hashes, the forward transforms, the additions and products of polynomials, the
differences, the corrections by hints, and the range checks. For these `app/` answers a request
for a proof with an error; `prove`, `prove_p2`, `merkle_prove` and `mldsa_batch` always do. The
hash of a batch tree is a value that the caller hands over. The prover of Stwo is offered by
its feature `prover` to nightly compilers only.
