# ribbon_filter

A static Ribbon filter whose construction and queries are verified with
Verus. Keys known up front become equations over GF(2): each key selects a
band of `w` consecutive rows (`w` up to 128) and carries an `r`-bit
fingerprint.
Construction eliminates the equations into pivot rows and solves them by
back substitution; a query XORs the rows its band selects and compares with
its fingerprint.

Layout:

- `src/params.rs`: parameters and their validation.
- `src/hashing.rs`: the SplitMix64 stream that turns a key's hash into its
  equation, and the attempt seeds.
- `src/gf2.rs`, `src/rows.rs`: rows of words, their XOR combinations, and
  the flat storage they live in.
- `src/system.rs`: elimination and back substitution as spec functions, and
  the proofs that the solution satisfies every key.
- `src/builder.rs`: the construction attempts, retries and growth.
- `src/filter.rs`: the built filter, its bit-packed storage and queries,
  and its stored form.
- `src/laws.rs`: the library's guarantees (no false negatives, failure
  exactly on inconsistent key sets, independence from key order and
  repeats, what a failed build reports, homogeneous construction never
  fails).
- `src/inputs.rs`: deterministic key sets and words read from bytes.
- `app/`: serde support, `Display` for errors, benchmarks and the fuzzing
  harness bodies.
