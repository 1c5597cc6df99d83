# rust_ps

A competitive-programming toolkit whose core is verified with Verus.

## Layout

- `src/` — the verified library:
  - `algebra` — `gcd` and `lcm` on the integer types of every width, the extended Euclidean algorithm and the
    Chinese remainder theorem, with Bezout's identity and the uniqueness of
    the solution modulo the least common multiple proved.
  - `prime` — trial division, Miller-Rabin with fixed bases for `u8` to
    `u64`, and factorisation by Pollard's rho method.
  - `fermat` — Fermat's little theorem and the soundness of a Miller-Rabin
    round for primes, from which `is_prime` is shown to accept every prime
    for `u8`, `u16` and `u32` (and to be exact for `u8`), and every prime for
    `u64` except those above the trial-division threshold that divide one of
    the bases 9780504 or 1795265022 (407521 and 299210837, which it rejects);
    `factorize` returns the full factorisation wherever `is_prime` accepts
    every prime factor.
  - `rng` — a xorshift64 generator.
  - `fastio` — a whitespace tokenizer over the whole input and the parsers
    that read integers, booleans, strings, tuples (up to 12 values) and
    fixed-length arrays (`Arr<A, N>`) from its tokens.
  - `boj` — comparison of a program's output with the expected output, the
    outcome of a run from what it wrote, and
    extraction of the sample cases from a problem page (HTML parsing through
    `scraper`).
- `tests/` — tests of the library on concrete values.
- `app/` — the parts that do I/O: the sample tester's command line
  (download of the problem page, compilation and running of a solution) and
  the solution template's stdin/stdout plumbing.
