# superinstance-hdc-core

Hyperdimensional computing core for bit-level agent cognition, verified with
Verus: 64-bit MurmurHash3 fingerprints, a Bloom filter pre-check, 1024-bit
hypervectors, and SRAM images of 64-byte lesson records judged by XOR +
popcount.

- `src/`: the verified library (`bits`, `fingerprint`, `bloom`, `hdc`, `simd`,
  `simd_avx512`, `auto`, `sram`, `judge`, `lessons`). Contracts are stated over
  spec functions of byte and word sequences; the laws (round trips, no false
  negatives, XOR and rotation identities, ...) are public proof functions.
- `app/`: the `bake`, `judge` and `monitor` tools, file I/O, CPU feature
  detection, and the floating-point helpers (Bloom filter sizing, similarity,
  density, confidence).
- `tests/`: executable tests of the library.
