# winternitz_core

Winternitz one-time signatures over HASH160 hash chains, verified with Verus,
and the Groth16 statement that a signed message commits to.

- `src/digits.rs`: exponents, base-`b` digits and their values.
- `src/hashes.rs`: HASH160 and SHA-256 (trusted wrappers over `bitcoin` and
  `sha2`), hash chains.
- `src/winternitz.rs`: parameters, keys, signing, verification, and the laws
  that tie them together (a signature verifies against its key; the checksum
  fits its digits and falls when message digits rise).
- `src/encoding.rs`: hex encoding and decoding (`hex`), numerals and
  `to_decimal` (`num-bigint`).
- `src/bn254.rs`: decompression of BN254 points with `num-bigint` (trusted
  wrappers over its arithmetic), square roots in the base field and its
  quadratic extension.
- `src/groth16.rs`: the Groth16 verdict (`ark-groth16`), named over the
  proof's coordinates, the verifying key and the public inputs.
- `src/claim.rs`: the RISC Zero receipt-claim digest and the public inputs of
  the Groth16 proof that a signed message carries.
- `app/main.rs`: a program that signs a message and checks it as the zkVM
  guest does.
