# seabored (verified reader core)

Byte readers for CBOR decoding, verified with Verus.

- `src/io/read.rs`: the `Read` trait, modelled by the bytes a reader has not
  yet handed out; its exact implementation on byte slices; the blanket
  implementations for `&mut R` and `Box<R>`; `DepthAwareReader` and its
  guard, which bound how deeply nested items may go; and the laws that tie
  these together.
- `src/mt.rs`, `src/ib.rs`: CBOR major types and initial bytes.
- `src/error.rs`: the error type.
- `app/lib.rs`: what needs `std::io` or `Display`: `StdReader` over any
  `std::io::Read + std::io::Seek` source, and a displayable copy of
  `MajorType`.
